//! The arguments of the decoder call:
//! `}('<payload>', <radix or []>, <count>, '<symbols>'.split('|')`,
//! in a full form that goes on with `, <int>, <anything>))` and a simple form
//! that stops there.
//!
//! The matching is leftmost, then greedy: the payload and the symbols extend
//! as far right on their line as a match allows.
use vstd::prelude::*;

use crate::text::{
    lemma_first_index_holds, lemma_last_index_holds, chars_of, digits_end, digits_end_exec, find_from, find_from_exec, first_index, last_index,
    line_end, line_end_exec, occurs_at, occurs_at_exec, skip_spaces, skip_spaces_exec,
    slice_chars,
};
use crate::unbaser::{unbase_spec, Unbaser};

verus! {

/// End of a radix argument starting at `i`: `[]`, or a run of digits.
pub open spec fn radix_end(s: Seq<char>, i: int) -> Option<int> {
    if occurs_at(s, i, "[]"@) {
        Some(i + 2)
    } else if digits_end(s, i) > i {
        Some(digits_end(s, i))
    } else {
        None
    }
}

/// What follows a payload ending at `e1`: `', *`, the radix, `, *`, the count,
/// `, *'`. Gives the spans of radix and count and where the symbols begin.
pub open spec fn middle(s: Seq<char>, e1: int) -> Option<(int, int, int, int, int)> {
    if !occurs_at(s, e1, "',"@) {
        None
    } else {
        let a = skip_spaces(s, e1 + 2);
        match radix_end(s, a) {
            None => None,
            Some(b) => if !(b < s.len() && s[b] == ',') {
                None
            } else {
                let c = skip_spaces(s, b + 1);
                let d = digits_end(s, c);
                if !(d > c && d < s.len() && s[d] == ',') {
                    None
                } else {
                    let g = skip_spaces(s, d + 1);
                    if !(g < s.len() && s[g] == '\'') {
                        None
                    } else {
                        Some((a, b, c, d, g + 1))
                    }
                }
            },
        }
    }
}

/// The two trailing arguments of the full form from `t` on:
/// `, *<digits>, *<anything on the line>))`.
pub open spec fn extra_tail(s: Seq<char>, t: int) -> bool {
    &&& 0 <= t < s.len()
    &&& s[t] == ','
    &&& {
        let u = skip_spaces(s, t + 1);
        let v = digits_end(s, u);
        &&& v > u
        &&& v < s.len()
        &&& s[v] == ','
        &&& {
            let w = skip_spaces(s, v + 1);
            match find_from(s, "))"@, w) {
                Some(j) => j < line_end(s, w),
                None => false,
            }
        }
    }
}

/// Can the symbols end at `e4`?
pub open spec fn tail_ok(s: Seq<char>, e4: int, full: bool) -> bool {
    occurs_at(s, e4, "'.split('|')"@) && (!full || extra_tail(s, e4 + 12))
}

pub open spec fn tail_pred(s: Seq<char>, full: bool) -> spec_fn(int) -> bool {
    |e: int| tail_ok(s, e, full)
}

/// The greedy end of symbols that begin at `g`.
pub open spec fn table_end(s: Seq<char>, g: int, full: bool) -> Option<int> {
    last_index(g, line_end(s, g), tail_pred(s, full))
}

pub open spec fn payload_end_ok(s: Seq<char>, e1: int, full: bool) -> bool {
    match middle(s, e1) {
        Some(m) => table_end(s, m.4, full) is Some,
        None => false,
    }
}

pub open spec fn payload_pred(s: Seq<char>, full: bool) -> spec_fn(int) -> bool {
    |e: int| payload_end_ok(s, e, full)
}

/// The greedy end of the payload of a call that starts at `p`.
pub open spec fn call_at(s: Seq<char>, p: int, full: bool) -> Option<int> {
    if occurs_at(s, p, "}('"@) {
        last_index(p + 3, line_end(s, p + 3), payload_pred(s, full))
    } else {
        None
    }
}

pub open spec fn call_pred(s: Seq<char>, full: bool) -> spec_fn(int) -> bool {
    |p: int| call_at(s, p, full) is Some
}

/// Leftmost start of a call of the given form.
pub open spec fn find_call(s: Seq<char>, full: bool) -> Option<int> {
    first_index(0, s.len() as int + 1, call_pred(s, full))
}

/// The pieces of `s` between pipes, empty ones kept.
pub open spec fn split_pipes(s: Seq<char>) -> Seq<Seq<char>>
    decreases s.len(),
{
    if s.len() == 0 {
        seq![Seq::<char>::empty()]
    } else {
        let p = split_pipes(s.drop_last());
        if s.last() == '|' {
            p.push(Seq::<char>::empty())
        } else {
            p.update(p.len() - 1, p.last().push(s.last()))
        }
    }
}

/// Payload, symbol table, radix and declared count of the call in `s`, or the
/// message of what is wrong with it.
pub open spec fn call_args_spec(s: Seq<char>) -> Result<
    (Seq<char>, Seq<Seq<char>>, nat, nat),
    Seq<char>,
> {
    let full = find_call(s, true) is Some;
    let found = if full {
        find_call(s, true)
    } else {
        find_call(s, false)
    };
    match found {
        None => Err("Could not make sense of p.a.c.k.e.r data (unexpected code structure)"@),
        Some(p) => {
            let e1 = call_at(s, p, full)->0;
            let m = middle(s, e1)->0;
            let e4 = table_end(s, m.4, full)->0;
            let radix_text = s.subrange(m.0, m.1);
            let radix = if radix_text == "[]"@ {
                Ok(62nat)
            } else {
                unbase_spec(10, radix_text)
            };
            let count = unbase_spec(10, s.subrange(m.2, m.3));
            if radix is Err {
                Err("Invalid radix"@)
            } else if count is Err {
                Err("Invalid count"@)
            } else {
                Ok((s.subrange(p + 3, e1), split_pipes(s.subrange(m.4, e4)), radix->Ok_0, count->Ok_0))
            }
        },
    }
}

fn radix_end_exec(s: &Vec<char>, i: usize) -> (r: Option<usize>)
    requires
        i <= s@.len(),
    ensures
        r matches Some(b) ==> radix_end(s@, i as int) == Some(b as int) && b <= s@.len(),
        r is None ==> radix_end(s@, i as int) is None,
{
    let brackets = chars_of("[]");
    proof {
        reveal_strlit("[]");
    }
    if occurs_at_exec(s, i, &brackets) {
        assert(i + 2 <= s@.len() <= usize::MAX);
        return Some(i + 2);
    }
    let d = digits_end_exec(s, i);
    if d > i {
        Some(d)
    } else {
        None
    }
}

fn middle_exec(s: &Vec<char>, e1: usize) -> (r: Option<(usize, usize, usize, usize, usize)>)
    requires
        e1 <= s@.len(),
    ensures
        r matches Some(m) ==> middle(s@, e1 as int) == Some(
            (m.0 as int, m.1 as int, m.2 as int, m.3 as int, m.4 as int),
        ) && m.0 <= m.1 <= m.2 <= m.3 <= m.4 <= s@.len(),
        r is None ==> middle(s@, e1 as int) is None,
{
    let quote_comma = chars_of("',");
    proof {
        reveal_strlit("',");
    }
    if !occurs_at_exec(s, e1, &quote_comma) {
        return None;
    }
    assert(e1 + 2 <= s@.len() <= usize::MAX);
    let a = skip_spaces_exec(s, e1 + 2);
    let b = match radix_end_exec(s, a) {
        Some(b) => b,
        None => {
            return None;
        },
    };
    if !(b < s.len() && s[b] == ',') {
        return None;
    }
    let c = skip_spaces_exec(s, b + 1);
    let d = digits_end_exec(s, c);
    if !(d > c && d < s.len() && s[d] == ',') {
        return None;
    }
    let g = skip_spaces_exec(s, d + 1);
    if !(g < s.len() && s[g] == '\'') {
        return None;
    }
    assert(a <= b) by {
        reveal_strlit("[]");
    }
    Some((a, b, c, d, g + 1))
}

fn extra_tail_exec(s: &Vec<char>, t: usize) -> (r: bool)
    ensures
        r == extra_tail(s@, t as int),
{
    if !(t < s.len() && s[t] == ',') {
        return false;
    }
    let u = skip_spaces_exec(s, t + 1);
    let v = digits_end_exec(s, u);
    if !(v > u && v < s.len() && s[v] == ',') {
        return false;
    }
    let w = skip_spaces_exec(s, v + 1);
    let close = chars_of("))");
    match find_from_exec(s, &close, w) {
        Some(j) => j < line_end_exec(s, w),
        None => false,
    }
}

fn tail_ok_exec(s: &Vec<char>, e4: usize, full: bool) -> (r: bool)
    requires
        e4 <= s@.len(),
    ensures
        r == tail_ok(s@, e4 as int, full),
{
    let split = chars_of("'.split('|')");
    proof {
        reveal_strlit("'.split('|')");
    }
    if !occurs_at_exec(s, e4, &split) {
        return false;
    }
    assert(e4 + 12 <= s@.len() <= usize::MAX);
    !full || extra_tail_exec(s, e4 + 12)
}

fn table_end_exec(s: &Vec<char>, g: usize, full: bool) -> (r: Option<usize>)
    requires
        g <= s@.len(),
    ensures
        r matches Some(e) ==> table_end(s@, g as int, full) == Some(e as int) && g <= e <= s@.len(),
        r is None ==> table_end(s@, g as int, full) is None,
{
    let ghost f = tail_pred(s@, full);
    let hi = line_end_exec(s, g);
    let mut e: usize = hi;
    loop
        invariant
            g <= e <= hi <= s@.len(),
            hi == line_end(s@, g as int),
            f == tail_pred(s@, full),
            last_index(g as int, hi as int, f) == last_index(g as int, e as int, f),
        decreases e,
    {
        if tail_ok_exec(s, e, full) {
            assert(f(e as int));
            assert(table_end(s@, g as int, full) == last_index(g as int, hi as int, f));
            return Some(e);
        }
        if e == g {
            assert(last_index(g as int, e - 1, f) is None);
            assert(table_end(s@, g as int, full) == last_index(g as int, hi as int, f));
            return None;
        }
        e = e - 1;
    }
}

fn payload_end_ok_exec(s: &Vec<char>, e1: usize, full: bool) -> (r: bool)
    requires
        e1 <= s@.len(),
    ensures
        r == payload_end_ok(s@, e1 as int, full),
{
    match middle_exec(s, e1) {
        Some(m) => table_end_exec(s, m.4, full).is_some(),
        None => false,
    }
}

fn call_at_exec(s: &Vec<char>, p: usize, full: bool) -> (r: Option<usize>)
    requires
        p <= s@.len(),
    ensures
        r matches Some(e) ==> call_at(s@, p as int, full) == Some(e as int) && p + 3 <= e <= s@.len(),
        r is None ==> call_at(s@, p as int, full) is None,
{
    let opener = chars_of("}('");
    proof {
        reveal_strlit("}('");
    }
    if !occurs_at_exec(s, p, &opener) {
        return None;
    }
    assert(p + 3 <= s@.len() <= usize::MAX);
    let lo = p + 3;
    let ghost f = payload_pred(s@, full);
    let hi = line_end_exec(s, lo);
    let mut e: usize = hi;
    loop
        invariant
            lo <= e <= hi <= s@.len(),
            hi == line_end(s@, lo as int),
            lo == p + 3,
            occurs_at(s@, p as int, "}('"@),
            f == payload_pred(s@, full),
            last_index(lo as int, hi as int, f) == last_index(lo as int, e as int, f),
        decreases e,
    {
        if payload_end_ok_exec(s, e, full) {
            assert(f(e as int));
            assert(call_at(s@, p as int, full) == last_index(lo as int, hi as int, f));
            return Some(e);
        }
        if e == lo {
            assert(last_index(lo as int, e - 1, f) is None);
            assert(call_at(s@, p as int, full) == last_index(lo as int, hi as int, f));
            return None;
        }
        e = e - 1;
    }
}

fn find_call_exec(s: &Vec<char>, full: bool) -> (r: Option<(usize, usize)>)
    ensures
        r matches Some((p, e)) ==> find_call(s@, full) == Some(p as int) && call_at(s@, p as int, full)
            == Some(e as int) && p + 3 <= e <= s@.len(),
        r is None ==> find_call(s@, full) is None,
{
    let ghost f = call_pred(s@, full);
    let mut p: usize = 0;
    loop
        invariant
            p <= s@.len(),
            f == call_pred(s@, full),
            first_index(0, s@.len() as int + 1, f) == first_index(p as int, s@.len() as int + 1, f),
        decreases s@.len() - p,
    {
        if let Some(e) = call_at_exec(s, p, full) {
            return Some((p, e));
        }
        if p == s.len() {
            assert(first_index(p + 1, s@.len() as int + 1, f) is None);
            return None;
        }
        p = p + 1;
    }
}

proof fn lemma_split_pipes_nonempty(s: Seq<char>)
    ensures
        split_pipes(s).len() >= 1,
    decreases s.len(),
{
    if s.len() > 0 {
        lemma_split_pipes_nonempty(s.drop_last());
    }
}

/// The pieces of `s` between pipes.
fn split_pipes_exec(s: &Vec<char>) -> (r: Vec<Vec<char>>)
    ensures
        r.deep_view() == split_pipes(s@),
{
    let mut out: Vec<Vec<char>> = Vec::new();
    let mut cur: Vec<char> = Vec::new();
    let mut i: usize = 0;
    assert(s@.subrange(0, 0) =~= Seq::<char>::empty());
    assert(out.deep_view().push(cur@) =~~= split_pipes(s@.subrange(0, 0)));
    while i < s.len()
        invariant
            i <= s@.len(),
            out.deep_view().push(cur@) == split_pipes(s@.subrange(0, i as int)),
        decreases s@.len() - i,
    {
        let ghost before = s@.subrange(0, i as int);
        let ghost after = s@.subrange(0, i + 1);
        assert(after.drop_last() =~= before);
        assert(after.last() == s@[i as int]);
        proof {
            lemma_split_pipes_nonempty(before);
        }
        let ghost old_out = out.deep_view();
        let ghost old_cur = cur@;
        if s[i] == '|' {
            let done = cur;
            out.push(done);
            assert(out.deep_view() =~~= old_out.push(old_cur));
            cur = Vec::new();
            assert(out.deep_view().push(cur@) =~~= split_pipes(after));
        } else {
            cur.push(s[i]);
            assert(out.deep_view() == old_out);
            assert(out.deep_view().push(cur@) =~~= split_pipes(after));
        }
        i = i + 1;
    }
    assert(s@.subrange(0, s@.len() as int) =~= s@);
    let ghost old_out = out.deep_view();
    let ghost old_cur = cur@;
    out.push(cur);
    assert(out.deep_view() =~~= old_out.push(old_cur));
    out
}

/// The decimal number written in `t`, if it fits in `usize`.
fn parse_decimal(t: &Vec<char>) -> (r: Option<usize>)
    ensures
        match unbase_spec(10, t@) {
            Ok(v) => r == Some(v as usize),
            Err(_) => r is None,
        },
{
    match Unbaser::new(10) {
        Ok(u) => match u.unbase_chars(t) {
            Ok(v) => Some(v),
            Err(_) => None,
        },
        Err(_) => None,
    }
}

/// Extracts payload, symbol table, radix and declared count from the
/// decoder call in `s`: the full form if it occurs anywhere, else the simple
/// form. A radix written `[]` is 62.
pub fn filter_args(s: &Vec<char>) -> (r: Result<(Vec<char>, Vec<Vec<char>>, usize, usize), &'static str>)
    ensures
        match call_args_spec(s@) {
            Ok((payload, table, radix, count)) => r matches Ok((p, t, rx, c)) && p@ == payload
                && t.deep_view() == table && rx == radix && c == count,
            Err(m) => r matches Err(e) && e@ == m,
        },
{
    proof {
        reveal_strlit("Could not make sense of p.a.c.k.e.r data (unexpected code structure)");
        reveal_strlit("Invalid radix");
        reveal_strlit("Invalid count");
        reveal_strlit("[]");
    }
    let (full, p, e1) = match find_call_exec(s, true) {
        Some((p, e)) => (true, p, e),
        None => match find_call_exec(s, false) {
            Some((p, e)) => (false, p, e),
            None => {
                return Err("Could not make sense of p.a.c.k.e.r data (unexpected code structure)");
            },
        },
    };
    proof {
        let f = payload_pred(s@, full);
        lemma_last_index_holds(p + 3, line_end(s@, p + 3), f);
        assert(f(e1 as int));
        let m = middle(s@, e1 as int)->0;
        lemma_last_index_holds(m.4, line_end(s@, m.4), tail_pred(s@, full));
    }
    let m = match middle_exec(s, e1) {
        Some(m) => m,
        None => {
            return Err("Could not make sense of p.a.c.k.e.r data (unexpected code structure)");
        },
    };
    let e4 = match table_end_exec(s, m.4, full) {
        Some(e) => e,
        None => {
            return Err("Could not make sense of p.a.c.k.e.r data (unexpected code structure)");
        },
    };
    let radix_text = slice_chars(s, m.0, m.1);
    let brackets = chars_of("[]");
    let radix: Option<usize> = if m.1 - m.0 == 2 && occurs_at_exec(s, m.0, &brackets) {
        assert(radix_text@ =~= "[]"@);
        Some(62)
    } else {
        assert(radix_text@ != "[]"@ ==> !(radix_text@ =~= "[]"@));
        assert(radix_text@ == "[]"@ ==> s@.subrange(m.0 as int, m.0 + 2) =~= "[]"@);
        parse_decimal(&radix_text)
    };
    let radix = match radix {
        Some(v) => v,
        None => {
            return Err("Invalid radix");
        },
    };
    let count_text = slice_chars(s, m.2, m.3);
    let count = match parse_decimal(&count_text) {
        Some(v) => v,
        None => {
            return Err("Invalid count");
        },
    };
    let payload = slice_chars(s, p + 3, e1);
    let table_text = slice_chars(s, m.4, e4);
    let table = split_pipes_exec(&table_text);
    Ok((payload, table, radix, count))
}

} // verus!
