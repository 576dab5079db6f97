//! Inlining of a string table `var name=["s0","s1",...];` into the code
//! that follows it.
use vstd::prelude::*;

use crate::text::{
    chars_of, find_from, find_from_exec, first_index, lemma_first_index_holds, line_end,
    line_end_exec, is_ascii_digit, is_word_char, occurs_at, occurs_at_exec, push_all, replace_all, replaced, skip_spaces,
    skip_spaces_exec, slice_chars, word_char,
};
use crate::words::{lemma_word_end_bounds, word_end};

verus! {

/// A table declaration starting at `p`: `var`, spaces, a name of word
/// characters that does not start with a digit, `=["`, then the shortest body on the line
/// before `"];`. Gives the span of the name, the span of the body, and the
/// end of the declaration.
pub open spec fn decl_at(s: Seq<char>, p: int) -> Option<(int, int, int, int)> {
    if !occurs_at(s, p, "var"@) {
        None
    } else {
        let a = skip_spaces(s, p + 3);
        if !(a < s.len() && is_word_char(s[a]) && !is_ascii_digit(s[a])) {
            None
        } else {
            let b = word_end(s, a);
            if !occurs_at(s, b, "=[\""@) {
                None
            } else {
                let c = b + 3;
                match find_from(s, "\"];"@, c) {
                    Some(e) => if e <= line_end(s, c) {
                        Some((a, b, c, e))
                    } else {
                        None
                    },
                    None => None,
                }
            }
        }
    }
}

pub open spec fn decl_pred(s: Seq<char>) -> spec_fn(int) -> bool {
    |p: int| decl_at(s, p) is Some
}

/// Where the first table declaration in `s` starts.
pub open spec fn find_decl(s: Seq<char>) -> Option<int> {
    first_index(0, s.len() as int + 1, decl_pred(s))
}

/// The pieces of `s[i..]` between occurrences of `sep`.
pub open spec fn split_from(s: Seq<char>, sep: Seq<char>, i: int) -> Seq<Seq<char>>
    decreases s.len() + 1 - i,
    via split_from_decreases
{
    if !(0 <= i <= s.len()) || sep.len() == 0 {
        Seq::empty()
    } else {
        match find_from(s, sep, i) {
            Some(k) => seq![s.subrange(i, k)] + split_from(s, sep, k + sep.len()),
            None => seq![s.subrange(i, s.len() as int)],
        }
    }
}

#[via_fn]
proof fn split_from_decreases(s: Seq<char>, sep: Seq<char>, i: int) {
    lemma_first_index_holds(i, s.len() as int + 1, |k: int| occurs_at(s, k, sep));
}

pub open spec fn digit_char(d: nat) -> char {
    ((d + 48) as u8) as char
}

/// `n` written in decimal.
pub open spec fn decimal(n: nat) -> Seq<char>
    decreases n,
{
    if n < 10 {
        seq![digit_char(n)]
    } else {
        decimal(n / 10).push(digit_char(n % 10))
    }
}

/// The reference `name[i]`.
pub open spec fn reference(name: Seq<char>, i: nat) -> Seq<char> {
    name + seq!['['] + decimal(i) + seq![']']
}

pub open spec fn quoted(t: Seq<char>) -> Seq<char> {
    seq!['"'] + t + seq!['"']
}

/// `text` with `name[0]`, then `name[1]`, up to `name[n - 1]` replaced by
/// the quoted items.
pub open spec fn inline_refs(text: Seq<char>, name: Seq<char>, items: Seq<Seq<char>>, n: nat) -> Seq<char>
    decreases n,
{
    if n == 0 {
        text
    } else {
        replaced(
            inline_refs(text, name, items, (n - 1) as nat),
            reference(name, (n - 1) as nat),
            quoted(items[n - 1]),
        )
    }
}

/// The result of inlining: unchanged without a declaration; with one, the
/// text after it with every reference to the table replaced by its string.
pub open spec fn inline_spec(s: Seq<char>) -> Seq<char> {
    match find_decl(s) {
        None => s,
        Some(p) => {
            let (a, b, c, e) = decl_at(s, p)->0;
            let items = split_from(s.subrange(c, e), "\",\""@, 0);
            inline_refs(s.subrange(e + 3, s.len() as int), s.subrange(a, b), items, items.len())
        },
    }
}

/// Text without a table declaration is left as it is, so inlining it once
/// more changes nothing.
pub proof fn lemma_inline_without_declaration(s: Seq<char>)
    requires
        find_decl(s) is None,
    ensures
        inline_spec(s) == s,
        inline_spec(inline_spec(s)) == inline_spec(s),
{
}

fn decl_at_exec(s: &Vec<char>, p: usize) -> (r: Option<(usize, usize, usize, usize)>)
    requires
        p <= s@.len(),
    ensures
        r matches Some(d) ==> decl_at(s@, p as int) == Some((d.0 as int, d.1 as int, d.2 as int, d.3 as int))
            && d.0 < d.1 <= d.2 <= d.3 && d.3 + 3 <= s@.len(),
        r is None ==> decl_at(s@, p as int) is None,
{
    let var_word = chars_of("var");
    let opener = chars_of("=[\"");
    let closer = chars_of("\"];");
    proof {
        reveal_strlit("var");
        reveal_strlit("=[\"");
        reveal_strlit("\"];");
    }
    if !occurs_at_exec(s, p, &var_word) {
        return None;
    }
    assert(p + 3 <= s@.len() <= usize::MAX);
    let a = skip_spaces_exec(s, p + 3);
    if !(a < s.len() && word_char(s[a]) && !('0' <= s[a] && s[a] <= '9')) {
        return None;
    }
    let mut b: usize = a + 1;
    while b < s.len() && word_char(s[b])
        invariant
            a < b <= s@.len(),
            word_end(s@, a as int) == word_end(s@, b as int),
        decreases s@.len() - b,
    {
        b = b + 1;
    }
    if !occurs_at_exec(s, b, &opener) {
        return None;
    }
    let c = b + 3;
    match find_from_exec(s, &closer, c) {
        Some(e) => {
            proof {
                lemma_first_index_holds(c as int, s@.len() as int + 1, |k: int| occurs_at(s@, k, closer@));
            }
            if e <= line_end_exec(s, c) {
                Some((a, b, c, e))
            } else {
                None
            }
        },
        None => None,
    }
}

fn find_decl_exec(s: &Vec<char>) -> (r: Option<(usize, usize, usize, usize)>)
    ensures
        r matches Some(d) ==> find_decl(s@) matches Some(p) && decl_at(s@, p) == Some(
            (d.0 as int, d.1 as int, d.2 as int, d.3 as int),
        ) && d.0 < d.1 <= d.2 <= d.3 && d.3 + 3 <= s@.len(),
        r is None ==> find_decl(s@) is None,
{
    let ghost f = decl_pred(s@);
    let mut p: usize = 0;
    loop
        invariant
            p <= s@.len(),
            f == decl_pred(s@),
            first_index(0, s@.len() as int + 1, f) == first_index(p as int, s@.len() as int + 1, f),
        decreases s@.len() - p,
    {
        if let Some(d) = decl_at_exec(s, p) {
            return Some(d);
        }
        if p == s.len() {
            assert(first_index(p + 1, s@.len() as int + 1, f) is None);
            return None;
        }
        p = p + 1;
    }
}

fn split_exec(s: &Vec<char>, sep: &Vec<char>) -> (r: Vec<Vec<char>>)
    requires
        sep@.len() > 0,
    ensures
        r.deep_view() == split_from(s@, sep@, 0),
{
    let mut out: Vec<Vec<char>> = Vec::new();
    let mut i: usize = 0;
    loop
        invariant
            i <= s@.len(),
            sep@.len() > 0,
            out.deep_view() + split_from(s@, sep@, i as int) == split_from(s@, sep@, 0),
        decreases s@.len() + 1 - i,
    {
        let ghost before = out.deep_view();
        let ghost raw = out@;
        match find_from_exec(s, sep, i) {
            Some(k) => {
                proof {
                    lemma_first_index_holds(i as int, s@.len() as int + 1, |k: int| occurs_at(s@, k, sep@));
                }
                let piece = slice_chars(s, i, k);
                out.push(piece);
                assert(out.deep_view() =~~= before.push(s@.subrange(i as int, k as int)));
                assert(out.deep_view() + split_from(s@, sep@, k + sep@.len()) =~~= before + split_from(s@, sep@, i as int));
                let n = s.len();
                assert(k + sep@.len() <= n);
                i = k + sep.len();
            },
            None => {
                let piece = slice_chars(s, i, s.len());
                out.push(piece);
                assert(out.deep_view() =~~= before + split_from(s@, sep@, i as int));
                return out;
            },
        }
    }
}

pub fn decimal_exec(n: usize) -> (r: Vec<char>)
    ensures
        r@ == decimal(n as nat),
    decreases n,
{
    if n < 10 {
        let d = ((n as u8) + 48) as char;
        let mut v: Vec<char> = Vec::new();
        v.push(d);
        assert(v@ =~= decimal(n as nat));
        v
    } else {
        let mut v = decimal_exec(n / 10);
        let d = (((n % 10) as u8) + 48) as char;
        v.push(d);
        v
    }
}

/// Replaces the references to the first string table in `source` by the
/// strings and drops everything up to the end of that declaration; without
/// such a declaration `source` is returned as it is.
///
/// The body is split at each `","`, so a string that holds that sequence is
/// cut in two.
pub fn replace_strings(source: &Vec<char>) -> (r: Vec<char>)
    ensures
        r@ == inline_spec(source@),
{
    let (a, b, c, e) = match find_decl_exec(source) {
        Some(d) => d,
        None => {
            return slice_chars(source, 0, source.len());
        },
    };
    let separator = chars_of("\",\"");
    proof {
        reveal_strlit("\",\"");
    }
    let name = slice_chars(source, a, b);
    let body = slice_chars(source, c, e);
    let items = split_exec(&body, &separator);
    let n = source.len();
    assert(e + 3 <= n);
    let mut text = slice_chars(source, e + 3, n);
    let ghost rest = text@;
    let ghost dv = items.deep_view();
    let mut i: usize = 0;
    while i < items.len()
        invariant
            i <= items@.len(),
            dv == items.deep_view(),
            text@ == inline_refs(rest, name@, dv, i as nat),
        decreases items@.len() - i,
    {
        let index = decimal_exec(i);
        let mut pattern = slice_chars(&name, 0, name.len());
        pattern.push('[');
        push_all(&mut pattern, &index);
        pattern.push(']');
        assert(pattern@ =~= reference(name@, i as nat));
        let mut replacement: Vec<char> = Vec::new();
        replacement.push('"');
        push_all(&mut replacement, &items[i]);
        replacement.push('"');
        assert(items@[i as int]@ =~= dv[i as int]);
        assert(replacement@ =~= quoted(dv[i as int]));
        text = replace_all(&text, &pattern, &replacement);
        i = i + 1;
    }
    text
}

} // verus!
