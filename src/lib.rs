//! Static unpacking of JavaScript wrapped by the P.A.C.K.E.R. obfuscator:
//! `eval(function(p,a,c,k,e,r){...}('<payload>',<radix>,<count>,'<symbols>'.split('|'),0,{}))`.
//!
//! The payload is scanned for words; each word is read as a numeral in the
//! radix and replaced by the symbol it indexes. A string table declared in
//! the result is then inlined into the code that uses it.
use vstd::prelude::*;

pub mod call_args;
pub mod preamble;
pub mod string_array;
mod text;
pub mod unbaser;
pub mod words;

use crate::call_args::{call_args_spec, filter_args};
use crate::preamble::{find_preamble, find_preamble_exec, preamble_at, preamble_pred};
use crate::string_array::{decimal, decimal_exec, inline_spec, replace_strings};
use crate::text::{
    chars_of, find_from, find_from_exec, lemma_first_index_exists, lemma_first_index_holds,
    occurs_at, push_all, slice_chars, string_of,
};
use crate::unbaser::{supported_base, Unbaser};
use crate::words::{decode_words, decode_words_spec};

verus! {

/// Text after the call: after the first `')))`, else after the first `}))`,
/// else nothing.
pub open spec fn end_text(s: Seq<char>) -> Seq<char> {
    match find_from(s, "')))"@, 0) {
        Some(k) => s.subrange(k + 4, s.len() as int),
        None => match find_from(s, "}))"@, 0) {
            Some(k) => s.subrange(k + 3, s.len() as int),
            None => Seq::empty(),
        },
    }
}

/// The message for a declared count that differs from the symbol table.
pub open spec fn mismatch_message(count: nat, len: nat) -> Seq<char> {
    "Malformed p.a.c.k.e.r. symtab. ("@ + decimal(count) + " != "@ + decimal(len) + ")"@
}

/// What unpacking `s` gives: the text before the preamble, the decoded and
/// inlined payload, and the text after the call; or the first error met.
pub open spec fn unpack_spec(s: Seq<char>) -> Result<Seq<char>, Seq<char>> {
    match find_preamble(s) {
        None => Err("Invalid p.a.c.k.e.r data."@),
        Some(b) => match call_args_spec(s) {
            Err(m) => Err(m),
            Ok((payload, table, radix, count)) => if count != table.len() {
                Err(mismatch_message(count, table.len()))
            } else if !supported_base(radix) {
                Err("Unsupported base encoding."@)
            } else {
                Ok(s.subrange(0, b) + inline_spec(decode_words_spec(payload, table, radix))
                    + end_text(s))
            },
        },
    }
}

pub open spec fn unpack_result(s: Seq<char>, r: Result<String, String>) -> bool {
    match unpack_spec(s) {
        Ok(t) => r matches Ok(o) && o@ == t,
        Err(m) => r matches Err(e) && e@ == m,
    }
}

/// A declared count that differs from the number of symbols always makes
/// unpacking fail; after the preamble, with the error that names both
/// numbers.
pub proof fn lemma_count_mismatch_fails(
    s: Seq<char>,
    payload: Seq<char>,
    table: Seq<Seq<char>>,
    radix: nat,
    count: nat,
)
    requires
        call_args_spec(s) == Ok::<(Seq<char>, Seq<Seq<char>>, nat, nat), Seq<char>>(
            (payload, table, radix, count),
        ),
        count != table.len(),
    ensures
        unpack_spec(s) is Err,
        find_preamble(s) is Some ==> unpack_spec(s) == Err::<Seq<char>, Seq<char>>(
            mismatch_message(count, table.len()),
        ),
{
}

/// Does `source` hold the preamble `eval(function(p,a,c,k,e,`, with any runs
/// of spaces and tabs between its tokens?
pub fn detect(source: &str) -> (r: bool)
    ensures
        r == exists|i: int| 0 <= i <= source@.len() && #[trigger] preamble_at(source@, i),
{
    let s = chars_of(source);
    let r = find_preamble_exec(&s).is_some();
    proof {
        let f = preamble_pred(s@);
        lemma_first_index_exists(0, s@.len() as int + 1, f);
        if r {
            let k = choose|k: int| 0 <= k < s@.len() + 1 && #[trigger] f(k);
            assert(preamble_at(s@, k));
        } else {
            assert forall|i: int| 0 <= i <= s@.len() implies !#[trigger] preamble_at(s@, i) by {
                assert(!f(i));
            }
        }
    }
    r
}

/// Unpacks `source` after checking that it holds the preamble.
pub fn unpack(source: &str) -> (r: Result<String, String>)
    ensures
        unpack_result(source@, r),
{
    if !detect(source) {
        proof {
            reveal_strlit("Invalid p.a.c.k.e.r data.");
            let f = preamble_pred(source@);
            lemma_first_index_exists(0, source@.len() as int + 1, f);
            if find_preamble(source@) is Some {
                let k = choose|k: int| 0 <= k < source@.len() + 1 && #[trigger] f(k);
                assert(preamble_at(source@, k));
            }
        }
        return Err(error_text("Invalid p.a.c.k.e.r data."));
    }
    unpack_unchecked(source)
}

/// Unpacks `source`. Without the preamble the result is the error
/// `Invalid p.a.c.k.e.r data.`.
pub fn unpack_unchecked(source: &str) -> (r: Result<String, String>)
    ensures
        unpack_result(source@, r),
{
    let s = chars_of(source);
    unpack_chars(&s)
}

fn error_text(m: &'static str) -> (r: String)
    ensures
        r@ == m@,
{
    let c = chars_of(m);
    string_of(c.as_slice())
}

fn end_text_exec(s: &Vec<char>) -> (r: Vec<char>)
    ensures
        r@ == end_text(s@),
{
    let n = s.len();
    let triple_paren = chars_of("')))");
    let brace_parens = chars_of("}))");
    proof {
        reveal_strlit("')))");
        reveal_strlit("}))");
        lemma_first_index_holds(0, s@.len() as int + 1, |k: int| occurs_at(s@, k, triple_paren@));
        lemma_first_index_holds(0, s@.len() as int + 1, |k: int| occurs_at(s@, k, brace_parens@));
    }
    match find_from_exec(s, &triple_paren, 0) {
        Some(k) => slice_chars(s, k + 4, n),
        None => match find_from_exec(s, &brace_parens, 0) {
            Some(k) => slice_chars(s, k + 3, n),
            None => Vec::new(),
        },
    }
}

fn unpack_chars(s: &Vec<char>) -> (r: Result<String, String>)
    ensures
        unpack_result(s@, r),
{
    proof {
        reveal_strlit("Invalid p.a.c.k.e.r data.");
    }
    let b = match find_preamble_exec(s) {
        Some(b) => b,
        None => {
            return Err(error_text("Invalid p.a.c.k.e.r data."));
        },
    };
    let begin = slice_chars(s, 0, b);
    let end = end_text_exec(s);
    let (payload, table, radix, count) = match filter_args(s) {
        Ok(args) => args,
        Err(m) => {
            return Err(error_text(m));
        },
    };
    if count != table.len() {
        let mut m = chars_of("Malformed p.a.c.k.e.r. symtab. (");
        let c = decimal_exec(count);
        push_all(&mut m, &c);
        let sep = chars_of(" != ");
        push_all(&mut m, &sep);
        let l = decimal_exec(table.len());
        push_all(&mut m, &l);
        m.push(')');
        proof {
            reveal_strlit(")");
        }
        assert(m@ =~= mismatch_message(count as nat, table.deep_view().len()));
        return Err(string_of(m.as_slice()));
    }
    let unbaser = match Unbaser::new(radix) {
        Ok(u) => u,
        Err(m) => {
            return Err(error_text(m));
        },
    };
    let decoded = decode_words(&payload, &table, &unbaser);
    let inlined = replace_strings(&decoded);
    let mut out = begin;
    push_all(&mut out, &inlined);
    push_all(&mut out, &end);
    Ok(string_of(out.as_slice()))
}

} // verus!
