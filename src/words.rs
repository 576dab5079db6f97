//! Substitution of the symbol table into the payload, word by word.
use vstd::prelude::*;

use crate::text::{chars_of, is_word_char, push_all, replace_all, replaced, slice_chars, word_char};
use crate::unbaser::{unbase_spec, Unbaser};

verus! {

/// The first position at or after `i` that does not hold a word character.
pub open spec fn word_end(s: Seq<char>, i: int) -> int
    decreases s.len() - i,
{
    if 0 <= i < s.len() && is_word_char(s[i]) {
        word_end(s, i + 1)
    } else {
        i
    }
}

pub proof fn lemma_word_end_bounds(s: Seq<char>, i: int)
    requires
        0 <= i <= s.len(),
    ensures
        i <= word_end(s, i) <= s.len(),
        i < s.len() && is_word_char(s[i]) ==> i < word_end(s, i),
        word_end(s, i) == s.len() || !is_word_char(s[word_end(s, i)]),
        forall|k: int| i <= k < word_end(s, i) ==> is_word_char(#[trigger] s[k]),
    decreases s.len() - i,
{
    if i < s.len() && is_word_char(s[i]) {
        lemma_word_end_bounds(s, i + 1);
    }
}

/// What a word becomes: the table entry its value in `base` indexes, where
/// that entry exists and is not empty; otherwise the word itself.
pub open spec fn resolve(word: Seq<char>, table: Seq<Seq<char>>, base: nat) -> Seq<char> {
    match unbase_spec(base, word) {
        Ok(k) => if k < table.len() && table[k as int].len() > 0 {
            table[k as int]
        } else {
            word
        },
        Err(_) => word,
    }
}

/// `s[i..]` with each maximal run of word characters resolved; other
/// characters are kept.
pub open spec fn decode_from(s: Seq<char>, i: int, table: Seq<Seq<char>>, base: nat) -> Seq<char>
    decreases s.len() - i,
    via decode_from_decreases
{
    if !(0 <= i < s.len()) {
        Seq::empty()
    } else if is_word_char(s[i]) {
        let j = word_end(s, i);
        resolve(s.subrange(i, j), table, base) + decode_from(s, j, table, base)
    } else {
        seq![s[i]] + decode_from(s, i + 1, table, base)
    }
}

#[via_fn]
proof fn decode_from_decreases(s: Seq<char>, i: int, table: Seq<Seq<char>>, base: nat) {
    if 0 <= i < s.len() && is_word_char(s[i]) {
        lemma_word_end_bounds(s, i);
    }
}

/// Does a maximal run of word characters start at `i`?
pub open spec fn run_start(s: Seq<char>, i: int) -> bool {
    0 <= i < s.len() && is_word_char(s[i]) && (i == 0 || !is_word_char(s[i - 1]))
}

/// The word that starts at `i`.
pub open spec fn token_at(s: Seq<char>, i: int) -> Seq<char> {
    s.subrange(i, word_end(s, i))
}

proof fn lemma_kept_from(s: Seq<char>, table: Seq<Seq<char>>, base: nat, i: int)
    requires
        0 <= i <= s.len(),
        i == 0 || i == s.len() || !is_word_char(s[i - 1]) || !is_word_char(s[i]),
        forall|k: int| run_start(s, k) ==> resolve(token_at(s, k), table, base) == token_at(s, k),
    ensures
        decode_from(s, i, table, base) == s.subrange(i, s.len() as int),
    decreases s.len() - i,
{
    if i < s.len() {
        if is_word_char(s[i]) {
            lemma_word_end_bounds(s, i);
            let j = word_end(s, i);
            assert(run_start(s, i));
            lemma_kept_from(s, table, base, j);
            assert(s.subrange(i, j) + s.subrange(j, s.len() as int) =~= s.subrange(i, s.len() as int));
        } else {
            lemma_kept_from(s, table, base, i + 1);
            assert(seq![s[i]] + s.subrange(i + 1, s.len() as int) =~= s.subrange(i, s.len() as int));
        }
    }
}

/// Words that do not resolve (their value is not a numeral of the base, or
/// indexes no entry, or an empty one) are left as they are: where no word of
/// `s` resolves, decoding gives `s` back unchanged.
pub proof fn lemma_unresolved_words_kept(s: Seq<char>, table: Seq<Seq<char>>, base: nat)
    requires
        forall|k: int| run_start(s, k) ==> resolve(token_at(s, k), table, base) == token_at(s, k),
    ensures
        decode_from(s, 0, table, base) == s,
{
    lemma_kept_from(s, table, base, 0);
    assert(s.subrange(0, s.len() as int) =~= s);
}

/// Is `i` a position where no run of word characters is cut in two?
pub open spec fn boundary(s: Seq<char>, i: int) -> bool {
    0 <= i <= s.len() && (i == 0 || i == s.len() || !is_word_char(s[i - 1]) || !is_word_char(s[i]))
}

proof fn lemma_word_end_prefix(s: Seq<char>, i: int, k: int)
    requires
        0 <= k <= i <= s.len(),
        word_end(s, k) <= i,
    ensures
        word_end(s.subrange(0, i), k) == word_end(s, k),
    decreases s.len() - k,
{
    let t = s.subrange(0, i);
    if k < i {
        assert(t[k] == s[k]);
        if is_word_char(s[k]) {
            lemma_word_end_prefix(s, i, k + 1);
        }
    } else {
        lemma_word_end_bounds(s, k);
    }
}

proof fn lemma_decode_prefix(s: Seq<char>, table: Seq<Seq<char>>, base: nat, i: int, k: int)
    requires
        boundary(s, i),
        0 <= k <= i,
    ensures
        decode_from(s, k, table, base) == decode_from(s.subrange(0, i), k, table, base) + decode_from(
            s,
            i,
            table,
            base,
        ),
    decreases i - k,
{
    let t = s.subrange(0, i);
    if k == i {
        assert(decode_from(t, k, table, base) =~= Seq::<char>::empty());
        assert(Seq::<char>::empty() + decode_from(s, i, table, base) =~= decode_from(s, i, table, base));
    } else {
        assert(t[k] == s[k]);
        lemma_word_end_bounds(s, k);
        if is_word_char(s[k]) {
            let j = word_end(s, k);
            if j > i {
                assert(is_word_char(s[i - 1]) && is_word_char(s[i]));
            }
            lemma_word_end_prefix(s, i, k);
            lemma_decode_prefix(s, table, base, i, j);
            assert(t.subrange(k, j) =~= s.subrange(k, j));
            assert(decode_from(s, k, table, base) =~= decode_from(t, k, table, base) + decode_from(s, i, table, base));
        } else {
            lemma_decode_prefix(s, table, base, i, k + 1);
            assert(decode_from(s, k, table, base) =~= decode_from(t, k, table, base) + decode_from(s, i, table, base));
        }
    }
}

/// A word whose value is no numeral of the base, or indexes no entry, or an
/// empty one, is copied as it is: the output is the decoded text before it,
/// the word itself, then the decoded text after it.
pub proof fn lemma_unresolved_word_kept(s: Seq<char>, table: Seq<Seq<char>>, base: nat, i: int)
    requires
        run_start(s, i),
        match unbase_spec(base, token_at(s, i)) {
            Ok(k) => k >= table.len() || table[k as int].len() == 0,
            Err(_) => true,
        },
    ensures
        decode_from(s, 0, table, base) == decode_from(s.subrange(0, i), 0, table, base) + token_at(s, i)
            + decode_from(s, word_end(s, i), table, base),
{
    lemma_decode_prefix(s, table, base, i, 0);
    lemma_word_end_bounds(s, i);
    assert(decode_from(s, i, table, base) == token_at(s, i) + decode_from(s, word_end(s, i), table, base));
}

/// The payload with the escapes of its string literal undone: `\\` becomes
/// `\`, then `\'` becomes `'`.
pub open spec fn unescape(s: Seq<char>) -> Seq<char> {
    replaced(replaced(s, "\\\\"@, "\\"@), "\\'"@, "'"@)
}

/// The payload decoded against `table` in `base`.
pub open spec fn decode_words_spec(payload: Seq<char>, table: Seq<Seq<char>>, base: nat) -> Seq<char> {
    decode_from(unescape(payload), 0, table, base)
}

fn resolve_exec(word: &Vec<char>, table: &Vec<Vec<char>>, unbaser: &Unbaser) -> (r: Vec<char>)
    requires
        unbaser.wf(),
    ensures
        r@ == resolve(word@, table.deep_view(), unbaser.base_of()),
{
    match unbaser.unbase_chars(word) {
        Ok(k) => {
            if k < table.len() && table[k].len() > 0 {
                let entry = slice_chars(&table[k], 0, table[k].len());
                assert(entry@ =~= table.deep_view()[k as int]);
                entry
            } else {
                slice_chars(word, 0, word.len())
            }
        },
        Err(_) => slice_chars(word, 0, word.len()),
    }
}

/// Replaces each word of the payload whose value indexes a non-empty entry of
/// `table` by that entry; every other character, and every other word, stays
/// as it is.
pub fn decode_words(payload: &Vec<char>, table: &Vec<Vec<char>>, unbaser: &Unbaser) -> (r: Vec<char>)
    requires
        unbaser.wf(),
    ensures
        r@ == decode_words_spec(payload@, table.deep_view(), unbaser.base_of()),
{
    let double = chars_of("\\\\");
    let single = chars_of("\\");
    let escaped_quote = chars_of("\\'");
    let quote = chars_of("'");
    proof {
        reveal_strlit("\\\\");
        reveal_strlit("\\'");
    }
    let once = replace_all(payload, &double, &single);
    let s = replace_all(&once, &escaped_quote, &quote);
    let ghost tab = table.deep_view();
    let ghost base = unbaser.base_of();
    let mut out: Vec<char> = Vec::new();
    let mut i: usize = 0;
    while i < s.len()
        invariant
            unbaser.wf(),
            tab == table.deep_view(),
            base == unbaser.base_of(),
            i <= s@.len(),
            out@ + decode_from(s@, i as int, tab, base) == decode_from(s@, 0, tab, base),
        decreases s@.len() - i,
    {
        let ghost before = out@;
        if word_char(s[i]) {
            let mut j: usize = i + 1;
            while j < s.len() && word_char(s[j])
                invariant
                    i < j <= s@.len(),
                    word_end(s@, i as int) == word_end(s@, j as int),
                decreases s@.len() - j,
            {
                j = j + 1;
            }
            proof {
                lemma_word_end_bounds(s@, i as int);
            }
            let word = slice_chars(&s, i, j);
            let rep = resolve_exec(&word, table, unbaser);
            push_all(&mut out, &rep);
            assert(out@ + decode_from(s@, j as int, tab, base) =~= before + decode_from(s@, i as int, tab, base));
            i = j;
        } else {
            out.push(s[i]);
            assert(out@ + decode_from(s@, i + 1, tab, base) =~= before + decode_from(s@, i as int, tab, base));
            i = i + 1;
        }
    }
    assert(out@ + decode_from(s@, i as int, tab, base) =~= out@);
    out
}

} // verus!
