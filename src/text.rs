//! Conversions between strings and vectors of characters.
use vstd::prelude::*;
use vstd::std_specs::iter::IteratorSpec;

verus! {

/// The characters of `s` in order.
pub(crate) fn chars_of(s: &str) -> (r: Vec<char>)
    ensures
        r@ == s@,
{
    broadcast use vstd::string::group_string_axioms, vstd::string::next_postcondition;
    let mut it = s.chars();
    let mut out: Vec<char> = Vec::new();
    loop
        invariant
            it.obeys_prophetic_iter_laws(),
            it.decrease() is Some,
            out@ + it.remaining() == s@,
        decreases it.decrease()->0,
    {
        match it.next() {
            Some(c) => {
                out.push(c);
            },
            None => {
                assert(out@ + it.remaining() =~= out@);
                return out;
            },
        }
    }
}

/// Relies on `String`'s `FromIterator<char>`: the string of these characters.
#[verifier::external_body]
pub(crate) fn string_of(v: &[char]) -> (r: String)
    ensures
        r@ == v@,
{
    v.iter().collect()
}

/// Does `p` occur in `s` starting at position `i`?
pub open spec fn occurs_at(s: Seq<char>, i: int, p: Seq<char>) -> bool {
    0 <= i && i + p.len() <= s.len() && s.subrange(i, i + p.len()) == p
}

/// The least index in `lo..hi` at which `f` holds.
pub open spec fn first_index(lo: int, hi: int, f: spec_fn(int) -> bool) -> Option<int>
    decreases hi - lo,
{
    if lo >= hi {
        None
    } else if f(lo) {
        Some(lo)
    } else {
        first_index(lo + 1, hi, f)
    }
}

/// The greatest index in `lo..=hi` at which `f` holds.
pub open spec fn last_index(lo: int, hi: int, f: spec_fn(int) -> bool) -> Option<int>
    decreases hi + 1 - lo,
{
    if hi < lo {
        None
    } else if f(hi) {
        Some(hi)
    } else {
        last_index(lo, hi - 1, f)
    }
}

/// What `first_index` finds satisfies `f` and lies in range.
pub proof fn lemma_first_index_holds(lo: int, hi: int, f: spec_fn(int) -> bool)
    ensures
        first_index(lo, hi, f) matches Some(k) ==> f(k) && lo <= k < hi,
    decreases hi - lo,
{
    if lo < hi && !f(lo) {
        lemma_first_index_holds(lo + 1, hi, f);
    }
}

/// `first_index` finds something exactly when some index in range satisfies `f`.
pub proof fn lemma_first_index_exists(lo: int, hi: int, f: spec_fn(int) -> bool)
    ensures
        first_index(lo, hi, f) is Some <==> exists|k: int| lo <= k < hi && #[trigger] f(k),
    decreases hi - lo,
{
    if lo < hi && !f(lo) {
        lemma_first_index_exists(lo + 1, hi, f);
        assert forall|k: int| lo <= k < hi && #[trigger] f(k) implies lo + 1 <= k by {}
    }
}

/// What `last_index` finds satisfies `f` and lies in range.
pub proof fn lemma_last_index_holds(lo: int, hi: int, f: spec_fn(int) -> bool)
    ensures
        last_index(lo, hi, f) matches Some(k) ==> f(k) && lo <= k <= hi,
    decreases hi + 1 - lo,
{
    if lo <= hi && !f(hi) {
        lemma_last_index_holds(lo, hi - 1, f);
    }
}

/// Position of the first occurrence of `p` in `s` at or after `i`.
pub open spec fn find_from(s: Seq<char>, p: Seq<char>, i: int) -> Option<int> {
    first_index(i, s.len() as int + 1, |k: int| occurs_at(s, k, p))
}

/// The first position at or after `i` that does not hold a space.
pub open spec fn skip_spaces(s: Seq<char>, i: int) -> int
    decreases s.len() - i,
{
    if 0 <= i < s.len() && s[i] == ' ' {
        skip_spaces(s, i + 1)
    } else {
        i
    }
}

pub open spec fn is_blank(c: char) -> bool {
    c == ' ' || c == '\t'
}

/// The first position at or after `i` that holds neither a space nor a tab.
pub open spec fn skip_blanks(s: Seq<char>, i: int) -> int
    decreases s.len() - i,
{
    if 0 <= i < s.len() && is_blank(s[i]) {
        skip_blanks(s, i + 1)
    } else {
        i
    }
}

pub fn skip_blanks_exec(s: &Vec<char>, i: usize) -> (r: usize)
    requires
        i <= s@.len(),
    ensures
        r == skip_blanks(s@, i as int),
        i <= r <= s@.len(),
{
    let mut j: usize = i;
    while j < s.len() && (s[j] == ' ' || s[j] == '\t')
        invariant
            i <= j <= s@.len(),
            skip_blanks(s@, i as int) == skip_blanks(s@, j as int),
        decreases s@.len() - j,
    {
        j = j + 1;
    }
    j
}

/// The first position at or after `i` that holds a line feed, or the end.
pub open spec fn line_end(s: Seq<char>, i: int) -> int
    decreases s.len() - i,
{
    if 0 <= i < s.len() && s[i] != '\n' {
        line_end(s, i + 1)
    } else {
        i
    }
}

pub open spec fn is_ascii_digit(c: char) -> bool {
    '0' <= c && c <= '9'
}

/// The first position at or after `i` that does not hold a decimal digit.
pub open spec fn digits_end(s: Seq<char>, i: int) -> int
    decreases s.len() - i,
{
    if 0 <= i < s.len() && is_digit_char(s[i]) {
        digits_end(s, i + 1)
    } else {
        i
    }
}

pub uninterp spec fn regex_word_char(c: char) -> bool;

/// Relies on `regex::Regex::new` and `Regex::is_match`: whether the Unicode
/// class `\w` (Alphabetic, marks, decimal digits, connector punctuation and
/// join controls) matches `c`.
#[verifier::external_body]
fn in_regex_word_class(c: char) -> (r: bool)
    ensures
        r == regex_word_char(c),
{
    let mut buf = [0u8; 4];
    match regex::Regex::new(r"\w") {
        Ok(re) => re.is_match(c.encode_utf8(&mut buf)),
        Err(_) => false,
    }
}

pub uninterp spec fn regex_digit_char(c: char) -> bool;

/// Relies on `regex::Regex::new` and `Regex::is_match`: whether the Unicode
/// class `\d` (decimal digits, `\p{Nd}`) matches `c`.
#[verifier::external_body]
fn in_regex_digit_class(c: char) -> (r: bool)
    ensures
        r == regex_digit_char(c),
{
    let mut buf = [0u8; 4];
    match regex::Regex::new(r"\d") {
        Ok(re) => re.is_match(c.encode_utf8(&mut buf)),
        Err(_) => false,
    }
}

/// Word characters, as the Unicode class `\w` of regular expressions: in
/// ASCII the letters, digits and `_`.
pub open spec fn is_word_char(c: char) -> bool {
    if (c as u32) < 128 {
        ('0' <= c && c <= '9') || ('a' <= c && c <= 'z') || ('A' <= c && c <= 'Z') || c == '_'
    } else {
        regex_word_char(c)
    }
}

pub fn word_char(c: char) -> (r: bool)
    ensures
        r == is_word_char(c),
{
    if (c as u32) < 128 {
        ('0' <= c && c <= '9') || ('a' <= c && c <= 'z') || ('A' <= c && c <= 'Z') || c == '_'
    } else {
        in_regex_word_class(c)
    }
}

/// Decimal digits, as the Unicode class `\d` of regular expressions: in
/// ASCII `0` to `9`.
pub open spec fn is_digit_char(c: char) -> bool {
    if (c as u32) < 128 {
        is_ascii_digit(c)
    } else {
        regex_digit_char(c)
    }
}

pub fn digit_char(c: char) -> (r: bool)
    ensures
        r == is_digit_char(c),
{
    if (c as u32) < 128 {
        '0' <= c && c <= '9'
    } else {
        in_regex_digit_class(c)
    }
}

pub fn occurs_at_exec(s: &Vec<char>, i: usize, p: &Vec<char>) -> (r: bool)
    ensures
        r == occurs_at(s@, i as int, p@),
        s@.len() <= usize::MAX,
{
    let n = s.len();
    if i > s.len() || p.len() > s.len() - i {
        return false;
    }
    let mut k: usize = 0;
    while k < p.len()
        invariant
            i + p@.len() <= s@.len(),
            s@.len() <= usize::MAX,
            k <= p@.len(),
            forall|m: int| 0 <= m < k ==> s@[i + m] == p@[m],
        decreases p@.len() - k,
    {
        if s[i + k] != p[k] {
            assert(s@.subrange(i as int, i + p@.len())[k as int] != p@[k as int]);
            return false;
        }
        k = k + 1;
    }
    assert(s@.subrange(i as int, i + p@.len()) =~= p@);
    true
}

pub fn find_from_exec(s: &Vec<char>, p: &Vec<char>, from: usize) -> (r: Option<usize>)
    requires
        from <= s@.len(),
    ensures
        r matches Some(k) ==> find_from(s@, p@, from as int) == Some(k as int),
        r is None ==> find_from(s@, p@, from as int) is None,
{
    let ghost f = |k: int| occurs_at(s@, k, p@);
    let mut i: usize = from;
    while i <= s.len()
        invariant
            from <= i <= s@.len() + 1,
            f == (|k: int| occurs_at(s@, k, p@)),
            first_index(from as int, s@.len() as int + 1, f) == first_index(i as int, s@.len() as int + 1, f),
        decreases s@.len() + 1 - i,
    {
        if occurs_at_exec(s, i, p) {
            return Some(i);
        }
        if i == s.len() {
            assert(first_index(i + 1, s@.len() as int + 1, f) is None);
            return None;
        }
        i = i + 1;
    }
    None
}

pub fn skip_spaces_exec(s: &Vec<char>, i: usize) -> (r: usize)
    requires
        i <= s@.len(),
    ensures
        r == skip_spaces(s@, i as int),
        i <= r <= s@.len(),
{
    let mut j: usize = i;
    while j < s.len() && s[j] == ' '
        invariant
            i <= j <= s@.len(),
            skip_spaces(s@, i as int) == skip_spaces(s@, j as int),
        decreases s@.len() - j,
    {
        j = j + 1;
    }
    j
}

pub fn line_end_exec(s: &Vec<char>, i: usize) -> (r: usize)
    requires
        i <= s@.len(),
    ensures
        r == line_end(s@, i as int),
        i <= r <= s@.len(),
{
    let mut j: usize = i;
    while j < s.len() && s[j] != '\n'
        invariant
            i <= j <= s@.len(),
            line_end(s@, i as int) == line_end(s@, j as int),
        decreases s@.len() - j,
    {
        j = j + 1;
    }
    j
}

pub fn digits_end_exec(s: &Vec<char>, i: usize) -> (r: usize)
    requires
        i <= s@.len(),
    ensures
        r == digits_end(s@, i as int),
        i <= r <= s@.len(),
{
    let mut j: usize = i;
    while j < s.len() && digit_char(s[j])
        invariant
            i <= j <= s@.len(),
            digits_end(s@, i as int) == digits_end(s@, j as int),
        decreases s@.len() - j,
    {
        j = j + 1;
    }
    j
}

/// The characters `s[from..to]`.
pub fn slice_chars(s: &Vec<char>, from: usize, to: usize) -> (r: Vec<char>)
    requires
        from <= to <= s@.len(),
    ensures
        r@ == s@.subrange(from as int, to as int),
{
    let mut out: Vec<char> = Vec::new();
    let mut i: usize = from;
    while i < to
        invariant
            from <= i <= to <= s@.len(),
            out@ == s@.subrange(from as int, i as int),
        decreases to - i,
    {
        out.push(s[i]);
        i = i + 1;
        assert(out@ =~= s@.subrange(from as int, i as int));
    }
    out
}

/// `s[i..]` with each occurrence of `p` replaced by `r`, left to right and
/// without overlap.
pub open spec fn replace_from(s: Seq<char>, p: Seq<char>, r: Seq<char>, i: int) -> Seq<char>
    decreases s.len() - i,
{
    if !(0 <= i < s.len()) {
        Seq::empty()
    } else if p.len() > 0 && occurs_at(s, i, p) {
        r + replace_from(s, p, r, i + p.len())
    } else {
        seq![s[i]] + replace_from(s, p, r, i + 1)
    }
}

pub open spec fn replaced(s: Seq<char>, p: Seq<char>, r: Seq<char>) -> Seq<char> {
    replace_from(s, p, r, 0)
}

/// Appends the characters of `t` to `out`.
pub fn push_all(out: &mut Vec<char>, t: &Vec<char>)
    ensures
        final(out)@ == old(out)@ + t@,
{
    let ghost start = out@;
    let mut i: usize = 0;
    while i < t.len()
        invariant
            i <= t@.len(),
            out@ == start + t@.subrange(0, i as int),
        decreases t@.len() - i,
    {
        out.push(t[i]);
        i = i + 1;
        assert(out@ =~= start + t@.subrange(0, i as int));
    }
    assert(t@.subrange(0, t@.len() as int) =~= t@);
}

/// Replaces every occurrence of `p` in `s` by `r`.
pub fn replace_all(s: &Vec<char>, p: &Vec<char>, r: &Vec<char>) -> (out: Vec<char>)
    requires
        p@.len() > 0,
    ensures
        out@ == replaced(s@, p@, r@),
{
    let mut out: Vec<char> = Vec::new();
    let mut i: usize = 0;
    while i < s.len()
        invariant
            i <= s@.len(),
            p@.len() > 0,
            out@ + replace_from(s@, p@, r@, i as int) == replaced(s@, p@, r@),
        decreases s@.len() - i,
    {
        let ghost before = out@;
        if occurs_at_exec(s, i, p) {
            push_all(&mut out, r);
            assert(out@ + replace_from(s@, p@, r@, i + p@.len()) =~= before + replace_from(s@, p@, r@, i as int));
            i = i + p.len();
        } else {
            out.push(s[i]);
            assert(out@ + replace_from(s@, p@, r@, i + 1) =~= before + replace_from(s@, p@, r@, i as int));
            i = i + 1;
        }
    }
    assert(out@ + replace_from(s@, p@, r@, i as int) =~= out@);
    out
}

} // verus!
