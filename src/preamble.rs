//! The preamble of a packed script, `eval(function(p,a,c,k,e,`, in which
//! runs of spaces and tabs may stand between the tokens.
use vstd::prelude::*;

use crate::text::{chars_of, first_index, is_blank, skip_blanks, skip_blanks_exec};

verus! {

/// The preamble without spaces.
pub open spec fn preamble_text() -> Seq<char> {
    "eval(function(p,a,c,k,e,"@
}

/// May spaces and tabs stand before character `m` of the preamble? Everywhere but
/// inside `eval` and `function`.
pub open spec fn gap_before(m: int) -> bool {
    m == 4 || m == 5 || m >= 13
}

/// Does the preamble, from its character `k` on, match `s` from `i` on?
pub open spec fn preamble_from(s: Seq<char>, i: int, k: int) -> bool
    decreases 24 - k,
{
    if k >= 24 {
        true
    } else if 0 <= i < s.len() && s[i] == preamble_text()[k] {
        let j = if gap_before(k + 1) {
            skip_blanks(s, i + 1)
        } else {
            i + 1
        };
        preamble_from(s, j, k + 1)
    } else {
        false
    }
}

/// Does the preamble start at position `i` of `s`?
pub open spec fn preamble_at(s: Seq<char>, i: int) -> bool {
    preamble_from(s, i, 0)
}

pub open spec fn preamble_pred(s: Seq<char>) -> spec_fn(int) -> bool {
    |i: int| preamble_at(s, i)
}

/// Where the first preamble in `s` starts.
pub open spec fn find_preamble(s: Seq<char>) -> Option<int> {
    first_index(0, s.len() as int + 1, preamble_pred(s))
}

/// No preamble starts anywhere in the empty text.
pub proof fn lemma_empty_has_no_preamble(i: int)
    ensures
        !preamble_at(Seq::<char>::empty(), i),
{
}

/// The preamble from its character `k` on, with the run `gaps[m]` standing
/// before each character `m`.
pub open spec fn spaced_from(gaps: Seq<Seq<char>>, k: int) -> Seq<char>
    decreases 24 - k,
{
    if k >= 24 {
        Seq::empty()
    } else {
        let gap = if k + 1 < 24 {
            gaps[k + 1]
        } else {
            Seq::empty()
        };
        seq![preamble_text()[k]] + gap + spaced_from(gaps, k + 1)
    }
}

/// One run per character of the preamble, each of spaces and tabs alone, and
/// empty where the preamble allows no gap.
pub open spec fn gaps_ok(gaps: Seq<Seq<char>>) -> bool {
    &&& gaps.len() == 24
    &&& forall|m: int| 0 <= m < 24 && !gap_before(m) ==> (#[trigger] gaps[m]).len() == 0
    &&& forall|m: int, t: int| 0 <= m < 24 && 0 <= t < gaps[m].len() ==> is_blank(#[trigger] gaps[m][t])
}

proof fn lemma_skip_blank_run(s: Seq<char>, i: int, n: int)
    requires
        0 <= i,
        0 <= n,
        i + n < s.len(),
        forall|t: int| i <= t < i + n ==> is_blank(#[trigger] s[t]),
        !is_blank(s[i + n]),
    ensures
        skip_blanks(s, i) == i + n,
    decreases n,
{
    if n > 0 {
        lemma_skip_blank_run(s, i + 1, n - 1);
    }
}

proof fn lemma_spaced_rest(x: Seq<char>, y: Seq<char>, gaps: Seq<Seq<char>>, k: int)
    requires
        0 <= k <= 24,
        gaps_ok(gaps),
    ensures
        preamble_from(x + spaced_from(gaps, k) + y, x.len() as int, k),
    decreases 24 - k,
{
    reveal_strlit("eval(function(p,a,c,k,e,");
    assert(preamble_text() =~= seq![
        'e', 'v', 'a', 'l', '(', 'f', 'u', 'n', 'c', 't', 'i', 'o', 'n', '(', 'p', ',', 'a', ',',
        'c', ',', 'k', ',', 'e', ',',
    ]);
    if k < 24 {
        let s = x + spaced_from(gaps, k) + y;
        let gap = if k + 1 < 24 {
            gaps[k + 1]
        } else {
            Seq::<char>::empty()
        };
        let x2 = x + seq![preamble_text()[k]] + gap;
        lemma_spaced_rest(x2, y, gaps, k + 1);
        assert(s =~= x2 + spaced_from(gaps, k + 1) + y);
        let i = x.len() as int;
        assert(s[i] == preamble_text()[k]);
        let j = if gap_before(k + 1) {
            skip_blanks(s, i + 1)
        } else {
            i + 1
        };
        if k + 1 < 24 {
            assert(spaced_from(gaps, k + 1)[0] == preamble_text()[k + 1]);
            assert(s[x2.len() as int] == preamble_text()[k + 1]);
            assert forall|t: int| i + 1 <= t < i + 1 + gap.len() implies is_blank(#[trigger] s[t]) by {
                assert(s[t] == gap[t - i - 1]);
            }
            if gap_before(k + 1) {
                lemma_skip_blank_run(s, i + 1, gap.len() as int);
            }
            assert(j == x2.len());
        } else {
            assert(preamble_from(s, j, k + 1));
        }
        assert(preamble_from(s, i, k) == preamble_from(s, j, k + 1));
    }
}

/// The preamble is found wherever it stands, whatever text surrounds it and
/// whatever runs of spaces and tabs stand between its tokens.
pub proof fn lemma_preamble_found(x: Seq<char>, y: Seq<char>, gaps: Seq<Seq<char>>)
    requires
        gaps_ok(gaps),
    ensures
        preamble_at(x + spaced_from(gaps, 0) + y, x.len() as int),
{
    lemma_spaced_rest(x, y, gaps, 0);
}

fn preamble_at_exec(s: &Vec<char>, i: usize, pattern: &Vec<char>) -> (r: bool)
    requires
        i <= s@.len(),
        pattern@ == preamble_text(),
    ensures
        r == preamble_at(s@, i as int),
{
    proof {
        reveal_strlit("eval(function(p,a,c,k,e,");
    }
    let mut j: usize = i;
    let mut k: usize = 0;
    while k < 24
        invariant
            k <= 24,
            j <= s@.len(),
            pattern@ == preamble_text(),
            pattern@.len() == 24,
            preamble_at(s@, i as int) == preamble_from(s@, j as int, k as int),
        decreases 24 - k,
    {
        if !(j < s.len() && s[j] == pattern[k]) {
            return false;
        }
        j = if k + 1 == 4 || k + 1 == 5 || k + 1 >= 13 {
            skip_blanks_exec(s, j + 1)
        } else {
            j + 1
        };
        k = k + 1;
    }
    true
}

/// Where the first preamble in `s` starts.
pub fn find_preamble_exec(s: &Vec<char>) -> (r: Option<usize>)
    ensures
        r matches Some(b) ==> find_preamble(s@) == Some(b as int) && b <= s@.len(),
        r is None ==> find_preamble(s@) is None,
{
    let pattern = chars_of("eval(function(p,a,c,k,e,");
    let ghost f = preamble_pred(s@);
    let mut p: usize = 0;
    loop
        invariant
            p <= s@.len(),
            pattern@ == preamble_text(),
            f == preamble_pred(s@),
            first_index(0, s@.len() as int + 1, f) == first_index(p as int, s@.len() as int + 1, f),
        decreases s@.len() - p,
    {
        if preamble_at_exec(s, p, &pattern) {
            return Some(p);
        }
        if p == s.len() {
            assert(first_index(p + 1, s@.len() as int + 1, f) is None);
            return None;
        }
        p = p + 1;
    }
}

} // verus!
