//! Decoding of numerals written in a positional base from 2 to 62, or 95.
use vstd::prelude::*;

use crate::text::chars_of;

verus! {

/// The bases a decoder can be built for.
pub open spec fn supported_base(base: nat) -> bool {
    (2 <= base && base <= 62) || base == 95
}

/// Digit value in the native alphabets (bases up to 36): `0-9`, then letters
/// of either case.
pub open spec fn native_digit(c: char) -> Option<nat> {
    let u = c as u32;
    if 48 <= u && u <= 57 {
        Some((u - 48) as nat)
    } else if 97 <= u && u <= 122 {
        Some((u - 87) as nat)
    } else if 65 <= u && u <= 90 {
        Some((u - 55) as nat)
    } else {
        None
    }
}

/// Position of `c` in the alphabet `0-9a-zA-Z`.
pub open spec fn alnum_digit(c: char) -> Option<nat> {
    let u = c as u32;
    if 48 <= u && u <= 57 {
        Some((u - 48) as nat)
    } else if 97 <= u && u <= 122 {
        Some((u - 87) as nat)
    } else if 65 <= u && u <= 90 {
        Some((u - 29) as nat)
    } else {
        None
    }
}

/// Position of `c` in the printable ASCII range, space to tilde.
pub open spec fn printable_digit(c: char) -> Option<nat> {
    let u = c as u32;
    if 32 <= u && u <= 126 {
        Some((u - 32) as nat)
    } else {
        None
    }
}

/// The value of `c` as a digit of `base`, if it is one.
pub open spec fn digit_value(base: nat, c: char) -> Option<nat> {
    let v = if base <= 36 {
        native_digit(c)
    } else if base <= 62 {
        alnum_digit(c)
    } else {
        printable_digit(c)
    };
    if v is Some && v->0 < base {
        v
    } else {
        None
    }
}

pub open spec fn all_digits(base: nat, s: Seq<char>) -> bool {
    forall|i: int| 0 <= i < s.len() ==> (#[trigger] digit_value(base, s[i])) is Some
}

/// Positional value of a string of digits, most significant first.
pub open spec fn numeral_value(base: nat, s: Seq<char>) -> nat
    decreases s.len(),
{
    if s.len() == 0 {
        0
    } else {
        numeral_value(base, s.drop_last()) * base + digit_value(base, s.last())->0
    }
}

/// Why a numeral could not be decoded.
pub enum DecodeFault {
    /// Not a well-formed numeral, or too large for `usize`.
    Format,
    /// A character outside the alphabet of a dictionary base.
    Character,
}

pub open spec fn fault_message(f: DecodeFault) -> Seq<char> {
    match f {
        DecodeFault::Format => "Invalid number format"@,
        DecodeFault::Character => "Invalid character in input string."@,
    }
}

/// What decoding `s` in `base` gives.
///
/// Bases up to 36 read at least one digit, letters in either case. The dictionary bases read their alphabet only, case
/// significant; the empty string is zero there. A value beyond `usize` is a
/// format fault.
pub open spec fn unbase_spec(base: nat, s: Seq<char>) -> Result<nat, DecodeFault> {
    if base <= 36 {
        if s.len() == 0 || !all_digits(base, s) {
            Err(DecodeFault::Format)
        } else if numeral_value(base, s) > usize::MAX {
            Err(DecodeFault::Format)
        } else {
            Ok(numeral_value(base, s))
        }
    } else {
        if !all_digits(base, s) {
            Err(DecodeFault::Character)
        } else if numeral_value(base, s) > usize::MAX {
            Err(DecodeFault::Format)
        } else {
            Ok(numeral_value(base, s))
        }
    }
}

/// Does `r` report exactly what `unbase_spec` gives?
pub open spec fn unbase_result(base: nat, s: Seq<char>, r: Result<usize, &'static str>) -> bool {
    match unbase_spec(base, s) {
        Ok(v) => r == Ok::<usize, &'static str>(v as usize),
        Err(f) => r is Err && r->Err_0@ == fault_message(f),
    }
}

/// Converts strings of digits in one base to natural numbers.
#[derive(Debug)]
pub struct Unbaser {
    base: usize,
}

impl Unbaser {
    /// The base this decoder reads.
    pub closed spec fn base_of(&self) -> nat {
        self.base as nat
    }

    pub open spec fn wf(&self) -> bool {
        supported_base(self.base_of())
    }

    /// Creates a decoder for `base`, one of 2 to 62, or 95.
    pub fn new(base: usize) -> (r: Result<Self, &'static str>)
        ensures
            supported_base(base as nat) <==> r is Ok,
            r matches Ok(u) ==> u.wf() && u.base_of() == base,
            r matches Err(e) ==> e@ == "Unsupported base encoding."@,
    {
        if (2 <= base && base <= 62) || base == 95 {
            Ok(Unbaser { base })
        } else {
            proof {
                reveal_strlit("Unsupported base encoding.");
            }
            Err("Unsupported base encoding.")
        }
    }

    /// The value of `c` as a digit of the base of this decoder.
    fn digit(&self, c: char) -> (r: Option<usize>)
        requires
            self.wf(),
        ensures
            r matches Some(v) ==> digit_value(self.base_of(), c) == Some(v as nat),
            r is None ==> digit_value(self.base_of(), c) is None,
    {
        let u = c as u32;
        let v: u32 = if self.base <= 36 {
            if 48 <= u && u <= 57 {
                u - 48
            } else if 97 <= u && u <= 122 {
                u - 87
            } else if 65 <= u && u <= 90 {
                u - 55
            } else {
                return None;
            }
        } else if self.base <= 62 {
            if 48 <= u && u <= 57 {
                u - 48
            } else if 97 <= u && u <= 122 {
                u - 87
            } else if 65 <= u && u <= 90 {
                u - 29
            } else {
                return None;
            }
        } else {
            if 32 <= u && u <= 126 {
                u - 32
            } else {
                return None;
            }
        };
        if (v as usize) < self.base {
            Some(v as usize)
        } else {
            None
        }
    }

    /// Horner evaluation of `s[from..]`, all of whose characters are digits;
    /// `None` exactly when the value exceeds `usize`.
    fn accumulate(&self, s: &Vec<char>, from: usize) -> (r: Option<usize>)
        requires
            self.wf(),
            from <= s@.len(),
            all_digits(self.base_of(), s@.subrange(from as int, s@.len() as int)),
        ensures
            ({
                let v = numeral_value(self.base_of(), s@.subrange(from as int, s@.len() as int));
                &&& v <= usize::MAX ==> r == Some(v as usize)
                &&& v > usize::MAX ==> r is None
            }),
    {
        let ghost base = self.base_of();
        let mut acc: usize = 0;
        let mut i: usize = from;
        while i < s.len()
            invariant
                self.wf(),
                base == self.base_of(),
                from <= i <= s@.len(),
                all_digits(base, s@.subrange(from as int, s@.len() as int)),
                acc as nat == numeral_value(base, s@.subrange(from as int, i as int)),
            decreases s@.len() - i,
        {
            let ghost prefix = s@.subrange(from as int, i as int);
            let ghost next = s@.subrange(from as int, i + 1);
            assert(next.drop_last() =~= prefix);
            assert(next.last() == s@[i as int]);
            assert(s@[i as int] == s@.subrange(from as int, s@.len() as int)[i - from]);
            let d = match self.digit(s[i]) {
                Some(d) => d,
                None => {
                    return None;
                },
            };
            match acc.checked_mul(self.base) {
                Some(m) => match m.checked_add(d) {
                    Some(a) => {
                        acc = a;
                    },
                    None => {
                        proof {
                            lemma_value_grows(base, s@.subrange(from as int, s@.len() as int), i + 1 - from);
                            assert(s@.subrange(from as int, s@.len() as int).subrange(0, i + 1 - from) =~= next);
                        }
                        return None;
                    },
                },
                None => {
                    proof {
                        assert(acc * base <= acc * base + d) by (nonlinear_arith)
                            requires d >= 0;
                        lemma_value_grows(base, s@.subrange(from as int, s@.len() as int), i + 1 - from);
                        assert(s@.subrange(from as int, s@.len() as int).subrange(0, i + 1 - from) =~= next);
                    }
                    return None;
                },
            }
            i = i + 1;
        }
        assert(s@.subrange(from as int, i as int) =~= s@.subrange(from as int, s@.len() as int));
        Some(acc)
    }

    /// Decodes `input` in the base of this decoder.
    ///
    /// Bases up to 36 take at least one digit, letters in
    /// either case; other input is `"Invalid number format"`. The dictionary
    /// bases read only their own alphabet (`"Invalid character in input
    /// string."` otherwise) and give 0 for the empty string. A value too large
    /// for `usize` is `"Invalid number format"` in every base.
    pub fn unbase(&self, input: &str) -> (r: Result<usize, &'static str>)
        requires
            self.wf(),
        ensures
            unbase_result(self.base_of(), input@, r),
    {
        let s = chars_of(input);
        self.unbase_chars(&s)
    }

    /// `unbase` on a string given as its characters.
    pub fn unbase_chars(&self, s: &Vec<char>) -> (r: Result<usize, &'static str>)
        requires
            self.wf(),
        ensures
            unbase_result(self.base_of(), s@, r),
    {
        proof {
            reveal_strlit("Invalid number format");
            reveal_strlit("Invalid character in input string.");
        }
        if self.base <= 36 {
            assert(s@.subrange(0, s@.len() as int) =~= s@);
            if s.len() == 0 {
                return Err("Invalid number format");
            }
            if !self.all_digits_from(s, 0) {
                return Err("Invalid number format");
            }
            match self.accumulate(s, 0) {
                Some(v) => Ok(v),
                None => Err("Invalid number format"),
            }
        } else {
            self.unbase_with_dict(s)
        }
    }

    /// Decoding in a dictionary base (above 36).
    fn unbase_with_dict(&self, s: &Vec<char>) -> (r: Result<usize, &'static str>)
        requires
            self.wf(),
            self.base_of() > 36,
        ensures
            unbase_result(self.base_of(), s@, r),
    {
        proof {
            reveal_strlit("Invalid number format");
            reveal_strlit("Invalid character in input string.");
        }
        assert(s@.subrange(0, s@.len() as int) =~= s@);
        if !self.all_digits_from(s, 0) {
            return Err("Invalid character in input string.");
        }
        match self.accumulate(s, 0) {
            Some(v) => Ok(v),
            None => Err("Invalid number format"),
        }
    }

    /// Are all characters of `s[from..]` digits of this base?
    fn all_digits_from(&self, s: &Vec<char>, from: usize) -> (r: bool)
        requires
            self.wf(),
            from <= s@.len(),
        ensures
            r == all_digits(self.base_of(), s@.subrange(from as int, s@.len() as int)),
    {
        let ghost t = s@.subrange(from as int, s@.len() as int);
        let mut i: usize = from;
        while i < s.len()
            invariant
                self.wf(),
                from <= i <= s@.len(),
                t == s@.subrange(from as int, s@.len() as int),
                forall|k: int| 0 <= k < i - from ==> (#[trigger] digit_value(self.base_of(), t[k])) is Some,
            decreases s@.len() - i,
        {
            if self.digit(s[i]).is_none() {
                assert(t[i - from] == s@[i as int]);
                return false;
            }
            assert(t[i - from] == s@[i as int]);
            i = i + 1;
        }
        true
    }
}

/// The digit of value `v` in the alphabet of `base`: `0-9a-z` up to 36,
/// `0-9a-zA-Z` up to 62, printable ASCII from space for 95.
pub open spec fn alphabet_char(base: nat, v: nat) -> char {
    if base == 95 {
        ((v + 32) as u8) as char
    } else if v < 10 {
        ((v + 48) as u8) as char
    } else if v < 36 {
        ((v + 87) as u8) as char
    } else {
        ((v + 29) as u8) as char
    }
}

/// `n` written in `base`, most significant digit first, without leading
/// zeros.
pub open spec fn encode(base: nat, n: nat) -> Seq<char>
    decreases n,
    via encode_decreases
{
    if base < 2 || n < base {
        seq![alphabet_char(base, n)]
    } else {
        encode(base, n / base).push(alphabet_char(base, n % base))
    }
}

#[via_fn]
proof fn encode_decreases(base: nat, n: nat) {
    if !(base < 2 || n < base) {
        assert(n / base < n) by (nonlinear_arith)
            requires base >= 2, n >= base;
    }
}

proof fn lemma_alphabet_char_value(base: nat, v: nat)
    requires
        supported_base(base),
        v < base,
    ensures
        digit_value(base, alphabet_char(base, v)) == Some(v),
{
    let c = alphabet_char(base, v);
    if base == 95 {
        assert(((v + 32) as u8) as char as u32 == v + 32);
    } else if v < 10 {
        assert(((v + 48) as u8) as char as u32 == v + 48);
    } else if v < 36 {
        assert(((v + 87) as u8) as char as u32 == v + 87);
    } else {
        assert(((v + 29) as u8) as char as u32 == v + 29);
    }
}

proof fn lemma_encode_digits(base: nat, n: nat)
    requires
        supported_base(base),
    ensures
        all_digits(base, encode(base, n)),
        numeral_value(base, encode(base, n)) == n,
        encode(base, n).len() > 0,
    decreases n,
{
    if n < base {
        lemma_alphabet_char_value(base, n);
        let e = encode(base, n);
        assert(e.drop_last() =~= Seq::<char>::empty());
        assert(numeral_value(base, e.drop_last()) == 0);
        assert(e.last() == alphabet_char(base, n));
        assert(numeral_value(base, e) == numeral_value(base, e.drop_last()) * base + n);
        assert(0 * base == 0);
    } else {
        assert(n / base < n) by (nonlinear_arith)
            requires base >= 2, n >= base;
        lemma_encode_digits(base, n / base);
        lemma_alphabet_char_value(base, n % base);
        let prefix = encode(base, n / base);
        let e = encode(base, n);
        assert(e.drop_last() =~= prefix);
        assert(e.last() == alphabet_char(base, n % base));
        assert(numeral_value(base, e) == numeral_value(base, prefix) * base + n % base);
        assert(n == (n / base) * base + n % base) by (nonlinear_arith)
            requires base > 0;
    }
}

/// For every base up to 36 and every digit value `i` below it, the one-digit
/// string of the `i`-th character of `0123456789abcdefghijklmnopqrstuvwxyz`
/// decodes to `i`.
pub proof fn lemma_digit_alphabet(base: nat, i: nat)
    requires
        2 <= base <= 36,
        i < base,
    ensures
        unbase_spec(base, seq![alphabet_char(base, i)]) == Ok::<nat, DecodeFault>(i),
{
    lemma_encode_digits(base, i);
    assert(encode(base, i) == seq![alphabet_char(base, i)]);
}

/// Encoding `n` in a supported base and decoding the result gives `n` back,
/// for every `n` that fits in `usize`.
pub proof fn lemma_round_trip(base: nat, n: nat)
    requires
        supported_base(base),
        n <= usize::MAX,
    ensures
        unbase_spec(base, encode(base, n)) == Ok::<nat, DecodeFault>(n),
{
    lemma_encode_digits(base, n);
}

/// A value does not shrink when digits are appended.
proof fn lemma_value_grows(base: nat, s: Seq<char>, k: int)
    requires
        0 <= k <= s.len(),
        base >= 1,
    ensures
        numeral_value(base, s.subrange(0, k)) <= numeral_value(base, s),
    decreases s.len() - k,
{
    if k < s.len() {
        lemma_value_grows(base, s, k + 1);
        let t = s.subrange(0, k + 1);
        assert(t.drop_last() =~= s.subrange(0, k));
        let a = numeral_value(base, s.subrange(0, k));
        assert(a <= a * base) by (nonlinear_arith)
            requires base >= 1;
    }
    else {
        assert(s.subrange(0, k) =~= s);
    }
}

} // verus!
