//! The error rate as an exact fraction.
//!
//! Every bound in the search has the shape "round `rate * length` down" (or
//! up). Holding the rate as a fraction of two integers makes each of them an
//! integer division with no rounding error.

use vstd::prelude::*;
use vstd::string::StringSliceAdditionalSpecFns;
use vstd::arithmetic::div_mod::*;
use vstd::arithmetic::mul::*;

verus! {

/// A fraction `num / den` in the half-open range from 0 to 1.
#[derive(Debug, Clone, Copy, PartialEq, Eq, Structural)]
pub struct ErrorRate {
    pub num: u32,
    pub den: u32,
}

/// `⌊n / d⌋` for `n >= 0`, `d > 0`.
pub open spec fn floor_div(n: int, d: int) -> int {
    n / d
}

/// `⌈n / d⌉` for `n >= 0`, `d > 0`.
pub open spec fn ceil_div(n: int, d: int) -> int {
    (n + d - 1) / d
}

/// The byte `.` that separates the whole part of a decimal number from its
/// fraction.
pub const DECIMAL_POINT: u8 = 46;

/// The number of bytes in front of the first decimal point, or of all bytes
/// where there is none, counted from `from` on.
pub open spec fn whole_len(text: Seq<u8>, from: int) -> int
    decreases text.len() - from,
{
    if from >= text.len() || text[from] == DECIMAL_POINT {
        0
    } else {
        1 + whole_len(text, from + 1)
    }
}

/// Whether every byte is a decimal digit.
pub open spec fn all_digits(s: Seq<u8>) -> bool {
    forall|i: int| 0 <= i < s.len() ==> 48 <= #[trigger] s[i] <= 57
}

/// Whether every byte is the digit 0.
pub open spec fn all_zeros(s: Seq<u8>) -> bool {
    forall|i: int| 0 <= i < s.len() ==> #[trigger] s[i] == 48
}

/// The number that a string of decimal digits writes, 0 for the empty
/// string.
pub open spec fn digits_value(s: Seq<u8>) -> int
    decreases s.len(),
{
    if s.len() == 0 {
        0
    } else {
        digits_value(s.drop_last()) * 10 + (s.last() - 48)
    }
}

/// `10` to the power `n`.
pub open spec fn pow10(n: nat) -> int
    decreases n,
{
    if n == 0 {
        1
    } else {
        10 * pow10((n - 1) as nat)
    }
}

/// The rate that a decimal text writes: `0`, or `0.` with one to nine
/// digits behind the point (the whole part may repeat its zero). Any other
/// text, such as a number from 1 on, writes no rate.
pub open spec fn decimal_rate(text: Seq<u8>) -> Option<ErrorRate> {
    let split = whole_len(text, 0);
    let whole = text.take(split);
    let fraction = text.skip(split + 1);
    if whole.len() == 0 || !all_zeros(whole) {
        None
    } else if split == text.len() {
        Some(ErrorRate { num: 0, den: 1 })
    } else if fraction.len() == 0 || fraction.len() > 9 || !all_digits(fraction) {
        None
    } else {
        Some(
            ErrorRate {
                num: digits_value(fraction) as u32,
                den: pow10(fraction.len()) as u32,
            },
        )
    }
}

/// A string of at most nine digits writes a number below the matching
/// power of ten, and both fit 32 bits.
pub proof fn lemma_digits_value_bounds(s: Seq<u8>)
    requires
        all_digits(s),
        s.len() <= 9,
    ensures
        0 <= digits_value(s) < pow10(s.len()),
        1 <= pow10(s.len()) <= 1_000_000_000,
    decreases s.len(),
{
    reveal_with_fuel(pow10, 11);
    if s.len() > 0 {
        assert(all_digits(s.drop_last())) by {
            assert forall|i: int| 0 <= i < s.drop_last().len() implies 48
                <= #[trigger] s.drop_last()[i] <= 57 by {
                assert(s.drop_last()[i] == s[i]);
            }
        }
        lemma_digits_value_bounds(s.drop_last());
        assert(48 <= s[s.len() - 1] <= 57);
    }
}

impl ErrorRate {
    /// Reads a rate from a decimal text: see [`decimal_rate`].
    pub fn from_decimal(text: &str) -> (r: Option<ErrorRate>)
        ensures
            r == decimal_rate(text.spec_bytes()),
            r matches Some(e) ==> e.wf(),
    {
        let bytes: &[u8] = text.as_bytes();
        let ghost all = bytes@;
        let mut split: usize = 0;
        let mut zeros: bool = true;
        while split < bytes.len() && bytes[split] != DECIMAL_POINT
            invariant
                0 <= split <= bytes@.len(),
                all == bytes@,
                whole_len(all, 0) == split + whole_len(all, split as int),
                zeros == all_zeros(all.take(split as int)),
            decreases bytes@.len() - split,
        {
            let ghost before = all.take(split as int);
            let ghost after = all.take(split + 1);
            if bytes[split] != 48 {
                zeros = false;
                assert(after[split as int] != 48);
            } else {
                proof {
                    if zeros {
                        assert forall|i: int| 0 <= i < after.len() implies #[trigger] after[i]
                            == 48 by {
                            if i < split {
                                assert(before[i] == 48);
                            }
                        }
                    } else {
                        let w = choose|w: int| 0 <= w < before.len() && before[w] != 48;
                        assert(after[w] != 48);
                    }
                }
            }
            split = split + 1;
        }
        if split == 0 || !zeros {
            return None;
        }
        if split == bytes.len() {
            return Some(ErrorRate { num: 0, den: 1 });
        }
        let ghost fraction = all.skip(split + 1);
        let start: usize = split + 1;
        let count: usize = bytes.len() - start;
        if count == 0 || count > 9 {
            return None;
        }
        let mut num: u32 = 0;
        let mut den: u32 = 1;
        let mut i: usize = 0;
        assert(fraction.take(0).len() == 0);
        while i < count
            invariant
                0 <= i <= count <= 9,
                start + count == bytes@.len(),
                bytes@.len() <= usize::MAX,
                all == text.spec_bytes(),
                start == split + 1,
                1 <= split < bytes@.len(),
                split == whole_len(all, 0),
                all_zeros(all.take(split as int)),
                all == bytes@,
                fraction == all.skip(start as int),
                fraction.len() == count,
                all_digits(fraction.take(i as int)),
                num as int == digits_value(fraction.take(i as int)),
                den as int == pow10(i as nat),
                num < den <= 1_000_000_000,
            decreases count - i,
        {
            let b: u8 = bytes[start + i];
            let ghost before = fraction.take(i as int);
            let ghost after = fraction.take(i + 1);
            proof {
                assert(after.drop_last() =~= before);
                assert(after.last() == b);
                assert(fraction[i as int] == b);
            }
            if b < 48 || b > 57 {
                proof {
                    assert(!(48 <= fraction[i as int] <= 57));
                    assert(!all_digits(fraction));
                }
                return None;
            }
            proof {
                assert forall|j: int| 0 <= j < after.len() implies 48 <= #[trigger] after[j]
                    <= 57 by {
                    if j < i {
                        assert(before[j] == after[j]);
                    }
                }
                lemma_digits_value_bounds(after);
            }
            num = num * 10 + (b - 48) as u32;
            den = den * 10;
            i = i + 1;
        }
        proof {
            assert(fraction.take(count as int) =~= fraction);
        }
        Some(ErrorRate { num, den })
    }

    /// The fraction is proper: a positive denominator and a value below 1.
    pub open spec fn wf(self) -> bool {
        0 < self.den && self.num < self.den
    }

    /// `⌊rate * len⌋`.
    pub open spec fn floor_of(self, len: int) -> int {
        floor_div(self.num * len, self.den as int)
    }

    /// `⌈rate * len⌉`.
    pub open spec fn ceil_of(self, len: int) -> int {
        ceil_div(self.num * len, self.den as int)
    }

    /// `⌊len / (1 - rate)⌋`: the longest text that `len` pattern symbols can
    /// align with.
    pub open spec fn stretched(self, len: int) -> int {
        floor_div(len * self.den, self.den - self.num)
    }

    /// `⌈len * (1 - rate)⌉`: the shortest text that `len` pattern symbols can
    /// align with.
    pub open spec fn shrunk(self, len: int) -> int {
        ceil_div(len * (self.den - self.num), self.den as int)
    }

    /// Builds `num / den`, or nothing when that is not a rate in `[0, 1)`.
    pub fn new(num: u32, den: u32) -> (r: Option<ErrorRate>)
        ensures
            r.is_some() <==> (0 < den && num < den),
            r matches Some(e) ==> e.num == num && e.den == den && e.wf(),
    {
        if 0 < den && num < den {
            Some(ErrorRate { num, den })
        } else {
            None
        }
    }

    /// The rate 0: no error is allowed.
    pub fn zero() -> (r: ErrorRate)
        ensures
            r.num == 0,
            r.den == 1,
            r.wf(),
    {
        ErrorRate { num: 0, den: 1 }
    }

    /// `⌊rate * len⌋`.
    pub fn floor_mul(&self, len: u32) -> (r: u32)
        requires
            self.wf(),
        ensures
            r as int == self.floor_of(len as int),
            r <= len,
    {
        let n: u64 = self.num as u64;
        let d: u64 = self.den as u64;
        let l: u64 = len as u64;
        proof {
            lemma_mul_upper_bound(n as int, u32::MAX as int, l as int, u32::MAX as int);
            lemma_rate_floor_bounds(*self, len as int);
        }
        let q: u64 = (n * l) / d;
        q as u32
    }

    /// `⌈rate * len⌉`.
    pub fn ceil_mul(&self, len: u32) -> (r: u32)
        requires
            self.wf(),
        ensures
            r as int == self.ceil_of(len as int),
            r <= len,
    {
        let n: u64 = self.num as u64;
        let d: u64 = self.den as u64;
        let l: u64 = len as u64;
        proof {
            lemma_mul_upper_bound(n as int, u32::MAX as int, l as int, u32::MAX as int);
            lemma_rate_ceil_bounds(*self, len as int);
        }
        let q: u64 = (n * l + (d - 1)) / d;
        q as u32
    }

    /// `⌊len / (1 - rate)⌋`.
    pub fn stretch(&self, len: u32) -> (r: u64)
        requires
            self.wf(),
        ensures
            r as int == self.stretched(len as int),
            r >= len,
    {
        let d: u64 = self.den as u64;
        let rest: u64 = (self.den - self.num) as u64;
        let l: u64 = len as u64;
        proof {
            lemma_mul_upper_bound(l as int, u32::MAX as int, d as int, u32::MAX as int);
            lemma_rate_stretch_bounds(*self, len as int);
        }
        (l * d) / rest
    }

    /// `⌈len * (1 - rate)⌉`.
    pub fn shrink(&self, len: u32) -> (r: u32)
        requires
            self.wf(),
        ensures
            r as int == self.shrunk(len as int),
            r <= len,
    {
        let d: u64 = self.den as u64;
        let rest: u64 = (self.den - self.num) as u64;
        let l: u64 = len as u64;
        proof {
            lemma_mul_upper_bound(l as int, u32::MAX as int, rest as int, u32::MAX as int);
            lemma_rate_shrink_bounds(*self, len as int);
        }
        let q: u64 = (l * rest + (d - 1)) / d;
        q as u32
    }
}

/// `⌊n / d⌋` is the one integer `q` with `q * d <= n < (q + 1) * d`.
pub proof fn lemma_floor_div_char(n: int, d: int, q: int)
    requires
        d > 0,
    ensures
        floor_div(n, d) == q <==> (q * d <= n < (q + 1) * d),
{
    lemma_fundamental_div_mod(n, d);
    lemma_mod_bound(n, d);
    let f = n / d;
    assert(n == d * f + n % d);
    assert(d * f == f * d) by (nonlinear_arith);
    if q * d <= n < (q + 1) * d {
        if q < f {
            assert((q + 1) * d <= f * d) by (nonlinear_arith)
                requires q + 1 <= f, d > 0;
        }
        if q > f {
            assert((f + 1) * d <= q * d) by (nonlinear_arith)
                requires f + 1 <= q, d > 0;
            assert((f + 1) * d == f * d + d) by (nonlinear_arith);
        }
    }
    if f == q {
        assert((f + 1) * d == f * d + d) by (nonlinear_arith);
    }
}

/// `⌈n / d⌉` is the one integer `q` with `(q - 1) * d < n <= q * d`.
pub proof fn lemma_ceil_div_char(n: int, d: int, q: int)
    requires
        d > 0,
    ensures
        ceil_div(n, d) == q <==> ((q - 1) * d < n <= q * d),
{
    lemma_floor_div_char(n + d - 1, d, q);
    assert((q + 1) * d == q * d + d) by (nonlinear_arith);
    assert((q - 1) * d == q * d - d) by (nonlinear_arith);
}

/// Both roundings are monotone in the numerator.
pub proof fn lemma_div_monotone(n1: int, n2: int, d: int)
    requires
        d > 0,
        n1 <= n2,
    ensures
        floor_div(n1, d) <= floor_div(n2, d),
        ceil_div(n1, d) <= ceil_div(n2, d),
{
    lemma_div_is_ordered(n1, n2, d);
    lemma_div_is_ordered(n1 + d - 1, n2 + d - 1, d);
}

/// `0 <= ⌊rate * len⌋ <= len`, and 0 for the rate 0.
pub proof fn lemma_rate_floor_bounds(e: ErrorRate, len: int)
    requires
        e.wf(),
        len >= 0,
    ensures
        0 <= e.floor_of(len) <= len,
        e.floor_of(len) <= e.ceil_of(len) <= e.floor_of(len) + 1,
{
    let n = e.num * len;
    let d = e.den as int;
    assert(0 <= n <= d * len) by (nonlinear_arith)
        requires n == e.num * len, 0 <= e.num < d, len >= 0;
    lemma_div_is_ordered(0, n, d);
    lemma_div_is_ordered(n, d * len, d);
    lemma_div_multiples_vanish(len, d);
    lemma_div_is_ordered(n, n + d - 1, d);
    lemma_div_is_ordered(n + d - 1, n + d, d);
    lemma_div_plus_one(n, d);
}

/// `0 <= ⌈rate * len⌉ <= len`.
pub proof fn lemma_rate_ceil_bounds(e: ErrorRate, len: int)
    requires
        e.wf(),
        len >= 0,
    ensures
        0 <= e.ceil_of(len) <= len,
{
    lemma_rate_floor_bounds(e, len);
    let d = e.den as int;
    let n = e.num * len;
    assert(n <= len * d) by (nonlinear_arith)
        requires n == e.num * len, 0 <= e.num < d, len >= 0;
    lemma_ceil_div_char(n, d, e.ceil_of(len));
    if e.ceil_of(len) > len {
        assert((e.ceil_of(len) - 1) * d >= len * d) by (nonlinear_arith)
            requires e.ceil_of(len) - 1 >= len, d > 0;
    }
}

/// `len <= ⌊len / (1 - rate)⌋ <= len * den`.
pub proof fn lemma_rate_stretch_bounds(e: ErrorRate, len: int)
    requires
        e.wf(),
        len >= 0,
    ensures
        len <= e.stretched(len) <= len * e.den,
{
    let rest = e.den - e.num;
    let n = len * e.den;
    assert(len * rest <= n) by (nonlinear_arith)
        requires n == len * e.den, 0 < rest <= e.den, len >= 0;
    assert(0 <= n) by (nonlinear_arith)
        requires n == len * e.den, len >= 0;
    lemma_div_is_ordered(len * rest, n, rest);
    assert(len * rest == rest * len) by (nonlinear_arith);
    lemma_div_multiples_vanish(len, rest);
    lemma_div_is_ordered_by_denominator(n, 1, rest);
    lemma_div_basics(n);
}

/// `0 <= ⌈len * (1 - rate)⌉ <= len`.
pub proof fn lemma_rate_shrink_bounds(e: ErrorRate, len: int)
    requires
        e.wf(),
        len >= 0,
    ensures
        0 <= e.shrunk(len) <= len,
        len > 0 ==> e.shrunk(len) > 0,
{
    let rest = e.den - e.num;
    let d = e.den as int;
    let n = len * rest;
    assert(0 <= n <= len * d) by (nonlinear_arith)
        requires n == len * rest, 0 < rest <= d, len >= 0;
    assert(len > 0 ==> n > 0) by (nonlinear_arith)
        requires n == len * rest, 0 < rest, len >= 0;
    lemma_ceil_div_char(n, d, e.shrunk(len));
    if e.shrunk(len) > len {
        assert((e.shrunk(len) - 1) * d >= len * d) by (nonlinear_arith)
            requires e.shrunk(len) - 1 >= len, d > 0;
    }
    if e.shrunk(len) < 0 {
        assert(e.shrunk(len) * d < 0) by (nonlinear_arith)
            requires e.shrunk(len) < 0, d > 0;
    }
    if len > 0 && e.shrunk(len) == 0 {
        assert(e.shrunk(len) * d == 0) by (nonlinear_arith)
            requires e.shrunk(len) == 0;
    }
}

} // verus!
