//! Numbers as exact decimals: canonical form, finite range, and integer
//! values.
use vstd::prelude::*;
use crate::value::Number;

verus! {

/// `10^e`.
pub open spec fn pow10(e: nat) -> nat
    decreases e,
{
    if e == 0 { 1 } else { 10 * pow10((e - 1) as nat) }
}

/// The number of decimal digits of `m` (zero has none).
pub open spec fn ndigits(m: nat) -> nat
    decreases m,
{
    if m == 0 { 0 } else { 1 + ndigits(m / 10) }
}

/// The largest integer magnitude that a double represents exactly: `2^53 - 1`.
pub const MAX_EXACT: u64 = 9007199254740991;

/// The largest decimal position of a leading digit that a double can hold.
pub const MAX_LEAD: i64 = 309;

/// The smallest: a value below `10^-324` is zero in double precision.
pub const MIN_LEAD: i64 = -323;

/// `m` without its trailing zero digits, and how many there were, added to `e`.
pub open spec fn strip_zeros(m: nat, e: nat) -> (nat, nat)
    decreases m,
{
    if m > 0 && m % 10 == 0 {
        strip_zeros(m / 10, e + 1)
    } else {
        (m, e)
    }
}

pub proof fn lemma_strip_zeros(m: nat, e: nat)
    ensures
        strip_zeros(m, e).0 * pow10(strip_zeros(m, e).1) == m * pow10(e),
        strip_zeros(m, e).1 >= e,
        m > 0 ==> strip_zeros(m, e).0 > 0 && strip_zeros(m, e).0 % 10 != 0,
        m == 0 ==> strip_zeros(m, e) == (0nat, e),
        strip_zeros(m, e).0 <= m,
    decreases m,
{
    if m > 0 && m % 10 == 0 {
        lemma_strip_zeros(m / 10, e + 1);
        lemma_pow10_succ(e);
        assert((m / 10) * pow10(e + 1) == m * pow10(e)) by (nonlinear_arith)
            requires
                m % 10 == 0,
                pow10(e + 1) == 10 * pow10(e),
        {}
    }
}

impl Number {
    /// The canonical number of integer `x`.
    pub open spec fn of_int(x: int) -> Number {
        let a = if x < 0 { -x } else { x };
        let (m, e) = strip_zeros(a as nat, 0);
        Number { negative: x < 0, magnitude: m as u64, exponent: e as i32 }
    }

    /// Canonical form (no trailing zero digit, a single zero) within the finite
    /// range of a double.
    pub open spec fn wf(self) -> bool {
        if self.magnitude == 0 {
            !self.negative && self.exponent == 0
        } else {
            &&& self.magnitude % 10 != 0
            &&& MIN_LEAD <= self.exponent + ndigits(self.magnitude as nat) <= MAX_LEAD
        }
    }

    /// The number has no fractional part.
    pub open spec fn is_integer(self) -> bool {
        self.magnitude == 0 || self.exponent >= 0
    }

    /// The value of an integer number.
    pub open spec fn int_value(self) -> int {
        let a = self.magnitude * pow10(if self.exponent >= 0 { self.exponent as nat } else { 0 });
        if self.negative { -a } else { a }
    }

    /// Zero.
    pub fn zero() -> (r: Number)
        ensures
            r == (Number { negative: false, magnitude: 0, exponent: 0 }),
            r.wf(),
            r.is_integer(),
            r.int_value() == 0,
    {
        Number { negative: false, magnitude: 0, exponent: 0 }
    }

    /// The number `x`, exactly.
    pub fn from_u64(x: u64) -> (r: Number)
        ensures
            r == Number::of_int(x as int),
            r.wf(),
            r.is_integer(),
            r.int_value() == x,
    {
        Number::from_parts(false, x)
    }

    /// The number `x`, exactly.
    pub fn from_i64(x: i64) -> (r: Number)
        ensures
            r == Number::of_int(x as int),
            r.wf(),
            r.is_integer(),
            r.int_value() == x,
    {
        if x < 0 {
            let m: u64 = if x == i64::MIN {
                9223372036854775808u64
            } else {
                (-x) as u64
            };
            Number::from_parts(true, m)
        } else {
            Number::from_parts(false, x as u64)
        }
    }

    fn from_parts(negative: bool, m: u64) -> (r: Number)
        requires
            negative ==> m > 0,
        ensures
            r == Number::of_int(if negative { -(m as int) } else { m as int }),
            r.wf(),
            r.is_integer(),
            r.int_value() == if negative { -(m as int) } else { m as int },
    {
        if m == 0 {
            return Number::zero();
        }
        let mut mag: u64 = m;
        let mut e: i32 = 0;
        proof {
            assert(pow10(0) == 1);
            assert(mag * pow10(e as nat) == mag * 1);
            lemma_ndigits_u64(m as nat);
        }
        while mag % 10 == 0
            invariant
                mag > 0,
                0 <= e <= 20,
                mag * pow10(e as nat) == m,
                ndigits(mag as nat) + e == ndigits(m as nat),
                ndigits(m as nat) <= 20,
                strip_zeros(mag as nat, e as nat) == strip_zeros(m as nat, 0),
            decreases mag,
        {
            proof {
                lemma_pow10_succ(e as nat);
                assert(ndigits(mag as nat) == 1 + ndigits((mag / 10) as nat));
                assert((mag / 10) * 10 == mag);
                assert((mag / 10) * pow10((e + 1) as nat) == m) by (nonlinear_arith)
                    requires
                        (mag / 10) * 10 == mag,
                        pow10((e + 1) as nat) == 10 * pow10(e as nat),
                        mag * pow10(e as nat) == m,
                {}
                lemma_ndigits_pos(mag as nat);
            }
            mag = mag / 10;
            e = e + 1;
        }
        proof {
            lemma_ndigits_u64(m as nat);
            lemma_ndigits_pos(mag as nat);
        }
        Number { negative, magnitude: mag, exponent: e }
    }

    /// Whether the number is canonical and finite.
    pub fn is_canonical(&self) -> (r: bool)
        ensures
            r == self.wf(),
    {
        if self.magnitude == 0 {
            return !self.negative && self.exponent == 0;
        }
        if self.magnitude % 10 == 0 {
            return false;
        }
        let mut k: i64 = 0;
        let mut x: u64 = self.magnitude;
        proof {
            lemma_ndigits_u64(self.magnitude as nat);
        }
        while x > 0
            invariant
                ndigits(self.magnitude as nat) == k + ndigits(x as nat),
                ndigits(self.magnitude as nat) <= 20,
                0 <= k,
            decreases x,
        {
            proof {
                lemma_ndigits_pos(x as nat);
            }
            x = x / 10;
            k = k + 1;
        }
        let lead: i64 = self.exponent as i64 + k;
        MIN_LEAD <= lead && lead <= MAX_LEAD
    }

    /// The value of an integer number whose magnitude is below `2^64`.
    pub fn to_i128(&self) -> (r: Option<i128>)
        requires
            self.wf(),
        ensures
            r is Some <==> self.is_integer() && -0x1_0000_0000_0000_0000 < self.int_value()
                < 0x1_0000_0000_0000_0000,
            r matches Some(x) ==> x == self.int_value(),
    {
        if self.magnitude == 0 {
            return Some(0);
        }
        if self.exponent < 0 {
            return None;
        }
        let mut acc: u128 = self.magnitude as u128;
        let mut k: i32 = 0;
        assert(pow10(0) == 1);
        assert(acc == self.magnitude * pow10(k as nat)) by (nonlinear_arith)
            requires pow10(k as nat) == 1, acc == self.magnitude;
        while k < self.exponent
            invariant
                0 <= k <= self.exponent,
                self.exponent >= 0,
                self.magnitude > 0,
                acc == self.magnitude * pow10(k as nat),
                acc < 0x1_0000_0000_0000_0000,
            decreases self.exponent - k,
        {
            proof {
                lemma_pow10_succ(k as nat);
                assert(acc * 10 == self.magnitude * pow10((k + 1) as nat)) by (nonlinear_arith)
                    requires
                        acc == self.magnitude * pow10(k as nat),
                        pow10((k + 1) as nat) == 10 * pow10(k as nat),
                {}
            }
            if acc >= 0x1999_9999_9999_999A {
                proof {
                    lemma_pow10_mono((k + 1) as nat, self.exponent as nat);
                    assert(self.magnitude * pow10((k + 1) as nat) <= self.magnitude * pow10(
                        self.exponent as nat,
                    )) by (nonlinear_arith)
                        requires
                            pow10((k + 1) as nat) <= pow10(self.exponent as nat),
                            self.magnitude > 0,
                    {}
                }
                return None;
            }
            acc = acc * 10;
            k = k + 1;
        }
        if self.negative {
            Some(-(acc as i128))
        } else {
            Some(acc as i128)
        }
    }
}

pub proof fn lemma_pow10_succ(e: nat)
    ensures
        pow10(e + 1) == 10 * pow10(e),
{
    assert(pow10(e + 1) == 10 * pow10(((e + 1) - 1) as nat));
}

pub proof fn lemma_pow10_pos(e: nat)
    ensures
        pow10(e) >= 1,
    decreases e,
{
    if e > 0 {
        lemma_pow10_pos((e - 1) as nat);
    }
}

pub proof fn lemma_pow10_mono(a: nat, b: nat)
    requires
        a <= b,
    ensures
        pow10(a) <= pow10(b),
    decreases b - a,
{
    if a < b {
        lemma_pow10_mono(a, (b - 1) as nat);
        lemma_pow10_pos((b - 1) as nat);
        assert(pow10(b) == 10 * pow10((b - 1) as nat));
    }
}

pub proof fn lemma_ndigits_pos(m: nat)
    ensures
        m > 0 ==> ndigits(m) >= 1,
        m > 0 ==> ndigits(m) == 1 + ndigits(m / 10),
{
}

/// A `u64` has at most twenty digits.
pub proof fn lemma_ndigits_u64(m: nat)
    requires
        m <= u64::MAX,
    ensures
        ndigits(m) <= 20,
{
    reveal_with_fuel(pow10, 21);
    assert(pow10(20) == 100000000000000000000nat);
    lemma_ndigits_bound(m, 20);
}

/// `m < 10^k` bounds the digit count by `k`.
pub proof fn lemma_ndigits_bound(m: nat, k: nat)
    requires
        m < pow10(k),
    ensures
        ndigits(m) <= k,
    decreases k,
{
    if m > 0 && k > 0 {
        lemma_pow10_succ((k - 1) as nat);
        assert(m / 10 < pow10((k - 1) as nat));
        lemma_ndigits_bound(m / 10, (k - 1) as nat);
    } else if m > 0 {
        assert(pow10(0) == 1);
    }
}

} // verus!
