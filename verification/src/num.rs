//! Fixed-point decimal numbers.
//!
//! A `Num` holds a signed 128-bit mantissa scaled by 10^9: the number it
//! denotes is `m / 10^9`.  Nine decimal places cover the engine's literal
//! forms (percentages, currency, decimals) exactly, and every operation has
//! an exact integer specification.  Operations whose true result cannot be
//! represented return `None`; the evaluator surfaces that as an error value.

use vstd::prelude::*;
use crate::text::{
    spec_is_digit, spec_dec_digits, spec_digit_char, spec_digits_val,
    lemma_dec_digits_are_digits, dec_digits_u128,
};

verus! {

/// Mantissa units per 1: the number denoted by mantissa `m` is `m / SCALE`.
pub const SCALE: i128 = 1_000_000_000;

/// Decimal places carried by the mantissa.
pub const FRAC_DIGITS: u32 = 9;

/// A fixed-point decimal number: mantissa `m`, denoting `m / 10^9`.
#[derive(Debug, Clone, Copy, PartialEq, Eq, Hash, Structural)]
pub struct Num {
    pub m: i128,
}

/// Whether a mathematical integer fits the mantissa type.
pub open spec fn fits_i128(x: int) -> bool {
    i128::MIN <= x <= i128::MAX
}

/// Truncating division (round toward zero), as Rust's `/` computes it.
pub open spec fn spec_tdiv(x: int, d: int) -> int
    recommends
        d != 0,
{
    if x == 0 {
        0
    } else if x > 0 && d > 0 {
        x / d
    } else if x < 0 && d < 0 {
        (x * -1) / (d * -1)
    } else if x < 0 {
        ((x * -1) / d) * -1
    } else {
        (x / (d * -1)) * -1
    }
}

/// Mantissa addition: exact, `None` on overflow.
pub open spec fn spec_num_add(a: int, b: int) -> Option<int> {
    if fits_i128(a + b) {
        Some(a + b)
    } else {
        None
    }
}

/// Mantissa subtraction: exact, `None` on overflow.
pub open spec fn spec_num_sub(a: int, b: int) -> Option<int> {
    if fits_i128(a - b) {
        Some(a - b)
    } else {
        None
    }
}

/// Mantissa negation: `None` only for the most negative mantissa.
pub open spec fn spec_num_neg(a: int) -> Option<int> {
    spec_num_sub(0, a)
}

/// Fixed-point multiplication: the product of the mantissas, scaled back
/// down with truncation; `None` when the intermediate product overflows.
pub open spec fn spec_num_mul(a: int, b: int) -> Option<int> {
    if !fits_i128(a * b) {
        None
    } else {
        Some(spec_tdiv(a * b, SCALE as int))
    }
}

/// Fixed-point division: the left mantissa scaled up, divided with
/// truncation; `None` on a zero divisor or intermediate overflow.
pub open spec fn spec_num_div(a: int, b: int) -> Option<int> {
    if b == 0 {
        None
    } else if !fits_i128(a * SCALE) {
        None
    } else if !fits_i128(spec_tdiv(a * SCALE, b)) {
        None
    } else {
        Some(spec_tdiv(a * SCALE, b))
    }
}

/// Absolute value of the mantissa; `None` only for the most negative one.
pub open spec fn spec_num_abs(a: int) -> Option<int> {
    if a >= 0 {
        Some(a)
    } else {
        spec_num_neg(a)
    }
}

/// Powers of ten that fit an `i128` (the exponent may be at most 38).
pub open spec fn spec_pow10(k: nat) -> int
    decreases k,
{
    if k == 0 {
        1
    } else {
        10 * spec_pow10((k - 1) as nat)
    }
}

/// Fixed-point exponentiation by squaring with a non-negative integer
/// exponent; `None` as soon as an intermediate product overflows.
pub open spec fn spec_num_pow(base: int, k: nat) -> Option<int>
    decreases k,
{
    if k == 0 {
        Some(SCALE as int)
    } else if k % 2 == 0 {
        match spec_num_pow(base, k / 2) {
            Some(h) => spec_num_mul(h, h),
            None => None,
        }
    } else {
        match spec_num_pow(base, (k - 1) as nat) {
            Some(h) => spec_num_mul(base, h),
            None => None,
        }
    }
}


/// The mantissa option as a number option.
pub open spec fn opt_num(o: Option<int>) -> Option<Num> {
    match o {
        Some(v) => Some(Num { m: v as i128 }),
        None => None,
    }
}

impl View for Num {
    type V = int;

    open spec fn view(&self) -> int {
        self.m as int
    }
}

impl Num {
    /// The number zero.
    pub fn zero() -> (r: Num)
        ensures
            r@ == 0,
    {
        Num { m: 0 }
    }

    /// The number one.
    pub fn one() -> (r: Num)
        ensures
            r@ == SCALE as int,
    {
        Num { m: SCALE }
    }

    /// The number with the given raw mantissa (`m` denotes `m / 10^9`).
    pub fn from_mantissa(m: i128) -> (r: Num)
        ensures
            r@ == m as int,
    {
        Num { m }
    }

    /// The number denoting the integer `i`.
    pub fn from_i64(i: i64) -> (r: Num)
        ensures
            r@ == i * SCALE,
    {
        proof {
            assert(i * SCALE <= i64::MAX * SCALE) by (nonlinear_arith)
                requires i <= i64::MAX, SCALE > 0;
            assert(i * SCALE >= i64::MIN * SCALE) by (nonlinear_arith)
                requires i >= i64::MIN, SCALE > 0;
        }
        Num { m: (i as i128) * SCALE }
    }

    /// Whether this is exactly zero.
    pub fn is_zero(&self) -> (r: bool)
        ensures
            r == (self@ == 0),
    {
        self.m == 0
    }

    /// Addition; `None` on overflow.
    pub fn add(self, other: Num) -> (r: Option<Num>)
        ensures
            r == opt_num(spec_num_add(self@, other@)),
    {
        match self.m.checked_add(other.m) {
            Some(v) => Some(Num { m: v }),
            None => None,
        }
    }

    /// Subtraction; `None` on overflow.
    pub fn sub(self, other: Num) -> (r: Option<Num>)
        ensures
            r == opt_num(spec_num_sub(self@, other@)),
    {
        match self.m.checked_sub(other.m) {
            Some(v) => Some(Num { m: v }),
            None => None,
        }
    }

    /// Negation; `None` only for the most negative mantissa.
    pub fn neg(self) -> (r: Option<Num>)
        ensures
            r == opt_num(spec_num_neg(self@)),
    {
        match (0i128).checked_sub(self.m) {
            Some(v) => Some(Num { m: v }),
            None => None,
        }
    }

    /// Absolute value; `None` only for the most negative mantissa.
    pub fn abs(self) -> (r: Option<Num>)
        ensures
            r == opt_num(spec_num_abs(self@)),
    {
        if self.m >= 0 {
            Some(self)
        } else {
            self.neg()
        }
    }

    /// Fixed-point multiplication; `None` on overflow.
    pub fn mul(self, other: Num) -> (r: Option<Num>)
        ensures
            r == opt_num(spec_num_mul(self@, other@)),
    {
        match self.m.checked_mul(other.m) {
            Some(p) => {
                match p.checked_div(SCALE) {
                    Some(q) => Some(Num { m: q }),
                    None => {
                        proof {
                            lemma_tdiv_magnitude(p as int, SCALE as int);
                        }
                        None
                    },
                }
            },
            None => None,
        }
    }

    /// Fixed-point division; `None` on a zero divisor or overflow.
    pub fn div(self, other: Num) -> (r: Option<Num>)
        ensures
            r == opt_num(spec_num_div(self@, other@)),
    {
        if other.m == 0 {
            return None;
        }
        match self.m.checked_mul(SCALE) {
            Some(p) => {
                match p.checked_div(other.m) {
                    Some(q) => Some(Num { m: q }),
                    None => None,
                }
            },
            None => None,
        }
    }

    /// One percent of one hundred times: division by 100, truncating.
    pub fn percent(self) -> (r: Num)
        ensures
            r@ == spec_tdiv(self@, 100),
    {
        proof {
            lemma_tdiv_magnitude(self@, 100);
        }
        match self.m.checked_div(100) {
            Some(q) => Num { m: q },
            None => {
                // Unreachable: the quotient's magnitude is bounded by the
                // dividend's, which fits.
                proof {
                    assert(false);
                }
                Num { m: 0 }
            },
        }
    }

    /// Whether this number is an integer (no fractional part).
    pub fn is_integer(&self) -> (r: bool)
        ensures
            r == (spec_trem(self@, SCALE as int) == 0),
    {
        match self.m.checked_rem(SCALE) {
            Some(v) => v == 0,
            None => {
                proof {
                    assert(false);
                }
                false
            },
        }
    }

    /// The integer part, truncated toward zero.
    pub fn trunc_int(&self) -> (r: i128)
        ensures
            r == spec_tdiv(self@, SCALE as int),
    {
        proof {
            lemma_tdiv_magnitude(self@, SCALE as int);
        }
        match self.m.checked_div(SCALE) {
            Some(q) => q,
            None => {
                proof {
                    assert(false);
                }
                0
            },
        }
    }
}

/// Truncated remainder (the sign follows the dividend), as Rust's `%`.
pub open spec fn spec_trem(x: int, d: int) -> int
    recommends
        d != 0,
{
    if x == 0 {
        0
    } else if x > 0 && d > 0 {
        x % d
    } else if x < 0 && d < 0 {
        ((x * -1) % (d * -1)) * -1
    } else if x < 0 {
        ((x * -1) % d) * -1
    } else {
        x % (d * -1)
    }
}

/// The magnitude of a truncating quotient is bounded by the dividend's.
pub proof fn lemma_tdiv_magnitude(x: int, d: int)
    requires
        d >= 1,
    ensures
        x >= 0 ==> 0 <= spec_tdiv(x, d) <= x,
        x < 0 ==> x <= spec_tdiv(x, d) <= 0,
{
    if x > 0 {
        assert(x / d <= x && x / d >= 0) by (nonlinear_arith)
            requires x > 0, d >= 1;
    } else if x < 0 {
        let y = x * -1;
        assert(y / d <= y && y / d >= 0) by (nonlinear_arith)
            requires y > 0, d >= 1;
    }
}

/// Powers of ten with an overflow check: `None` once the power leaves the
/// mantissa range (which happens beyond ten to the 38th).
pub open spec fn spec_pow10_checked(k: nat) -> Option<int>
    decreases k,
{
    if k == 0 {
        Some(1)
    } else {
        match spec_pow10_checked((k - 1) as nat) {
            Some(p) => if fits_i128(10 * p) {
                Some(10 * p)
            } else {
                None
            },
            None => None,
        }
    }
}

/// Rounding to `d` decimal places, half away from zero.  Places at or
/// beyond the ninth leave the number unchanged; a place so far left that
/// the unit exceeds the mantissa range yields zero; `None` on overflow.
pub open spec fn spec_num_round(m: int, d: int) -> Option<int> {
    if d >= FRAC_DIGITS as int {
        Some(m)
    } else if FRAC_DIGITS - d > 38 {
        Some(0)
    } else {
        let unit = spec_pow10((FRAC_DIGITS - d) as nat);
        match spec_num_abs(m) {
            None => None,
            Some(a) => {
                let half = unit / 2;
                if !fits_i128(a + half) {
                    None
                } else {
                    let q = spec_tdiv(a + half, unit);
                    if !fits_i128(q * unit) {
                        None
                    } else if m < 0 {
                        Some(-(q * unit))
                    } else {
                        Some(q * unit)
                    }
                }
            },
        }
    }
}

/// The integer square root: the largest `r` with `r * r <= x`.
pub open spec fn spec_isqrt(x: nat) -> nat {
    choose|r: nat| #[trigger] (r * r) <= x < (r + 1) * (r + 1)
}

/// An integer square root exists for every natural number.
pub proof fn lemma_isqrt_exists(x: nat)
    ensures
        spec_isqrt(x) * spec_isqrt(x) <= x < (spec_isqrt(x) + 1) * (spec_isqrt(x) + 1),
    decreases x,
{
    if x == 0 {
        let z: nat = 0;
        assert(z * z == 0 && (z + 1) * (z + 1) == 1) by (nonlinear_arith)
            requires z == 0nat;
        assert(z * z <= x < (z + 1) * (z + 1));
    } else {
        lemma_isqrt_exists((x - 1) as nat);
        let p = choose|r: nat| #[trigger] (r * r) <= x - 1 < (r + 1) * (r + 1);
        if (p + 1) * (p + 1) <= x {
            assert((p + 1) * (p + 1) == x) by (nonlinear_arith)
                requires p * p <= x - 1 < (p + 1) * (p + 1), (p + 1) * (p + 1) <= x;
            assert((p + 1) * (p + 1) <= x < (p + 2) * (p + 2)) by (nonlinear_arith)
                requires (p + 1) * (p + 1) == x, p >= 0;
            assert(exists|r: nat| #[trigger] (r * r) <= x < (r + 1) * (r + 1));
        } else {
            assert(p * p <= x < (p + 1) * (p + 1));
            assert(exists|r: nat| #[trigger] (r * r) <= x < (r + 1) * (r + 1));
        }
    }
}

/// The integer square root is unique.
pub proof fn lemma_isqrt_unique(x: nat, r: nat)
    requires
        r * r <= x < (r + 1) * (r + 1),
    ensures
        r == spec_isqrt(x),
{
    lemma_isqrt_exists(x);
    let s = spec_isqrt(x);
    if r < s {
        assert((r + 1) * (r + 1) <= s * s) by (nonlinear_arith)
            requires r + 1 <= s;
        assert(false);
    }
    if s < r {
        assert((s + 1) * (s + 1) <= r * r) by (nonlinear_arith)
            requires s + 1 <= r;
        assert(false);
    }
}

/// Fixed-point square root of a non-negative number: the mantissa of the
/// result is the integer square root of `m * SCALE`; `None` when that
/// product overflows.
pub open spec fn spec_num_sqrt(m: int) -> Option<int> {
    if m < 0 {
        None
    } else if !fits_i128(m * SCALE) {
        None
    } else {
        Some(spec_isqrt((m * SCALE) as nat) as int)
    }
}

/// Integer square root of an unsigned 128-bit value by bisection.
pub fn isqrt_u128(x: u128) -> (r: u128)
    ensures
        r as nat == spec_isqrt(x as nat),
{
    let mut lo: u128 = 0;
    let mut hi: u128 = 0x1_0000_0000_0000_0000;
    proof {
        assert((hi as nat) * (hi as nat) > x as nat) by (nonlinear_arith)
            requires hi as nat == 0x1_0000_0000_0000_0000nat, x <= u128::MAX;
    }
    while lo + 1 < hi
        invariant
            lo < hi,
            hi <= 0x1_0000_0000_0000_0000u128,
            (lo as nat) * (lo as nat) <= x as nat,
            (hi as nat) * (hi as nat) > x as nat,
        decreases hi - lo,
    {
        let mid: u128 = lo + (hi - lo) / 2;
        proof {
            assert(lo < mid < hi);
            assert((mid as nat) * (mid as nat) < 0x1_0000_0000_0000_0000nat
                * 0x1_0000_0000_0000_0000nat) by (nonlinear_arith)
                requires mid < 0x1_0000_0000_0000_0000u128;
        }
        if mid <= x / mid {
            proof {
                assert((mid as nat) * (mid as nat) <= x as nat) by (nonlinear_arith)
                    requires mid as nat <= x as nat / mid as nat, mid > 0;
            }
            lo = mid;
        } else {
            proof {
                assert((mid as nat) * (mid as nat) > x as nat) by (nonlinear_arith)
                    requires mid as nat > x as nat / mid as nat, mid > 0;
            }
            hi = mid;
        }
    }
    proof {
        assert((lo as nat) * (lo as nat) <= x as nat);
        assert((x as nat) < ((lo + 1) as nat) * ((lo + 1) as nat));
        lemma_isqrt_unique(x as nat, lo as nat);
    }
    lo
}

impl Num {
    /// Rounding to `d` decimal places, half away from zero.
    pub fn round_dp(self, d: i128) -> (r: Option<Num>)
        ensures
            r == opt_num(spec_num_round(self@, d as int)),
    {
        if d >= FRAC_DIGITS as i128 {
            return Some(self);
        }
        if d < -29 {
            return Some(Num { m: 0 });
        }
        let k: i128 = FRAC_DIGITS as i128 - d;
        let mut unit: i128 = 1;
        let mut j: i128 = 0;
        while j < k
            invariant
                0 <= j <= k <= 38,
                unit == spec_pow10(j as nat),
                unit >= 1,
            decreases k - j,
        {
            proof {
                lemma_pow10_fits(j as nat);
                assert(spec_pow10((j + 1) as nat) == 10 * spec_pow10(j as nat));
            }
            unit = unit * 10;
            j += 1;
        }
        let a: i128 = match self.abs() {
            Some(n) => n.m,
            None => {
                return None;
            },
        };
        let half: i128 = match unit.checked_div(2) {
            Some(h) => h,
            None => {
                proof {
                    lemma_tdiv_magnitude(unit as int, 2);
                    assert(false);
                }
                return None;
            },
        };
        let sum: i128 = match a.checked_add(half) {
            Some(s) => s,
            None => {
                return None;
            },
        };
        proof {
            assert(sum >= 0);
        }
        let q: i128 = match sum.checked_div(unit) {
            Some(q) => q,
            None => {
                proof {
                    lemma_tdiv_magnitude(sum as int, unit as int);
                    assert(false);
                }
                return None;
            },
        };
        let rmag: i128 = match q.checked_mul(unit) {
            Some(v) => v,
            None => {
                return None;
            },
        };
        if self.m < 0 {
            proof {
                assert(rmag >= 0) by (nonlinear_arith)
                    requires rmag == (sum as int / unit as int) * unit, sum >= 0, unit >= 1;
            }
            Some(Num { m: -rmag })
        } else {
            Some(Num { m: rmag })
        }
    }

    /// Fixed-point square root; `None` for negative numbers and on
    /// overflow of the scaled radicand.
    pub fn sqrt(self) -> (r: Option<Num>)
        ensures
            r == opt_num(spec_num_sqrt(self@)),
    {
        if self.m < 0 {
            return None;
        }
        let p: i128 = match self.m.checked_mul(SCALE) {
            Some(p) => p,
            None => {
                return None;
            },
        };
        let root: u128 = isqrt_u128(p as u128);
        proof {
            let x = p as nat;
            lemma_isqrt_exists(x);
            let s = spec_isqrt(x);
            assert(s as int * s as int <= x);
            if s > u64::MAX as nat {
                assert(s * s > x) by (nonlinear_arith)
                    requires s > 0xffff_ffff_ffff_ffffnat, x <= u128::MAX;
                assert(false);
            }
        }
        Some(Num { m: root as i128 })
    }

    /// Fixed-point power with a non-negative integer exponent, by
    /// squaring; `None` as soon as an intermediate product overflows.
    pub fn pow_nat(self, k: u128) -> (r: Option<Num>)
        ensures
            r == opt_num(spec_num_pow(self@, k as nat)),
        decreases k,
    {
        if k == 0 {
            Some(Num { m: SCALE })
        } else if k % 2 == 0 {
            match self.pow_nat(k / 2) {
                Some(h) => h.mul(h),
                None => None,
            }
        } else {
            match self.pow_nat(k - 1) {
                Some(h) => self.mul(h),
                None => None,
            }
        }
    }
}

/// Powers of ten up to the 38th fit the mantissa type.
pub proof fn lemma_pow10_fits(k: nat)
    requires
        k <= 38,
    ensures
        1 <= spec_pow10(k) <= i128::MAX,
        k < 38 ==> 10 * spec_pow10(k) <= i128::MAX,
    decreases k,
{
    lemma_pow10_mono(k);
    if k < 38 {
        lemma_pow10_le(k + 1, 38);
        assert(spec_pow10(k + 1) == 10 * spec_pow10(k));
        lemma_pow10_mono(38);
    }
}

/// Powers of ten grow with the exponent and stay within range up to 38.
pub proof fn lemma_pow10_mono(k: nat)
    requires
        k <= 38,
    ensures
        spec_pow10(k) >= 1,
        spec_pow10(k) <= spec_pow10(38),
        spec_pow10(38) == 100000000000000000000000000000000000000,
    decreases k,
{
    reveal_with_fuel(spec_pow10, 40);
    assert(spec_pow10(38) == 100000000000000000000000000000000000000);
    lemma_pow10_le(k, 38);
}

/// Powers of ten are monotone in the exponent.
pub proof fn lemma_pow10_le(a: nat, b: nat)
    requires
        a <= b,
    ensures
        1 <= spec_pow10(a) <= spec_pow10(b),
    decreases b,
{
    if b == 0 {
    } else if a == b {
        lemma_pow10_le((b - 1) as nat, (b - 1) as nat);
        assert(spec_pow10(b) == 10 * spec_pow10((b - 1) as nat));
    } else {
        lemma_pow10_le(a, (b - 1) as nat);
        assert(spec_pow10(b) == 10 * spec_pow10((b - 1) as nat));
    }
}

/// A digit string with its trailing zeros removed.
pub open spec fn spec_trim_tz(s: Seq<char>) -> Seq<char>
    decreases s.len(),
{
    if s.len() > 0 && s.last() == spec_digit_char(0) {
        spec_trim_tz(s.drop_last())
    } else {
        s
    }
}

/// The nine decimal places of a fractional part below `SCALE`, zero padded.
pub open spec fn spec_pad9(f: nat) -> Seq<char> {
    Seq::new(9, |i: int| spec_digit_char((f as int / spec_pow10((8 - i) as nat)) % 10))
}

/// Display form of a non-negative mantissa: the integer part in decimal,
/// then, if the fractional part is non-zero, a point and the fractional
/// digits with trailing zeros removed.
pub open spec fn spec_mag_display(n: nat) -> Seq<char> {
    if n % (SCALE as nat) == 0 {
        spec_dec_digits(n / (SCALE as nat))
    } else {
        spec_dec_digits(n / (SCALE as nat)) + seq!['.'] + spec_trim_tz(
            spec_pad9(n % (SCALE as nat)),
        )
    }
}

/// Display form of a number: a minus sign for negative mantissas, then the
/// magnitude's display form.
pub open spec fn spec_num_display(m: int) -> Seq<char> {
    if m < 0 {
        seq!['-'] + spec_mag_display((-m) as nat)
    } else {
        spec_mag_display(m as nat)
    }
}

impl Num {
    /// The display characters of this number.
    pub fn display_chars(&self) -> (r: Vec<char>)
        ensures
            r@ == spec_num_display(self@),
    {
        let neg: bool = self.m < 0;
        let mag: u128 = if self.m < 0 {
            ((-(self.m + 1)) as u128) + 1
        } else {
            self.m as u128
        };
        proof {
            if self.m < 0 {
                assert(mag == -(self.m as int));
            }
        }
        let q: u128 = mag / 1_000_000_000u128;
        let f: u128 = mag % 1_000_000_000u128;
        let qd = dec_digits_u128(q);
        let mut out: Vec<char> = Vec::new();
        if neg {
            out.push('-');
        }
        let ghost sign_part = out@;
        let m0: usize = qd.len();
        for i in 0..m0
            invariant
                m0 == qd@.len(),
                out@ == sign_part + qd@.subrange(0, i as int),
        {
            out.push(qd[i]);
            proof {
                assert(out@ =~= sign_part + qd@.subrange(0, i + 1));
            }
        }
        proof {
            assert(out@ =~= sign_part + qd@);
        }
        if f == 0 {
            proof {
                assert(spec_num_display(self@) =~= out@);
            }
            return out;
        }
        out.push('.');
        let mut fr: Vec<char> = Vec::new();
        let mut p: u128 = 100_000_000;
        proof {
            reveal_with_fuel(spec_pow10, 10);
            assert(spec_pow10(8nat) == 100_000_000);
        }
        for i in 0..9usize
            invariant
                f < 1_000_000_000,
                i < 9 ==> p == spec_pow10((8 - i) as nat),
                fr@.len() == i,
                forall|j: int| 0 <= j < i ==> fr@[j] == spec_pad9(f as nat)[j],
        {
            proof {
                lemma_pow10_fits((8 - i) as nat);
            }
            let d: u8 = ((f / p) % 10) as u8;
            let c: char = (48 + d) as char;
            proof {
                assert(c == spec_pad9(f as nat)[i as int]);
            }
            fr.push(c);
            proof {
                if i < 8 {
                    assert(spec_pow10((8 - i) as nat) == 10 * spec_pow10((7 - i) as nat));
                    assert((10 * spec_pow10((7 - i) as nat)) / 10 == spec_pow10((7 - i) as nat));
                }
            }
            p = p / 10;
        }
        proof {
            assert(fr@ =~= spec_pad9(f as nat));
        }
        while fr.len() > 0 && fr[fr.len() - 1] == '0'
            invariant
                spec_trim_tz(spec_pad9(f as nat)) == spec_trim_tz(fr@),
            decreases fr.len(),
        {
            proof {
                assert(fr@.last() == spec_digit_char(0));
                assert(spec_trim_tz(fr@) == spec_trim_tz(fr@.drop_last()));
            }
            fr.pop();
        }
        proof {
            if fr@.len() > 0 {
                assert(fr@.last() != spec_digit_char(0));
            }
            assert(spec_trim_tz(fr@) == fr@);
        }
        let ghost head = out@;
        let m1: usize = fr.len();
        for i in 0..m1
            invariant
                m1 == fr@.len(),
                out@ == head + fr@.subrange(0, i as int),
        {
            out.push(fr[i]);
            proof {
                assert(out@ =~= head + fr@.subrange(0, i + 1));
            }
        }
        proof {
            assert(out@ =~= head + fr@);
            assert(out@ =~= spec_num_display(self@));
        }
        out
    }

    /// The display string of this number.
    pub fn display(&self) -> (r: String)
        ensures
            r@ == spec_num_display(self@),
    {
        let v = self.display_chars();
        crate::text::chars_to_string(&v)
    }
}

/// An integer-valued number displays with no decimal point: every
/// character of its display form is a digit or the minus sign.
pub proof fn lemma_integer_display_no_point(m: int)
    requires
        fits_i128(m),
        spec_trem(m, SCALE as int) == 0,
    ensures
        forall|i: int|
            0 <= i < spec_num_display(m).len() ==> (#[trigger] spec_num_display(m)[i]) != '.',
{
    let mag: nat = if m < 0 {
        (-m) as nat
    } else {
        m as nat
    };
    assert(mag % (SCALE as nat) == 0) by {
        if m > 0 {
            assert(spec_trem(m, SCALE as int) == m % (SCALE as int));
        } else if m < 0 {
            assert(spec_trem(m, SCALE as int) == ((m * -1) % (SCALE as int)) * -1);
        }
    }
    lemma_dec_digits_are_digits(mag / (SCALE as nat));
    let s = spec_num_display(m);
    let d = spec_dec_digits(mag / (SCALE as nat));
    assert forall|i: int| 0 <= i < s.len() implies (#[trigger] s[i]) != '.' by {
        if m < 0 {
            assert(s == seq!['-'] + d);
            if i == 0 {
                assert(s[i] == '-');
                assert('-' as u32 == 45 && '.' as u32 == 46);
            } else {
                assert(s[i] == d[i - 1]);
                assert(spec_is_digit(s[i]));
                assert('.' as u32 == 46);
            }
        } else {
            assert(s == d);
            assert(spec_is_digit(s[i]));
            assert('.' as u32 == 46);
        }
    }
}

/// Index of the first decimal point in `s`, or `s.len()` when none occurs.
pub open spec fn spec_first_dot(s: Seq<char>) -> nat
    decreases s.len(),
{
    if s.len() == 0 {
        0
    } else if s[0] == '.' {
        0
    } else {
        1 + spec_first_dot(s.drop_first())
    }
}

/// The first decimal point is exactly at the end of the first point-free run.
pub proof fn lemma_first_dot_is_first(s: Seq<char>, k: int)
    requires
        0 <= k <= s.len(),
        forall|i: int| 0 <= i < k ==> (#[trigger] s[i]) != '.',
        k < s.len() ==> s[k] == '.',
    ensures
        spec_first_dot(s) == k,
    decreases s.len(),
{
    if s.len() > 0 && s[0] != '.' {
        let t = s.drop_first();
        assert forall|i: int| 0 <= i < k - 1 implies (#[trigger] t[i]) != '.' by {
            assert(t[i] == s[i + 1]);
        }
        if k - 1 < t.len() {
            assert(t[k - 1] == s[k]);
        }
        lemma_first_dot_is_first(t, k - 1);
    }
}

/// All characters are decimal digits.
pub open spec fn spec_all_digits(s: Seq<char>) -> bool {
    forall|i: int| 0 <= i < s.len() ==> spec_is_digit(#[trigger] s[i])
}

/// The value of a digit string is below ten to its length.
pub proof fn lemma_digits_val_bound(s: Seq<char>)
    ensures
        spec_digits_val(s) < spec_pow10(s.len()),
    decreases s.len(),
{
    if s.len() > 0 {
        lemma_digits_val_bound(s.drop_last());
        assert(spec_pow10(s.len()) == 10 * spec_pow10((s.len() - 1) as nat));
    }
}

/// Mantissa contributed by the fractional digits: only the first nine
/// count, scaled up to nine places.
pub open spec fn spec_frac_mantissa(fp: Seq<char>) -> int {
    let f9 = if fp.len() <= 9 {
        fp
    } else {
        fp.subrange(0, 9)
    };
    spec_digits_val(f9) * spec_pow10((9 - f9.len()) as nat)
}

/// What the number parser accepts: an optional sign, then digits with at
/// most one decimal point somewhere among them (at least one digit in
/// all).  Fractional digits beyond the ninth are read but do not carry
/// into the mantissa.  `None` when the form is wrong or the mantissa would
/// overflow.  Exponent forms ("1e5") and the special float words are not
/// part of the fixed-point model and are not accepted.
pub open spec fn spec_parse_num(s: Seq<char>) -> Option<int> {
    if s.len() == 0 {
        None
    } else {
        let neg = s[0] == '-';
        let b = if s[0] == '-' || s[0] == '+' {
            s.drop_first()
        } else {
            s
        };
        if b.len() == 0 {
            None
        } else {
            let dot = spec_first_dot(b) as int;
            let ip = b.subrange(0, dot);
            let fp = if dot == b.len() {
                Seq::<char>::empty()
            } else {
                b.subrange(dot + 1, b.len() as int)
            };
            if ip.len() + fp.len() == 0 {
                None
            } else if !spec_all_digits(ip) || !spec_all_digits(fp) {
                None
            } else {
                let mag = spec_digits_val(ip) * (SCALE as int) + spec_frac_mantissa(fp);
                if mag > i128::MAX {
                    None
                } else if neg {
                    Some(-mag)
                } else {
                    Some(mag)
                }
            }
        }
    }
}

/// Value of a run of digit characters as an `i128`; `None` on a non-digit
/// or when the value exceeds the mantissa range.
fn digits_val_i128(cs: &Vec<char>, from: usize, to: usize) -> (r: Option<i128>)
    requires
        from <= to <= cs@.len(),
    ensures
        r == ({
            let d = cs@.subrange(from as int, to as int);
            if spec_all_digits(d) && spec_digits_val(d) <= i128::MAX {
                Some(spec_digits_val(d) as i128)
            } else {
                None::<i128>
            }
        }),
{
    let ghost d = cs@.subrange(from as int, to as int);
    let mut val: i128 = 0;
    let mut i: usize = from;
    while i < to
        invariant
            from <= i <= to <= cs@.len(),
            d == cs@.subrange(from as int, to as int),
            forall|j: int| 0 <= j < i - from ==> spec_is_digit(#[trigger] d[j]),
            val == spec_digits_val(d.subrange(0, i - from)),
            val >= 0,
        decreases to - i,
    {
        let c = cs[i];
        proof {
            assert(cs@[i as int] == d[i - from]);
        }
        if !crate::text::is_digit_char(c) {
            return None;
        }
        let dv: i128 = ((c as u32) - 48) as i128;
        let step = match val.checked_mul(10) {
            Some(m) => m.checked_add(dv),
            None => None,
        };
        proof {
            let ghost p = d.subrange(0, i - from);
            let ghost q = d.subrange(0, i + 1 - from);
            assert(q.drop_last() =~= p);
            assert(q.last() == d[i - from]);
            assert(spec_digits_val(q) == spec_digits_val(p) * 10 + dv);
        }
        match step {
            Some(v) => {
                val = v;
            },
            None => {
                proof {
                    if spec_all_digits(d) {
                        crate::cell::lemma_digits_val_prefix_mono(d, i + 1 - from);
                        assert(spec_digits_val(d.subrange(0, i + 1 - from)) > i128::MAX);
                    }
                }
                return None;
            },
        }
        i += 1;
    }
    proof {
        assert(d.subrange(0, to - from) =~= d);
    }
    Some(val)
}


/// Whether every character in the index range is a decimal digit.
fn all_digits_range(cs: &Vec<char>, from: usize, to: usize) -> (r: bool)
    requires
        from <= to <= cs@.len(),
    ensures
        r == spec_all_digits(cs@.subrange(from as int, to as int)),
{
    let ghost d = cs@.subrange(from as int, to as int);
    let mut i: usize = from;
    while i < to
        invariant
            from <= i <= to <= cs@.len(),
            d == cs@.subrange(from as int, to as int),
            forall|j: int| 0 <= j < i - from ==> spec_is_digit(#[trigger] d[j]),
        decreases to - i,
    {
        proof {
            assert(cs@[i as int] == d[i - from]);
        }
        if !crate::text::is_digit_char(cs[i]) {
            return false;
        }
        i += 1;
    }
    true
}

impl Num {
    /// Parse a decimal literal (optional sign, digits, optional point).
    #[verifier::rlimit(100)]
    pub fn parse_chars(v: &Vec<char>) -> (r: Option<Num>)
        ensures
            r == opt_num(spec_parse_num(v@)),
    {
        let n: usize = v.len();
        if n == 0 {
            return None;
        }
        let c0 = v[0];
        let neg = c0 == '-';
        let start: usize = if c0 == '-' || c0 == '+' {
            1
        } else {
            0
        };
        let ghost b = if v@[0] == '-' || v@[0] == '+' {
            v@.drop_first()
        } else {
            v@
        };
        proof {
            assert(b =~= v@.subrange(start as int, n as int));
        }
        if start == n {
            return None;
        }
        let mut dot: usize = start;
        while dot < n && v[dot] != '.'
            invariant
                start <= dot <= n,
                n == v@.len(),
                forall|i: int| start <= i < dot ==> (#[trigger] v@[i]) != '.',
            decreases n - dot,
        {
            dot += 1;
        }
        proof {
            assert forall|i: int| 0 <= i < dot - start implies (#[trigger] b[i]) != '.' by {
                assert(b[i] == v@[start + i]);
            }
            if dot < n {
                assert(b[dot - start] == v@[dot as int]);
            }
            lemma_first_dot_is_first(b, dot - start);
        }
        let ghost ip = b.subrange(0, dot - start);
        let ghost fp = if dot == n {
            Seq::<char>::empty()
        } else {
            b.subrange(dot + 1 - start, b.len() as int)
        };
        // At least one digit somewhere.
        if dot == start && n - dot <= 1 {
            proof {
                assert(ip.len() + fp.len() == 0);
            }
            return None;
        }
        proof {
            assert(ip =~= v@.subrange(start as int, dot as int));
        }
        let ipv: i128 = match digits_val_i128(v, start, dot) {
            Some(x) => x,
            None => {
                proof {
                    if spec_all_digits(ip) {
                        assert(spec_digits_val(ip) > i128::MAX);
                        lemma_frac_mantissa_nonneg(fp);
                        assert(spec_digits_val(ip) * (SCALE as int) >= spec_digits_val(ip) * 1)
                            by (nonlinear_arith)
                            requires spec_digits_val(ip) >= 0, SCALE >= 1;
                    }
                }
                return None;
            },
        };
        // Fractional digits: the first nine carry value.
        let fstart: usize = if dot == n {
            n
        } else {
            dot + 1
        };
        let f9end: usize = if n - fstart > 9 {
            fstart + 9
        } else {
            n
        };
        let ghost f9 = if fp.len() <= 9 {
            fp
        } else {
            fp.subrange(0, 9)
        };
        proof {
            assert(f9 =~= v@.subrange(fstart as int, f9end as int));
        }
        let f9v: i128 = match digits_val_i128(v, fstart, f9end) {
            Some(x) => x,
            None => {
                proof {
                    lemma_digits_val_bound(f9);
                    lemma_pow10_le(f9.len(), 9);
                    reveal_with_fuel(spec_pow10, 11);
                    assert(spec_pow10(9nat) == 1_000_000_000);
                    assert(!spec_all_digits(f9));
                    let j = choose|j: int| 0 <= j < f9.len() && !spec_is_digit(#[trigger] f9[j]);
                    assert(fp[j] == f9[j]);
                }
                return None;
            },
        };
        // The remaining fractional digits must still be digits.
        if !all_digits_range(v, f9end, n) {
            proof {
                let rest = v@.subrange(f9end as int, n as int);
                let j = choose|j: int| 0 <= j < rest.len() && !spec_is_digit(#[trigger] rest[j]);
                assert(fp[f9end - fstart + j] == rest[j]);
                assert(!spec_all_digits(fp));
            }
            return None;
        }
        proof {
            let rest = v@.subrange(f9end as int, n as int);
            assert forall|i: int| 0 <= i < fp.len() implies spec_is_digit(#[trigger] fp[i]) by {
                if i < f9.len() {
                    assert(f9[i] == fp[i]);
                    assert(spec_all_digits(f9));
                } else {
                    assert(fp[i] == rest[i - (f9end - fstart)]);
                }
            }
            assert(spec_all_digits(fp));
            assert(spec_all_digits(ip));
        }
        // Scale the fractional value up to nine places.
        let f9len: usize = f9end - fstart;
        let mut mult: i128 = 1;
        let mut k: usize = 0;
        while k < 9 - f9len
            invariant
                f9len <= 9,
                k <= 9 - f9len,
                mult == spec_pow10(k as nat),
                mult >= 1,
            decreases 9 - f9len - k,
        {
            proof {
                lemma_pow10_fits((k + 1) as nat);
                assert(spec_pow10((k + 1) as nat) == 10 * spec_pow10(k as nat));
            }
            mult = mult * 10;
            k += 1;
        }
        proof {
            lemma_frac_mantissa_bound(fp);
            assert(f9v * mult == spec_frac_mantissa(fp));
        }
        let frac: i128 = f9v * mult;
        let mag: i128 = match ipv.checked_mul(SCALE) {
            Some(x) => x,
            None => {
                proof {
                    lemma_frac_mantissa_nonneg(fp);
                }
                return None;
            },
        };
        let mag2: i128 = match mag.checked_add(frac) {
            Some(x) => x,
            None => {
                return None;
            },
        };
        if neg {
            Some(Num { m: -mag2 })
        } else {
            Some(Num { m: mag2 })
        }
    }

    /// Parse a decimal literal from a string slice.
    pub fn parse_str(s: &str) -> (r: Option<Num>)
        ensures
            r == opt_num(spec_parse_num(s@)),
    {
        let v = crate::text::str_to_chars(s);
        Num::parse_chars(&v)
    }
}

/// The fractional mantissa is bounded by one whole unit.
pub proof fn lemma_frac_mantissa_bound(fp: Seq<char>)
    ensures
        0 <= spec_frac_mantissa(fp) < 1_000_000_000,
{
    let f9 = if fp.len() <= 9 {
        fp
    } else {
        fp.subrange(0, 9)
    };
    lemma_frac_mantissa_nonneg(fp);
    lemma_digits_val_bound(f9);
    lemma_pow10_fits((9 - f9.len()) as nat);
    assert(spec_digits_val(f9) * spec_pow10((9 - f9.len()) as nat) < spec_pow10(f9.len())
        * spec_pow10((9 - f9.len()) as nat)) by (nonlinear_arith)
        requires
            spec_digits_val(f9) < spec_pow10(f9.len()),
            spec_digits_val(f9) >= 0,
            spec_pow10((9 - f9.len()) as nat) >= 1,
    ;
    lemma_pow10_prod(f9.len(), (9 - f9.len()) as nat);
    reveal_with_fuel(spec_pow10, 11);
    assert(spec_pow10(9nat) == 1_000_000_000);
}

/// The fractional mantissa is never negative.
pub proof fn lemma_frac_mantissa_nonneg(fp: Seq<char>)
    ensures
        spec_frac_mantissa(fp) >= 0,
{
    let f9 = if fp.len() <= 9 {
        fp
    } else {
        fp.subrange(0, 9)
    };
    lemma_pow10_fits((9 - f9.len()) as nat);
    assert(spec_digits_val(f9) * spec_pow10((9 - f9.len()) as nat) >= 0) by (nonlinear_arith)
        requires
            spec_digits_val(f9) >= 0,
            spec_pow10((9 - f9.len()) as nat) >= 1,
    ;
}

/// Powers of ten multiply by adding exponents.
pub proof fn lemma_pow10_prod(a: nat, b: nat)
    ensures
        spec_pow10(a) * spec_pow10(b) == spec_pow10(a + b),
    decreases a,
{
    if a == 0 {
    } else {
        lemma_pow10_prod((a - 1) as nat, b);
        assert(spec_pow10(a) * spec_pow10(b) == 10 * (spec_pow10((a - 1) as nat) * spec_pow10(b)))
            by (nonlinear_arith)
            requires spec_pow10(a) == 10 * spec_pow10((a - 1) as nat),
        ;
        assert(spec_pow10(a + b) == 10 * spec_pow10((a + b - 1) as nat));
    }
}

/// The first-dot index never exceeds the length.
pub proof fn lemma_first_dot_le_len(s: Seq<char>)
    ensures
        spec_first_dot(s) <= s.len(),
    decreases s.len(),
{
    if s.len() > 0 && s[0] != '.' {
        lemma_first_dot_le_len(s.drop_first());
    }
}

/// A parsed mantissa always fits the mantissa type.
pub proof fn lemma_parse_num_fits(s: Seq<char>)
    ensures
        spec_parse_num(s) is Some ==> fits_i128(spec_parse_num(s)->Some_0),
{
    if spec_parse_num(s) is Some {
        let b = if s[0] == '-' || s[0] == '+' {
            s.drop_first()
        } else {
            s
        };
        let dot = spec_first_dot(b) as int;
        lemma_first_dot_le_len(b);
        let ip = b.subrange(0, dot);
        let fp = if dot == b.len() {
            Seq::<char>::empty()
        } else {
            b.subrange(dot + 1, b.len() as int)
        };
        let mag = spec_digits_val(ip) * (SCALE as int) + spec_frac_mantissa(fp);
        lemma_frac_mantissa_nonneg(fp);
        assert(spec_digits_val(ip) * (SCALE as int) >= 0) by (nonlinear_arith)
            requires
                spec_digits_val(ip) >= 0,
                SCALE >= 1,
        ;
        assert(mag >= 0);
        assert(mag <= i128::MAX);
        assert(spec_parse_num(s)->Some_0 == if s[0] == '-' {
            -mag
        } else {
            mag
        });
    }
}

/// A computed square root stays within the mantissa range.
pub proof fn lemma_sqrt_fits(m: int)
    ensures
        spec_num_sqrt(m) is Some ==> fits_i128(spec_num_sqrt(m)->Some_0),
{
    if m >= 0 && fits_i128(m * SCALE) {
        let x = (m * SCALE) as nat;
        lemma_isqrt_exists(x);
        let s = spec_isqrt(x);
        if s > 0xffff_ffff_ffff_ffffnat {
            assert(s * s > x) by (nonlinear_arith)
                requires s > 0xffff_ffff_ffff_ffffnat, x <= u128::MAX;
            assert(false);
        }
    }
}

/// A rounded mantissa stays within the mantissa range.
pub proof fn lemma_round_fits(m: int, d: int)
    requires
        fits_i128(m),
    ensures
        spec_num_round(m, d) is Some ==> fits_i128(spec_num_round(m, d)->Some_0),
{
    if !(d >= FRAC_DIGITS as int) && !(FRAC_DIGITS - d > 38) {
        let unit = spec_pow10((FRAC_DIGITS - d) as nat);
        lemma_pow10_fits((FRAC_DIGITS - d) as nat);
        match spec_num_abs(m) {
            None => {
            },
            Some(a) => {
                let half = unit / 2;
                if fits_i128(a + half) {
                    let q = spec_tdiv(a + half, unit);
                    lemma_tdiv_magnitude(a + half, unit);
                    if fits_i128(q * unit) {
                        assert(q * unit >= 0) by (nonlinear_arith)
                            requires q >= 0, unit >= 1;
                    }
                }
            },
        }
    }
}

} // verus!
