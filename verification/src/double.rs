//! Double-precision numbers, as the 64 bits that IEEE 754 gives them.
//!
//! The library orders and classifies such numbers; it does not calculate
//! with them.
use vstd::arithmetic::power2::{
    lemma2_to64, lemma2_to64_rest, lemma_pow2_pos, lemma_pow2_strictly_increases, lemma_pow2_unfold, pow2,
};
use vstd::prelude::*;

verus! {

/// A double-precision number: a sign bit, eleven bits of exponent and
/// fifty-two bits of fraction.
#[derive(Clone, Copy, Debug, PartialEq, Eq, Structural)]
pub struct Double {
    pub bits: u64,
}

pub const SIGN: u64 = 0x8000_0000_0000_0000;

pub const INFINITE: u64 = 0x7ff0_0000_0000_0000;

impl Double {
    pub open spec fn negative(self) -> bool {
        self.bits >= SIGN
    }

    /// The bits without the sign. They grow with the magnitude of the number.
    pub open spec fn magnitude(self) -> int {
        if self.negative() {
            self.bits - SIGN
        } else {
            self.bits as int
        }
    }

    pub open spec fn nan(self) -> bool {
        self.magnitude() > INFINITE
    }

    pub open spec fn finite(self) -> bool {
        self.magnitude() < INFINITE
    }

    /// A number that orders as the double does; both zeros are zero.
    pub open spec fn rank(self) -> int {
        if self.negative() {
            -self.magnitude()
        } else {
            self.magnitude()
        }
    }

    /// `self <= other`, which never holds of a NaN.
    pub open spec fn le(self, other: Double) -> bool {
        !self.nan() && !other.nan() && self.rank() <= other.rank()
    }

    /// `self < other`, which never holds of a NaN.
    pub open spec fn lt(self, other: Double) -> bool {
        !self.nan() && !other.nan() && self.rank() < other.rank()
    }

    pub fn is_nan(self) -> (b: bool)
        ensures
            b == self.nan(),
    {
        self.magnitude_bits() > INFINITE
    }

    pub fn is_finite(self) -> (b: bool)
        ensures
            b == self.finite(),
    {
        self.magnitude_bits() < INFINITE
    }

    pub fn magnitude_bits(self) -> (m: u64)
        ensures
            m == self.magnitude(),
    {
        if self.bits >= SIGN {
            self.bits - SIGN
        } else {
            self.bits
        }
    }

    fn signed_rank(self) -> (r: i128)
        ensures
            r == self.rank(),
    {
        let m: i128 = self.magnitude_bits() as i128;
        if self.bits >= SIGN {
            -m
        } else {
            m
        }
    }

    pub fn at_most(self, other: Double) -> (b: bool)
        ensures
            b == self.le(other),
    {
        !self.is_nan() && !other.is_nan() && self.signed_rank() <= other.signed_rank()
    }

    pub fn less_than(self, other: Double) -> (b: bool)
        ensures
            b == self.lt(other),
    {
        !self.is_nan() && !other.is_nan() && self.signed_rank() < other.signed_rank()
    }

    pub fn is_zero(self) -> (b: bool)
        ensures
            b == (self.rank() == 0),
    {
        self.magnitude_bits() == 0
    }
}

/// The order of the numbers is total on everything but NaN, and an order at
/// all.
pub proof fn law_doubles_are_ordered(a: Double, b: Double, c: Double)
    ensures
        !a.nan() && !b.nan() ==> a.le(b) || b.le(a),
        a.le(b) && b.le(c) ==> a.le(c),
        a.lt(b) <==> a.le(b) && !b.le(a),
{
}

// ---------------------------------------------------------------------
// Whole numbers
// ---------------------------------------------------------------------

/// Two to the power of 52: the weight of the hidden bit.
pub const HIDDEN: u64 = 0x10_0000_0000_0000;

/// A number below two to the power of 53 with its bits shifted up until the
/// hidden bit is set; `e` is the exponent that belongs to it.
pub open spec fn shifted_up(m: int, e: int) -> (int, int)
    decreases 2 * HIDDEN - m,
{
    if m <= 0 || m >= HIDDEN {
        (m, e)
    } else {
        shifted_up(m * 2, e - 1)
    }
}

/// How many times a number has to be halved to fit 53 bits, as a divisor and
/// as a count.
pub open spec fn excess(n: int) -> (int, int) {
    if n < 0x20_0000_0000_0000 {
        (1, 0)
    } else if n < 0x40_0000_0000_0000 {
        (2, 1)
    } else if n < 0x80_0000_0000_0000 {
        (4, 2)
    } else if n < 0x100_0000_0000_0000 {
        (8, 3)
    } else if n < 0x200_0000_0000_0000 {
        (16, 4)
    } else if n < 0x400_0000_0000_0000 {
        (32, 5)
    } else if n < 0x800_0000_0000_0000 {
        (64, 6)
    } else if n < 0x1000_0000_0000_0000 {
        (128, 7)
    } else if n < 0x2000_0000_0000_0000 {
        (256, 8)
    } else if n < 0x4000_0000_0000_0000 {
        (512, 9)
    } else if n < 0x8000_0000_0000_0000 {
        (1024, 10)
    } else {
        (2048, 11)
    }
}

/// `n / d`, rounded to the nearest integer, and to the even one of two that
/// are equally near.
pub open spec fn rounded_quotient(n: int, d: int) -> int {
    let q = n / d;
    let r = n % d;
    if 2 * r > d || (2 * r == d && q % 2 == 1) {
        q + 1
    } else {
        q
    }
}

/// The bits of the double that is nearest to a whole number: an exponent,
/// and 53 bits of which the first is hidden.
pub open spec fn bits_of_whole(n: int) -> int {
    if n == 0 {
        0
    } else if n < 0x20_0000_0000_0000 {
        let (m, e) = shifted_up(n, 0);
        (e + 1075) * HIDDEN + (m - HIDDEN)
    } else {
        let (d, j) = excess(n);
        (j + 1075) * HIDDEN + (rounded_quotient(n, d) - HIDDEN)
    }
}

/// What is left of a number when every factor of two that fits below
/// `places` binary places is taken: zero exactly for multiples of two to the
/// power of `places`.
pub open spec fn low_bits(m: int, places: int) -> int
    decreases places,
{
    if places <= 0 {
        0
    } else if m % 2 != 0 {
        1
    } else {
        low_bits(m / 2, places - 1)
    }
}

impl Double {
    /// A finite number without a fractional part.
    pub open spec fn whole(self) -> bool {
        let m = self.magnitude();
        let e = m / HIDDEN as int - 1023;
        self.finite() && (m == 0 || e >= 52 || (e >= 0 && low_bits(m % HIDDEN as int, 52 - e)
            == 0))
    }

    pub fn is_whole(self) -> (b: bool)
        ensures
            b == self.whole(),
    {
        let m: u64 = self.magnitude_bits();
        if m >= INFINITE {
            return false;
        }
        if m == 0 {
            return true;
        }
        let biased: u64 = m / HIDDEN;
        if biased >= 1075 {
            return true;
        }
        if biased < 1023 {
            return false;
        }
        let mut left: u64 = m % HIDDEN;
        let mut places: u64 = 1075 - biased;
        while places > 0
            invariant
                self.finite(),
                m == self.magnitude(),
                m != 0,
                1023 <= biased < 1075,
                biased == m / HIDDEN,
                places <= 52,
                low_bits(left as int, places as int) == low_bits(
                    (m % HIDDEN) as int,
                    1075 - biased,
                ),
            decreases places,
        {
            if left % 2 != 0 {
                return false;
            }
            left = left / 2;
            places -= 1;
        }
        true
    }

    /// The double nearest to a whole number.
    pub fn from_u64(n: u64) -> (d: Double)
        ensures
            d.bits == bits_of_whole(n as int),
            !d.negative(),
            d.finite(),
            d.rank() == 0 <==> n == 0,
    {
        if n == 0 {
            return Double { bits: 0 };
        }
        if n < 0x20_0000_0000_0000 {
            let mut m: u64 = n;
            let mut e: u64 = 1075;
            while m < HIDDEN
                invariant
                    0 < m < 2 * HIDDEN,
                    HIDDEN <= 0x10_0000_0000_0000,
                    e <= 1075,
                    shifted_up(n as int, 0) == shifted_up(m as int, e - 1075),
                    1023 <= e,
                    m >= power(1075 - e),
                decreases 2 * HIDDEN - m,
            {
                proof {
                    lemma_power(1075 - e);
                }
                m = m * 2;
                e -= 1;
            }
            return Double { bits: e * HIDDEN + (m - HIDDEN) };
        }
        let (d, j): (u64, u64) = excess_of(n);
        let q: u64 = n / d;
        let r: u64 = n % d;
        let up: bool = 2 * r > d || (2 * r == d && q % 2 == 1);
        let m: u64 = if up {
            q + 1
        } else {
            q
        };
        Double { bits: (j + 1075) * HIDDEN + (m - HIDDEN) }
    }

    /// The double nearest to a signed whole number.
    pub fn from_i64(v: i64) -> (d: Double)
        ensures
            v >= 0 ==> d.bits == bits_of_whole(v as int),
            v < 0 ==> d.bits == SIGN + bits_of_whole(-v),
            d.finite(),
            d.rank() == 0 <==> v == 0,
            d.rank() < 0 <==> v < 0,
    {
        if v >= 0 {
            Double::from_u64(v as u64)
        } else {
            let m: u64 = (-(v as i128)) as u64;
            let d = Double::from_u64(m);
            Double { bits: SIGN + d.bits }
        }
    }
}

/// Two to the power of `k`.
spec fn power(k: int) -> int
    decreases k,
{
    if k <= 0 {
        1
    } else {
        2 * power(k - 1)
    }
}

proof fn lemma_power(k: int)
    requires
        0 <= k <= 52,
    ensures
        k == 52 ==> power(k) == HIDDEN,
        power(k + 1) == 2 * power(k),
{
    assert(power(52) == 0x10_0000_0000_0000) by {
        reveal_with_fuel(power, 14);
        assert(power(13) == 0x2000);
        assert(power(26) == 0x2000 * power(13));
        assert(power(39) == 0x2000 * power(26));
        assert(power(52) == 0x2000 * power(39));
    }
}

fn excess_of(n: u64) -> (r: (u64, u64))
    requires
        n >= 0x20_0000_0000_0000,
    ensures
        r.0 == excess(n as int).0,
        r.1 == excess(n as int).1,
        1 < r.0 <= 2048,
        r.1 <= 11,
        HIDDEN <= n / r.0 < 2 * HIDDEN,
{
    if n < 0x40_0000_0000_0000 {
        (2, 1)
    } else if n < 0x80_0000_0000_0000 {
        (4, 2)
    } else if n < 0x100_0000_0000_0000 {
        (8, 3)
    } else if n < 0x200_0000_0000_0000 {
        (16, 4)
    } else if n < 0x400_0000_0000_0000 {
        (32, 5)
    } else if n < 0x800_0000_0000_0000 {
        (64, 6)
    } else if n < 0x1000_0000_0000_0000 {
        (128, 7)
    } else if n < 0x2000_0000_0000_0000 {
        (256, 8)
    } else if n < 0x4000_0000_0000_0000 {
        (512, 9)
    } else if n < 0x8000_0000_0000_0000 {
        (1024, 10)
    } else {
        (2048, 11)
    }
}

// ---------------------------------------------------------------------
// What the bits stand for
// ---------------------------------------------------------------------

/// The exponent of a magnitude: the power of two, and 1075 more, by which its
/// significand is to be multiplied.
pub open spec fn exponent_of(m: int) -> int {
    if m / 0x10_0000_0000_0000 == 0 {
        1
    } else {
        m / 0x10_0000_0000_0000
    }
}

/// The significand of a magnitude: its fraction, with the hidden bit before it
/// but for the smallest numbers.
pub open spec fn significand_of(m: int) -> int {
    if m / 0x10_0000_0000_0000 == 0 {
        m
    } else {
        0x10_0000_0000_0000 + m % 0x10_0000_0000_0000
    }
}

proof fn lemma_shifted_up(m: int, e: int)
    requires
        0 < m < 0x20_0000_0000_0000,
    ensures
        ({
            let (s, f) = shifted_up(m, e);
            &&& 0x10_0000_0000_0000 <= s < 0x20_0000_0000_0000
            &&& f <= e
            &&& s == m * pow2((e - f) as nat)
        }),
    decreases 2 * HIDDEN - m,
{
    lemma2_to64();
    lemma2_to64_rest();
    if m < HIDDEN {
        lemma_shifted_up(m * 2, e - 1);
        let (s, f) = shifted_up(m, e);
        let k = (e - 1 - f) as nat;
        lemma_pow2_unfold((e - f) as nat);
        assert((e - f) as nat - 1 == k);
        assert(pow2((e - f) as nat) == 2 * pow2(k));
        assert(m * (2 * pow2(k)) == (m * 2) * pow2(k)) by (nonlinear_arith);
    } else {
        assert(m * pow2(0) == m);
    }
}

proof fn lemma_shift_count(m: int, e: int)
    requires
        0 < m < 0x20_0000_0000_0000,
    ensures
        shifted_up(m, e).1 >= e - 52,
{
    lemma2_to64();
    lemma2_to64_rest();
    lemma_shifted_up(m, e);
    let (s, f) = shifted_up(m, e);
    if e - f > 52 {
        lemma_pow2_strictly_increases(52, (e - f) as nat);
        if e - f > 53 {
            lemma_pow2_strictly_increases(53, (e - f) as nat);
        }
        assert(pow2((e - f) as nat) >= 0x20_0000_0000_0000);
        assert(s >= pow2((e - f) as nat)) by (nonlinear_arith)
            requires
                s == m * pow2((e - f) as nat),
                m >= 1,
                pow2((e - f) as nat) >= 0,
        ;
    }
}

/// A whole number below two to the power of 53 is its double exactly: the
/// significand is the number, shifted by as many places as the exponent says.
pub proof fn law_small_whole_numbers_are_exact(n: int)
    requires
        0 < n < 0x20_0000_0000_0000,
    ensures
        ({
            let m = bits_of_whole(n);
            &&& 1023 <= exponent_of(m) <= 1075
            &&& significand_of(m) == n * pow2((1075 - exponent_of(m)) as nat)
        }),
        bits_of_whole(0) == 0,
{
    lemma_shifted_up(n, 0);
    lemma_shift_count(n, 0);
    let (s, e) = shifted_up(n, 0);
    let m = bits_of_whole(n);
    assert(m == (e + 1075) * 0x10_0000_0000_0000 + (s - 0x10_0000_0000_0000));
    assert(m / 0x10_0000_0000_0000 == e + 1075);
    assert(m % 0x10_0000_0000_0000 == s - 0x10_0000_0000_0000);
}

/// A greater whole number is the nearest double: it is off by no more than
/// half of the last place, and where it is off by just that, its last bit is
/// zero.
pub proof fn law_great_whole_numbers_are_rounded(n: int)
    requires
        0x20_0000_0000_0000 <= n <= u64::MAX,
    ensures
        ({
            let m = bits_of_whole(n);
            let place = pow2((exponent_of(m) - 1075) as nat);
            let value = significand_of(m) * place;
            &&& 1076 <= exponent_of(m) <= 1087
            &&& 2 * (value - n) <= place
            &&& 2 * (n - value) <= place
            &&& 2 * (value - n) == place || 2 * (n - value) == place ==> significand_of(m) % 2 == 0
        }),
{
    lemma2_to64();
    lemma2_to64_rest();
    let (d, j) = excess(n);
    assert(d == pow2(j as nat));
    let q = rounded_quotient(n, d);
    let m = bits_of_whole(n);
    assert(m == (j + 1075) * 0x10_0000_0000_0000 + (q - 0x10_0000_0000_0000));
    assert(0x10_0000_0000_0000 <= q <= 0x20_0000_0000_0000);
    let whole = n / d;
    let rest = n % d;
    vstd::arithmetic::div_mod::lemma_fundamental_div_mod(n, d);
    assert((whole + 1) * d == d * whole + d) by (nonlinear_arith);
    assert(whole * d == d * whole) by (nonlinear_arith);
    assert(q * d == n - rest || q * d == n - rest + d);
    if q == 0x20_0000_0000_0000 {
        assert(0x10_0000_0000_0000 * (2 * d) == q * d) by (nonlinear_arith)
            requires
                q == 0x20_0000_0000_0000,
        ;
        assert(m / 0x10_0000_0000_0000 == j + 1076);
        assert(m % 0x10_0000_0000_0000 == 0);
        assert(pow2((j + 1) as nat) == 2 * d);
    } else {
        assert(m / 0x10_0000_0000_0000 == j + 1075);
        assert(m % 0x10_0000_0000_0000 == q - 0x10_0000_0000_0000);
    }
}

proof fn lemma_low_bits(m: int, places: int)
    requires
        m >= 0,
        places >= 0,
    ensures
        low_bits(m, places) == 0 <==> m % (pow2(places as nat) as int) == 0,
    decreases places,
{
    lemma2_to64();
    lemma2_to64_rest();
    lemma_pow2_pos(places as nat);
    if places > 0 {
        let p = pow2((places - 1) as nat) as int;
        lemma_pow2_unfold(places as nat);
        lemma_pow2_pos((places - 1) as nat);
        lemma_low_bits(m / 2, places - 1);
        let h = m / 2;
        if m % 2 == 0 {
            assert(m == 2 * h);
            vstd::arithmetic::div_mod::lemma_mod_breakdown(m, 2, p);
        } else {
            vstd::arithmetic::div_mod::lemma_mod_breakdown(m, 2, p);
        }
    }
}

/// A double is whole just where its significand, shifted as its exponent says,
/// leaves nothing behind the point. Infinities and NaNs are not whole.
pub proof fn law_whole_doubles_are_told(d: Double)
    ensures
        ({
            let m = d.magnitude();
            d.whole() <==> d.finite() && (exponent_of(m) >= 1075 || significand_of(m) % (pow2(
                (1075 - exponent_of(m)) as nat,
            ) as int) == 0)
        }),
{
    let m = d.magnitude();
    let e = m / 0x10_0000_0000_0000;
    let f = m % 0x10_0000_0000_0000;
    let s = significand_of(m);
    lemma2_to64();
    lemma2_to64_rest();
    if d.finite() && exponent_of(m) < 1075 {
        let k = 1075 - exponent_of(m);
        lemma_pow2_pos(k as nat);
        let p = pow2(k as nat) as int;
        if e >= 1023 {
            lemma_low_bits(f, k);
            vstd::arithmetic::power2::lemma_pow2_adds((52 - k) as nat, k as nat);
            let r = pow2((52 - k) as nat) as int;
            assert(0x10_0000_0000_0000 == r * p);
            vstd::arithmetic::div_mod::lemma_mod_multiples_vanish(r, f, p);
            assert(p * r == r * p) by (nonlinear_arith);
            assert(s % p == f % p);
        } else {
            if k > 53 {
                lemma_pow2_strictly_increases(53, k as nat);
            }
            assert(0 <= s < p);
            vstd::arithmetic::div_mod::lemma_small_mod(s as nat, p as nat);
        }
    }
}

} // verus!
