//! Single-precision numbers held by their bit pattern, and their order.
//!
//! A pattern has a sign bit, eight exponent bits and twenty-three fraction
//! bits. The functions below say which number a pattern stands for and
//! compare patterns exactly as the numbers compare.

use vstd::prelude::*;
use vstd::arithmetic::div_mod::{
    lemma_basic_div, lemma_div_by_multiple, lemma_div_denominator, lemma_div_is_ordered,
    lemma_div_multiples_vanish_quotient, lemma_fundamental_div_mod_converse,
};
use vstd::arithmetic::power2::{
    lemma2_to64, lemma_pow2_adds, lemma_pow2_pos, lemma_pow2_strictly_increases,
    lemma_pow2_unfold, pow2,
};

verus! {

/// Patterns at or above this value carry the sign bit.
pub const SIGN_BIT: u32 = 0x8000_0000;

/// The magnitude pattern of infinity; larger magnitudes are not numbers.
pub const INFINITY_BITS: u32 = 0x7f80_0000;

/// The pattern without its sign bit.
pub open spec fn magnitude_bits(bits: u32) -> int {
    bits as int % 0x8000_0000
}

/// Whether the sign bit is set.
pub open spec fn is_negative(bits: u32) -> bool {
    bits >= SIGN_BIT
}

/// Whether the pattern stands for no number at all.
pub open spec fn is_nan(bits: u32) -> bool {
    magnitude_bits(bits) > INFINITY_BITS
}

/// The size of the number with magnitude pattern `m`, counted in units of
/// two to the power of minus 149. A zero exponent field marks a subnormal,
/// whose size is its fraction; otherwise the hidden bit is added and the
/// sum doubled once for each step of the exponent above one. Infinity comes
/// out beyond every finite size.
pub open spec fn magnitude(m: int) -> int {
    let exponent = m / 0x80_0000;
    let fraction = m % 0x80_0000;
    if exponent <= 0 {
        fraction
    } else {
        (0x80_0000 + fraction) * pow2((exponent - 1) as nat)
    }
}

/// The number a pattern stands for, in units of two to the power of minus
/// 149. Both zeros have the value zero.
pub open spec fn value(bits: u32) -> int {
    if is_negative(bits) {
        -magnitude(magnitude_bits(bits))
    } else {
        magnitude(magnitude_bits(bits))
    }
}

/// The whole part of the size of a number: the size without what lies
/// behind the binary point.
pub open spec fn whole_part(bits: u32) -> int {
    magnitude(magnitude_bits(bits)) / (pow2(149) as int)
}

/// The 32-bit whole number that a pattern is cut down to: the number
/// without what lies behind the point, rounded towards zero; the nearest
/// end of the 32-bit range where the number lies outside it; and zero for
/// what is not a number.
pub open spec fn truncated(bits: u32) -> int {
    if is_nan(bits) {
        0
    } else if is_negative(bits) {
        if whole_part(bits) >= 0x8000_0000 {
            -0x8000_0000
        } else {
            -whole_part(bits)
        }
    } else {
        if whole_part(bits) >= 0x8000_0000 {
            0x7fff_ffff
        } else {
            whole_part(bits)
        }
    }
}

/// The whole part of a number below one is zero.
proof fn lemma_whole_part_small(m: int)
    requires
        0 <= m < 127 * 0x80_0000,
    ensures
        magnitude(m) / (pow2(149) as int) == 0,
{
    let e = m / 0x80_0000;
    let f = m % 0x80_0000;
    lemma2_to64();
    lemma_magnitude_bounds(m);
    if e < 126 {
        lemma_pow2_strictly_increases(e as nat, 126);
    }
    lemma_pow2_adds(23, 126);
    let p = pow2(e as nat) as int;
    let q = pow2(126) as int;
    assert(0x80_0000 * p <= 0x80_0000 * q) by (nonlinear_arith)
        requires
            p <= q,
    ;
    lemma_basic_div(magnitude(m), pow2(149) as int);
}

/// The whole part of a number from two to the power of 31 on is at
/// least that.
proof fn lemma_whole_part_large(m: int)
    requires
        158 * 0x80_0000 <= m,
    ensures
        magnitude(m) / (pow2(149) as int) >= 0x8000_0000,
{
    let e = m / 0x80_0000;
    lemma2_to64();
    lemma_magnitude_bounds(m);
    if 157 < e - 1 {
        lemma_pow2_strictly_increases(157, (e - 1) as nat);
    }
    lemma_pow2_adds(8, 149);
    lemma_pow2_pos(149);
    let p = pow2((e - 1) as nat) as int;
    let q = pow2(149) as int;
    assert(pow2(157) == 0x100 * q);
    assert(0x80_0000 * p >= 0x8000_0000 * q) by (nonlinear_arith)
        requires
            p >= 0x100 * q,
            q > 0,
    ;
    lemma_div_by_multiple(0x8000_0000, q);
    lemma_div_is_ordered(0x8000_0000 * q, magnitude(m), q);
}

/// Whether a pattern stands for a number within one hundred-thousandth
/// of one.
pub open spec fn near_one(bits: u32) -> bool {
    &&& !is_nan(bits)
    &&& 100_000 * (value(bits) - pow2(149)) <= pow2(149)
    &&& 100_000 * (pow2(149) - value(bits)) <= pow2(149)
}

/// The smallest pattern of a number within one hundred-thousandth of one:
/// one less 167 steps of the numbers below one.
pub const NEAR_ONE_MIN: u32 = 0x3f7f_ff59;

/// The largest pattern of a number within one hundred-thousandth of one:
/// one and 83 steps of the numbers above one.
pub const NEAR_ONE_MAX: u32 = 0x3f80_0053;

/// The sizes of the patterns at the two ends of the numbers near one, and
/// of their neighbours outside, in units of `pow2(125)`.
proof fn lemma_near_one_ends()
    ensures
        pow2(149) == 0x100_0000 * pow2(125),
        pow2(125) > 0,
        magnitude(0x3f7f_ff58) == (0x100_0000 - 168) * pow2(125),
        magnitude(0x3f7f_ff59) == (0x100_0000 - 167) * pow2(125),
        magnitude(0x3f80_0053) == (0x100_0000 + 166) * pow2(125),
        magnitude(0x3f80_0054) == (0x100_0000 + 168) * pow2(125),
{
    lemma2_to64();
    lemma_pow2_adds(24, 125);
    lemma_pow2_pos(125);
    lemma_pow2_unfold(126);
    let p = pow2(125) as int;
    assert(0x3f7f_ff58int / 0x80_0000 == 126 && 0x3f7f_ff58int % 0x80_0000 == 0x7f_ff58);
    assert(0x3f7f_ff59int / 0x80_0000 == 126 && 0x3f7f_ff59int % 0x80_0000 == 0x7f_ff59);
    assert(0x3f80_0053int / 0x80_0000 == 127 && 0x3f80_0053int % 0x80_0000 == 0x53);
    assert(0x3f80_0054int / 0x80_0000 == 127 && 0x3f80_0054int % 0x80_0000 == 0x54);
    assert((0x80_0000 + 0x53) * (2 * p) == (0x100_0000 + 166) * p) by (nonlinear_arith);
    assert((0x80_0000 + 0x54) * (2 * p) == (0x100_0000 + 168) * p) by (nonlinear_arith);
}

/// Every magnitude below a given exponent step is smaller than any
/// magnitude at or above it.
proof fn lemma_magnitude_bounds(m: int)
    requires
        0 <= m,
    ensures
        0x80_0000 * pow2((m / 0x80_0000) as nat) > magnitude(m),
        m / 0x80_0000 >= 1 ==> magnitude(m) >= 0x80_0000 * pow2((m / 0x80_0000 - 1) as nat),
        magnitude(m) >= 0,
{
    let e = m / 0x80_0000;
    let f = m % 0x80_0000;
    if e <= 0 {
        lemma_pow2_pos(0);
        lemma2_to64();
    } else {
        let p = pow2((e - 1) as nat);
        lemma_pow2_pos((e - 1) as nat);
        lemma_pow2_unfold(e as nat);
        assert(pow2(e as nat) == 2 * p);
        assert((0x80_0000 + f) * p < 0x100_0000 * p) by (nonlinear_arith)
            requires
                0 <= f < 0x80_0000,
                p > 0,
        ;
        assert((0x80_0000 + f) * p >= 0x80_0000 * p) by (nonlinear_arith)
            requires
                0 <= f < 0x80_0000,
                p > 0,
        ;
        assert(0x80_0000 * (2 * p) == 0x100_0000 * p) by (nonlinear_arith);
    }
}

/// Law: among magnitude patterns the larger pattern stands for the larger
/// size.
pub proof fn lemma_magnitude_increases(m1: int, m2: int)
    requires
        0 <= m1 < m2,
    ensures
        magnitude(m1) < magnitude(m2),
{
    let e1 = m1 / 0x80_0000;
    let e2 = m2 / 0x80_0000;
    let f1 = m1 % 0x80_0000;
    let f2 = m2 % 0x80_0000;
    lemma_magnitude_bounds(m1);
    lemma_magnitude_bounds(m2);
    if e1 == e2 {
        assert(f1 < f2);
        if e1 > 0 {
            let p = pow2((e1 - 1) as nat);
            lemma_pow2_pos((e1 - 1) as nat);
            assert((0x80_0000 + f1) * p < (0x80_0000 + f2) * p) by (nonlinear_arith)
                requires
                    f1 < f2,
                    p > 0,
            ;
        }
    } else {
        assert(e1 < e2);
        if e1 < e2 - 1 {
            lemma_pow2_strictly_increases(e1 as nat, (e2 - 1) as nat);
        }
        let lower = pow2(e1 as nat);
        let upper = pow2((e2 - 1) as nat);
        assert(lower <= upper);
        assert(0x80_0000 * lower <= 0x80_0000 * upper) by (nonlinear_arith)
            requires
                lower <= upper,
        ;
    }
}

/// A single-precision number, held by its bit pattern.
#[derive(Clone, Copy, Debug)]
pub struct Scalar {
    bits: u32,
}

impl Scalar {
    /// The pattern of this number.
    pub closed spec fn view(&self) -> u32 {
        self.bits
    }

    /// Whether this is a number (finite or infinite) rather than the
    /// not-a-number marker.
    pub open spec fn is_number(&self) -> bool {
        !is_nan(self@)
    }

    /// Strictly-less in the order of the numbers: false whenever either
    /// side is not a number, and false between the two zeros.
    pub open spec fn below(&self, other: Scalar) -> bool {
        self.is_number() && other.is_number() && value(self@) < value(other@)
    }

    /// Equal as numbers: both are numbers and stand for the same value.
    /// The two zeros are equal, and what is not a number equals nothing,
    /// not even itself.
    pub open spec fn same(&self, other: Scalar) -> bool {
        self.is_number() && other.is_number() && value(self@) == value(other@)
    }

    /// Greater than zero in the order of the numbers.
    pub open spec fn positive(&self) -> bool {
        self.is_number() && value(self@) > 0
    }

    /// Takes a bit pattern as it is.
    pub fn from_bits(bits: u32) -> (s: Scalar)
        ensures
            s@ == bits,
    {
        Scalar { bits }
    }

    /// Gives the bit pattern back.
    pub fn to_bits(&self) -> (bits: u32)
        ensures
            bits == self@,
    {
        self.bits
    }

    /// Positive zero.
    pub fn zero() -> (s: Scalar)
        ensures
            s@ == 0,
            s.is_number(),
            value(s@) == 0,
    {
        Scalar { bits: 0 }
    }

    /// The number `k / 2^24` for a fraction `k` of the unit interval,
    /// exactly: every such fraction has a pattern of its own. Larger `k` are
    /// no fractions.
    pub fn from_fraction(k: u32) -> (r: Option<Scalar>)
        ensures
            r is Some <==> k < 0x100_0000,
            r matches Some(s) ==> s.is_number() && !is_negative(s@) && value(s@) == k * pow2(125),
    {
        if k < 0x100_0000 {
            Some(Scalar::fraction(k))
        } else {
            None
        }
    }

    /// The number `k / 2^24`, exactly.
    pub(crate) fn fraction(k: u32) -> (s: Scalar)
        requires
            k < 0x100_0000,
        ensures
            s.is_number(),
            !is_negative(s@),
            value(s@) == k * pow2(125),
    {
        if k == 0 {
            return Scalar { bits: 0 };
        }
        let mut m: u32 = k;
        let mut e: u32 = 126;
        proof {
            lemma2_to64();
        }
        while m < 0x80_0000
            invariant
                0 < m < 0x100_0000,
                103 <= e <= 126,
                pow2((126 - e) as nat) <= m,
                m * pow2((e - 1) as nat) == k * pow2(125),
            decreases 0x100_0000 - m,
        {
            proof {
                lemma2_to64();
                if e == 103 {
                    assert(pow2(23) <= m);
                }
                lemma_pow2_unfold((127 - e) as nat);
                lemma_pow2_unfold((e - 1) as nat);
                let p = pow2((e - 2) as nat);
                assert((2 * m) * p == m * (2 * p)) by (nonlinear_arith);
            }
            m = 2 * m;
            e = e - 1;
        }
        let bits: u32 = e * 0x80_0000 + (m - 0x80_0000);
        proof {
            let b = bits as int;
            assert(b == e * 0x80_0000 + (m - 0x80_0000));
            assert(b / 0x80_0000 == e as int && b % 0x80_0000 == m - 0x80_0000) by {
                lemma_fundamental_div_mod_converse(
                    b,
                    0x80_0000,
                    e as int,
                    m - 0x80_0000,
                );
            }
            assert(magnitude_bits(bits) == b);
        }
        Scalar { bits }
    }

    /// Cuts the number down to a 32-bit whole number, rounding towards
    /// zero. Numbers outside the 32-bit range go to its nearest end, and
    /// what is not a number goes to zero.
    pub fn to_i32(&self) -> (r: i32)
        ensures
            r == truncated(self@),
    {
        let bits = self.bits;
        let m = bits & 0x7fff_ffff;
        assert(bits & 0x7fff_ffff == bits % 0x8000_0000) by (bit_vector);
        if m > INFINITY_BITS {
            return 0;
        }
        let negative = bits >= SIGN_BIT;
        let e = m / 0x80_0000;
        let f = m % 0x80_0000;
        if e < 127 {
            proof {
                lemma_whole_part_small(m as int);
            }
            return 0;
        }
        if e >= 158 {
            proof {
                lemma_whole_part_large(m as int);
            }
            return if negative {
                i32::MIN
            } else {
                i32::MAX
            };
        }
        let significand: u64 = 0x80_0000 + f as u64;
        let mut whole: u64 = significand;
        let mut i: u32 = 150;
        proof {
            lemma2_to64();
            assert(pow2(0) == 1);
            assert(significand * pow2(0) == significand) by (nonlinear_arith)
                requires
                    pow2(0) == 1,
            ;
            assert(0x100_0000 * pow2(0) == 0x100_0000) by (nonlinear_arith)
                requires
                    pow2(0) == 1,
            ;
            assert(significand as int / (pow2(0) as int) == significand);
        }
        if e >= 150 {
            while i < e
                invariant
                    150 <= i <= e < 158,
                    significand < 0x100_0000,
                    whole == significand * pow2((i - 150) as nat),
                    whole < 0x100_0000 * pow2((i - 150) as nat),
                decreases e - i,
            {
                proof {
                    lemma2_to64();
                    lemma_pow2_unfold((i - 149) as nat);
                    let p = pow2((i - 150) as nat) as int;
                    assert(2 * (significand * p) == significand * (2 * p)) by (nonlinear_arith);
                    assert(2 * (0x100_0000 * p) == 0x100_0000 * (2 * p)) by (nonlinear_arith);
                }
                whole = 2 * whole;
                i = i + 1;
            }
            proof {
                let up = pow2((e - 150) as nat) as int;
                lemma_pow2_adds((e - 150) as nat, 149);
                lemma_pow2_pos(149);
                assert(significand * (up * pow2(149)) == (significand * up) * pow2(149))
                    by (nonlinear_arith);
                lemma_div_by_multiple(significand * up, pow2(149) as int);
            }
        } else {
            while i > e
                invariant
                    127 <= e <= i <= 150,
                    whole == significand as int / (pow2((150 - i) as nat) as int),
                decreases i - e,
            {
                proof {
                    lemma_pow2_pos((150 - i) as nat);
                    lemma_pow2_unfold((151 - i) as nat);
                    lemma_div_denominator(
                        significand as int,
                        pow2((150 - i) as nat) as int,
                        2,
                    );
                    assert(pow2((150 - i) as nat) * 2 == 2 * pow2((150 - i) as nat));
                }
                whole = whole / 2;
                i = i - 1;
            }
            proof {
                let low = pow2((e - 1) as nat) as int;
                let down = pow2((150 - e) as nat) as int;
                lemma_pow2_adds((e - 1) as nat, (150 - e) as nat);
                lemma_pow2_pos((e - 1) as nat);
                lemma_pow2_pos((150 - e) as nat);
                lemma_div_multiples_vanish_quotient(low, significand as int, down);
                assert(low * significand == significand * low) by (nonlinear_arith);
            }
        }
        assert(whole == whole_part(bits));
        assert(whole < 0x8000_0000) by {
            lemma2_to64();
        }
        if negative {
            (-(whole as i64)) as i32
        } else {
            whole as i32
        }
    }

    /// Whether the number lies within one hundred-thousandth of one, as a
    /// length that counts as a unit length does.
    pub fn is_near_one(&self) -> (r: bool)
        ensures
            r == near_one(self@),
    {
        let bits = self.bits;
        proof {
            assert(bits < 0x8000_0000 ==> bits % 0x8000_0000 == bits);
            lemma_near_one_ends();
            let p = pow2(125) as int;
            let m = magnitude_bits(bits);
            if bits >= SIGN_BIT {
                if !is_nan(bits) {
                    if 0 < m {
                        lemma_magnitude_increases(0, m);
                    }
                    assert(magnitude(0) == 0);
                    assert(100_000 * (0x100_0000 * p) > 0x100_0000 * p) by (nonlinear_arith)
                        requires
                            p > 0,
                    ;
                }
            } else if bits < NEAR_ONE_MIN {
                if bits < 0x3f7f_ff58 {
                    lemma_magnitude_increases(bits as int, 0x3f7f_ff58);
                }
                assert(100_000 * (0x100_0000 * p - (0x100_0000 - 168) * p) > 0x100_0000 * p)
                    by (nonlinear_arith)
                    requires
                        p > 0,
                ;
            } else if bits > NEAR_ONE_MAX {
                if bits > 0x3f80_0054 {
                    lemma_magnitude_increases(0x3f80_0054, bits as int);
                }
                assert(100_000 * ((0x100_0000 + 168) * p - 0x100_0000 * p) > 0x100_0000 * p)
                    by (nonlinear_arith)
                    requires
                        p > 0,
                ;
            } else {
                if NEAR_ONE_MIN < bits {
                    lemma_magnitude_increases(NEAR_ONE_MIN as int, bits as int);
                }
                if bits < NEAR_ONE_MAX {
                    lemma_magnitude_increases(bits as int, NEAR_ONE_MAX as int);
                }
                assert(100_000 * (0x100_0000 * p - (0x100_0000 - 167) * p) <= 0x100_0000 * p)
                    by (nonlinear_arith)
                    requires
                        p > 0,
                ;
                assert(100_000 * ((0x100_0000 + 166) * p - 0x100_0000 * p) <= 0x100_0000 * p)
                    by (nonlinear_arith)
                    requires
                        p > 0,
                ;
            }
        }
        NEAR_ONE_MIN <= bits && bits <= NEAR_ONE_MAX
    }

    /// The number with the opposite sign.
    pub fn neg(&self) -> (r: Scalar)
        ensures
            r.is_number() == self.is_number(),
            value(r@) == -value(self@),
            magnitude_bits(r@) == magnitude_bits(self@),
    {
        let bits = self.bits;
        assert((bits ^ 0x8000_0000) % 0x8000_0000 == bits % 0x8000_0000) by (bit_vector);
        assert((bits ^ 0x8000_0000 >= 0x8000_0000) == (bits < 0x8000_0000)) by (bit_vector);
        Scalar { bits: bits ^ SIGN_BIT }
    }

    /// The size of the number: the number without its sign.
    pub fn abs(&self) -> (r: Scalar)
        ensures
            r.is_number() == self.is_number(),
            !is_negative(r@),
            value(r@) == magnitude(magnitude_bits(self@)),
            value(r@) == if value(self@) < 0 {
                -value(self@)
            } else {
                value(self@)
            },
    {
        let bits = self.bits;
        assert(bits & 0x7fff_ffff == bits % 0x8000_0000) by (bit_vector);
        proof {
            let m = magnitude_bits(bits);
            if 0 < m {
                lemma_magnitude_increases(0, m);
            }
            assert(magnitude(0) == 0);
        }
        Scalar { bits: bits & 0x7fff_ffff }
    }

    /// `self == other` as the numbers compare.
    pub fn equals(&self, other: &Scalar) -> (r: bool)
        ensures
            r == self.same(*other),
    {
        let a = self.bits;
        let b = other.bits;
        let ma = a & 0x7fff_ffff;
        let mb = b & 0x7fff_ffff;
        assert(a & 0x7fff_ffff == a % 0x8000_0000) by (bit_vector);
        assert(b & 0x7fff_ffff == b % 0x8000_0000) by (bit_vector);
        if ma > INFINITY_BITS || mb > INFINITY_BITS {
            return false;
        }
        proof {
            if ma < mb {
                lemma_magnitude_increases(ma as int, mb as int);
            }
            if mb < ma {
                lemma_magnitude_increases(mb as int, ma as int);
            }
            if 0 < ma {
                lemma_magnitude_increases(0, ma as int);
            }
            if 0 < mb {
                lemma_magnitude_increases(0, mb as int);
            }
            assert(magnitude(0) == 0);
            assert(a == b <==> (ma == mb && (a >= 0x8000_0000) == (b >= 0x8000_0000)));
        }
        a == b || (ma == 0 && mb == 0)
    }

    /// Tells the not-a-number patterns from the numbers.
    pub fn is_nan(&self) -> (r: bool)
        ensures
            r == !self.is_number(),
    {
        let bits = self.bits;
        assert(bits & 0x7fff_ffff == bits % 0x8000_0000) by (bit_vector);
        (self.bits & 0x7fff_ffff) > INFINITY_BITS
    }

    /// `self < other` as the numbers compare.
    pub fn lt(&self, other: &Scalar) -> (r: bool)
        ensures
            r == self.below(*other),
    {
        let a = self.bits;
        let b = other.bits;
        let ma = a & 0x7fff_ffff;
        let mb = b & 0x7fff_ffff;
        assert(a & 0x7fff_ffff == a % 0x8000_0000) by (bit_vector);
        assert(b & 0x7fff_ffff == b % 0x8000_0000) by (bit_vector);
        if ma > INFINITY_BITS || mb > INFINITY_BITS {
            return false;
        }
        proof {
            if ma < mb {
                lemma_magnitude_increases(ma as int, mb as int);
            }
            if mb < ma {
                lemma_magnitude_increases(mb as int, ma as int);
            }
            if 0 < ma {
                lemma_magnitude_increases(0, ma as int);
            }
            if 0 < mb {
                lemma_magnitude_increases(0, mb as int);
            }
            assert(magnitude(0) == 0);
        }
        if a >= SIGN_BIT {
            if b >= SIGN_BIT {
                mb < ma
            } else {
                ma != 0 || mb != 0
            }
        } else {
            if b >= SIGN_BIT {
                false
            } else {
                ma < mb
            }
        }
    }

    /// Whether this number is greater than zero.
    pub fn is_positive(&self) -> (r: bool)
        ensures
            r == self.positive(),
    {
        let zero = Scalar::zero();
        zero.lt(self)
    }
}

} // verus!
