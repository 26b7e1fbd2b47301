//! IEEE 754 binary32 numbers, held and computed on as bit patterns.
//!
//! Every coordinate, distance, threshold and zoom factor of the editor is a
//! binary32 number. A [`Scalar`] carries the 32 bits of one; comparison and
//! arithmetic are integer computations on those bits, specified here against
//! the exact value of each operand and round-to-nearest-even.
use crate::rounding::{
    bit_length, clamp_mag, lemma_round_absorbs_addend, lemma_round_absorbs_subtrahend,
    distance, lemma_mag_value_increases, lemma_round_error, lemma_round_exact,
    lemma_round_ratio_monotonic, lemma_shift_for_below,
    lemma_round_ratio_scale, lemma_round_small, lemma_round_sticky, mag_value, pow2_u64,
    round_ratio, round_scaled, round_shifted,
};
use vstd::arithmetic::div_mod::*;
use vstd::arithmetic::mul::*;
use vstd::arithmetic::power2::*;
use vstd::prelude::*;

verus! {

/// The sign bit of a pattern.
pub const SIGN_BIT: u32 = 0x8000_0000;

/// The magnitude bits of infinity; a larger magnitude is a NaN.
pub const INFINITY_MAG: u32 = 0x7f80_0000;

/// The NaN that every operation of this module returns when it returns one.
pub const QUIET_NAN: u32 = 0x7fc0_0000;

/// The 31 bits below the sign bit.
pub open spec fn mag_of(bits: u32) -> nat {
    (bits % 0x8000_0000) as nat
}

/// The sign bit is set.
pub open spec fn is_negative(bits: u32) -> bool {
    bits >= 0x8000_0000
}

/// The pattern is a NaN: its magnitude is beyond that of infinity.
pub open spec fn is_nan(bits: u32) -> bool {
    mag_of(bits) > 0x7f80_0000
}

/// The pattern is an infinity.
pub open spec fn is_infinite(bits: u32) -> bool {
    mag_of(bits) == 0x7f80_0000
}

/// The pattern is a finite number.
pub open spec fn is_finite(bits: u32) -> bool {
    mag_of(bits) < 0x7f80_0000
}

/// The exact value of a finite pattern, in units of 2^-149. For an infinite
/// pattern this is the value that the next exponent would have, which keeps
/// the order right.
pub open spec fn value_of(bits: u32) -> int {
    if is_negative(bits) {
        -(mag_value(mag_of(bits)) as int)
    } else {
        mag_value(mag_of(bits)) as int
    }
}

/// An integer that orders the patterns as their values are ordered: the
/// magnitude bits, negated under a sign bit. Both zeros have key 0.
pub open spec fn order_key(bits: u32) -> int {
    if is_negative(bits) {
        -(mag_of(bits) as int)
    } else {
        mag_of(bits) as int
    }
}

/// `a < b` as IEEE 754 defines it: false when either is a NaN.
pub open spec fn float_lt(a: u32, b: u32) -> bool {
    !is_nan(a) && !is_nan(b) && order_key(a) < order_key(b)
}

/// `a <= b` as IEEE 754 defines it: false when either is a NaN.
pub open spec fn float_le(a: u32, b: u32) -> bool {
    !is_nan(a) && !is_nan(b) && order_key(a) <= order_key(b)
}

/// `a == b` as IEEE 754 defines it: a NaN equals nothing, the zeros are equal.
pub open spec fn float_eq(a: u32, b: u32) -> bool {
    !is_nan(a) && !is_nan(b) && order_key(a) == order_key(b)
}

/// The pattern with the given sign and the magnitude `m`, or infinity where
/// `m` is beyond the largest finite magnitude.
pub open spec fn pack(negative: bool, m: nat) -> u32 {
    if negative {
        (clamp_mag(m) + 0x8000_0000) as u32
    } else {
        clamp_mag(m)
    }
}

/// The pattern with the sign bit flipped.
pub open spec fn float_neg(a: u32) -> u32 {
    if is_negative(a) {
        (a - 0x8000_0000) as u32
    } else {
        (a + 0x8000_0000) as u32
    }
}

/// The pattern with the sign bit cleared.
pub open spec fn float_abs(a: u32) -> u32 {
    mag_of(a) as u32
}

/// The sum of two finite patterns: the exact sum of their values, rounded.
/// An exact zero is negative only when both operands are.
pub open spec fn finite_sum(a: u32, b: u32) -> u32 {
    let v = value_of(a) + value_of(b);
    if v == 0 {
        if is_negative(a) && is_negative(b) {
            0x8000_0000
        } else {
            0
        }
    } else if v < 0 {
        pack(true, round_ratio((-v) as nat, 1))
    } else {
        pack(false, round_ratio(v as nat, 1))
    }
}

/// `a + b` as IEEE 754 defines it, rounding to nearest, ties to even.
pub open spec fn float_add(a: u32, b: u32) -> u32 {
    if is_nan(a) || is_nan(b) {
        QUIET_NAN
    } else if is_infinite(a) {
        if is_infinite(b) && is_negative(a) != is_negative(b) {
            QUIET_NAN
        } else {
            a
        }
    } else if is_infinite(b) {
        b
    } else {
        finite_sum(a, b)
    }
}

/// `a - b` as IEEE 754 defines it: the sum of `a` and the negated `b`.
pub open spec fn float_sub(a: u32, b: u32) -> u32 {
    float_add(a, float_neg(b))
}

/// `a * b` as IEEE 754 defines it: the exact product of the values, rounded.
/// The unit of a product of two values is 2^-298, hence the divisor.
pub open spec fn float_mul(a: u32, b: u32) -> u32 {
    let negative = is_negative(a) != is_negative(b);
    if is_nan(a) || is_nan(b) {
        QUIET_NAN
    } else if is_infinite(a) || is_infinite(b) {
        if mag_of(a) == 0 || mag_of(b) == 0 {
            QUIET_NAN
        } else {
            pack(negative, 0x7f80_0000)
        }
    } else {
        pack(negative, round_ratio(mag_value(mag_of(a)) * mag_value(mag_of(b)), pow2(149)))
    }
}

/// `a / b` as IEEE 754 defines it: the exact quotient of the values, rounded.
pub open spec fn float_div(a: u32, b: u32) -> u32 {
    let negative = is_negative(a) != is_negative(b);
    if is_nan(a) || is_nan(b) {
        QUIET_NAN
    } else if is_infinite(a) {
        if is_infinite(b) {
            QUIET_NAN
        } else {
            pack(negative, 0x7f80_0000)
        }
    } else if is_infinite(b) {
        pack(negative, 0)
    } else if mag_of(b) == 0 {
        if mag_of(a) == 0 {
            QUIET_NAN
        } else {
            pack(negative, 0x7f80_0000)
        }
    } else {
        pack(negative, round_ratio(mag_value(mag_of(a)) * pow2(149), mag_value(mag_of(b))))
    }
}

/// The nearest whole number, a half going away from zero; the sign stays.
/// A magnitude of 2^23 or more is whole already.
pub open spec fn float_round(a: u32) -> u32 {
    if is_nan(a) {
        QUIET_NAN
    } else if mag_of(a) >= 0x4b00_0000 {
        a
    } else {
        let whole = (2 * mag_value(mag_of(a)) + pow2(149)) / pow2(150);
        pack(is_negative(a), round_ratio(whole * pow2(149), 1))
    }
}

/// The largest whole number not above the value, as a saturating 32-bit
/// integer; 0 for a NaN.
pub open spec fn float_floor_i32(a: u32) -> i32 {
    if is_nan(a) {
        0
    } else {
        let f = value_of(a) / (pow2(149) as int);
        if f > 0x7fff_ffff {
            0x7fff_ffffi32
        } else if f < -0x8000_0000 {
            (-0x8000_0000) as i32
        } else {
            f as i32
        }
    }
}

/// An IEEE 754 binary32 number, held as its bit pattern.
#[derive(Clone, Copy, Debug)]
pub struct Scalar {
    pub bits: u32,
}

impl Scalar {
    /// `self < rhs`.
    pub open spec fn spec_lt(self, rhs: Scalar) -> bool {
        float_lt(self.bits, rhs.bits)
    }

    /// `self <= rhs`.
    pub open spec fn spec_le(self, rhs: Scalar) -> bool {
        float_le(self.bits, rhs.bits)
    }

    /// `self > rhs`.
    pub open spec fn spec_gt(self, rhs: Scalar) -> bool {
        float_lt(rhs.bits, self.bits)
    }

    /// `self >= rhs`.
    pub open spec fn spec_ge(self, rhs: Scalar) -> bool {
        float_le(rhs.bits, self.bits)
    }

    /// `-self`.
    pub open spec fn spec_neg(self) -> Scalar {
        Scalar { bits: float_neg(self.bits) }
    }

    /// `|self|`.
    pub open spec fn spec_abs(self) -> Scalar {
        Scalar { bits: float_abs(self.bits) }
    }

    /// `self + rhs`, rounded.
    pub open spec fn spec_add(self, rhs: Scalar) -> Scalar {
        Scalar { bits: float_add(self.bits, rhs.bits) }
    }

    /// `self - rhs`, rounded.
    pub open spec fn spec_sub(self, rhs: Scalar) -> Scalar {
        Scalar { bits: float_sub(self.bits, rhs.bits) }
    }

    /// `self * rhs`, rounded.
    pub open spec fn spec_mul(self, rhs: Scalar) -> Scalar {
        Scalar { bits: float_mul(self.bits, rhs.bits) }
    }

    /// `self / rhs`, rounded.
    pub open spec fn spec_div(self, rhs: Scalar) -> Scalar {
        Scalar { bits: float_div(self.bits, rhs.bits) }
    }

    /// The nearest whole number, a half going away from zero.
    pub open spec fn spec_round(self) -> Scalar {
        Scalar { bits: float_round(self.bits) }
    }

    /// The floor, as a saturating 32-bit integer.
    pub open spec fn spec_floor_i32(self) -> i32 {
        float_floor_i32(self.bits)
    }
}

/// Clears the sign bit.
pub(crate) fn magnitude(bits: u32) -> (m: u32)
    ensures
        m == mag_of(bits),
        m <= 0x7fff_ffff,
{
    assert(bits & 0x7fff_ffff == bits % 0x8000_0000) by (bit_vector);
    bits & 0x7fff_ffff
}

/// Puts a sign on magnitude bits.
fn with_sign(negative: bool, m: u32) -> (bits: u32)
    requires
        m <= 0x7f80_0000,
    ensures
        bits == pack(negative, m as nat),
        mag_of(bits) == m,
        is_negative(bits) == negative,
{
    if negative {
        m + 0x8000_0000
    } else {
        m
    }
}

/// Splits finite magnitude bits into significand and scale.
fn decode(m: u32) -> (r: (u64, u32))
    requires
        m < 0x7f80_0000,
    ensures
        r.0 < 0x100_0000,
        r.1 <= 253,
        r.1 > 0 ==> r.0 >= 0x80_0000,
        mag_value(m as nat) == r.0 * pow2(r.1 as nat),
        m == r.1 * 0x80_0000 + r.0,
        m < 0x100_0000 ==> r.1 == 0,
{
    proof {
        lemma2_to64();
    }
    if m < 0x100_0000 {
        (m as u64, 0)
    } else {
        ((0x80_0000 + m % 0x80_0000) as u64, m / 0x80_0000 - 1)
    }
}

/// The rounded sum of two finite magnitudes.
fn add_magnitudes(ma: u32, mb: u32) -> (m: u32)
    requires
        ma < 0x7f80_0000,
        mb < 0x7f80_0000,
    ensures
        m == clamp_mag(round_ratio(mag_value(ma as nat) + mag_value(mb as nat), 1)),
        m <= 0x7f80_0000,
{
    let (big, small) = if ma >= mb {
        (ma, mb)
    } else {
        (mb, ma)
    };
    let (sa, ea) = decode(big);
    let (sb, eb) = decode(small);
    let d = ea - eb;
    proof {
        lemma2_to64();
        lemma_pow2_adds(d as nat, eb as nat);
        lemma_pow2_pos(eb as nat);
        lemma_pow2_pos(d as nat);
    }
    let ghost pe = pow2(eb as nat);
    let ghost pd = pow2(d as nat);
    if d >= 26 {
        proof {
            // the small operand lies below a quarter of the large one's last place
            lemma_pow2_adds(24, eb as nat);
            if 24 + eb < ea - 2 {
                lemma_pow2_strictly_increases((24 + eb) as nat, (ea - 2) as nat);
            }
            lemma_pow2_adds(2, (ea - 2) as nat);
            assert(sb * pe < pow2(24) * pe) by (nonlinear_arith)
                requires
                    sb < 0x100_0000,
                    pow2(24) == 0x100_0000,
                    pe > 0,
            ;
            lemma_round_absorbs_addend(sa as nat, ea as nat, sb as nat * pe);
        }
        return big;
    }
    let pw = pow2_u64(d);
    proof {
        lemma_pow2_strictly_increases(d as nat, 26);
        assert(sa * pw + sb < 0x100_0000 * 0x400_0000 + 0x100_0000) by (nonlinear_arith)
            requires
                sa < 0x100_0000,
                sb < 0x100_0000,
                pw < 0x400_0000,
        ;
    }
    let y = sa * pw + sb;
    proof {
        assert(y * pe == sa * pow2(ea as nat) + sb * pe) by (nonlinear_arith)
            requires
                y == sa * pd + sb,
                pow2(ea as nat) == pd * pe,
        ;
    }
    round_scaled(y, eb)
}

/// The rounded difference of two finite magnitudes, the first the larger.
fn sub_magnitudes(ma: u32, mb: u32) -> (m: u32)
    requires
        mb < ma < 0x7f80_0000,
    ensures
        mag_value(ma as nat) > mag_value(mb as nat),
        m == clamp_mag(round_ratio((mag_value(ma as nat) - mag_value(mb as nat)) as nat, 1)),
        m <= 0x7f80_0000,
{
    let (sa, ea) = decode(ma);
    let (sb, eb) = decode(mb);
    proof {
        lemma_mag_value_increases(mb as nat, ma as nat);
        lemma2_to64();
    }
    let d = ea - eb;
    let ghost pe = pow2(eb as nat);
    let ghost pd = pow2(d as nat);
    proof {
        lemma_pow2_adds(d as nat, eb as nat);
        lemma_pow2_pos(eb as nat);
        lemma_pow2_pos(d as nat);
    }
    if d >= 26 {
        proof {
            lemma_pow2_adds(24, eb as nat);
            if 24 + eb < ea - 2 {
                lemma_pow2_strictly_increases((24 + eb) as nat, (ea - 2) as nat);
            }
            lemma_pow2_adds(2, (ea - 2) as nat);
            assert(sb * pe < pow2(24) * pe) by (nonlinear_arith)
                requires
                    sb < 0x100_0000,
                    pow2(24) == 0x100_0000,
                    pe > 0,
            ;
            lemma_round_absorbs_subtrahend(sa as nat, ea as nat, sb as nat * pe);
        }
        return ma;
    }
    let pw = pow2_u64(d);
    proof {
        lemma_pow2_strictly_increases(d as nat, 26);
        assert(sa * pw < 0x100_0000 * 0x400_0000) by (nonlinear_arith)
            requires
                sa < 0x100_0000,
                pw < 0x400_0000,
        ;
        assert(sa * pd > sb) by (nonlinear_arith)
            requires
                sa * (pd * pe) > sb * pe,
                pe > 0,
        ;
    }
    let y = sa * pw - sb;
    proof {
        assert(y * pe == sa * pow2(ea as nat) - sb * pe) by (nonlinear_arith)
            requires
                y == sa * pd - sb,
                pow2(ea as nat) == pd * pe,
        ;
    }
    round_scaled(y, eb)
}

impl Scalar {
    /// The number with the given bit pattern.
    pub fn from_bits(bits: u32) -> (r: Scalar)
        ensures
            r.bits == bits,
    {
        Scalar { bits }
    }

    /// The bit pattern.
    pub fn to_bits(self) -> (bits: u32)
        ensures
            bits == self.bits,
    {
        self.bits
    }

    /// Whether this is a NaN.
    pub fn is_nan(self) -> (r: bool)
        ensures
            r == is_nan(self.bits),
    {
        magnitude(self.bits) > INFINITY_MAG
    }

    /// Flips the sign.
    pub fn neg(self) -> (r: Scalar)
        ensures
            r == self.spec_neg(),
    {
        if self.bits >= SIGN_BIT {
            Scalar { bits: self.bits - SIGN_BIT }
        } else {
            Scalar { bits: self.bits + SIGN_BIT }
        }
    }

    /// Clears the sign.
    pub fn abs(self) -> (r: Scalar)
        ensures
            r == self.spec_abs(),
    {
        Scalar { bits: magnitude(self.bits) }
    }

    /// `self < rhs`.
    pub fn lt(self, rhs: Scalar) -> (r: bool)
        ensures
            r == self.spec_lt(rhs),
    {
        let ma = magnitude(self.bits);
        let mb = magnitude(rhs.bits);
        if ma > INFINITY_MAG || mb > INFINITY_MAG {
            return false;
        }
        let na = self.bits >= SIGN_BIT;
        let nb = rhs.bits >= SIGN_BIT;
        if na {
            if nb {
                mb < ma
            } else {
                ma != 0 || mb != 0
            }
        } else {
            if nb {
                false
            } else {
                ma < mb
            }
        }
    }

    /// `self <= rhs`.
    pub fn le(self, rhs: Scalar) -> (r: bool)
        ensures
            r == self.spec_le(rhs),
    {
        let ma = magnitude(self.bits);
        let mb = magnitude(rhs.bits);
        if ma > INFINITY_MAG || mb > INFINITY_MAG {
            return false;
        }
        let na = self.bits >= SIGN_BIT;
        let nb = rhs.bits >= SIGN_BIT;
        if na {
            if nb {
                mb <= ma
            } else {
                true
            }
        } else {
            if nb {
                ma == 0 && mb == 0
            } else {
                ma <= mb
            }
        }
    }

    /// `self > rhs`.
    pub fn gt(self, rhs: Scalar) -> (r: bool)
        ensures
            r == self.spec_gt(rhs),
    {
        rhs.lt(self)
    }

    /// `self >= rhs`.
    pub fn ge(self, rhs: Scalar) -> (r: bool)
        ensures
            r == self.spec_ge(rhs),
    {
        rhs.le(self)
    }

    /// `self + rhs`.
    pub fn add(self, rhs: Scalar) -> (r: Scalar)
        ensures
            r == self.spec_add(rhs),
    {
        let ma = magnitude(self.bits);
        let mb = magnitude(rhs.bits);
        let na = self.bits >= SIGN_BIT;
        let nb = rhs.bits >= SIGN_BIT;
        if ma > INFINITY_MAG || mb > INFINITY_MAG {
            return Scalar { bits: QUIET_NAN };
        }
        if ma == INFINITY_MAG {
            if mb == INFINITY_MAG && na != nb {
                return Scalar { bits: QUIET_NAN };
            }
            return self;
        }
        if mb == INFINITY_MAG {
            return rhs;
        }
        if na == nb {
            let m = add_magnitudes(ma, mb);
            proof {
                if ma > 0 {
                    lemma_mag_value_increases(0, ma as nat);
                }
                if mb > 0 {
                    lemma_mag_value_increases(0, mb as nat);
                }
                if ma == 0 && mb == 0 {
                    lemma_round_small(0);
                }
            }
            Scalar { bits: with_sign(na, m) }
        } else if ma == mb {
            Scalar { bits: 0 }
        } else if ma > mb {
            let m = sub_magnitudes(ma, mb);
            Scalar { bits: with_sign(na, m) }
        } else {
            let m = sub_magnitudes(mb, ma);
            Scalar { bits: with_sign(nb, m) }
        }
    }

    /// `self - rhs`.
    pub fn sub(self, rhs: Scalar) -> (r: Scalar)
        ensures
            r == self.spec_sub(rhs),
    {
        self.add(rhs.neg())
    }
}

/// Shifts a nonzero significand up until its top bit is bit 23.
fn normalize(sig: u64) -> (r: (u64, u32))
    requires
        0 < sig < 0x100_0000,
    ensures
        r.0 == sig * pow2(r.1 as nat),
        0x80_0000 <= r.0 < 0x100_0000,
        r.1 <= 23,
{
    let bl = bit_length(sig);
    proof {
        lemma2_to64();
        if bl > 24 {
            lemma_pow2_strictly_increases(24, (bl - 1) as nat);
        }
    }
    let l: u32 = 24 - bl;
    let pw = pow2_u64(l);
    proof {
        lemma_pow2_adds(bl as nat, l as nat);
        lemma_pow2_adds((bl - 1) as nat, l as nat);
        assert(sig * pw < pow2(24) && sig * pw >= pow2(23)) by (nonlinear_arith)
            requires
                pow2((bl - 1) as nat) <= sig < pow2(bl as nat),
                pw > 0,
                pow2(24) == pow2(bl as nat) * pw,
                pow2(23) == pow2((bl - 1) as nat) * pw,
        ;
    }
    (sig * pw, l)
}

/// Zero rounds to zero.
proof fn lemma_round_zero(den: nat)
    requires
        den > 0,
    ensures
        round_ratio(0, den) == 0,
{
    lemma2_to64();
    lemma_div_basics_1(den as int);
    assert(0nat / den == 0);
    assert(crate::rounding::shift_for(0) == 0);
    assert(den * pow2(0) == den);
    lemma_small_mod(0, den);
}

/// Floor division of a negated dividend.
proof fn lemma_neg_floor(v: nat, d: nat)
    requires
        d > 0,
    ensures
        (-(v as int)) / (d as int) == if v % d == 0 {
            -((v / d) as int)
        } else {
            -((v / d) as int) - 1
        },
{
    let q = (v / d) as int;
    let r = (v % d) as int;
    lemma_fundamental_div_mod(v as int, d as int);
    if r == 0 {
        assert(-(v as int) == (-q) * d + 0) by (nonlinear_arith)
            requires
                v == d * q + r,
                r == 0,
        ;
        lemma_fundamental_div_mod_converse(-(v as int), d as int, -q, 0);
    } else {
        assert(-(v as int) == (-q - 1) * d + (d - r)) by (nonlinear_arith)
            requires
                v == d * q + r,
        ;
        lemma_fundamental_div_mod_converse(-(v as int), d as int, -q - 1, d - r);
    }
}

impl Scalar {
    /// `self * rhs`.
    pub fn mul(self, rhs: Scalar) -> (r: Scalar)
        ensures
            r == self.spec_mul(rhs),
    {
        let ma = magnitude(self.bits);
        let mb = magnitude(rhs.bits);
        let negative = (self.bits >= SIGN_BIT) != (rhs.bits >= SIGN_BIT);
        if ma > INFINITY_MAG || mb > INFINITY_MAG {
            return Scalar { bits: QUIET_NAN };
        }
        if ma == INFINITY_MAG || mb == INFINITY_MAG {
            if ma == 0 || mb == 0 {
                return Scalar { bits: QUIET_NAN };
            }
            return Scalar { bits: with_sign(negative, INFINITY_MAG) };
        }
        let (sa, ea) = decode(ma);
        let (sb, eb) = decode(mb);
        assert(sa * sb < 0x100_0000 * 0x100_0000) by (nonlinear_arith)
            requires
                sa < 0x100_0000,
                sb < 0x100_0000,
        ;
        let p = sa * sb;
        let e = ea + eb;
        let ghost pa = pow2(ea as nat);
        let ghost pb = pow2(eb as nat);
        let ghost exact = mag_value(ma as nat) * mag_value(mb as nat);
        proof {
            lemma_pow2_adds(ea as nat, eb as nat);
            lemma_pow2_pos(e as nat);
            lemma_pow2_pos(149);
            assert(exact == p * pow2(e as nat)) by (nonlinear_arith)
                requires
                    exact == (sa * pa) * (sb * pb),
                    p == sa * sb,
                    pow2(e as nat) == pa * pb,
            ;
        }
        if e >= 149 {
            let m = round_scaled(p, e - 149);
            proof {
                let up = pow2((e - 149) as nat);
                lemma_pow2_adds((e - 149) as nat, 149);
                assert(exact == (p * up) * pow2(149)) by (nonlinear_arith)
                    requires
                        exact == p * pow2(e as nat),
                        pow2(e as nat) == up * pow2(149),
                ;
                lemma_round_ratio_scale(p as nat * up, 1, pow2(149));
                assert(1 * pow2(149) == pow2(149));
            }
            Scalar { bits: with_sign(negative, m) }
        } else {
            let m = round_shifted(p, 149 - e);
            proof {
                let down = pow2((149 - e) as nat);
                lemma_pow2_adds((149 - e) as nat, e as nat);
                lemma_pow2_pos((149 - e) as nat);
                lemma_round_ratio_scale(p as nat, down, pow2(e as nat));
            }
            Scalar { bits: with_sign(negative, m) }
        }
    }

    /// `self / rhs`.
    pub fn div(self, rhs: Scalar) -> (r: Scalar)
        ensures
            r == self.spec_div(rhs),
    {
        let ma = magnitude(self.bits);
        let mb = magnitude(rhs.bits);
        let negative = (self.bits >= SIGN_BIT) != (rhs.bits >= SIGN_BIT);
        if ma > INFINITY_MAG || mb > INFINITY_MAG {
            return Scalar { bits: QUIET_NAN };
        }
        if ma == INFINITY_MAG {
            if mb == INFINITY_MAG {
                return Scalar { bits: QUIET_NAN };
            }
            return Scalar { bits: with_sign(negative, INFINITY_MAG) };
        }
        if mb == INFINITY_MAG {
            return Scalar { bits: with_sign(negative, 0) };
        }
        if mb == 0 {
            if ma == 0 {
                return Scalar { bits: QUIET_NAN };
            }
            return Scalar { bits: with_sign(negative, INFINITY_MAG) };
        }
        proof {
            lemma_mag_value_increases(0, mb as nat);
            lemma2_to64();
        }
        if ma == 0 {
            proof {
                assert(mag_value(0) * pow2(149) == 0) by (nonlinear_arith)
                    requires
                        mag_value(0) == 0,
                ;
                lemma_round_zero(mag_value(mb as nat));
            }
            return Scalar { bits: with_sign(negative, 0) };
        }
        let (sa, ea) = decode(ma);
        let (sb, eb) = decode(mb);
        let (xa, la) = normalize(sa);
        let (xb, lb) = normalize(sb);
        let big = xa * 0x800_0000;
        let q = big / xb;
        let rem = big % xb;
        let n = if rem > 0 {
            2 * q + 1
        } else {
            2 * q
        };
        let j = ea + 149 + lb;
        let k = eb + la + 27;
        let ghost num = mag_value(ma as nat) * pow2(149);
        let ghost den = mag_value(mb as nat);
        proof {
            // the quotient has 27 or 28 bits
            lemma_div_is_ordered(0x200_0000 * xb as int, big as int, xb as int);
            lemma_div_by_multiple(0x200_0000, xb as int);
            // bring the stated ratio to the form (big * 2^j) / (xb * 2^k)
            let c = pow2((la + 27 + lb) as nat);
            lemma_pow2_pos((la + 27 + lb) as nat);
            lemma_round_ratio_scale(num, den, c);
            lemma_pow2_adds(la as nat, 27);
            lemma_pow2_adds((la + 27) as nat, lb as nat);
            lemma_pow2_adds(ea as nat, 149);
            lemma_pow2_adds((ea + 149) as nat, lb as nat);
            lemma_pow2_adds(eb as nat, (la + 27) as nat);
            lemma_pow2_adds(lb as nat, (eb + la + 27) as nat);
            lemma_pow2_adds(lb as nat, (la + 27) as nat);
            let pla = pow2(la as nat);
            let plb = pow2(lb as nat);
            let pea = pow2(ea as nat);
            let peb = pow2(eb as nat);
            let pj = pow2(j as nat);
            let pk = pow2(k as nat);
            assert(num * c == big * pj) by (nonlinear_arith)
                requires
                    num == (sa * pea) * pow2(149),
                    c == (pla * 0x800_0000) * plb,
                    big == (sa * pla) * 0x800_0000,
                    pj == (pea * pow2(149)) * plb,
            ;
            assert(den * c == xb * pk) by (nonlinear_arith)
                requires
                    den == sb * peb,
                    c == plb * (pla * 0x800_0000),
                    xb == sb * plb,
                    pk == peb * (pla * 0x800_0000),
            ;
            lemma_round_sticky(big as nat, xb as nat, j as nat, k as nat);
            lemma_pow2_unfold((k + 1) as nat);
        }
        if j >= k + 1 {
            let m = round_scaled(n, j - k - 1);
            proof {
                let up = pow2((j - k - 1) as nat);
                lemma_pow2_adds((j - k - 1) as nat, (k + 1) as nat);
                lemma_pow2_pos((k + 1) as nat);
                assert(n * pow2(j as nat) == (n * up) * pow2((k + 1) as nat)) by (nonlinear_arith)
                    requires
                        pow2(j as nat) == up * pow2((k + 1) as nat),
                ;
                lemma_round_ratio_scale(n as nat * up, 1, pow2((k + 1) as nat));
                assert(1 * pow2((k + 1) as nat) == 2 * pow2(k as nat));
            }
            Scalar { bits: with_sign(negative, m) }
        } else {
            let m = round_shifted(n, k + 1 - j);
            proof {
                let down = pow2((k + 1 - j) as nat);
                lemma_pow2_adds((k + 1 - j) as nat, j as nat);
                lemma_pow2_pos((k + 1 - j) as nat);
                lemma_pow2_pos(j as nat);
                lemma_round_ratio_scale(n as nat, down, pow2(j as nat));
            }
            Scalar { bits: with_sign(negative, m) }
        }
    }

    /// The nearest whole number, a half going away from zero.
    pub fn round(self) -> (r: Scalar)
        ensures
            r == self.spec_round(),
    {
        let m = magnitude(self.bits);
        if m > INFINITY_MAG {
            return Scalar { bits: QUIET_NAN };
        }
        if m >= 0x4b00_0000 {
            return self;
        }
        let negative = self.bits >= SIGN_BIT;
        let (sig, e) = decode(m);
        let k: u32 = 149 - e;
        let ghost v = mag_value(m as nat);
        let ghost whole = (2 * v + pow2(149)) / pow2(150);
        proof {
            lemma2_to64();
            lemma_pow2_adds((e + 1) as nat, k as nat);
            lemma_pow2_adds((e + 1) as nat, (k - 1) as nat);
            lemma_pow2_unfold((e + 1) as nat);
            lemma_pow2_pos((e + 1) as nat);
            lemma_pow2_pos(k as nat);
            let pe1 = pow2((e + 1) as nat);
            let half = pow2((k - 1) as nat);
            assert(2 * v + pow2(149) == pe1 * (sig + half)) by (nonlinear_arith)
                requires
                    v == sig * pow2(e as nat),
                    pe1 == 2 * pow2(e as nat),
                    pow2(149) == pe1 * half,
            ;
            lemma_div_multiples_vanish_quotient(pe1 as int, (sig + half) as int, pow2(k as nat) as int);
            assert(whole == (sig as nat + half) / pow2(k as nat)) by {
                assert(pe1 * (sig as nat + half) == pe1 * (sig + half));
            }
        }
        let n: u64 = if k >= 26 {
            proof {
                lemma_pow2_strictly_increases(24, (k - 1) as nat);
                lemma_pow2_unfold(k as nat);
                lemma_basic_div((sig + pow2((k - 1) as nat)) as int, pow2(k as nat) as int);
            }
            0
        } else {
            let half = pow2_u64(k - 1);
            let pw = pow2_u64(k);
            proof {
                lemma_pow2_strictly_increases((k - 1) as nat, 25);
            }
            (sig + half) / pw
        };
        proof {
            // whole <= 2^23, as the value is below 2^23
            lemma_pow2_unfold(k as nat);
            let half = pow2((k - 1) as nat);
            assert(n <= 0x80_0000) by {
                if k < 26 {
                    // sig < 2^24 and e <= 148 with m < 0x4b00_0000
                    if e == 0 {
                        lemma_pow2_strictly_increases(25, k as nat);
                        lemma_div_is_ordered((sig + half) as int, (2 * pow2(k as nat)) as int, pow2(k as nat) as int);
                        lemma_div_by_multiple(2, pow2(k as nat) as int);
                    } else {
                        assert(sig + half < 0x100_0000 + half);
                        assert(k >= 1);
                        lemma_div_is_ordered((sig + half) as int, (0x100_0000 + half) as int, pow2(k as nat) as int);
                        lemma_small_whole(k as nat);
                    }
                }
            }
        }
        let r = round_scaled(n, 149);
        Scalar { bits: with_sign(negative, r) }
    }

    /// The largest whole number not above the value, saturated to 32 bits.
    pub fn floor_to_i32(self) -> (r: i32)
        ensures
            r == self.spec_floor_i32(),
    {
        let m = magnitude(self.bits);
        let negative = self.bits >= SIGN_BIT;
        if m > INFINITY_MAG {
            return 0;
        }
        proof {
            lemma2_to64();
            lemma_pow2_pos(149);
        }
        let ghost v = mag_value(m as nat);
        let ghost unit = pow2(149);
        if m >= 0x4f00_0000 {
            proof {
                // 2^31 and beyond
                if m > 0x4f00_0000 {
                    lemma_mag_value_increases(0x4f00_0000, m as nat);
                }
                lemma_pow2_adds(8, 149);
                assert(mag_value(0x4f00_0000) == 0x80_0000 * pow2(157));
                assert(0x80_0000 * pow2(157) == 0x8000_0000 * unit) by (nonlinear_arith)
                    requires
                        pow2(157) == 0x100 * unit,
                ;
                lemma_div_is_ordered(0x8000_0000 * unit as int, v as int, unit as int);
                lemma_div_by_multiple(0x8000_0000, unit as int);
                lemma_neg_floor(v, unit);
            }
            return if negative {
                -0x8000_0000
            } else {
                0x7fff_ffff
            };
        }
        let (sig, e) = decode(m);
        if e >= 149 {
            let pw = pow2_u64(e - 149);
            proof {
                lemma_pow2_strictly_increases((e - 149) as nat, 8);
                lemma_pow2_adds((e - 149) as nat, 149);
                assert(sig * pw < 0x100_0000 * 0x80) by (nonlinear_arith)
                    requires
                        sig < 0x100_0000,
                        pw <= 0x80,
                ;
                assert(v == (sig * pw) * unit) by (nonlinear_arith)
                    requires
                        v == sig * pow2(e as nat),
                        pow2(e as nat) == pw * unit,
                ;
                lemma_div_by_multiple((sig * pw) as int, unit as int);
                lemma_mod_multiples_basic((sig * pw) as int, unit as int);
                lemma_neg_floor(v, unit);
            }
            let n = sig * pw;
            if negative {
                -(n as i32)
            } else {
                n as i32
            }
        } else {
            let k: u32 = 149 - e;
            let ghost pk = pow2(k as nat);
            proof {
                lemma_pow2_adds(k as nat, e as nat);
                lemma_pow2_pos(k as nat);
                lemma_pow2_pos(e as nat);
                lemma_div_multiples_vanish_quotient(pow2(e as nat) as int, sig as int, pk as int);
                lemma_truncate_middle(sig as int, pow2(e as nat) as int, pk as int);
                lemma_mul_is_commutative(pow2(e as nat) as int, sig as int);
                lemma_mul_is_commutative(pow2(e as nat) as int, pk as int);
                assert(v / unit == sig as nat / pk);
                assert(v % unit == pow2(e as nat) * (sig as nat % pk));
                let pe = pow2(e as nat);
                let rest = sig as nat % pk;
                assert((pe * rest == 0) == (rest == 0)) by (nonlinear_arith)
                    requires
                        pe > 0,
                ;
                lemma_neg_floor(v, unit);
            }
            let (q, exact): (u64, bool) = if k >= 24 {
                proof {
                    if k > 24 {
                        lemma_pow2_strictly_increases(24, k as nat);
                    }
                    lemma_basic_div(sig as int, pk as int);
                    lemma_small_mod(sig as nat, pk);
                }
                (0, sig == 0)
            } else {
                let pw = pow2_u64(k);
                (sig / pw, sig % pw == 0)
            };
            if negative {
                if exact {
                    -(q as i32)
                } else {
                    -(q as i32) - 1
                }
            } else {
                q as i32
            }
        }
    }
}

/// `(2^24 + 2^(k-1)) / 2^k` is at most 2^23 for `1 <= k <= 25`, with room to
/// spare only at `k == 1`.
proof fn lemma_small_whole(k: nat)
    requires
        1 <= k,
    ensures
        (0x100_0000 + pow2((k - 1) as nat)) / pow2(k) <= 0x80_0000,
{
    let half = pow2((k - 1) as nat);
    lemma_pow2_unfold(k);
    lemma_pow2_pos((k - 1) as nat);
    lemma2_to64();
    // with h = 2^(k-1): 2^24 + h <= 2h * 2^23 + h, whose quotient by 2h is 2^23
    assert(0x100_0000 + half <= (2 * half) * 0x80_0000 + half) by (nonlinear_arith)
        requires
            half >= 1,
    ;
    lemma_fundamental_div_mod_converse(((2 * half) * 0x80_0000 + half) as int, (2 * half) as int, 0x80_0000, half as int);
    lemma_div_is_ordered((0x100_0000 + half) as int, ((2 * half) * 0x80_0000 + half) as int, (2 * half) as int);
}

/// The order of the patterns is the order of their values.
pub proof fn lemma_order_is_value_order(a: u32, b: u32)
    requires
        !is_nan(a),
        !is_nan(b),
    ensures
        order_key(a) <= order_key(b) <==> value_of(a) <= value_of(b),
        order_key(a) < order_key(b) <==> value_of(a) < value_of(b),
{
    let ma = mag_of(a);
    let mb = mag_of(b);
    if ma < mb {
        lemma_mag_value_increases(ma, mb);
    }
    if mb < ma {
        lemma_mag_value_increases(mb, ma);
    }
    if ma > 0 {
        lemma_mag_value_increases(0, ma);
    }
    if mb > 0 {
        lemma_mag_value_increases(0, mb);
    }
}

/// The floor keeps the order.
pub proof fn lemma_floor_monotonic(a: u32, b: u32)
    requires
        float_le(a, b),
    ensures
        float_floor_i32(a) <= float_floor_i32(b),
{
    lemma_order_is_value_order(a, b);
    lemma_pow2_pos(149);
    lemma_div_is_ordered(value_of(a), value_of(b), pow2(149) as int);
}

/// Division by a positive finite number keeps the order.
pub proof fn lemma_div_monotonic(a: u32, b: u32, d: u32)
    requires
        float_le(a, b),
        !is_negative(d),
        0 < mag_of(d) < 0x7f80_0000,
    ensures
        float_le(float_div(a, d), float_div(b, d)),
{
    let ma = mag_of(a);
    let mb = mag_of(b);
    let md = mag_of(d);
    lemma_mag_value_increases(0, md);
    lemma_pow2_pos(149);
    let unit = pow2(149);
    let den = mag_value(md);
    if ma < 0x7f80_0000 && mb < 0x7f80_0000 {
        if ma <= mb {
            if ma < mb {
                lemma_mag_value_increases(ma, mb);
            }
            assert(mag_value(ma) * unit <= mag_value(mb) * unit) by (nonlinear_arith)
                requires
                    mag_value(ma) <= mag_value(mb),
            ;
            lemma_round_ratio_monotonic(mag_value(ma) * unit, mag_value(mb) * unit, den);
        } else {
            lemma_mag_value_increases(mb, ma);
            assert(mag_value(mb) * unit <= mag_value(ma) * unit) by (nonlinear_arith)
                requires
                    mag_value(mb) <= mag_value(ma),
            ;
            lemma_round_ratio_monotonic(mag_value(mb) * unit, mag_value(ma) * unit, den);
        }
    }
    if ma == 0 {
        assert(mag_value(0) * unit == 0) by (nonlinear_arith)
            requires
                mag_value(0) == 0,
        ;
        lemma_round_zero(den);
    }
    if mb == 0 {
        assert(mag_value(0) * unit == 0) by (nonlinear_arith)
            requires
                mag_value(0) == 0,
        ;
        lemma_round_zero(den);
    }
}

/// A zero added to a finite number leaves its value.
pub proof fn lemma_add_zero(z: u32, x: u32)
    requires
        mag_of(z) == 0,
        is_finite(x),
    ensures
        float_eq(float_add(z, x), x),
        float_eq(float_add(x, z), x),
        is_finite(float_add(z, x)),
        is_finite(float_add(x, z)),
{
    lemma_round_exact(mag_of(x));
    if mag_of(x) > 0 {
        lemma_mag_value_increases(0, mag_of(x));
    }
}

/// The difference of two finite numbers of one value is a zero.
pub proof fn lemma_sub_equal(a: u32, b: u32)
    requires
        is_finite(a),
        is_finite(b),
        float_eq(a, b),
    ensures
        mag_of(float_sub(a, b)) == 0,
{
    if mag_of(a) > 0 {
        lemma_mag_value_increases(0, mag_of(a));
    }
}

/// A zero divided by a finite number other than zero is a zero.
pub proof fn lemma_zero_div(z: u32, d: u32)
    requires
        mag_of(z) == 0,
        0 < mag_of(d) < 0x7f80_0000,
    ensures
        mag_of(float_div(z, d)) == 0,
{
    lemma_mag_value_increases(0, mag_of(d));
    assert(mag_value(0) * pow2(149) == 0) by (nonlinear_arith)
        requires
            mag_value(0) == 0,
    ;
    lemma_round_zero(mag_value(mag_of(d)));
}

/// A zero times a finite number is a zero.
pub proof fn lemma_zero_mul(z: u32, x: u32)
    requires
        mag_of(z) == 0,
        is_finite(x),
    ensures
        mag_of(float_mul(z, x)) == 0,
{
    lemma_pow2_pos(149);
    assert(mag_value(0) * mag_value(mag_of(x)) == 0) by (nonlinear_arith)
        requires
            mag_value(0) == 0,
    ;
    lemma_round_zero(pow2(149));
}

/// Half of a finite number is finite.
pub proof fn lemma_half_is_finite(x: u32)
    requires
        is_finite(x),
    ensures
        is_finite(float_div(x, 0x4000_0000)),
{
    lemma2_to64();
    let mv = mag_value(mag_of(x));
    let unit = pow2(149);
    lemma_pow2_pos(149);
    lemma_pow2_unfold(150);
    assert(mag_value(0x4000_0000) == 0x80_0000 * pow2(127));
    lemma_pow2_adds(23, 127);
    assert(mag_value(0x4000_0000) == pow2(150));
    assert(mv * unit <= mv * pow2(150)) by (nonlinear_arith)
        requires
            unit <= pow2(150),
    ;
    lemma_round_ratio_monotonic(mv * unit, mv * pow2(150), pow2(150));
    lemma_pow2_pos(150);
    lemma_round_ratio_scale(mv, 1, pow2(150));
    assert(1 * pow2(150) == pow2(150));
    lemma_round_exact(mag_of(x));
}

/// The value of the negated pattern is the negated value.
pub proof fn lemma_neg_value(a: u32)
    ensures
        value_of(float_neg(a)) == -value_of(a),
        mag_of(float_neg(a)) == mag_of(a),
{
}

/// A number whose magnitude bits are at most those of `2^11` is finite, and
/// its value is within `2^160` units of zero.
pub proof fn lemma_value_within_2048(a: u32)
    requires
        mag_of(a) <= 0x4500_0000,
    ensures
        -(pow2(160) as int) <= value_of(a) <= pow2(160),
        is_finite(a),
{
    lemma2_to64();
    crate::rounding::lemma_mag_value_monotonic(mag_of(a), 0x4500_0000);
    assert(mag_value(0x4500_0000) == 0x80_0000 * pow2(137));
    lemma_pow2_adds(23, 137);
}

/// The magnitude of an integer.
pub open spec fn abs_int(x: int) -> int {
    if x < 0 {
        -x
    } else {
        x
    }
}

/// The rounded sum of two finite numbers is, where it does not overflow,
/// within one part in `2^24` of the exact sum.
pub proof fn lemma_add_error_relative(a: u32, b: u32)
    requires
        is_finite(a),
        is_finite(b),
        abs_int(value_of(a) + value_of(b)) <= pow2(200),
    ensures
        is_finite(float_add(a, b)),
        0x100_0000 * distance(value_of(float_add(a, b)), value_of(a) + value_of(b)) <= abs_int(
            value_of(a) + value_of(b),
        ),
{
    let v = value_of(a) + value_of(b);
    if v != 0 {
        let n = abs_int(v) as nat;
        let s = crate::rounding::shift_for(n);
        assert(n / 1 == n);
        lemma_shift_for_below(n, 200);
        lemma_round_error(n, 1);
        let r = round_ratio(n, 1);
        assert(mag_value(r) * 1 == mag_value(r));
        assert(r < 0x7f80_0000) by (nonlinear_arith)
            requires
                r <= s * 0x80_0000 + 0x100_0000,
                s <= 177,
        ;
    }
}

/// The rounded difference of two finite numbers is, where it does not
/// overflow, within one part in `2^24` of the exact difference.
pub proof fn lemma_sub_error_relative(a: u32, b: u32)
    requires
        is_finite(a),
        is_finite(b),
        abs_int(value_of(a) - value_of(b)) <= pow2(200),
    ensures
        is_finite(float_sub(a, b)),
        0x100_0000 * distance(value_of(float_sub(a, b)), value_of(a) - value_of(b)) <= abs_int(
            value_of(a) - value_of(b),
        ),
{
    lemma_neg_value(b);
    lemma_add_error_relative(a, float_neg(b));
}

/// The rounded product of a finite number and a positive finite number is,
/// where it does not overflow, within one part in `2^24` of the exact
/// product, or within half a unit of it. The product of two values is in
/// units of units, hence the factor `2^149` on the rounded side.
pub proof fn lemma_mul_error(t: u32, z: u32)
    requires
        is_finite(t),
        is_finite(z),
        !is_negative(z),
        abs_int(value_of(t) * value_of(z)) <= pow2(349),
    ensures
        is_finite(float_mul(t, z)),
        0x100_0000 * distance(value_of(float_mul(t, z)) * pow2(149), value_of(t) * value_of(z))
            <= abs_int(value_of(t) * value_of(z)) || 2 * distance(
            value_of(float_mul(t, z)) * pow2(149),
            value_of(t) * value_of(z),
        ) <= pow2(149),
{
    let mt = mag_value(mag_of(t));
    let mz = mag_value(mag_of(z));
    let num = mt * mz;
    let unit = pow2(149);
    lemma_pow2_pos(149);
    lemma_pow2_adds(149, 200);
    assert(abs_int(value_of(t) * value_of(z)) == num) by (nonlinear_arith)
        requires
            value_of(z) == mz,
            value_of(t) == mt || value_of(t) == -mt,
            num == mt * mz,
    ;
    lemma_round_error(num, unit);
    let r = round_ratio(num, unit);
    let s = crate::rounding::shift_for(num / unit);
    lemma_multiply_divide_le(num as int, unit as int, pow2(200) as int);
    lemma_shift_for_below(num / unit, 200);
    assert(r < 0x7f80_0000) by (nonlinear_arith)
        requires
            r <= s * 0x80_0000 + 0x100_0000,
            s <= 177,
    ;
    let u = value_of(float_mul(t, z));
    assert(u == mag_value(r) || u == -mag_value(r));
    assert(distance(u * unit, value_of(t) * value_of(z)) == distance(
        (mag_value(r) * unit) as int,
        num as int,
    )) by (nonlinear_arith)
        requires
            value_of(z) == mz,
            (value_of(t) == mt && u == mag_value(r)) || (value_of(t) == -mt && u == -mag_value(r)),
            num == mt * mz,
    ;
}

/// The rounded quotient of a finite number by a positive finite number is,
/// where it does not overflow, within one part in `2^24` of the exact
/// quotient, or within half a unit of it. Both sides are multiplied by the
/// divisor here.
pub proof fn lemma_div_error(a: u32, z: u32)
    requires
        is_finite(a),
        is_finite(z),
        !is_negative(z),
        mag_of(z) != 0,
        abs_int(value_of(a)) * pow2(149) <= value_of(z) * pow2(200),
    ensures
        is_finite(float_div(a, z)),
        0x100_0000 * distance(value_of(float_div(a, z)) * value_of(z), value_of(a) * pow2(149))
            <= abs_int(value_of(a)) * pow2(149) || 2 * distance(
            value_of(float_div(a, z)) * value_of(z),
            value_of(a) * pow2(149),
        ) <= value_of(z),
{
    let ma = mag_value(mag_of(a));
    let mz = mag_value(mag_of(z));
    let unit = pow2(149);
    let num = ma * unit;
    lemma_pow2_pos(149);
    lemma_mag_value_increases(0, mag_of(z));
    lemma_round_error(num, mz);
    let r = round_ratio(num, mz);
    let s = crate::rounding::shift_for(num / mz);
    lemma_multiply_divide_le(num as int, mz as int, pow2(200) as int);
    lemma_shift_for_below(num / mz, 200);
    assert(r < 0x7f80_0000) by (nonlinear_arith)
        requires
            r <= s * 0x80_0000 + 0x100_0000,
            s <= 177,
    ;
    let b = value_of(float_div(a, z));
    assert(b == mag_value(r) || b == -mag_value(r));
    assert(distance(b * value_of(z), value_of(a) * unit) == distance(
        (mag_value(r) * mz) as int,
        num as int,
    )) by (nonlinear_arith)
        requires
            value_of(z) == mz,
            (value_of(a) == ma && b == mag_value(r)) || (value_of(a) == -ma && b == -mag_value(r)),
            num == ma * unit,
    ;
    assert(abs_int(value_of(a)) * unit == num);
}

} // verus!
