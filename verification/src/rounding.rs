//! Rounding of exact quotients to binary32 magnitudes.
//!
//! A finite binary32 number is a whole multiple of 2^-149, the smallest
//! subnormal. This module measures every quantity in that unit, so that exact
//! sums, products and quotients of binary32 numbers are ratios of naturals, and
//! rounding is a function from such a ratio to the 31 magnitude bits of the
//! nearest binary32 number.
use vstd::arithmetic::div_mod::*;
use vstd::arithmetic::mul::*;
use vstd::arithmetic::power2::*;
use vstd::prelude::*;

verus! {

/// `n / d` rounded to the nearest natural number, a tie going to the even one.
pub open spec fn rne_div(n: nat, d: nat) -> nat {
    let q = n / d;
    let r = n % d;
    if 2 * r > d || (2 * r == d && q % 2 == 1) {
        q + 1
    } else {
        q
    }
}

/// How many times `x` must be halved to fall below 2^24.
pub open spec fn shift_for(x: nat) -> nat
    decreases x,
{
    if x < 0x100_0000 {
        0
    } else {
        1 + shift_for(x / 2)
    }
}

/// The magnitude bits of the binary32 number nearest to `num / den` units, a
/// tie going to the even significand. The exponent is not bounded here: a
/// result of 0x7f80_0000 or more stands for overflow.
///
/// With `s` halvings the quotient falls below 2^24, so the numbers at that
/// scale are `2^s` units apart; the quotient is rounded to a multiple of `2^s`
/// and the exponent field `s` is put on top.
pub open spec fn round_ratio(num: nat, den: nat) -> nat {
    let s = shift_for(num / den);
    s * 0x80_0000 + rne_div(num, den * pow2(s))
}

/// The value, in units of 2^-149, of the finite number with magnitude bits `m`.
pub open spec fn mag_value(m: nat) -> nat {
    if m < 0x100_0000 {
        m
    } else {
        (0x80_0000 + m % 0x80_0000) * pow2((m / 0x80_0000 - 1) as nat)
    }
}

/// Magnitude bits with the exponent bounded: overflow becomes infinity.
pub open spec fn clamp_mag(m: nat) -> u32 {
    if m >= 0x7f80_0000 {
        0x7f80_0000u32
    } else {
        m as u32
    }
}

/// The distance between two numbers.
pub open spec fn distance(a: int, b: int) -> int {
    if a >= b {
        a - b
    } else {
        b - a
    }
}

/// Magnitude bits as a scale `e` and a significand `sig`: the value is
/// `sig * 2^e` units, and the bits are `e * 2^23 + sig`.
pub proof fn lemma_mag_value_parts(m: nat) -> (r: (nat, nat))
    ensures
        r.0 < 0x100_0000,
        r.1 > 0 ==> r.0 >= 0x80_0000,
        mag_value(m) == r.0 * pow2(r.1),
        m == r.1 * 0x80_0000 + r.0,
        m < 0x100_0000 ==> r.1 == 0,
{
    lemma2_to64();
    if m < 0x100_0000 {
        (m, 0)
    } else {
        (0x80_0000 + m % 0x80_0000, (m / 0x80_0000 - 1) as nat)
    }
}

/// The value of the bits `s * 2^23 + q`, where `q` is a significand at the
/// scale `s`, or one step beyond the last of them.
pub proof fn lemma_mag_value_at(s: nat, q: nat)
    requires
        q <= 0x100_0000,
        s > 0 ==> q >= 0x80_0000,
    ensures
        mag_value(s * 0x80_0000 + q) == q * pow2(s),
{
    lemma2_to64();
    let m = s * 0x80_0000 + q;
    if q == 0x100_0000 {
        lemma_fundamental_div_mod_converse(m as int, 0x80_0000, (s + 2) as int, 0);
        lemma_pow2_unfold(s + 1);
        assert(0x80_0000 * pow2(s + 1) == 0x100_0000 * pow2(s)) by (nonlinear_arith)
            requires
                pow2(s + 1) == 2 * pow2(s),
        ;
    } else if s == 0 {
        assert(q * 1 == q);
    } else {
        lemma_fundamental_div_mod_converse(m as int, 0x80_0000, (s + 1) as int, q - 0x80_0000);
    }
}

/// Larger magnitude bits mean a larger value.
pub proof fn lemma_mag_value_increases(m1: nat, m2: nat)
    requires
        m1 < m2,
    ensures
        mag_value(m1) < mag_value(m2),
{
    lemma2_to64();
    let (s1, e1): (nat, nat) = if m1 < 0x100_0000 {
        (m1, 0)
    } else {
        (0x80_0000 + m1 % 0x80_0000, (m1 / 0x80_0000 - 1) as nat)
    };
    let (s2, e2): (nat, nat) = if m2 < 0x100_0000 {
        (m2, 0)
    } else {
        (0x80_0000 + m2 % 0x80_0000, (m2 / 0x80_0000 - 1) as nat)
    };
    lemma_pow2_pos(e1);
    lemma_pow2_pos(e2);
    if e1 == e2 {
        assert(s1 * pow2(e1) < s2 * pow2(e1)) by (nonlinear_arith)
            requires
                s1 < s2,
                pow2(e1) > 0,
        ;
    } else {
        if e1 + 1 < e2 {
            lemma_pow2_strictly_increases(e1 + 1, e2);
        }
        lemma_pow2_unfold(e1 + 1);
        assert(s1 * pow2(e1) < s2 * pow2(e2)) by (nonlinear_arith)
            requires
                s1 < 0x100_0000,
                s2 >= 0x80_0000,
                pow2(e1) > 0,
                pow2(e2) >= 2 * pow2(e1),
        ;
    }
}

/// Magnitude bits that are not smaller mean a value that is not smaller.
pub proof fn lemma_mag_value_monotonic(m1: nat, m2: nat)
    requires
        m1 <= m2,
    ensures
        mag_value(m1) <= mag_value(m2),
{
    if m1 < m2 {
        lemma_mag_value_increases(m1, m2);
    }
}

/// The number of halvings is `s` once `s` halvings bring `x` into the
/// window: below 2^24, and not below 2^23 unless `s` is 0.
pub proof fn lemma_shift_for(x: nat, s: nat)
    requires
        x / pow2(s) < 0x100_0000,
        s == 0 || x / pow2(s) >= 0x80_0000,
    ensures
        shift_for(x) == s,
    decreases s,
{
    lemma2_to64();
    if s == 0 {
        assert(x / 1 == x);
    } else {
        let p = pow2((s - 1) as nat);
        lemma_pow2_pos((s - 1) as nat);
        lemma_pow2_unfold(s);
        assert(pow2(s) == 2 * p);
        lemma_div_denominator(x as int, 2, p as int);
        assert((x / 2) / p == x / pow2(s));
        // x / pow2(s) >= 2^23 >= 1, so x >= pow2(s) >= 2
        lemma_fundamental_div_mod(x as int, pow2(s) as int);
        lemma_pow2_pos(s);
        assert(x >= pow2(s) * (x / pow2(s))) by (nonlinear_arith)
            requires
                x == pow2(s) * (x / pow2(s)) + x % pow2(s),
                x % pow2(s) >= 0,
        ;
        assert(pow2(s) * (x / pow2(s)) >= pow2(s) * 0x80_0000) by (nonlinear_arith)
            requires
                x / pow2(s) >= 0x80_0000,
                pow2(s) > 0,
        ;
        assert(x >= 0x100_0000) by (nonlinear_arith)
            requires
                x >= pow2(s) * 0x80_0000,
                pow2(s) >= 2,
        ;
        if s - 1 == 0 {
            assert(p == 1);
            assert((x / 2) / 1 == x / 2);
        }
        lemma_shift_for(x / 2, (s - 1) as nat);
    }
}

/// What `shift_for` returns does bring `x` into the window below 2^24.
pub proof fn lemma_shift_for_bounds(x: nat)
    ensures
        x / pow2(shift_for(x)) < 0x100_0000,
        shift_for(x) == 0 || x / pow2(shift_for(x)) >= 0x80_0000,
        x >= 0x100_0000 ==> shift_for(x) >= 1,
    decreases x,
{
    lemma2_to64();
    if x < 0x100_0000 {
        assert(x / 1 == x);
    } else {
        let s = shift_for(x / 2);
        lemma_shift_for_bounds(x / 2);
        lemma_pow2_unfold(s + 1);
        lemma_pow2_pos(s);
        lemma_div_denominator(x as int, 2, pow2(s) as int);
        if s == 0 {
            assert((x / 2) / 1 == x / 2);
        }
    }
}

/// A larger number needs no fewer halvings.
pub proof fn lemma_shift_for_monotonic(x: nat, y: nat)
    requires
        x <= y,
    ensures
        shift_for(x) <= shift_for(y),
    decreases x,
{
    if x >= 0x100_0000 {
        lemma_shift_for_monotonic(x / 2, y / 2);
    }
}

/// A common factor of dividend and divisor does not change the rounded
/// quotient.
pub proof fn lemma_rne_div_scale(n: nat, d: nat, c: nat)
    requires
        d > 0,
        c > 0,
    ensures
        rne_div(n * c, d * c) == rne_div(n, d),
{
    lemma_div_multiples_vanish_quotient(c as int, n as int, d as int);
    lemma_truncate_middle(n as int, c as int, d as int);
    lemma_mul_is_commutative(n as int, c as int);
    lemma_mul_is_commutative(d as int, c as int);
    let q = n / d;
    let r = n % d;
    assert((n * c) / (d * c) == q);
    assert((n * c) % (d * c) == c * r);
    assert(2 * (c * r) > d * c <==> 2 * r > d) by (nonlinear_arith)
        requires
            c > 0,
    ;
    assert(2 * (c * r) == d * c <==> 2 * r == d) by (nonlinear_arith)
        requires
            c > 0,
    ;
}

/// Rounding to nearest keeps the order.
pub proof fn lemma_rne_div_monotonic(n1: nat, n2: nat, d: nat)
    requires
        n1 <= n2,
        d > 0,
    ensures
        rne_div(n1, d) <= rne_div(n2, d),
{
    lemma_div_is_ordered(n1 as int, n2 as int, d as int);
    lemma_fundamental_div_mod(n1 as int, d as int);
    lemma_fundamental_div_mod(n2 as int, d as int);
    if n1 / d == n2 / d {
        let q1 = n1 / d;
        let q2 = n2 / d;
        assert(d * q1 == d * q2);
        assert(n1 % d <= n2 % d);
    }
}

/// Rounding a quotient by `m * g`, with `g` even, needs of the dividend only
/// its quotient by `m` and whether that division left a remainder.
pub proof fn lemma_rne_sticky(n: nat, m: nat, g: nat)
    requires
        m > 0,
        g > 0,
        g % 2 == 0,
    ensures
        rne_div(n, m * g) == rne_div(
            2 * (n / m) + if n % m > 0 {
                1nat
            } else {
                0nat
            },
            2 * g,
        ),
{
    let q1 = n / m;
    let r1 = n % m;
    let sticky: nat = if r1 > 0 {
        1
    } else {
        0
    };
    let n2 = 2 * q1 + sticky;
    let h = g / 2;
    let u = q1 % g;
    let q = q1 / g;
    lemma_div_denominator(n as int, m as int, g as int);
    lemma_breakdown(n as int, m as int, g as int);
    assert(n / (m * g) == q);
    assert(n % (m * g) == m * u + r1);
    lemma_div_denominator(n2 as int, 2, g as int);
    lemma_breakdown(n2 as int, 2, g as int);
    assert(n2 / 2 == q1);
    assert(n2 % 2 == sticky);
    assert(n2 / (2 * g) == q);
    assert(n2 % (2 * g) == 2 * u + sticky);
    assert(g == 2 * h);
    let lhs_up = 2 * (m * u + r1) > m * g;
    let lhs_tie = 2 * (m * u + r1) == m * g;
    let rhs_up = 2 * (2 * u + sticky) > 2 * g;
    let rhs_tie = 2 * (2 * u + sticky) == 2 * g;
    if r1 == 0 {
        assert(lhs_up == rhs_up && lhs_tie == rhs_tie) by (nonlinear_arith)
            requires
                lhs_up == (2 * (m * u + r1) > m * g),
                lhs_tie == (2 * (m * u + r1) == m * g),
                rhs_up == (2 * (2 * u + sticky) > 2 * g),
                rhs_tie == (2 * (2 * u + sticky) == 2 * g),
                r1 == 0,
                sticky == 0,
                g == 2 * h,
                m > 0,
        ;
    } else {
        assert(r1 < m);
        assert(lhs_up == (u >= h) && !lhs_tie) by (nonlinear_arith)
            requires
                lhs_up == (2 * (m * u + r1) > m * g),
                lhs_tie == (2 * (m * u + r1) == m * g),
                0 < r1 < m,
                g == 2 * h,
        ;
        assert(rhs_up == (u >= h) && !rhs_tie);
    }
}

/// Once the right scale `s` is known, the rounding is one division.
pub proof fn lemma_round_ratio_at(num: nat, den: nat, s: nat)
    requires
        den > 0,
        num / (den * pow2(s)) < 0x100_0000,
        s == 0 || num / (den * pow2(s)) >= 0x80_0000,
    ensures
        round_ratio(num, den) == s * 0x80_0000 + rne_div(num, den * pow2(s)),
{
    lemma_pow2_pos(s);
    lemma_div_denominator(num as int, den as int, pow2(s) as int);
    lemma_shift_for(num / den, s);
}

/// A common factor of numerator and denominator does not change the
/// rounding.
pub proof fn lemma_round_ratio_scale(num: nat, den: nat, c: nat)
    requires
        den > 0,
        c > 0,
    ensures
        round_ratio(num * c, den * c) == round_ratio(num, den),
{
    lemma_div_multiples_vanish_quotient(c as int, num as int, den as int);
    lemma_mul_is_commutative(num as int, c as int);
    lemma_mul_is_commutative(den as int, c as int);
    assert((num * c) / (den * c) == num / den);
    let s = shift_for(num / den);
    lemma_pow2_pos(s);
    lemma_mul_strictly_positive(den as int, pow2(s) as int);
    lemma_rne_div_scale(num, den * pow2(s), c);
    assert((den * pow2(s)) * c == (den * c) * pow2(s)) by (nonlinear_arith);
}

/// A whole number of units rounds to itself when it is below 2^24.
pub proof fn lemma_round_small(q: nat)
    requires
        q < 0x100_0000,
    ensures
        round_ratio(q, 1) == q,
{
    lemma2_to64();
    assert(q / 1 == q);
    assert(q % 1 == 0);
    assert(shift_for(q) == 0);
    assert(1 * pow2(0) == 1);
}

/// A number that binary32 holds rounds to itself.
pub proof fn lemma_round_exact(m: nat)
    ensures
        round_ratio(mag_value(m), 1) == m,
{
    let (sig, e) = lemma_mag_value_parts(m);
    if e == 0 {
        lemma2_to64();
        assert(sig * 1 == sig);
        lemma_round_small(m);
    } else {
        lemma_pow2_pos(e);
        lemma_round_absorbs_addend(sig, e, 0);
    }
}

/// A normal number plus less than half of its last place rounds back to it.
pub proof fn lemma_round_absorbs_addend(sig: nat, e: nat, v: nat)
    requires
        0x80_0000 <= sig < 0x100_0000,
        2 * v < pow2(e),
    ensures
        round_ratio(sig * pow2(e) + v, 1) == e * 0x80_0000 + sig,
{
    let p = pow2(e);
    let x = sig * p + v;
    lemma_pow2_pos(e);
    lemma_fundamental_div_mod_converse(x as int, p as int, sig as int, v as int);
    assert(1 * p == p);
    lemma_round_ratio_at(x, 1, e);
}

/// A normal number minus less than a quarter of its last place rounds back
/// to it.
pub proof fn lemma_round_absorbs_subtrahend(sig: nat, e: nat, v: nat)
    requires
        0x80_0000 <= sig < 0x100_0000,
        e >= 2,
        4 * v < pow2(e),
    ensures
        sig * pow2(e) >= v,
        round_ratio((sig * pow2(e) - v) as nat, 1) == e * 0x80_0000 + sig,
{
    let p = pow2(e);
    lemma_pow2_pos(e);
    assert(sig * p >= p) by (nonlinear_arith)
        requires
            sig >= 1,
            p > 0,
    ;
    if v == 0 {
        lemma_round_absorbs_addend(sig, e, 0);
    } else if sig > 0x80_0000 {
        let x = (sig * p - v) as nat;
        let r = (p - v) as nat;
        assert(x == (sig - 1) * p + r) by (nonlinear_arith)
            requires
                x == sig * p - v,
                r == p - v,
        ;
        lemma_fundamental_div_mod_converse(x as int, p as int, sig - 1, r as int);
        assert(1 * p == p);
        lemma_round_ratio_at(x, 1, e);
    } else {
        let h = pow2((e - 1) as nat);
        lemma_pow2_unfold(e);
        lemma_pow2_pos((e - 1) as nat);
        let x = (sig * p - v) as nat;
        let r = (h - v) as nat;
        assert(x == 0xff_ffff * h + r) by (nonlinear_arith)
            requires
                x == sig * p - v,
                sig == 0x80_0000,
                p == 2 * h,
                r == h - v,
        ;
        lemma_fundamental_div_mod_converse(x as int, h as int, 0xff_ffff, r as int);
        assert(1 * h == h);
        lemma_round_ratio_at(x, 1, (e - 1) as nat);
    }
}

/// The sticky form of a quotient rounds as the quotient does, once the
/// quotient has more bits than a significand holds.
pub proof fn lemma_round_sticky(n: nat, m: nat, j: nat, k: nat)
    requires
        m > 0,
        n / m >= 0x200_0000,
    ensures
        round_ratio(n * pow2(j), m * pow2(k)) == round_ratio(
            (2 * (n / m) + if n % m > 0 {
                1nat
            } else {
                0nat
            }) * pow2(j),
            2 * pow2(k),
        ),
{
    let q1 = n / m;
    let sticky: nat = if n % m > 0 {
        1
    } else {
        0
    };
    let n2 = 2 * q1 + sticky;
    let c = shift_for(q1);
    lemma2_to64();
    lemma_shift_for_bounds(q1);
    lemma_pow2_pos(c);
    lemma_pow2_pos(j);
    lemma_pow2_pos(k);
    // c >= 2, as q1 / 2 is still 2^24 or more
    assert(c >= 2) by {
        reveal_with_fuel(shift_for, 3);
    }
    let pc = pow2(c);
    lemma_pow2_unfold(c);
    assert(pc % 2 == 0);
    lemma_div_denominator(n as int, m as int, pc as int);
    lemma_div_denominator(n2 as int, 2, pc as int);
    assert(n2 / 2 == q1);
    lemma_mul_strictly_positive(m as int, pc as int);
    if j >= k {
        let g = (j - k) as nat;
        let pg = pow2(g);
        lemma_pow2_pos(g);
        lemma_pow2_adds(g, k);
        lemma_pow2_adds(c, g);
        let s = c + g;
        // left side
        assert(n * pow2(j) == (n * pg) * pow2(k)) by (nonlinear_arith)
            requires
                pow2(j) == pg * pow2(k),
        ;
        lemma_round_ratio_scale(n * pg, m, pow2(k));
        assert(m * pow2(s) == (m * pc) * pg) by (nonlinear_arith)
            requires
                pow2(s) == pc * pg,
        ;
        lemma_div_multiples_vanish_quotient(pg as int, n as int, (m * pc) as int);
        lemma_mul_is_commutative(pg as int, n as int);
        lemma_mul_is_commutative(pg as int, (m * pc) as int);
        lemma_round_ratio_at(n * pg, m, s);
        lemma_rne_div_scale(n, m * pc, pg);
        // right side
        assert(n2 * pow2(j) == (n2 * pg) * pow2(k)) by (nonlinear_arith)
            requires
                pow2(j) == pg * pow2(k),
        ;
        lemma_round_ratio_scale(n2 * pg, 2, pow2(k));
        assert(2 * pow2(s) == (2 * pc) * pg) by (nonlinear_arith)
            requires
                pow2(s) == pc * pg,
        ;
        lemma_div_multiples_vanish_quotient(pg as int, n2 as int, (2 * pc) as int);
        lemma_mul_is_commutative(pg as int, n2 as int);
        lemma_mul_is_commutative(pg as int, (2 * pc) as int);
        lemma_round_ratio_at(n2 * pg, 2, s);
        lemma_rne_div_scale(n2, 2 * pc, pg);
        lemma_rne_sticky(n, m, pc);
    } else {
        let h = (k - j) as nat;
        let ph = pow2(h);
        lemma_pow2_pos(h);
        lemma_pow2_adds(h, j);
        lemma_pow2_unfold(h);
        assert(ph % 2 == 0);
        assert(m * pow2(k) == (m * ph) * pow2(j)) by (nonlinear_arith)
            requires
                pow2(k) == ph * pow2(j),
        ;
        assert(2 * pow2(k) == (2 * ph) * pow2(j)) by (nonlinear_arith)
            requires
                pow2(k) == ph * pow2(j),
        ;
        lemma_mul_strictly_positive(m as int, ph as int);
        lemma_round_ratio_scale(n, m * ph, pow2(j));
        lemma_round_ratio_scale(n2, 2 * ph, pow2(j));
        lemma_div_denominator(n as int, m as int, ph as int);
        lemma_div_denominator(n2 as int, 2, ph as int);
        if h >= c {
            // the quotient is already below 2^24
            if h > c {
                lemma_pow2_strictly_increases(c, h);
            }
            lemma_div_is_ordered_by_denominator(q1 as int, pc as int, ph as int);
            assert((m * ph) * pow2(0) == m * ph);
            assert((2 * ph) * pow2(0) == 2 * ph);
            lemma_round_ratio_at(n, m * ph, 0);
            lemma_round_ratio_at(n2, 2 * ph, 0);
            lemma_rne_sticky(n, m, ph);
        } else {
            let s = (c - h) as nat;
            lemma_pow2_adds(h, s);
            assert((m * ph) * pow2(s) == m * pc) by (nonlinear_arith)
                requires
                    pc == ph * pow2(s),
            ;
            assert((2 * ph) * pow2(s) == 2 * pc) by (nonlinear_arith)
                requires
                    pc == ph * pow2(s),
            ;
            lemma_round_ratio_at(n, m * ph, s);
            lemma_round_ratio_at(n2, 2 * ph, s);
            lemma_rne_sticky(n, m, pc);
        }
    }
}

/// Rounding to binary32 keeps the order.
pub proof fn lemma_round_ratio_monotonic(n1: nat, n2: nat, d: nat)
    requires
        n1 <= n2,
        d > 0,
    ensures
        round_ratio(n1, d) <= round_ratio(n2, d),
{
    lemma_div_is_ordered(n1 as int, n2 as int, d as int);
    let s1 = shift_for(n1 / d);
    let s2 = shift_for(n2 / d);
    lemma_shift_for_monotonic(n1 / d, n2 / d);
    lemma_pow2_pos(s1);
    lemma_pow2_pos(s2);
    lemma_mul_strictly_positive(d as int, pow2(s1) as int);
    lemma_mul_strictly_positive(d as int, pow2(s2) as int);
    if s1 == s2 {
        lemma_rne_div_monotonic(n1, n2, d * pow2(s1));
    } else {
        lemma_shift_for_bounds(n1 / d);
        lemma_shift_for_bounds(n2 / d);
        lemma_div_denominator(n1 as int, d as int, pow2(s1) as int);
        lemma_div_denominator(n2 as int, d as int, pow2(s2) as int);
        assert(rne_div(n1, d * pow2(s1)) <= 0x100_0000);
        assert(rne_div(n2, d * pow2(s2)) >= 0x80_0000);
    }
}

/// The rounding of `num / den` lies within half a step of it, the step
/// being 2 to the number of halvings that the quotient needs.
pub proof fn lemma_round_error(num: nat, den: nat)
    requires
        den > 0,
    ensures
        2 * distance((mag_value(round_ratio(num, den)) * den) as int, num as int) <= den * pow2(
            shift_for(num / den),
        ),
        round_ratio(num, den) <= shift_for(num / den) * 0x80_0000 + 0x100_0000,
        0x100_0000 * distance((mag_value(round_ratio(num, den)) * den) as int, num as int) <= num
            || 2 * distance((mag_value(round_ratio(num, den)) * den) as int, num as int) <= den,
{
    let s = shift_for(num / den);
    let ps = pow2(s);
    let d = den * ps;
    lemma_pow2_pos(s);
    lemma_mul_strictly_positive(den as int, ps as int);
    lemma_shift_for_bounds(num / den);
    lemma_div_denominator(num as int, den as int, ps as int);
    let q = num / d;
    lemma_fundamental_div_mod(num as int, d as int);
    lemma_mag_value_at(s, q);
    lemma_mag_value_at(s, q + 1);
    let lo = s * 0x80_0000 + q;
    assert(lo + 1 == s * 0x80_0000 + (q + 1));
    let v_lo = mag_value(lo) * den;
    let v_hi = mag_value(lo + 1) * den;
    assert(v_lo == d * q) by (nonlinear_arith)
        requires
            v_lo == (q * ps) * den,
            d == den * ps,
    ;
    assert(v_hi == d * q + d) by (nonlinear_arith)
        requires
            v_hi == ((q + 1) * ps) * den,
            d == den * ps,
    ;
    if s == 0 {
        lemma2_to64();
        assert(d == den) by (nonlinear_arith)
            requires
                d == den * ps,
                ps == 1,
        ;
    } else {
        // the quotient by d is 2^23 or more, so d * 2^23 is within num
        assert(0x80_0000 * d <= num) by (nonlinear_arith)
            requires
                num == d * q + num % d,
                q >= 0x80_0000,
                num % d >= 0,
                d > 0,
        ;
    }
}

/// A number below `2^k` needs at most `k - 24` halvings.
pub proof fn lemma_shift_for_below(x: nat, k: nat)
    requires
        k >= 24,
        x <= pow2(k),
    ensures
        shift_for(x) <= k - 23,
{
    let s = shift_for(x);
    lemma_shift_for_bounds(x);
    lemma2_to64();
    if s + 23 > k {
        // then 2^(23 + s) is beyond x, though x / 2^s is 2^23 or more
        lemma_pow2_pos(s);
        lemma_pow2_adds(23, s);
        lemma_pow2_strictly_increases(k, 23 + s);
        lemma_fundamental_div_mod(x as int, pow2(s) as int);
        assert(x >= pow2(s) * 0x80_0000) by (nonlinear_arith)
            requires
                x == pow2(s) * (x / pow2(s)) + x % pow2(s),
                x / pow2(s) >= 0x80_0000,
                x % pow2(s) >= 0,
                pow2(s) > 0,
        ;
        assert(pow2(23) * pow2(s) == pow2(s) * 0x80_0000) by (nonlinear_arith)
            requires
                pow2(23) == 0x80_0000,
        ;
    }
}

/// No binary32 magnitude is nearer to `num / den` than the one that
/// `round_ratio` gives; and where two are equally near, it gives the one
/// with the even significand.
pub proof fn lemma_round_is_nearest(num: nat, den: nat, other: nat)
    requires
        den > 0,
    ensures
        distance((mag_value(round_ratio(num, den)) * den) as int, num as int) <= distance(
            (mag_value(other) * den) as int,
            num as int,
        ),
        other != round_ratio(num, den) && distance(
            (mag_value(round_ratio(num, den)) * den) as int,
            num as int,
        ) == distance((mag_value(other) * den) as int, num as int) ==> round_ratio(num, den) % 2
            == 0,
{
    let s = shift_for(num / den);
    let ps = pow2(s);
    let d = den * ps;
    lemma_pow2_pos(s);
    lemma_mul_strictly_positive(den as int, ps as int);
    lemma_shift_for_bounds(num / den);
    lemma_div_denominator(num as int, den as int, ps as int);
    let q = num / d;
    let r = num % d;
    lemma_fundamental_div_mod(num as int, d as int);
    let lo = s * 0x80_0000 + q;
    let hi = lo + 1;
    lemma_mag_value_at(s, q);
    lemma_mag_value_at(s, q + 1);
    assert(hi == s * 0x80_0000 + (q + 1));
    let v_lo = mag_value(lo) * den;
    let v_hi = mag_value(hi) * den;
    assert(v_lo == d * q) by (nonlinear_arith)
        requires
            v_lo == (q * ps) * den,
            d == den * ps,
    ;
    assert(v_hi == d * q + d) by (nonlinear_arith)
        requires
            v_hi == ((q + 1) * ps) * den,
            d == den * ps,
    ;
    let v = mag_value(other) * den;
    if other <= lo {
        lemma_mag_value_monotonic(other, lo);
        assert(v <= v_lo) by (nonlinear_arith)
            requires
                v == mag_value(other) * den,
                v_lo == mag_value(lo) * den,
                mag_value(other) <= mag_value(lo),
        ;
    } else {
        lemma_mag_value_monotonic(hi, other);
        assert(v >= v_hi) by (nonlinear_arith)
            requires
                v == mag_value(other) * den,
                v_hi == mag_value(hi) * den,
                mag_value(other) >= mag_value(hi),
        ;
    }
    if other < lo {
        lemma_mag_value_increases(other, lo);
        assert(v < v_lo) by (nonlinear_arith)
            requires
                v == mag_value(other) * den,
                v_lo == mag_value(lo) * den,
                mag_value(other) < mag_value(lo),
                den > 0,
        ;
    }
    if other > hi {
        lemma_mag_value_increases(hi, other);
        assert(v > v_hi) by (nonlinear_arith)
            requires
                v == mag_value(other) * den,
                v_hi == mag_value(hi) * den,
                mag_value(other) > mag_value(hi),
                den > 0,
        ;
    }
    assert((s * 0x80_0000) % 2 == 0) by (nonlinear_arith);
}

/// A number between `lo * 2^c` and `hi * 2^c` has its quotient by `2^c`
/// between `lo` and `hi`.
pub proof fn lemma_div_window(n: nat, c: nat, lo: nat, hi: nat)
    requires
        lo * pow2(c) <= n < hi * pow2(c),
    ensures
        lo <= n / pow2(c) < hi,
{
    let p = pow2(c) as int;
    lemma_pow2_pos(c);
    lemma_div_by_multiple(lo as int, p);
    lemma_div_is_ordered(lo * p, n as int, p);
    lemma_mul_is_commutative(hi as int, p);
    lemma_multiply_divide_lt(n as int, p, hi as int);
}

/// `2^c` as a machine word.
pub(crate) fn pow2_u64(c: u32) -> (p: u64)
    requires
        c < 64,
    ensures
        p == pow2(c as nat),
{
    proof {
        vstd::bits::lemma_u64_pow2_no_overflow(c as nat);
        vstd::bits::lemma_u64_shl_is_mul(1u64, c as u64);
    }
    1u64 << (c as u64)
}

/// The number of significant bits of `n`.
pub(crate) fn bit_length(n: u64) -> (len: u32)
    ensures
        len <= 64,
        n == 0 <==> len == 0,
        n > 0 ==> pow2((len - 1) as nat) <= n < pow2(len as nat),
{
    let mut len: u32 = 0;
    let mut x: u64 = n;
    proof {
        lemma2_to64();
    }
    while x > 0
        invariant
            len <= 64,
            x as int == (n as int) / (pow2(len as nat) as int),
            n == 0 <==> (len == 0 && x == 0),
            len > 0 ==> pow2((len - 1) as nat) <= n,
        decreases x,
    {
        proof {
            let p = pow2(len as nat) as int;
            let ni = n as int;
            lemma_pow2_unfold((len + 1) as nat);
            lemma_pow2_pos(len as nat);
            lemma_div_denominator(ni, p, 2);
            lemma_fundamental_div_mod(ni, p);
            assert(ni >= p) by (nonlinear_arith)
                requires
                    ni == p * (ni / p) + ni % p,
                    ni % p >= 0,
                    ni / p >= 1,
                    p > 0,
            ;
            if len >= 64 {
                lemma_pow2_strictly_increases(63, len as nat);
                lemma2_to64_rest();
            }
            assert(p * 2 == 2 * p);
        }
        x = x / 2;
        len = len + 1;
    }
    proof {
        if n > 0 {
            let p = pow2(len as nat) as int;
            let ni = n as int;
            lemma_pow2_pos(len as nat);
            lemma_fundamental_div_mod(ni, p);
            assert(ni < p) by (nonlinear_arith)
                requires
                    ni == p * (ni / p) + ni % p,
                    ni / p == 0,
                    ni % p < p,
            ;
        }
    }
    len
}

/// `n / 2^c`, rounded to nearest, ties to even.
pub(crate) fn rne_shift(n: u64, c: u32) -> (q: u64)
    requires
        c < 64,
    ensures
        q == rne_div(n as nat, pow2(c as nat)),
{
    proof {
        lemma2_to64();
    }
    if c == 0 {
        return n;
    }
    let pw = pow2_u64(c);
    let half = pow2_u64(c - 1);
    proof {
        lemma_pow2_unfold(c as nat);
        lemma_pow2_pos(c as nat);
        lemma_fundamental_div_mod(n as int, pw as int);
    }
    let q = n / pw;
    let r = n % pw;
    assert(q <= n / 2) by {
        lemma_div_is_ordered_by_denominator(n as int, 2, pw as int);
    }
    assert(pw == 2 * half);
    if r > half || (r == half && q % 2 == 1) {
        q + 1
    } else {
        q
    }
}

/// Rounds `n * 2^t` units to magnitude bits.
pub(crate) fn round_scaled(n: u64, t: u32) -> (m: u32)
    requires
        t <= 0x1000,
    ensures
        m == clamp_mag(round_ratio(n as nat * pow2(t as nat), 1)),
{
    let ghost x: nat = n as nat * pow2(t as nat);
    proof {
        lemma2_to64();
        lemma_pow2_pos(t as nat);
    }
    if n == 0 {
        proof {
            assert(x == 0) by (nonlinear_arith)
                requires
                    x == 0 * pow2(t as nat),
            ;
            lemma_round_small(0);
        }
        return 0;
    }
    let bl = bit_length(n);
    if bl <= 24 {
        let up: u32 = if t < 24 - bl {
            t
        } else {
            24 - bl
        };
        let s: u32 = t - up;
        let pw = pow2_u64(up);
        proof {
            lemma_pow2_adds(bl as nat, up as nat);
            lemma_pow2_adds((bl - 1) as nat, up as nat);
            lemma_pow2_adds(up as nat, s as nat);
            if bl + up < 24 {
                lemma_pow2_strictly_increases((bl + up) as nat, 24);
            }
            assert(n * pw < pow2((bl + up) as nat) && n * pw >= pow2((bl - 1 + up) as nat))
                by (nonlinear_arith)
                requires
                    pow2((bl - 1) as nat) <= n < pow2(bl as nat),
                    pw > 0,
                    pow2((bl + up) as nat) == pow2(bl as nat) * pw,
                    pow2((bl - 1 + up) as nat) == pow2((bl - 1) as nat) * pw,
            ;
        }
        let q = n * pw;
        proof {
            let ps = pow2(s as nat);
            lemma_pow2_pos(s as nat);
            assert(x == q * ps) by (nonlinear_arith)
                requires
                    x == n * pow2(t as nat),
                    pow2(t as nat) == pw * ps,
                    q == n * pw,
            ;
            lemma_div_by_multiple(q as int, ps as int);
            assert(1 * ps == ps);
            lemma_round_ratio_at(x, 1, s as nat);
            lemma_rne_div_scale(q as nat, 1, ps);
            assert(q as nat / 1 == q);
            assert(q as nat % 1 == 0);
        }
        if s >= 255 {
            return 0x7f80_0000;
        }
        let m = s * 0x80_0000 + (q as u32);
        if m >= 0x7f80_0000 {
            0x7f80_0000
        } else {
            m
        }
    } else {
        let c: u32 = bl - 24;
        let s: u32 = c + t;
        let q = rne_shift(n, c);
        proof {
            let pc = pow2(c as nat);
            let pt = pow2(t as nat);
            lemma_pow2_pos(c as nat);
            lemma_pow2_adds(c as nat, t as nat);
            lemma_pow2_adds(23, c as nat);
            lemma_pow2_adds(24, c as nat);
            lemma_div_window(n as nat, c as nat, 0x80_0000, 0x100_0000);
            lemma_div_multiples_vanish_quotient(pt as int, n as int, pc as int);
            lemma_mul_is_commutative(pt as int, n as int);
            lemma_mul_is_commutative(pt as int, pc as int);
            assert(1 * pow2(s as nat) == pc * pt);
            lemma_round_ratio_at(x, 1, s as nat);
            lemma_rne_div_scale(n as nat, pc, pt);
        }
        if s >= 255 {
            return 0x7f80_0000;
        }
        let m = s * 0x80_0000 + (q as u32);
        if m >= 0x7f80_0000 {
            0x7f80_0000
        } else {
            m
        }
    }
}

/// Rounds `n / 2^k` units to magnitude bits.
pub(crate) fn round_shifted(n: u64, k: u32) -> (m: u32)
    requires
        n < 0x8000_0000_0000_0000,
        k <= 0x1000,
    ensures
        m == round_ratio(n as nat, pow2(k as nat)),
        m <= 0x1500_0000,
{
    proof {
        lemma2_to64();
        lemma2_to64_rest();
        lemma_pow2_pos(k as nat);
    }
    let ghost pk = pow2(k as nat);
    if n == 0 {
        proof {
            assert(0nat / pk == 0) by {
                lemma_div_basics_1(pk as int);
            }
            assert(0nat % (pk * 1) == 0) by {
                lemma_small_mod(0, pk * 1);
            }
            assert(shift_for(0) == 0);
        }
        return 0;
    }
    let bl = bit_length(n);
    if bl <= k + 24 {
        proof {
            lemma_pow2_adds(24, k as nat);
            if bl < k + 24 {
                lemma_pow2_strictly_increases(bl as nat, (k + 24) as nat);
            }
            lemma_div_window(n as nat, k as nat, 0, 0x100_0000);
            assert(pk * pow2(0) == pk);
            lemma_round_ratio_at(n as nat, pk, 0);
        }
        if k >= 64 {
            proof {
                if k > 64 {
                    lemma_pow2_strictly_increases(64, k as nat);
                }
                lemma_small_mod(n as nat, pk);
                lemma_basic_div(n as int, pk as int);
            }
            return 0;
        }
        let q = rne_shift(n, k);
        proof {
            assert(n as nat / pk < 0x100_0000);
        }
        q as u32
    } else {
        let c: u32 = bl - 24;
        let s: u32 = c - k;
        let q = rne_shift(n, c);
        proof {
            lemma_pow2_adds(k as nat, s as nat);
            lemma_pow2_adds(23, c as nat);
            lemma_pow2_adds(24, c as nat);
            lemma_div_window(n as nat, c as nat, 0x80_0000, 0x100_0000);
            lemma_round_ratio_at(n as nat, pk, s as nat);
        }
        s * 0x80_0000 + (q as u32)
    }
}

} // verus!
