use editor_core::binary32::Scalar;

fn s(x: f32) -> Scalar {
    Scalar::from_bits(x.to_bits())
}

fn same(got: Scalar, want: f32) -> bool {
    let g = f32::from_bits(got.to_bits());
    (g.is_nan() && want.is_nan()) || got.to_bits() == want.to_bits()
}

/// A small deterministic generator of bit patterns that favours the edges of
/// the format.
fn patterns() -> Vec<u32> {
    let mut v: Vec<u32> = vec![
        0x0000_0000, 0x8000_0000, 0x0000_0001, 0x8000_0001, 0x007f_ffff, 0x0080_0000,
        0x0080_0001, 0x00ff_ffff, 0x0100_0000, 0x3f80_0000, 0xbf80_0000, 0x3f00_0000,
        0x4000_0000, 0x4040_0000, 0x4380_0000, 0x7f7f_ffff, 0xff7f_ffff, 0x7f80_0000,
        0xff80_0000, 0x7fc0_0000, 0xffc0_0001, 0x7f80_0001, 0x4b00_0000, 0x4b7f_ffff,
        0x4b80_0000, 0x3400_0000, 0x3380_0000, 0x3380_0001, 0x337f_ffff, 0x0c80_0000,
        0x0d00_0000, 0x0000_0080, 0x0000_0081, 0x8000_0080, 0x8000_0081, 0x4f00_0000,
        0xcf00_0000, 0xcf00_0001, 0x4eff_ffff, 0x42c8_0000, 0x4248_0000, 0x4316_0000,
    ];
    let mut x: u32 = 0x1234_5678;
    for _ in 0..400 {
        x ^= x << 13;
        x ^= x >> 17;
        x ^= x << 5;
        v.push(x);
    }
    v
}

#[test]
fn add_matches_hardware() {
    let ps = patterns();
    for &a in &ps {
        for &b in &ps {
            let want = f32::from_bits(a) + f32::from_bits(b);
            let got = Scalar::from_bits(a).add(Scalar::from_bits(b));
            assert!(same(got, want), "{:#x} + {:#x}: got {:#x}, want {:#x}", a, b, got.to_bits(), want.to_bits());
        }
    }
}

#[test]
fn sub_matches_hardware() {
    let ps = patterns();
    for &a in &ps {
        for &b in &ps {
            let want = f32::from_bits(a) - f32::from_bits(b);
            let got = Scalar::from_bits(a).sub(Scalar::from_bits(b));
            assert!(same(got, want), "{:#x} - {:#x}: got {:#x}, want {:#x}", a, b, got.to_bits(), want.to_bits());
        }
    }
}

#[test]
fn comparisons_match_hardware() {
    let ps = patterns();
    for &a in &ps {
        for &b in &ps {
            let (x, y) = (f32::from_bits(a), f32::from_bits(b));
            let (p, q) = (Scalar::from_bits(a), Scalar::from_bits(b));
            assert_eq!(p.lt(q), x < y);
            assert_eq!(p.le(q), x <= y);
            assert_eq!(p.gt(q), x > y);
            assert_eq!(p.ge(q), x >= y);
        }
    }
}

#[test]
fn sum_of_small_integers_is_exact() {
    assert!(same(s(1.5).add(s(2.25)), 3.75));
    assert!(same(s(100.0).sub(s(50.0)), 50.0));
    assert!(same(s(0.1).add(s(0.2)), 0.1f32 + 0.2f32));
}

#[test]
fn mul_matches_hardware() {
    let ps = patterns();
    for &a in &ps {
        for &b in &ps {
            let want = f32::from_bits(a) * f32::from_bits(b);
            let got = Scalar::from_bits(a).mul(Scalar::from_bits(b));
            assert!(same(got, want), "{:#x} * {:#x}: got {:#x}, want {:#x}", a, b, got.to_bits(), want.to_bits());
        }
    }
}

#[test]
fn div_matches_hardware() {
    let ps = patterns();
    for &a in &ps {
        for &b in &ps {
            let want = f32::from_bits(a) / f32::from_bits(b);
            let got = Scalar::from_bits(a).div(Scalar::from_bits(b));
            assert!(same(got, want), "{:#x} / {:#x}: got {:#x}, want {:#x}", a, b, got.to_bits(), want.to_bits());
        }
    }
}

#[test]
fn round_matches_hardware() {
    let mut ps = patterns();
    for i in 0..200u32 {
        ps.push((0.25f32 * i as f32 - 20.0).to_bits());
        ps.push(0x4a80_0000 + i);
        ps.push(0x4aff_ff00 + i);
        ps.push(0x3eff_ff80 + i);
    }
    for &a in &ps {
        let want = f32::from_bits(a).round();
        let got = Scalar::from_bits(a).round();
        assert!(same(got, want), "round {:#x}: got {:#x}, want {:#x}", a, got.to_bits(), want.to_bits());
    }
}

#[test]
fn floor_matches_hardware() {
    let mut ps = patterns();
    for i in 0..200u32 {
        ps.push((0.25f32 * i as f32 - 20.0).to_bits());
        ps.push(0x4eff_ff80 + i);
        ps.push(0xceff_ff80 + i);
        ps.push(0x3f7f_ff80 + i);
        ps.push(0xbf7f_ff80 + i);
    }
    for &a in &ps {
        let want = f32::from_bits(a).floor() as i32;
        let got = Scalar::from_bits(a).floor_to_i32();
        assert_eq!(got, want, "floor {:#x}", a);
    }
}

#[test]
fn neg_and_abs_touch_only_the_sign() {
    for &a in &patterns() {
        assert_eq!(Scalar::from_bits(a).neg().to_bits(), a ^ 0x8000_0000);
        assert_eq!(Scalar::from_bits(a).abs().to_bits(), a & 0x7fff_ffff);
        assert_eq!(Scalar::from_bits(a).is_nan(), f32::from_bits(a).is_nan());
    }
}

#[test]
fn quotients_and_products_of_small_numbers() {
    assert!(same(s(800.0).div(s(2.0)), 400.0));
    assert!(same(s(1.0).div(s(3.0)), 1.0f32 / 3.0f32));
    assert!(same(s(7.5).mul(s(3.0)), 22.5));
    assert!(same(s(2.5).round(), 3.0));
    assert!(same(s(-2.5).round(), -3.0));
    assert!(same(s(-0.4).round(), -0.0));
    assert_eq!(s(-0.5).floor_to_i32(), -1);
    assert_eq!(s(255.9).floor_to_i32(), 255);
}

struct Gen(u64);

impl Gen {
    fn next(&mut self) -> u32 {
        self.0 ^= self.0 << 13;
        self.0 ^= self.0 >> 7;
        self.0 ^= self.0 << 17;
        (self.0 >> 16) as u32
    }

    /// A pair of patterns: unrelated, or near each other, or with exponents
    /// near each other, so that cancellation, ties and carries all occur.
    fn pair(&mut self) -> (u32, u32) {
        let a = self.next();
        let r = self.next();
        let b = match r % 4 {
            0 => self.next(),
            1 => a.wrapping_add(self.next() % 64).wrapping_sub(32) ^ ((r >> 8) & 1) << 31,
            2 => (a & 0xff80_0000).wrapping_add((r >> 4 & 0x3f) << 23).wrapping_sub(32 << 23)
                ^ (self.next() & 0x807f_ffff),
            _ => (self.next() & 0x8000_0000) | (self.next() % 0x0200_0000),
        };
        (a, b)
    }
}

#[test]
fn add_and_sub_match_hardware_on_many_pairs() {
    let mut g = Gen(0x9e37_79b9_7f4a_7c15);
    for _ in 0..400_000 {
        let (a, b) = g.pair();
        let (x, y) = (f32::from_bits(a), f32::from_bits(b));
        let (p, q) = (Scalar::from_bits(a), Scalar::from_bits(b));
        assert!(same(p.add(q), x + y), "{:#x} + {:#x}", a, b);
        assert!(same(p.sub(q), x - y), "{:#x} - {:#x}", a, b);
    }
}

#[test]
fn mul_matches_hardware_on_many_pairs() {
    let mut g = Gen(0x2545_f491_4f6c_dd1d);
    for _ in 0..400_000 {
        let (a, b) = g.pair();
        let want = f32::from_bits(a) * f32::from_bits(b);
        assert!(same(Scalar::from_bits(a).mul(Scalar::from_bits(b)), want), "{:#x} * {:#x}", a, b);
    }
}

#[test]
fn div_matches_hardware_on_many_pairs() {
    let mut g = Gen(0xd1b5_4a32_d192_ed03);
    for _ in 0..400_000 {
        let (a, b) = g.pair();
        let want = f32::from_bits(a) / f32::from_bits(b);
        assert!(same(Scalar::from_bits(a).div(Scalar::from_bits(b)), want), "{:#x} / {:#x}", a, b);
    }
}

#[test]
fn round_and_floor_match_hardware_on_many_patterns() {
    let mut g = Gen(0x1234_5678_9abc_def1);
    for _ in 0..400_000 {
        let (a, b) = g.pair();
        for &v in &[a, b, (a & 0x8000_0000) | 0x3f00_0000 + (b % 0x0d00_0000)] {
            assert!(same(Scalar::from_bits(v).round(), f32::from_bits(v).round()), "round {:#x}", v);
            assert_eq!(Scalar::from_bits(v).floor_to_i32(), f32::from_bits(v).floor() as i32, "floor {:#x}", v);
        }
    }
}

#[test]
fn products_that_overflow_or_underflow() {
    assert!(same(s(3.0e38).mul(s(2.0)), f32::INFINITY));
    assert!(same(s(-3.0e38).mul(s(2.0)), f32::NEG_INFINITY));
    assert!(same(s(1.0e-30).mul(s(1.0e-30)), 0.0));
    assert!(same(s(1.0e-30).mul(s(-1.0e-30)), -0.0));
    assert!(same(s(1.0).div(s(0.0)), f32::INFINITY));
    assert!(same(s(-1.0).div(s(0.0)), f32::NEG_INFINITY));
    assert!(same(s(0.0).div(s(0.0)), f32::NAN));
    assert!(same(s(f32::INFINITY).sub(s(f32::INFINITY)), f32::NAN));
    assert!(same(s(f32::INFINITY).mul(s(0.0)), f32::NAN));
    // the two smallest subnormals: half of the second is the first, and half
    // of the first is a tie, which goes to the even one, zero
    assert!(same(Scalar::from_bits(2).div(s(2.0)), f32::from_bits(1)));
    assert!(same(Scalar::from_bits(1).div(s(2.0)), 0.0));
    assert!(same(Scalar::from_bits(3).div(s(2.0)), f32::from_bits(2)));
}
