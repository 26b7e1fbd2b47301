use editor_core::binary32::Scalar;
use editor_core::camera::Camera;

fn s(x: f32) -> Scalar {
    Scalar::from_bits(x.to_bits())
}

fn f(x: Scalar) -> f32 {
    f32::from_bits(x.to_bits())
}

#[test]
fn test_screen_to_world_identity() {
    let camera = Camera::new();
    let (wx, wy) = camera.screen_to_world(s(400.0), s(300.0));
    assert_eq!(f(wx), 0.0);
    assert_eq!(f(wy), 0.0);
}

#[test]
fn test_world_to_screen_identity() {
    let camera = Camera::new();
    let (sx, sy) = camera.world_to_screen(s(0.0), s(0.0));
    assert_eq!(f(sx), 400.0);
    assert_eq!(f(sy), 300.0);
}

#[test]
fn test_roundtrip() {
    let mut camera = Camera::new();
    camera.set(s(2.0), s(100.0), s(50.0), s(800.0), s(600.0), s(1.0));

    let (wx, wy) = camera.screen_to_world(s(400.0), s(300.0));
    let (sx, sy) = camera.world_to_screen(wx, wy);

    assert!((f(sx) - 400.0).abs() < 0.001);
    assert!((f(sy) - 300.0).abs() < 0.001);
}

#[test]
fn default_camera_fields() {
    let camera = Camera::new();
    assert_eq!(f(camera.zoom), 1.0);
    assert_eq!(f(camera.pan_x), 0.0);
    assert_eq!(f(camera.pan_y), 0.0);
    assert_eq!(f(camera.viewport_w), 800.0);
    assert_eq!(f(camera.viewport_h), 600.0);
    assert_eq!(f(camera.dpr), 1.0);
}

#[test]
fn transforms_follow_the_formulas() {
    let mut camera = Camera::new();
    camera.set(s(2.0), s(100.0), s(50.0), s(800.0), s(600.0), s(3.0));
    // world = (screen - viewport / 2) / zoom + pan
    let (wx, wy) = camera.screen_to_world(s(0.0), s(0.0));
    assert_eq!(f(wx), (0.0f32 - 800.0 / 2.0) / 2.0 + 100.0);
    assert_eq!(f(wx), -100.0);
    assert_eq!(f(wy), -100.0);
    // screen = (world - pan) * zoom + viewport / 2
    let (sx, sy) = camera.world_to_screen(s(110.0), s(40.0));
    assert_eq!(f(sx), 420.0);
    assert_eq!(f(sy), 280.0);
}

#[test]
fn visible_bounds_are_the_viewport_corners() {
    let camera = Camera::new();
    let (min_x, min_y, max_x, max_y) = camera.get_visible_world_bounds();
    assert_eq!((f(min_x), f(min_y), f(max_x), f(max_y)), (-400.0, -300.0, 400.0, 300.0));

    let mut zoomed = Camera::new();
    zoomed.set(s(0.5), s(10.0), s(-20.0), s(1000.0), s(500.0), s(2.0));
    let (min_x, min_y, max_x, max_y) = zoomed.get_visible_world_bounds();
    assert_eq!((f(min_x), f(min_y), f(max_x), f(max_y)), (-990.0, -520.0, 1010.0, 480.0));
}

#[test]
fn roundtrip_over_a_range_of_views() {
    let zooms = [1.0f32 / 1024.0, 0.125, 0.5, 1.0, 1.5, 3.0, 64.0, 1024.0];
    for &zoom in &zooms {
        let mut camera = Camera::new();
        camera.set(s(zoom), s(12.5), s(-7.25), s(1280.0), s(720.0), s(2.0));
        for i in 0..40 {
            let sx = 33.0 * i as f32;
            let sy = 18.5 * i as f32;
            let (wx, wy) = camera.screen_to_world(s(sx), s(sy));
            let (bx, by) = camera.world_to_screen(wx, wy);
            assert!((f(bx) - sx).abs() < 0.001, "zoom {} sx {}", zoom, sx);
            assert!((f(by) - sy).abs() < 0.001, "zoom {} sy {}", zoom, sy);
        }
    }
}

#[test]
fn zero_zoom_gives_infinities_and_no_fault() {
    let mut camera = Camera::new();
    camera.set(s(0.0), s(0.0), s(0.0), s(800.0), s(600.0), s(1.0));
    let (wx, wy) = camera.screen_to_world(s(0.0), s(600.0));
    assert_eq!(f(wx), f32::NEG_INFINITY);
    assert_eq!(f(wy), f32::INFINITY);
    let (cx, _) = camera.screen_to_world(s(400.0), s(300.0));
    assert!(f(cx).is_nan());
}

#[test]
fn transforms_match_hardware_arithmetic() {
    let mut camera = Camera::new();
    let (zoom, pan_x, pan_y, vw, vh) = (1.37f32, 1234.5f32, -0.001f32, 1919.0f32, 1079.0f32);
    camera.set(s(zoom), s(pan_x), s(pan_y), s(vw), s(vh), s(1.0));
    for i in 0..50 {
        let sx = 0.37f32 * i as f32 * i as f32;
        let sy = 1000.0f32 / (i as f32 + 1.0);
        let (wx, wy) = camera.screen_to_world(s(sx), s(sy));
        assert_eq!(f(wx), (sx - vw / 2.0) / zoom + pan_x);
        assert_eq!(f(wy), (sy - vh / 2.0) / zoom + pan_y);
        let (bx, by) = camera.world_to_screen(s(sx), s(sy));
        assert_eq!(f(bx), (sx - pan_x) * zoom + vw / 2.0);
        assert_eq!(f(by), (sy - pan_y) * zoom + vh / 2.0);
    }
}

#[test]
fn round_trip_is_as_fine_as_the_world_point() {
    // at zoom 1024 around a pan of 10000, world points near the pan lie 2^-10
    // apart, which is a whole pixel: the fraction of the screen point is lost
    let mut camera = Camera::new();
    camera.set(s(1024.0), s(10000.0), s(0.0), s(800.0), s(600.0), s(1.0));
    let (wx, _) = camera.screen_to_world(s(400.3), s(300.0));
    assert_eq!(f(wx), (400.3f32 - 800.0 / 2.0) / 1024.0 + 10000.0);
    assert_eq!(f(wx), 10000.0);
    let (sx, _) = camera.world_to_screen(wx, s(0.0));
    assert_eq!(f(sx), 400.0);
}

#[test]
fn round_trip_stays_within_a_thousandth() {
    let mut g: u32 = 0x0bad_5eed;
    let mut next = move || {
        g ^= g << 13;
        g ^= g >> 17;
        g ^= g << 5;
        // a number from 0 to 1
        (g % 1_000_001) as f32 / 1_000_000.0
    };
    let zooms = [1.0f32 / 1024.0, 0.01, 0.3, 1.0, 1.7, 37.0, 1000.0, 1024.0];
    for i in 0..6000 {
        let zoom = zooms[i % zooms.len()];
        // a viewport up to 4096 wide and high, a screen point within it, and
        // the pan, in pixels, within 2048 of zero
        let (vw, vh) = (next() * 4096.0, next() * 4096.0);
        let (sx, sy) = (next() * vw, next() * vh);
        let (pan_x, pan_y) = ((next() * 4096.0 - 2048.0) / zoom, (next() * 4096.0 - 2048.0) / zoom);
        if (pan_x * zoom).abs() > 2048.0 || (pan_y * zoom).abs() > 2048.0 {
            continue;
        }
        let mut camera = Camera::new();
        camera.set(s(zoom), s(pan_x), s(pan_y), s(vw), s(vh), s(1.0));
        let (wx, wy) = camera.screen_to_world(s(sx), s(sy));
        let (bx, by) = camera.world_to_screen(wx, wy);
        assert!((f(bx) - sx).abs() < 0.001, "zoom {} pan {} vw {} sx {}", zoom, pan_x, vw, sx);
        assert!((f(by) - sy).abs() < 0.001, "zoom {} pan {} vh {} sy {}", zoom, pan_y, vh, sy);
    }
}

#[test]
fn round_trip_across_a_wide_screen() {
    // a viewport of 1920 by 1080, every tenth pixel of its right and lower edge
    for &zoom in &[1.0f32 / 1024.0, 0.75, 1.0, 2.5, 1024.0] {
        let mut camera = Camera::new();
        camera.set(s(zoom), s(1500.0 / zoom), s(-2000.0 / zoom), s(1920.0), s(1080.0), s(2.0));
        for i in 0..=192 {
            let (sx, sy) = (10.0 * i as f32, 1080.0 - 0.37 * i as f32);
            let (wx, wy) = camera.screen_to_world(s(sx), s(sy));
            let (bx, by) = camera.world_to_screen(wx, wy);
            assert!((f(bx) - sx).abs() < 0.001 && (f(by) - sy).abs() < 0.001);
        }
    }
}
