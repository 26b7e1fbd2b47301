//! The view transform between screen pixels and world units.
use crate::binary32::{
    abs_int, float_eq, is_finite, is_negative, lemma_add_error_relative, lemma_add_zero,
    lemma_div_error, lemma_half_is_finite, lemma_mul_error, lemma_sub_equal,
    lemma_sub_error_relative, lemma_value_within_2048, lemma_zero_div, lemma_zero_mul, mag_of,
    value_of, Scalar,
};
use crate::rounding::distance;
use vstd::arithmetic::power2::{
    lemma2_to64, lemma_pow2_adds, lemma_pow2_pos, lemma_pow2_strictly_increases, pow2,
};
use vstd::prelude::*;

verus! {

/// The bits of the number 1.
pub const ONE: u32 = 0x3f80_0000;

/// The bits of the number 2.
pub const TWO: u32 = 0x4000_0000;

/// The bits of 800, the first viewport's width.
pub const DEFAULT_VIEWPORT_W: u32 = 0x4448_0000;

/// The bits of 600, the first viewport's height.
pub const DEFAULT_VIEWPORT_H: u32 = 0x4416_0000;

/// The view: a zoom factor, the world point at the viewport's center, and
/// the viewport's size in pixels. The device-pixel ratio is kept for the
/// host and takes no part in either transform.
#[derive(Clone, Copy, Debug)]
pub struct Camera {
    pub zoom: Scalar,
    pub pan_x: Scalar,
    pub pan_y: Scalar,
    pub viewport_w: Scalar,
    pub viewport_h: Scalar,
    pub dpr: Scalar,
}

/// One axis of the way from the screen to the world:
/// `(screen - viewport / 2) / zoom + pan`, each step rounded.
pub open spec fn to_world_axis(screen: Scalar, viewport: Scalar, zoom: Scalar, pan: Scalar) -> Scalar {
    screen.spec_sub(viewport.spec_div(Scalar { bits: TWO })).spec_div(zoom).spec_add(pan)
}

/// One axis of the way from the world to the screen:
/// `(world - pan) * zoom + viewport / 2`, each step rounded.
pub open spec fn to_screen_axis(world: Scalar, viewport: Scalar, zoom: Scalar, pan: Scalar) -> Scalar {
    world.spec_sub(pan).spec_mul(zoom).spec_add(viewport.spec_div(Scalar { bits: TWO }))
}

impl Camera {
    /// The world point that the screen point shows.
    pub open spec fn to_world(self, screen_x: Scalar, screen_y: Scalar) -> (Scalar, Scalar) {
        (
            to_world_axis(screen_x, self.viewport_w, self.zoom, self.pan_x),
            to_world_axis(screen_y, self.viewport_h, self.zoom, self.pan_y),
        )
    }

    /// The screen point at which the world point shows.
    pub open spec fn to_screen(self, world_x: Scalar, world_y: Scalar) -> (Scalar, Scalar) {
        (
            to_screen_axis(world_x, self.viewport_w, self.zoom, self.pan_x),
            to_screen_axis(world_y, self.viewport_h, self.zoom, self.pan_y),
        )
    }

    /// The world box that the viewport shows, as `(min_x, min_y, max_x, max_y)`:
    /// what its corners `(0, 0)` and `(viewport_w, viewport_h)` show.
    pub open spec fn visible_bounds(self) -> (Scalar, Scalar, Scalar, Scalar) {
        let low = self.to_world(Scalar { bits: 0 }, Scalar { bits: 0 });
        let high = self.to_world(self.viewport_w, self.viewport_h);
        (low.0, low.1, high.0, high.1)
    }

    /// The first view.
    pub open spec fn initial() -> Camera {
        Camera {
            zoom: Scalar { bits: ONE },
            pan_x: Scalar { bits: 0 },
            pan_y: Scalar { bits: 0 },
            viewport_w: Scalar { bits: DEFAULT_VIEWPORT_W },
            viewport_h: Scalar { bits: DEFAULT_VIEWPORT_H },
            dpr: Scalar { bits: ONE },
        }
    }

    /// A view at zoom 1, centered on the world's origin, of 800 by 600 pixels.
    pub fn new() -> (camera: Camera)
        ensures
            camera == Camera::initial(),
    {
        Camera {
            zoom: Scalar::from_bits(ONE),
            pan_x: Scalar::from_bits(0),
            pan_y: Scalar::from_bits(0),
            viewport_w: Scalar::from_bits(DEFAULT_VIEWPORT_W),
            viewport_h: Scalar::from_bits(DEFAULT_VIEWPORT_H),
            dpr: Scalar::from_bits(ONE),
        }
    }

    /// Replaces the view.
    pub fn set(
        &mut self,
        zoom: Scalar,
        pan_x: Scalar,
        pan_y: Scalar,
        viewport_w: Scalar,
        viewport_h: Scalar,
        dpr: Scalar,
    )
        ensures
            *final(self) == (Camera { zoom, pan_x, pan_y, viewport_w, viewport_h, dpr }),
    {
        self.zoom = zoom;
        self.pan_x = pan_x;
        self.pan_y = pan_y;
        self.viewport_w = viewport_w;
        self.viewport_h = viewport_h;
        self.dpr = dpr;
    }

    /// The world point that a screen point shows.
    pub fn screen_to_world(&self, screen_x: Scalar, screen_y: Scalar) -> (world: (Scalar, Scalar))
        ensures
            world == self.to_world(screen_x, screen_y),
    {
        let two = Scalar::from_bits(TWO);
        let centered_x = screen_x.sub(self.viewport_w.div(two));
        let centered_y = screen_y.sub(self.viewport_h.div(two));

        let world_x = centered_x.div(self.zoom).add(self.pan_x);
        let world_y = centered_y.div(self.zoom).add(self.pan_y);

        (world_x, world_y)
    }

    /// The screen point at which a world point shows.
    pub fn world_to_screen(&self, world_x: Scalar, world_y: Scalar) -> (screen: (Scalar, Scalar))
        ensures
            screen == self.to_screen(world_x, world_y),
    {
        let two = Scalar::from_bits(TWO);
        let translated_x = world_x.sub(self.pan_x);
        let translated_y = world_y.sub(self.pan_y);

        let scaled_x = translated_x.mul(self.zoom);
        let scaled_y = translated_y.mul(self.zoom);

        let screen_x = scaled_x.add(self.viewport_w.div(two));
        let screen_y = scaled_y.add(self.viewport_h.div(two));

        (screen_x, screen_y)
    }

    /// The world box that the viewport shows. Nothing is clamped.
    pub fn get_visible_world_bounds(&self) -> (bounds: (Scalar, Scalar, Scalar, Scalar))
        ensures
            bounds == self.visible_bounds(),
    {
        let (min_x, min_y) = self.screen_to_world(Scalar::from_bits(0), Scalar::from_bits(0));
        let (max_x, max_y) = self.screen_to_world(self.viewport_w, self.viewport_h);

        (min_x, min_y, max_x, max_y)
    }
}

/// Along one axis, the viewport's center shows the pan point, and the pan
/// point shows at the viewport's center, both exactly.
pub proof fn lemma_center_axis(viewport: Scalar, zoom: Scalar, pan: Scalar)
    requires
        is_finite(viewport.bits),
        is_finite(pan.bits),
        is_finite(zoom.bits),
        mag_of(zoom.bits) != 0,
    ensures
        ({
            let center = viewport.spec_div(Scalar { bits: TWO });
            let world = to_world_axis(center, viewport, zoom, pan);
            &&& float_eq(world.bits, pan.bits)
            &&& float_eq(to_screen_axis(world, viewport, zoom, pan).bits, center.bits)
        }),
{
    let center = viewport.spec_div(Scalar { bits: TWO });
    lemma_half_is_finite(viewport.bits);
    lemma_sub_equal(center.bits, center.bits);
    let offset = center.spec_sub(center);
    lemma_zero_div(offset.bits, zoom.bits);
    let scaled = offset.spec_div(zoom);
    lemma_add_zero(scaled.bits, pan.bits);
    let world = scaled.spec_add(pan);
    lemma_sub_equal(world.bits, pan.bits);
    let back = world.spec_sub(pan);
    lemma_zero_mul(back.bits, zoom.bits);
    lemma_add_zero(back.spec_mul(zoom).bits, center.bits);
}

/// With a finite view and a zoom other than zero, the way from the
/// viewport's center to the world and back ends where it began.
pub proof fn lemma_center_round_trip(camera: Camera)
    requires
        is_finite(camera.viewport_w.bits),
        is_finite(camera.viewport_h.bits),
        is_finite(camera.pan_x.bits),
        is_finite(camera.pan_y.bits),
        is_finite(camera.zoom.bits),
        mag_of(camera.zoom.bits) != 0,
    ensures
        ({
            let center_x = camera.viewport_w.spec_div(Scalar { bits: TWO });
            let center_y = camera.viewport_h.spec_div(Scalar { bits: TWO });
            let world = camera.to_world(center_x, center_y);
            let screen = camera.to_screen(world.0, world.1);
            &&& float_eq(world.0.bits, camera.pan_x.bits)
            &&& float_eq(world.1.bits, camera.pan_y.bits)
            &&& float_eq(screen.0.bits, center_x.bits)
            &&& float_eq(screen.1.bits, center_y.bits)
        }),
{
    lemma_center_axis(camera.viewport_w, camera.zoom, camera.pan_x);
    lemma_center_axis(camera.viewport_h, camera.zoom, camera.pan_y);
}

/// The zoom is between `2^-10` and `2^10`.
pub open spec fn zoom_in_range(zoom: Scalar) -> bool {
    !is_negative(zoom.bits) && 0x3a80_0000 <= mag_of(zoom.bits) <= 0x4480_0000
}

/// What the roundings of a round trip are measured against, along one axis:
/// five times the distance of the screen coordinate from the viewport's
/// center, plus its distance from zero, plus the distance of the pan from
/// zero in pixels, that is, times the zoom. Each of the six steps rounds a
/// number no larger than one of these. The load is in units of `2^-298`, the
/// unit of a product of two values.
pub open spec fn round_trip_load(screen: Scalar, center: Scalar, zoom: Scalar, pan: Scalar) -> int {
    5 * abs_int(value_of(screen.bits) - value_of(center.bits)) * pow2(149) + abs_int(
        value_of(screen.bits),
    ) * pow2(149) + abs_int(value_of(pan.bits)) * value_of(zoom.bits)
}

/// The scales of the error analysis: `unit` is the number 1, `uu` its
/// square, `tiny` a bound on half a step of the smallest numbers that occur;
/// `p200` and `p349` are bounds below which no sum and no product overflows.
spec fn scales(unit: int, uu: int, tiny: int, p200: int, p349: int) -> bool {
    &&& unit > 0
    &&& uu == unit * unit
    &&& tiny == 0x2_0000_0000 * unit
    &&& uu >= 0x100_0000_0000 * tiny
    &&& p200 == 0x8_0000_0000_0000 * unit
    &&& p349 == 0x8_0000_0000_0000 * uu
}

/// The zoom, as a value, is between `2^-10` and `2^10`.
spec fn zoom_scale(z: int, unit: int) -> bool {
    unit <= 0x400 * z && z <= 0x400 * unit
}

/// A load within 16384 bounds each of its parts.
proof fn lemma_load_step(unit: int, uu: int, s: int, c: int, p: int, z: int)
    requires
        unit > 0,
        uu == unit * unit,
        z > 0,
        5 * abs_int(s - c) * unit + abs_int(s) * unit + abs_int(p) * z <= 0x4000 * uu,
    ensures
        abs_int(s - c) <= 0x4000 * unit,
        abs_int(s) <= 0x4000 * unit,
        0 <= abs_int(p) * z <= 0x4000 * uu,
        0 <= abs_int(s - c) * unit,
        0 <= abs_int(s) * unit,
{
    let x = abs_int(s - c) * unit;
    let y = abs_int(s) * unit;
    let pz = abs_int(p) * z;
    assert(0 <= x && 0 <= y && 0 <= pz) by (nonlinear_arith)
        requires
            x == abs_int(s - c) * unit,
            y == abs_int(s) * unit,
            pz == abs_int(p) * z,
            unit > 0,
            z > 0,
            abs_int(s - c) >= 0,
            abs_int(s) >= 0,
            abs_int(p) >= 0,
    ;
    assert(5 * abs_int(s - c) * unit == 5 * x) by (nonlinear_arith)
        requires
            x == abs_int(s - c) * unit,
    ;
    assert(abs_int(s - c) <= 0x4000 * unit && abs_int(s) <= 0x4000 * unit) by (nonlinear_arith)
        requires
            abs_int(s - c) * unit <= 0x4000 * (unit * unit),
            abs_int(s) * unit <= 0x4000 * (unit * unit),
            unit > 0,
    ;
}

/// After the offset from the center has been taken: it may be divided by the
/// zoom.
proof fn lemma_offset_step(
    unit: int,
    uu: int,
    tiny: int,
    p200: int,
    p349: int,
    s: int,
    c: int,
    a: int,
    z: int,
)
    requires
        scales(unit, uu, tiny, p200, p349),
        zoom_scale(z, unit),
        abs_int(s - c) <= 0x4000 * unit,
        0x100_0000 * distance(a, s - c) <= abs_int(s - c),
    ensures
        0 <= distance(a, s - c) * unit,
        0x100_0000 * (distance(a, s - c) * unit) <= abs_int(s - c) * unit,
        abs_int(a * unit) == abs_int(a) * unit,
        abs_int(a * unit) <= abs_int(s - c) * unit + distance(a, s - c) * unit,
        abs_int(a * unit) <= 0x8000 * uu,
        abs_int(a) <= 0x8000 * unit,
        abs_int(a) * unit <= z * p200,
{
    let ea = distance(a, s - c);
    assert(0 <= ea * unit && 0x100_0000 * (ea * unit) <= abs_int(s - c) * unit) by (nonlinear_arith)
        requires
            0 <= ea,
            0x100_0000 * ea <= abs_int(s - c),
            unit > 0,
    ;
    assert(abs_int(a) <= abs_int(s - c) + ea);
    assert(abs_int(a * unit) == abs_int(a) * unit && abs_int(a) * unit <= abs_int(s - c) * unit
        + ea * unit && abs_int(a) * unit <= 0x8000 * (unit * unit)) by (nonlinear_arith)
        requires
            abs_int(a) <= abs_int(s - c) + ea,
            abs_int(a) <= 0x8000 * unit,
            unit > 0,
    ;
    assert(0x8000 * (unit * unit) <= z * p200) by (nonlinear_arith)
        requires
            unit <= 0x400 * z,
            p200 == 0x8_0000_0000_0000 * unit,
            unit > 0,
            z > 0,
    ;
}

/// After the division by the zoom: the quotient and the pan may be added.
proof fn lemma_scaled_step(
    unit: int,
    uu: int,
    tiny: int,
    p200: int,
    p349: int,
    a: int,
    z: int,
    b: int,
    p: int,
)
    requires
        scales(unit, uu, tiny, p200, p349),
        zoom_scale(z, unit),
        abs_int(a * unit) <= 0x8000 * uu,
        0x100_0000 * distance(b * z, a * unit) <= abs_int(a * unit) + tiny,
        0 <= abs_int(p) * z <= 0x4000 * uu,
    ensures
        abs_int(b * z) <= abs_int(a * unit) + distance(b * z, a * unit),
        abs_int(b * z) <= 0x1_0000 * uu,
        abs_int(b * z) == abs_int(b) * z,
        abs_int(b) <= 0x400_0000 * unit,
        abs_int(p) <= 0x100_0000 * unit,
        abs_int(b + p) <= p200,
{
    assert(abs_int(b * z) == abs_int(b) * z) by (nonlinear_arith)
        requires
            z > 0,
    ;
    assert(abs_int(b) <= 0x400_0000 * unit) by (nonlinear_arith)
        requires
            abs_int(b) * z <= 0x1_0000 * (unit * unit),
            unit <= 0x400 * z,
            unit > 0,
            z > 0,
            abs_int(b) >= 0,
    ;
    assert(abs_int(p) <= 0x100_0000 * unit) by (nonlinear_arith)
        requires
            abs_int(p) * z <= 0x4000 * (unit * unit),
            unit <= 0x400 * z,
            unit > 0,
            z > 0,
            abs_int(p) >= 0,
    ;
}

/// After the pan has been added: it may be taken off again.
proof fn lemma_world_step(
    unit: int,
    uu: int,
    tiny: int,
    p200: int,
    p349: int,
    z: int,
    b: int,
    p: int,
    w: int,
)
    requires
        scales(unit, uu, tiny, p200, p349),
        z > 0,
        abs_int(b * z) == abs_int(b) * z,
        abs_int(b) <= 0x400_0000 * unit,
        abs_int(p) <= 0x100_0000 * unit,
        0x100_0000 * distance(w, b + p) <= abs_int(b + p),
    ensures
        0 <= distance(w, b + p) * z,
        0x100_0000 * (distance(w, b + p) * z) <= abs_int(b * z) + abs_int(p) * z,
        abs_int(w - p) <= abs_int(b) + distance(w, b + p),
        abs_int(w - p) <= p200,
{
    let ew = distance(w, b + p);
    assert(0x100_0000 * (ew * z) <= abs_int(b) * z + abs_int(p) * z && 0 <= ew * z)
        by (nonlinear_arith)
        requires
            0x100_0000 * ew <= abs_int(b) + abs_int(p),
            0 <= ew,
            z > 0,
    ;
}

/// After the pan has been taken off: the result may be multiplied by the
/// zoom.
proof fn lemma_shifted_step(
    unit: int,
    uu: int,
    tiny: int,
    p200: int,
    p349: int,
    z: int,
    b: int,
    p: int,
    w: int,
    t: int,
)
    requires
        scales(unit, uu, tiny, p200, p349),
        z > 0,
        abs_int(b * z) == abs_int(b) * z,
        abs_int(b * z) <= 0x1_0000 * uu,
        0 <= abs_int(p) * z <= 0x4000 * uu,
        0x100_0000 * (distance(w, b + p) * z) <= abs_int(b * z) + abs_int(p) * z,
        0 <= distance(w, b + p) * z,
        abs_int(w - p) <= abs_int(b) + distance(w, b + p),
        0x100_0000 * distance(t, w - p) <= abs_int(w - p),
    ensures
        0 <= distance(t, w - p) * z,
        0x100_0000 * (distance(t, w - p) * z) <= abs_int(b * z) + distance(w, b + p) * z,
        abs_int(t * z - b * z) <= distance(w, b + p) * z + distance(t, w - p) * z,
        abs_int(t * z) <= abs_int(b * z) + distance(w, b + p) * z + distance(t, w - p) * z,
        abs_int(t * z) <= p349,
{
    let ew = distance(w, b + p);
    let et = distance(t, w - p);
    assert(0 <= et * z && 0x100_0000 * (et * z) <= abs_int(b) * z + ew * z) by (nonlinear_arith)
        requires
            0x100_0000 * et <= abs_int(b) + ew,
            0 <= et,
            z > 0,
    ;
    assert(abs_int(t - b) <= ew + et);
    assert(abs_int(t * z - b * z) <= ew * z + et * z) by (nonlinear_arith)
        requires
            abs_int(t - b) <= ew + et,
            z > 0,
    ;
}

/// After the multiplication by the zoom: the center may be added.
proof fn lemma_grown_step(
    unit: int,
    uu: int,
    tiny: int,
    p200: int,
    p349: int,
    s: int,
    c: int,
    a: int,
    g: int,
    bz: int,
    tz: int,
    ewz: int,
    etz: int,
    pz: int,
)
    requires
        scales(unit, uu, tiny, p200, p349),
        abs_int(s) <= 0x4000 * unit,
        abs_int(s - c) <= 0x4000 * unit,
        abs_int(a) <= 0x8000 * unit,
        abs_int(a * unit) <= 0x8000 * uu,
        0x100_0000 * distance(bz, a * unit) <= abs_int(a * unit) + tiny,
        abs_int(bz) <= 0x1_0000 * uu,
        0 <= pz <= 0x4000 * uu,
        0 <= ewz,
        0x100_0000 * ewz <= abs_int(bz) + pz,
        0 <= etz,
        0x100_0000 * etz <= abs_int(bz) + ewz,
        abs_int(tz - bz) <= ewz + etz,
        abs_int(tz) <= abs_int(bz) + ewz + etz,
        0x100_0000 * distance(g * unit, tz) <= abs_int(tz) + tiny,
    ensures
        abs_int(g * unit - a * unit) <= distance(g * unit, tz) + ewz + etz + distance(
            bz,
            a * unit,
        ),
        abs_int(g * unit - a * unit) == abs_int(g - a) * unit,
        abs_int(g + c) <= p200,
{
    let dd = abs_int(g * unit - a * unit);
    assert(dd <= uu);
    assert(dd == abs_int(g - a) * unit) by (nonlinear_arith)
        requires
            dd == abs_int(g * unit - a * unit),
            unit > 0,
    ;
    assert(abs_int(g - a) <= unit) by (nonlinear_arith)
        requires
            abs_int(g - a) * unit <= unit * unit,
            unit > 0,
    ;
}

/// The six roundings together stay within a thousandth.
proof fn lemma_total_step(
    unit: int,
    uu: int,
    tiny: int,
    p200: int,
    p349: int,
    s: int,
    c: int,
    a: int,
    g: int,
    r: int,
    pz: int,
    db: int,
    abz: int,
    ewz: int,
    etz: int,
    atz: int,
    du: int,
)
    requires
        scales(unit, uu, tiny, p200, p349),
        0 <= pz,
        5 * (abs_int(s - c) * unit) + abs_int(s) * unit + pz <= 0x4000 * uu,
        0 <= distance(a, s - c) * unit,
        0x100_0000 * (distance(a, s - c) * unit) <= abs_int(s - c) * unit,
        abs_int(a * unit) <= abs_int(s - c) * unit + distance(a, s - c) * unit,
        0 <= db,
        0x100_0000 * db <= abs_int(a * unit) + tiny,
        0 <= abz <= abs_int(a * unit) + db,
        0 <= ewz,
        0x100_0000 * ewz <= abz + pz,
        0 <= etz,
        0x100_0000 * etz <= abz + ewz,
        0 <= atz <= abz + ewz + etz,
        0 <= du,
        0x100_0000 * du <= atz + tiny,
        abs_int(g - a) * unit <= du + ewz + etz + db,
        0x100_0000 * distance(r, g + c) <= abs_int(g + c),
    ensures
        1000 * distance(r, s) < unit,
{
    let ea = distance(a, s - c);
    let er = distance(r, g + c);
    let dd = abs_int(g - a) * unit;
    assert(abs_int(g + c) <= abs_int(s) + abs_int(g - a) + ea);
    assert(0 <= er * unit && 0x100_0000 * (er * unit) <= abs_int(s) * unit + dd + ea * unit)
        by (nonlinear_arith)
        requires
            0 <= er,
            0x100_0000 * er <= abs_int(s) + abs_int(g - a) + ea,
            dd == abs_int(g - a) * unit,
            unit > 0,
    ;
    assert(distance(r, s) <= er + abs_int(g - a) + ea);
    assert(distance(r, s) * unit <= er * unit + dd + ea * unit) by (nonlinear_arith)
        requires
            distance(r, s) <= er + abs_int(g - a) + ea,
            dd == abs_int(g - a) * unit,
            unit > 0,
    ;
    assert(0 <= abs_int(s - c) * unit && 0 <= abs_int(s) * unit) by (nonlinear_arith)
        requires
            unit > 0,
            abs_int(s - c) >= 0,
            abs_int(s) >= 0,
    ;
    assert(1000 * (er * unit + dd + ea * unit) < uu);
    assert(1000 * distance(r, s) < unit) by (nonlinear_arith)
        requires
            1000 * (distance(r, s) * unit) < unit * unit,
            unit > 0,
    ;
}

/// With a zoom between `2^-10` and `2^10` and a load within 16384, the way
/// from the screen to the world and back ends less than a thousandth from
/// where it began. The values are in units of `2^-149`, so the number 1 is
/// `2^149`, and 16384 in the load's units is `2^312`.
pub proof fn lemma_round_trip_axis(screen: Scalar, viewport: Scalar, zoom: Scalar, pan: Scalar)
    requires
        is_finite(screen.bits),
        is_finite(viewport.spec_div(Scalar { bits: TWO }).bits),
        is_finite(pan.bits),
        zoom_in_range(zoom),
        round_trip_load(screen, viewport.spec_div(Scalar { bits: TWO }), zoom, pan) <= pow2(312),
    ensures
        ({
            let world = to_world_axis(screen, viewport, zoom, pan);
            let back = to_screen_axis(world, viewport, zoom, pan);
            1000 * distance(value_of(back.bits), value_of(screen.bits)) < pow2(149)
        }),
{
    let center = viewport.spec_div(Scalar { bits: TWO });
    let offset = screen.spec_sub(center);
    let scaled = offset.spec_div(zoom);
    let world = scaled.spec_add(pan);
    let shifted = world.spec_sub(pan);
    let grown = shifted.spec_mul(zoom);
    let back = grown.spec_add(center);
    let s = value_of(screen.bits);
    let c = value_of(center.bits);
    let p = value_of(pan.bits);
    let z = value_of(zoom.bits);
    let a = value_of(offset.bits);
    let b = value_of(scaled.bits);
    let w = value_of(world.bits);
    let t = value_of(shifted.bits);
    let g = value_of(grown.bits);
    let r = value_of(back.bits);
    let unit = pow2(149) as int;
    let uu = pow2(298) as int;
    let tiny = pow2(182) as int;
    let p200 = pow2(200) as int;
    let p349 = pow2(349) as int;
    assert(scales(unit, uu, tiny, p200, p349) && pow2(312) == 0x4000 * uu) by {
        lemma2_to64();
        vstd::arithmetic::power2::lemma2_to64_rest();
        lemma_pow2_pos(149);
        lemma_pow2_adds(149, 149);
        lemma_pow2_adds(33, 149);
        lemma_pow2_adds(40, 182);
        lemma_pow2_strictly_increases(222, 298);
        lemma_pow2_adds(51, 149);
        lemma_pow2_adds(51, 298);
        lemma_pow2_adds(14, 298);
    }
    assert(zoom_scale(z, unit) && z > 0 && is_finite(zoom.bits) && mag_of(zoom.bits) != 0) by {
        lemma2_to64();
        lemma_pow2_adds(23, 116);
        lemma_pow2_adds(23, 136);
        lemma_pow2_adds(10, 139);
        lemma_pow2_adds(10, 149);
        lemma_pow2_pos(139);
        crate::rounding::lemma_mag_value_monotonic(0x3a80_0000, mag_of(zoom.bits));
        crate::rounding::lemma_mag_value_monotonic(mag_of(zoom.bits), 0x4480_0000);
        assert(crate::rounding::mag_value(0x3a80_0000) == 0x80_0000 * pow2(116));
        assert(crate::rounding::mag_value(0x4480_0000) == 0x80_0000 * pow2(136));
    }
    lemma_load_step(unit, uu, s, c, p, z);
    assert(5 * abs_int(s - c) * unit == 5 * (abs_int(s - c) * unit)) by (nonlinear_arith);
    // the offset from the center
    assert(is_finite(offset.bits) && 0x100_0000 * distance(a, s - c) <= abs_int(s - c)) by {
        lemma_pow2_strictly_increases(164, 200);
        lemma_pow2_adds(15, 149);
        lemma2_to64();
        lemma_sub_error_relative(screen.bits, center.bits);
    }
    lemma_offset_step(unit, uu, tiny, p200, p349, s, c, a, z);
    // divided by the zoom
    assert(is_finite(scaled.bits) && 0x100_0000 * distance(b * z, a * unit) <= abs_int(a * unit)
        + tiny) by {
        lemma_div_error(offset.bits, zoom.bits);
    }
    lemma_scaled_step(unit, uu, tiny, p200, p349, a, z, b, p);
    // plus the pan
    assert(is_finite(world.bits) && 0x100_0000 * distance(w, b + p) <= abs_int(b + p)) by {
        lemma_add_error_relative(scaled.bits, pan.bits);
    }
    lemma_world_step(unit, uu, tiny, p200, p349, z, b, p, w);
    // minus the pan
    assert(is_finite(shifted.bits) && 0x100_0000 * distance(t, w - p) <= abs_int(w - p)) by {
        lemma_sub_error_relative(world.bits, pan.bits);
    }
    lemma_shifted_step(unit, uu, tiny, p200, p349, z, b, p, w, t);
    // times the zoom
    assert(is_finite(grown.bits) && 0x100_0000 * distance(g * unit, t * z) <= abs_int(t * z)
        + tiny) by {
        lemma_mul_error(shifted.bits, zoom.bits);
    }
    lemma_grown_step(
        unit,
        uu,
        tiny,
        p200,
        p349,
        s,
        c,
        a,
        g,
        b * z,
        t * z,
        distance(w, b + p) * z,
        distance(t, w - p) * z,
        abs_int(p) * z,
    );
    // plus the center
    assert(is_finite(back.bits) && 0x100_0000 * distance(r, g + c) <= abs_int(g + c)) by {
        lemma_add_error_relative(grown.bits, center.bits);
    }
    lemma_total_step(
        unit,
        uu,
        tiny,
        p200,
        p349,
        s,
        c,
        a,
        g,
        r,
        abs_int(p) * z,
        distance(b * z, a * unit),
        abs_int(b * z),
        distance(w, b + p) * z,
        distance(t, w - p) * z,
        abs_int(t * z),
        distance(g * unit, t * z),
    );
    assert(world == to_world_axis(screen, viewport, zoom, pan));
    assert(back == to_screen_axis(world, viewport, zoom, pan));
}

/// With a zoom between `2^-10` and `2^10` and a load within 16384 along
/// each axis, the way from the screen to the world and back ends less than a
/// thousandth from where it began, along each axis.
pub proof fn lemma_round_trip(camera: Camera, screen_x: Scalar, screen_y: Scalar)
    requires
        zoom_in_range(camera.zoom),
        is_finite(screen_x.bits),
        is_finite(screen_y.bits),
        is_finite(camera.pan_x.bits),
        is_finite(camera.pan_y.bits),
        is_finite(camera.viewport_w.spec_div(Scalar { bits: TWO }).bits),
        is_finite(camera.viewport_h.spec_div(Scalar { bits: TWO }).bits),
        round_trip_load(
            screen_x,
            camera.viewport_w.spec_div(Scalar { bits: TWO }),
            camera.zoom,
            camera.pan_x,
        ) <= pow2(312),
        round_trip_load(
            screen_y,
            camera.viewport_h.spec_div(Scalar { bits: TWO }),
            camera.zoom,
            camera.pan_y,
        ) <= pow2(312),
    ensures
        ({
            let world = camera.to_world(screen_x, screen_y);
            let back = camera.to_screen(world.0, world.1);
            &&& 1000 * distance(value_of(back.0.bits), value_of(screen_x.bits)) < pow2(149)
            &&& 1000 * distance(value_of(back.1.bits), value_of(screen_y.bits)) < pow2(149)
        }),
{
    lemma_round_trip_axis(screen_x, camera.viewport_w, camera.zoom, camera.pan_x);
    lemma_round_trip_axis(screen_y, camera.viewport_h, camera.zoom, camera.pan_y);
}

/// The screen coordinate lies within a viewport whose half is `center`, and
/// that half is at most 2048.
pub open spec fn within_viewport(screen: Scalar, center: Scalar) -> bool {
    &&& !is_negative(center.bits)
    &&& mag_of(center.bits) <= 0x4500_0000
    &&& is_finite(screen.bits)
    &&& 0 <= value_of(screen.bits) <= 2 * value_of(center.bits)
}

/// The pan point lies within 2048 pixels of the world's origin: the product
/// of pan and zoom is within 2048 of zero.
pub open spec fn pan_in_range(pan: Scalar, zoom: Scalar) -> bool {
    is_finite(pan.bits) && abs_int(value_of(pan.bits)) * value_of(zoom.bits) <= pow2(309)
}

/// Within a viewport up to 4096 pixels wide, with the pan point within 2048
/// pixels of the world's origin, the load is within 16384.
pub proof fn lemma_load_in_viewport(screen: Scalar, viewport: Scalar, zoom: Scalar, pan: Scalar)
    requires
        within_viewport(screen, viewport.spec_div(Scalar { bits: TWO })),
        zoom_in_range(zoom),
        pan_in_range(pan, zoom),
    ensures
        round_trip_load(screen, viewport.spec_div(Scalar { bits: TWO }), zoom, pan) <= pow2(312),
        is_finite(viewport.spec_div(Scalar { bits: TWO }).bits),
{
    let center = viewport.spec_div(Scalar { bits: TWO });
    let s = value_of(screen.bits);
    let c = value_of(center.bits);
    let unit = pow2(149) as int;
    let pz = abs_int(value_of(pan.bits)) * value_of(zoom.bits);
    lemma_value_within_2048(center.bits);
    assert(pow2(160) == 0x800 * unit && pow2(309) == 0x800 * (unit * unit) && pow2(312) == 0x4000
        * (unit * unit) && unit > 0) by {
        lemma2_to64();
        lemma_pow2_pos(149);
        lemma_pow2_adds(149, 149);
        lemma_pow2_adds(11, 149);
        lemma_pow2_adds(11, 298);
        lemma_pow2_adds(14, 298);
    }
    assert(abs_int(s - c) <= 0x800 * unit && abs_int(s) <= 0x1000 * unit);
    assert(5 * abs_int(s - c) * unit + abs_int(s) * unit <= 0x3800 * (unit * unit))
        by (nonlinear_arith)
        requires
            0 <= abs_int(s - c) <= 0x800 * unit,
            0 <= abs_int(s) <= 0x1000 * unit,
            unit > 0,
    ;
}

/// With a zoom between `2^-10` and `2^10`, a viewport up to 4096 pixels wide
/// and high, a screen point within the viewport, and the pan point within
/// 2048 pixels of the world's origin, the way from the screen to the world
/// and back ends less than a thousandth from where it began.
pub proof fn lemma_round_trip_in_viewport(camera: Camera, screen_x: Scalar, screen_y: Scalar)
    requires
        zoom_in_range(camera.zoom),
        within_viewport(screen_x, camera.viewport_w.spec_div(Scalar { bits: TWO })),
        within_viewport(screen_y, camera.viewport_h.spec_div(Scalar { bits: TWO })),
        pan_in_range(camera.pan_x, camera.zoom),
        pan_in_range(camera.pan_y, camera.zoom),
    ensures
        ({
            let world = camera.to_world(screen_x, screen_y);
            let back = camera.to_screen(world.0, world.1);
            &&& 1000 * distance(value_of(back.0.bits), value_of(screen_x.bits)) < pow2(149)
            &&& 1000 * distance(value_of(back.1.bits), value_of(screen_y.bits)) < pow2(149)
        }),
{
    lemma_load_in_viewport(screen_x, camera.viewport_w, camera.zoom, camera.pan_x);
    lemma_load_in_viewport(screen_y, camera.viewport_h, camera.zoom, camera.pan_y);
    lemma_round_trip(camera, screen_x, screen_y);
}

} // verus!
