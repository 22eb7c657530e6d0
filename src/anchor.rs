use crate::geometry::{
    floor_div, floor_sqrt, is_floor_sqrt, isqrt, lemma_component_le_sqrt, lemma_div_within,
    lemma_floor_sqrt_exists, lemma_product_within, Point, COORD_MAX,
};
use vstd::arithmetic::div_mod::lemma_fundamental_div_mod;
use vstd::prelude::*;

verus! {

/// Distance of each handle from its anchor in a freshly made smooth anchor.
pub const DEFAULT_HANDLE_OFFSET: i64 = 30;

/// A point of a curve with its two control handles.
#[derive(Clone, Copy, Debug, PartialEq, Eq, Structural)]
pub struct Anchor {
    pub pos: Point,
    pub handle_in: Point,
    pub handle_out: Point,
    /// When set, the handles are kept on one line through `pos`, on opposite sides.
    pub is_smooth: bool,
    /// Selection state; has no effect on the geometry.
    pub selected: bool,
}

/// The offsets `(ix, iy)` and `(ox, oy)` point in exactly opposite directions.
pub open spec fn is_opposite(ix: int, iy: int, ox: int, oy: int) -> bool {
    ix * oy == iy * ox && ix * ox + iy * oy < 0
}

/// Integer length, rounded down, of the offset `(x, y)`.
pub open spec fn length_of(x: int, y: int) -> int {
    floor_sqrt(x * x + y * y)
}

/// Direction of the shared axis: `u_in - u_out` for the unit directions of the two handles,
/// scaled by the product of their lengths. Where that vanishes (the handles point the same
/// way) the incoming handle's direction is kept.
pub open spec fn smooth_axis(ix: int, iy: int, ox: int, oy: int) -> (int, int) {
    let li = length_of(ix, iy);
    let lo = length_of(ox, oy);
    let ax = ix * lo - ox * li;
    let ay = iy * lo - oy * li;
    if ax == 0 && ay == 0 {
        (ix, iy)
    } else {
        (ax, ay)
    }
}

/// `n / d` rounded to the nearest integer, halves upward, for a positive `d`.
pub open spec fn round_div(n: int, d: int) -> int {
    (2 * n + d) / (2 * d)
}

/// Offsets (from the anchor) of the two handles after smoothing, given their offsets before:
/// `(in.x, in.y, out.x, out.y)`.
///
/// A handle that sits on the anchor takes the reflection of the other one. Handles that
/// already point in opposite directions stay as they are. Otherwise both are placed on the
/// normalized shared axis (`smooth_axis`), each at its former length, on opposite sides,
/// coordinates rounded to the nearest integer.
pub open spec fn smooth_offsets(ix: int, iy: int, ox: int, oy: int) -> (int, int, int, int) {
    if ix == 0 && iy == 0 {
        (-ox, -oy, ox, oy)
    } else if ox == 0 && oy == 0 {
        (ix, iy, -ix, -iy)
    } else if is_opposite(ix, iy, ox, oy) {
        (ix, iy, ox, oy)
    } else {
        let li = length_of(ix, iy);
        let lo = length_of(ox, oy);
        let a = smooth_axis(ix, iy, ox, oy);
        let la = length_of(a.0, a.1);
        (round_div(li * a.0, la), round_div(li * a.1, la), -round_div(lo * a.0, la), -round_div(
            lo * a.1,
            la,
        ))
    }
}

pub open spec fn offset_point(p: Point, dx: int, dy: int) -> Point {
    Point { x: (p.x + dx) as i64, y: (p.y + dy) as i64 }
}

/// The anchor after its handles have been brought into the smooth arrangement.
pub open spec fn smoothed(a: Anchor) -> Anchor {
    let o = smooth_offsets(
        a.handle_in.x - a.pos.x,
        a.handle_in.y - a.pos.y,
        a.handle_out.x - a.pos.x,
        a.handle_out.y - a.pos.y,
    );
    Anchor {
        handle_in: offset_point(a.pos, o.0, o.1),
        handle_out: offset_point(a.pos, o.2, o.3),
        ..a
    }
}

/// The anchor with its point and both handles moved by `d`.
pub open spec fn translated(a: Anchor, d: Point) -> Anchor {
    Anchor {
        pos: offset_point(a.pos, d.x as int, d.y as int),
        handle_in: offset_point(a.handle_in, d.x as int, d.y as int),
        handle_out: offset_point(a.handle_out, d.x as int, d.y as int),
        ..a
    }
}

/// `handle_out` is the exact reflection of `handle_in` through `pos`.
pub open spec fn is_mirrored(a: Anchor) -> bool {
    a.handle_out.x - a.pos.x == -(a.handle_in.x - a.pos.x) && a.handle_out.y - a.pos.y == -(
    a.handle_in.y - a.pos.y)
}

/// Sizes of the intermediate terms of smoothing, for offsets of points in range.
proof fn lemma_smooth_terms(ix: int, iy: int, ox: int, oy: int)
    requires
        -2 * COORD_MAX <= ix <= 2 * COORD_MAX,
        -2 * COORD_MAX <= iy <= 2 * COORD_MAX,
        -2 * COORD_MAX <= ox <= 2 * COORD_MAX,
        -2 * COORD_MAX <= oy <= 2 * COORD_MAX,
        ix != 0 || iy != 0,
        ox != 0 || oy != 0,
    ensures
        ({
            let li = length_of(ix, iy);
            let lo = length_of(ox, oy);
            let a = smooth_axis(ix, iy, ox, oy);
            let la = length_of(a.0, a.1);
            &&& 0 <= ix * ix + iy * iy <= 0x8_0000_0000_0000
            &&& 0 <= ox * ox + oy * oy <= 0x8_0000_0000_0000
            &&& is_floor_sqrt(ix * ix + iy * iy, li)
            &&& is_floor_sqrt(ox * ox + oy * oy, lo)
            &&& 1 <= li <= 0x400_0000
            &&& 1 <= lo <= 0x400_0000
            &&& -0x40_0000_0000_0000 <= ix * lo - ox * li <= 0x40_0000_0000_0000
            &&& -0x40_0000_0000_0000 <= iy * lo - oy * li <= 0x40_0000_0000_0000
            &&& 1 <= a.0 * a.0 + a.1 * a.1 <= 0x2000_0000_0000_0000_0000_0000_0000
            &&& is_floor_sqrt(a.0 * a.0 + a.1 * a.1, la)
            &&& 1 <= la <= 0x80_0000_0000_0000
            &&& -la <= a.0 <= la
            &&& -la <= a.1 <= la
            &&& -(li + 1) <= round_div(li * a.0, la) <= li + 1
            &&& -(li + 1) <= round_div(li * a.1, la) <= li + 1
            &&& -(lo + 1) <= round_div(lo * a.0, la) <= lo + 1
            &&& -(lo + 1) <= round_div(lo * a.1, la) <= lo + 1
        }),
{
    let si = ix * ix + iy * iy;
    let so = ox * ox + oy * oy;
    assert(1 <= si <= 0x8_0000_0000_0000) by (nonlinear_arith)
        requires
            ix != 0 || iy != 0,
            -0x200_0000 <= ix <= 0x200_0000,
            -0x200_0000 <= iy <= 0x200_0000,
            si == ix * ix + iy * iy,
    ;
    assert(1 <= so <= 0x8_0000_0000_0000) by (nonlinear_arith)
        requires
            ox != 0 || oy != 0,
            -0x200_0000 <= ox <= 0x200_0000,
            -0x200_0000 <= oy <= 0x200_0000,
            so == ox * ox + oy * oy,
    ;
    lemma_floor_sqrt_exists(si);
    lemma_floor_sqrt_exists(so);
    let li = length_of(ix, iy);
    let lo = length_of(ox, oy);
    assert(1 <= li <= 0x400_0000) by (nonlinear_arith)
        requires
            1 <= si <= 0x8_0000_0000_0000,
            li >= 0,
            li * li <= si,
            si < (li + 1) * (li + 1),
    ;
    assert(1 <= lo <= 0x400_0000) by (nonlinear_arith)
        requires
            1 <= so <= 0x8_0000_0000_0000,
            lo >= 0,
            lo * lo <= so,
            so < (lo + 1) * (lo + 1),
    ;
    lemma_component_le_sqrt(ix, iy, li);
    lemma_component_le_sqrt(iy, ix, li);
    lemma_component_le_sqrt(ox, oy, lo);
    lemma_component_le_sqrt(oy, ox, lo);
    lemma_product_within(ix, li, lo, lo);
    lemma_product_within(iy, li, lo, lo);
    lemma_product_within(ox, lo, li, li);
    lemma_product_within(oy, lo, li, li);
    assert(li * lo <= 0x400_0000 * 0x400_0000) by (nonlinear_arith)
        requires
            1 <= li <= 0x400_0000,
            1 <= lo <= 0x400_0000,
    ;
    let a = smooth_axis(ix, iy, ox, oy);
    assert(-0x40_0000_0000_0000 <= a.0 <= 0x40_0000_0000_0000);
    assert(-0x40_0000_0000_0000 <= a.1 <= 0x40_0000_0000_0000);
    let (x, y) = (a.0, a.1);
    assert(x != 0 || y != 0);
    let sa = x * x + y * y;
    lemma_product_within(x, 0x40_0000_0000_0000, x, 0x40_0000_0000_0000);
    lemma_product_within(y, 0x40_0000_0000_0000, y, 0x40_0000_0000_0000);
    assert(x * x >= 0 && y * y >= 0) by (nonlinear_arith);
    assert(x * x + y * y >= 1) by (nonlinear_arith)
        requires
            x != 0 || y != 0,
    ;
    assert(x * x <= 0x1000_0000_0000_0000_0000_0000_0000);
    assert(y * y <= 0x1000_0000_0000_0000_0000_0000_0000);
    assert(1 <= sa <= 0x2000_0000_0000_0000_0000_0000_0000);
    lemma_floor_sqrt_exists(sa);
    let la = length_of(a.0, a.1);
    assert(1 <= la <= 0x80_0000_0000_0000) by (nonlinear_arith)
        requires
            1 <= sa <= 0x2000_0000_0000_0000_0000_0000_0000,
            la >= 0,
            la * la <= sa,
            sa < (la + 1) * (la + 1),
    ;
    lemma_component_le_sqrt(a.0, a.1, la);
    lemma_component_le_sqrt(a.1, a.0, la);
    lemma_round_div_within(li, a.0, la);
    lemma_round_div_within(li, a.1, la);
    lemma_round_div_within(lo, a.0, la);
    lemma_round_div_within(lo, a.1, la);
}

proof fn lemma_round_div_within(l: int, c: int, la: int)
    requires
        l >= 0,
        la >= 1,
        -la <= c <= la,
    ensures
        -(l + 1) <= round_div(l * c, la) <= l + 1,
{
    let n = 2 * (l * c) + la;
    assert(-((l + 1) * (2 * la)) <= n <= (l + 1) * (2 * la)) by (nonlinear_arith)
        requires
            l >= 0,
            la >= 1,
            -la <= c <= la,
            n == 2 * (l * c) + la,
    ;
    lemma_div_within(n, l + 1, 2 * la);
}

impl Anchor {
    pub open spec fn in_bounds(self) -> bool {
        self.pos.in_bounds() && self.handle_in.in_bounds() && self.handle_out.in_bounds()
    }

    /// Whether the anchor and both handles lie within the coordinate range.
    pub fn fits(&self) -> (r: bool)
        ensures
            r == self.in_bounds(),
    {
        self.pos.fits() && self.handle_in.fits() && self.handle_out.fits()
    }

    /// A smooth anchor at `pos` with horizontal handles on either side.
    pub fn new_smooth(pos: Point) -> (r: Anchor)
        requires
            pos.in_bounds(),
        ensures
            r.pos == pos,
            r.handle_in == offset_point(pos, -DEFAULT_HANDLE_OFFSET, 0),
            r.handle_out == offset_point(pos, DEFAULT_HANDLE_OFFSET as int, 0),
            r.is_smooth,
            !r.selected,
    {
        Anchor {
            pos,
            handle_in: Point { x: pos.x - DEFAULT_HANDLE_OFFSET, y: pos.y },
            handle_out: Point { x: pos.x + DEFAULT_HANDLE_OFFSET, y: pos.y },
            is_smooth: true,
            selected: false,
        }
    }

    /// An anchor with the given handles, not smooth until `set_smooth(true)`.
    pub fn with_handles(pos: Point, handle_in: Point, handle_out: Point) -> (r: Anchor)
        ensures
            r.pos == pos,
            r.handle_in == handle_in,
            r.handle_out == handle_out,
            !r.is_smooth,
            !r.selected,
    {
        Anchor { pos, handle_in, handle_out, is_smooth: false, selected: false }
    }

    /// Brings the handles into the smooth arrangement described by `smoothed`.
    pub fn enforce_smooth(&mut self)
        requires
            old(self).in_bounds(),
        ensures
            *final(self) == smoothed(*old(self)),
    {
        let ix: i64 = self.handle_in.x - self.pos.x;
        let iy: i64 = self.handle_in.y - self.pos.y;
        let ox: i64 = self.handle_out.x - self.pos.x;
        let oy: i64 = self.handle_out.y - self.pos.y;
        if ix == 0 && iy == 0 {
            self.handle_in = Point { x: self.pos.x - ox, y: self.pos.y - oy };
        } else if ox == 0 && oy == 0 {
            self.handle_out = Point { x: self.pos.x - ix, y: self.pos.y - iy };
        } else {
            proof {
                lemma_smooth_terms(ix as int, iy as int, ox as int, oy as int);
                lemma_product_within(ix as int, 0x200_0000, oy as int, 0x200_0000);
                lemma_product_within(iy as int, 0x200_0000, ox as int, 0x200_0000);
                lemma_product_within(ix as int, 0x200_0000, ox as int, 0x200_0000);
                lemma_product_within(iy as int, 0x200_0000, oy as int, 0x200_0000);
                lemma_product_within(ix as int, 0x200_0000, ix as int, 0x200_0000);
                lemma_product_within(iy as int, 0x200_0000, iy as int, 0x200_0000);
                lemma_product_within(ox as int, 0x200_0000, ox as int, 0x200_0000);
                lemma_product_within(oy as int, 0x200_0000, oy as int, 0x200_0000);
            }
            if ix * oy == iy * ox && ix * ox + iy * oy < 0 {
                return;
            }
            let (wx, wy, vx, vy) = (ix as i128, iy as i128, ox as i128, oy as i128);
            let li: u64 = isqrt((wx * wx + wy * wy) as u128);
            let lo: u64 = isqrt((vx * vx + vy * vy) as u128);
            let (li, lo) = (li as i128, lo as i128);
            proof {
                lemma_product_within(ix as int, 0x200_0000, lo as int, 0x400_0000);
                lemma_product_within(iy as int, 0x200_0000, lo as int, 0x400_0000);
                lemma_product_within(ox as int, 0x200_0000, li as int, 0x400_0000);
                lemma_product_within(oy as int, 0x200_0000, li as int, 0x400_0000);
            }
            let mut ax: i128 = wx * lo - vx * li;
            let mut ay: i128 = wy * lo - vy * li;
            if ax == 0 && ay == 0 {
                ax = wx;
                ay = wy;
            }
            proof {
                lemma_product_within(ax as int, 0x40_0000_0000_0000, ax as int, 0x40_0000_0000_0000);
                lemma_product_within(ay as int, 0x40_0000_0000_0000, ay as int, 0x40_0000_0000_0000);
                assert(ax * ax >= 0 && ay * ay >= 0) by (nonlinear_arith);
            }
            let la: u64 = isqrt((ax * ax + ay * ay) as u128);
            let la: i128 = la as i128;
            proof {
                assert(-0x80_0000_0000_0000_0000_0000 <= li * ax <= 0x80_0000_0000_0000_0000_0000)
                    by (nonlinear_arith)
                    requires
                        1 <= li <= 0x400_0000,
                        -0x40_0000_0000_0000 <= ax <= 0x40_0000_0000_0000,
                ;
                assert(-0x80_0000_0000_0000_0000_0000 <= li * ay <= 0x80_0000_0000_0000_0000_0000)
                    by (nonlinear_arith)
                    requires
                        1 <= li <= 0x400_0000,
                        -0x40_0000_0000_0000 <= ay <= 0x40_0000_0000_0000,
                ;
                assert(-0x80_0000_0000_0000_0000_0000 <= lo * ax <= 0x80_0000_0000_0000_0000_0000)
                    by (nonlinear_arith)
                    requires
                        1 <= lo <= 0x400_0000,
                        -0x40_0000_0000_0000 <= ax <= 0x40_0000_0000_0000,
                ;
                assert(-0x80_0000_0000_0000_0000_0000 <= lo * ay <= 0x80_0000_0000_0000_0000_0000)
                    by (nonlinear_arith)
                    requires
                        1 <= lo <= 0x400_0000,
                        -0x40_0000_0000_0000 <= ay <= 0x40_0000_0000_0000,
                ;
            }
            let qix: i128 = floor_div(2 * (li * ax) + la, 2 * la);
            let qiy: i128 = floor_div(2 * (li * ay) + la, 2 * la);
            let qox: i128 = floor_div(2 * (lo * ax) + la, 2 * la);
            let qoy: i128 = floor_div(2 * (lo * ay) + la, 2 * la);
            self.handle_in = Point {
                x: ((self.pos.x as i128) + qix) as i64,
                y: ((self.pos.y as i128) + qiy) as i64,
            };
            self.handle_out = Point {
                x: ((self.pos.x as i128) - qox) as i64,
                y: ((self.pos.y as i128) - qoy) as i64,
            };
        }
    }

    /// Moves the anchor and both handles by `delta`, keeping their relative placement.
    pub fn translate(&mut self, delta: Point)
        requires
            old(self).in_bounds(),
            delta.in_bounds(),
        ensures
            *final(self) == translated(*old(self), delta),
    {
        self.pos = Point { x: self.pos.x + delta.x, y: self.pos.y + delta.y };
        self.handle_in = Point { x: self.handle_in.x + delta.x, y: self.handle_in.y + delta.y };
        self.handle_out = Point { x: self.handle_out.x + delta.x, y: self.handle_out.y + delta.y };
    }

    /// Sets the smooth flag; turning it on re-arranges the handles at once.
    pub fn set_smooth(&mut self, is_smooth: bool)
        requires
            old(self).in_bounds(),
        ensures
            is_smooth ==> *final(self) == smoothed(Anchor { is_smooth: true, ..*old(self) }),
            !is_smooth ==> *final(self) == (Anchor { is_smooth: false, ..*old(self) }),
    {
        self.is_smooth = is_smooth;
        if is_smooth {
            self.enforce_smooth();
        }
    }
}

/// Handles that already point in opposite directions, or that both sit on the anchor point,
/// are left unchanged by smoothing.
pub proof fn lemma_smooth_keeps_opposite(a: Anchor)
    requires
        a.in_bounds(),
        is_opposite(
            a.handle_in.x - a.pos.x,
            a.handle_in.y - a.pos.y,
            a.handle_out.x - a.pos.x,
            a.handle_out.y - a.pos.y,
        ) || (a.handle_in == a.pos && a.handle_out == a.pos),
    ensures
        smoothed(a) == a,
{
}

/// A handle that sits on the anchor point is replaced by the reflection of the other one,
/// which stays where it is.
pub proof fn lemma_smooth_mirrors_lone_handle(a: Anchor)
    requires
        a.in_bounds(),
        a.handle_in == a.pos || a.handle_out == a.pos,
    ensures
        is_mirrored(smoothed(a)),
        a.handle_in == a.pos ==> smoothed(a).handle_out == a.handle_out,
        a.handle_out == a.pos ==> smoothed(a).handle_in == a.handle_in,
{
}

/// Smoothing handles that are both away from the anchor point and not already opposite puts
/// them on one axis through the anchor, on opposite sides, at their former lengths. With
/// `A` the axis direction and `la` its rounded length (`la <= |A| < la + 1`), each coordinate
/// of the new incoming offset lies within half a unit of `li * A / la`, and each coordinate of
/// the new outgoing offset within half a unit of `-lo * A / la`, where `li` and `lo` are the
/// rounded former lengths.
pub proof fn lemma_smooth_on_shared_axis(a: Anchor)
    requires
        a.in_bounds(),
        a.handle_in != a.pos,
        a.handle_out != a.pos,
        !is_opposite(
            a.handle_in.x - a.pos.x,
            a.handle_in.y - a.pos.y,
            a.handle_out.x - a.pos.x,
            a.handle_out.y - a.pos.y,
        ),
    ensures
        ({
            let (ix, iy) = (a.handle_in.x - a.pos.x, a.handle_in.y - a.pos.y);
            let (ox, oy) = (a.handle_out.x - a.pos.x, a.handle_out.y - a.pos.y);
            let li = length_of(ix, iy);
            let lo = length_of(ox, oy);
            let ax = smooth_axis(ix, iy, ox, oy);
            let la = length_of(ax.0, ax.1);
            let s = smoothed(a);
            let (nix, niy) = (s.handle_in.x - a.pos.x, s.handle_in.y - a.pos.y);
            let (nox, noy) = (s.handle_out.x - a.pos.x, s.handle_out.y - a.pos.y);
            &&& ax.0 != 0 || ax.1 != 0
            &&& la * la <= ax.0 * ax.0 + ax.1 * ax.1 < (la + 1) * (la + 1)
            &&& la >= 1
            &&& -la <= 2 * (la * nix - li * ax.0) <= la
            &&& -la <= 2 * (la * niy - li * ax.1) <= la
            &&& -la <= 2 * (la * nox + lo * ax.0) <= la
            &&& -la <= 2 * (la * noy + lo * ax.1) <= la
        }),
{
    let (ix, iy) = (a.handle_in.x - a.pos.x, a.handle_in.y - a.pos.y);
    let (ox, oy) = (a.handle_out.x - a.pos.x, a.handle_out.y - a.pos.y);
    lemma_smooth_terms(ix, iy, ox, oy);
    let li = length_of(ix, iy);
    let lo = length_of(ox, oy);
    let ax = smooth_axis(ix, iy, ox, oy);
    let la = length_of(ax.0, ax.1);
    assert(ix != 0 || iy != 0);
    assert(ox != 0 || oy != 0);
    assert(smooth_offsets(ix, iy, ox, oy) == (round_div(li * ax.0, la), round_div(li * ax.1, la),
        -round_div(lo * ax.0, la), -round_div(lo * ax.1, la)));
    lemma_round_div_spread(li * ax.0, la);
    lemma_round_div_spread(li * ax.1, la);
    lemma_round_div_spread(lo * ax.0, la);
    lemma_round_div_spread(lo * ax.1, la);
    let (q0, q1) = (round_div(lo * ax.0, la), round_div(lo * ax.1, la));
    assert(la * (-q0) == -(la * q0) && la * (-q1) == -(la * q1)) by (nonlinear_arith);
}

proof fn lemma_round_div_spread(n: int, d: int)
    requires
        d >= 1,
    ensures
        -d <= 2 * (d * round_div(n, d) - n) <= d,
{
    lemma_fundamental_div_mod(2 * n + d, 2 * d);
    let q = round_div(n, d);
    let r = (2 * n + d) % (2 * d);
    assert(-d <= 2 * (d * q - n) <= d) by (nonlinear_arith)
        requires
            2 * n + d == (2 * d) * q + r,
            0 <= r < 2 * d,
    ;
}

/// Moving an anchor by `d` and then by `e == -d` gives back the anchor.
pub proof fn lemma_translate_round_trip(a: Anchor, d: Point, e: Point)
    requires
        a.in_bounds(),
        d.in_bounds(),
        e.x == -d.x,
        e.y == -d.y,
    ensures
        translated(translated(a, d), e) == a,
{
}

} // verus!
