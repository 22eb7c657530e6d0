use vstd::arithmetic::div_mod::{lemma_fundamental_div_mod, lemma_fundamental_div_mod_converse};
use vstd::prelude::*;

verus! {

/// Largest absolute value of a canvas coordinate that the geometry accepts.
pub const COORD_MAX: i64 = 16777216;

/// A point, or a displacement, in canvas coordinates.
#[derive(Clone, Copy, Debug, PartialEq, Eq, Structural)]
pub struct Point {
    pub x: i64,
    pub y: i64,
}

pub open spec fn in_range(v: int) -> bool {
    -COORD_MAX <= v <= COORD_MAX
}

impl Point {
    pub open spec fn in_bounds(self) -> bool {
        in_range(self.x as int) && in_range(self.y as int)
    }

    pub fn new(x: i64, y: i64) -> (r: Point)
        ensures
            r.x == x,
            r.y == y,
    {
        Point { x, y }
    }

    /// Whether both coordinates lie within the accepted range.
    pub fn fits(&self) -> (r: bool)
        ensures
            r == self.in_bounds(),
    {
        -COORD_MAX <= self.x && self.x <= COORD_MAX && -COORD_MAX <= self.y && self.y <= COORD_MAX
    }
}

/// Squared euclidean distance between two points.
pub open spec fn dist_sq(a: Point, b: Point) -> int {
    (a.x - b.x) * (a.x - b.x) + (a.y - b.y) * (a.y - b.y)
}

/// `p` lies strictly closer than `radius` to `c`.
pub open spec fn within(c: Point, p: Point, radius: u64) -> bool {
    dist_sq(c, p) < radius * radius
}

/// Whether `p` lies strictly closer than `radius` to `c`.
pub fn is_within(c: Point, p: Point, radius: u64) -> (r: bool)
    requires
        c.in_bounds(),
        p.in_bounds(),
    ensures
        r == within(c, p, radius),
{
    let dx: i128 = (c.x as i128) - (p.x as i128);
    let dy: i128 = (c.y as i128) - (p.y as i128);
    proof {
        assert(0 <= dx * dx <= 0x4_0000_0000_0000_0000) by (nonlinear_arith)
            requires
                -0x2_0000_0000 <= dx <= 0x2_0000_0000,
        ;
        assert(0 <= dy * dy <= 0x4_0000_0000_0000_0000) by (nonlinear_arith)
            requires
                -0x2_0000_0000 <= dy <= 0x2_0000_0000,
        ;
        assert((radius as int) * (radius as int) <= 0xffff_ffff_ffff_ffff * 0xffff_ffff_ffff_ffff)
            by (nonlinear_arith)
            requires
                0 <= radius <= 0xffff_ffff_ffff_ffff,
        ;
    }
    let d2: u128 = (dx * dx + dy * dy) as u128;
    let r2: u128 = (radius as u128) * (radius as u128);
    d2 < r2
}

pub open spec fn is_floor_sqrt(n: int, r: int) -> bool {
    0 <= r && r * r <= n && n < (r + 1) * (r + 1)
}

/// The integer square root of `n`, rounded down.
pub open spec fn floor_sqrt(n: int) -> int {
    choose|r: int| is_floor_sqrt(n, r)
}

/// Every natural number has an integer square root.
pub proof fn lemma_floor_sqrt_exists(n: int)
    requires
        n >= 0,
    ensures
        is_floor_sqrt(n, floor_sqrt(n)),
    decreases n,
{
    if n == 0 {
        assert(is_floor_sqrt(0, 0));
    } else {
        lemma_floor_sqrt_exists(n - 1);
        let r = floor_sqrt(n - 1);
        if (r + 1) * (r + 1) <= n {
            assert(n < (r + 2) * (r + 2)) by (nonlinear_arith)
                requires
                    n - 1 < (r + 1) * (r + 1),
                    r >= 0,
            ;
            assert(is_floor_sqrt(n, r + 1));
        } else {
            assert(is_floor_sqrt(n, r));
        }
    }
}

pub proof fn lemma_floor_sqrt_unique(n: int, r: int)
    requires
        is_floor_sqrt(n, r),
    ensures
        floor_sqrt(n) == r,
{
    let s = floor_sqrt(n);
    assert(is_floor_sqrt(n, s));
    if s < r {
        assert((s + 1) * (s + 1) <= r * r) by (nonlinear_arith)
            requires
                0 <= s,
                s + 1 <= r,
        ;
    } else if r < s {
        assert((r + 1) * (r + 1) <= s * s) by (nonlinear_arith)
            requires
                0 <= r,
                r + 1 <= s,
        ;
    }
}

/// Each coordinate of a vector is at most its rounded-down length in absolute value.
pub proof fn lemma_component_le_sqrt(a: int, b: int, r: int)
    requires
        is_floor_sqrt(a * a + b * b, r),
    ensures
        -r <= a <= r,
{
    assert(b * b >= 0) by (nonlinear_arith);
    if a > r {
        assert(a * a >= (r + 1) * (r + 1)) by (nonlinear_arith)
            requires
                a >= r + 1,
                r >= 0,
        ;
    } else if a < -r {
        assert(a * a >= (r + 1) * (r + 1)) by (nonlinear_arith)
            requires
                -a >= r + 1,
                r >= 0,
        ;
    }
}

/// Dividing by a positive `d` keeps a value bounded by `a * d` within `a`.
pub proof fn lemma_div_within(n: int, a: int, d: int)
    requires
        d > 0,
        a >= 0,
        -(a * d) <= n <= a * d,
    ensures
        -a <= n / d <= a,
{
    lemma_fundamental_div_mod(n, d);
    let q = n / d;
    let r = n % d;
    assert(-a <= q <= a) by (nonlinear_arith)
        requires
            n == d * q + r,
            0 <= r < d,
            -(a * d) <= n <= a * d,
            d > 0,
            a >= 0,
    ;
}

pub proof fn lemma_product_within(x: int, a: int, y: int, b: int)
    requires
        -a <= x <= a,
        -b <= y <= b,
    ensures
        -(a * b) <= x * y <= a * b,
{
    assert(-(a * b) <= x * y <= a * b) by (nonlinear_arith)
        requires
            -a <= x <= a,
            -b <= y <= b,
    ;
}

/// Integer square root, rounded down.
pub fn isqrt(n: u128) -> (r: u64)
    requires
        n < 0x4000_0000_0000_0000_0000_0000_0000_0000,
    ensures
        is_floor_sqrt(n as int, r as int),
        r as int == floor_sqrt(n as int),
        r < 0x8000_0000_0000_0000,
{
    let mut lo: u128 = 0;
    let mut hi: u128 = 0x8000_0000_0000_0000;
    assert(n < 0x8000_0000_0000_0000 * 0x8000_0000_0000_0000);
    while hi - lo > 1
        invariant
            lo < hi <= 0x8000_0000_0000_0000,
            lo * lo <= n,
            n < hi * hi,
        decreases hi - lo,
    {
        let mid: u128 = lo + (hi - lo) / 2;
        assert(mid * mid < 0x8000_0000_0000_0000 * 0x8000_0000_0000_0000) by (nonlinear_arith)
            requires
                mid < 0x8000_0000_0000_0000,
        ;
        if mid * mid <= n {
            lo = mid;
        } else {
            hi = mid;
        }
    }
    proof {
        lemma_floor_sqrt_unique(n as int, lo as int);
    }
    lo as u64
}

/// `n / d` rounded toward negative infinity, for a positive divisor.
pub fn floor_div(n: i128, d: i128) -> (q: i128)
    requires
        d > 0,
        -0x1_0000_0000_0000_0000_0000_0000 < n < 0x1_0000_0000_0000_0000_0000_0000,
    ensures
        q == n / d,
{
    if n >= 0 {
        let q: i128 = ((n as u128) / (d as u128)) as i128;
        proof {
            let u: int = (n as u128) as int / (d as u128) as int;
            assert(0 <= u <= n) by (nonlinear_arith)
                requires
                    u == (n as int) / (d as int),
                    n >= 0,
                    d >= 1,
            ;
        }
        q
    } else {
        let m: u128 = (-n) as u128;
        let c: u128 = (m + (d as u128) - 1) / (d as u128);
        proof {
            let t: int = m + d - 1;
            lemma_fundamental_div_mod(t, d as int);
            let s: int = t % (d as int);
            assert(c as int == t / (d as int));
            assert(t == (d as int) * (c as int) + s);
            assert(n as int == (-c) * (d as int) + (d - 1 - s)) by (nonlinear_arith)
                requires
                    t == (d as int) * (c as int) + s,
                    t == -n + d - 1,
            ;
            assert((d as int) * (c as int) <= t) by (nonlinear_arith)
                requires
                    t == (d as int) * (c as int) + s,
                    s >= 0,
            ;
            assert(c <= m) by (nonlinear_arith)
                requires
                    (d as int) * (c as int) <= m + d - 1,
                    d >= 1,
                    m >= 0,
            ;
            lemma_fundamental_div_mod_converse(n as int, d as int, -c, d - 1 - s);
        }
        -(c as i128)
    }
}

} // verus!
