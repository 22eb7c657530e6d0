use crate::anchor::Anchor;
use crate::geometry::{floor_div, in_range, lemma_div_within, lemma_product_within, Point, COORD_MAX};
use vstd::arithmetic::div_mod::{lemma_div_multiples_vanish, lemma_fundamental_div_mod_converse};
use vstd::prelude::*;

verus! {

/// Largest number of steps into which the curve parameter range may be divided.
pub const MAX_STEPS: u64 = 65536;

/// Number of samples per segment, less one, used to draw a curve.
pub const DEFAULT_SAMPLES: u64 = 100;

/// `n³` times the cubic Bernstein combination of `c0..c3` at parameter `t = k / n`.
pub open spec fn bernstein_sum(c0: int, c1: int, c2: int, c3: int, k: int, n: int) -> int {
    let u = n - k;
    u * u * u * c0 + 3 * u * u * k * c1 + 3 * u * k * k * c2 + k * k * k * c3
}

/// One coordinate of the cubic Bézier curve at `t = k / n`, rounded down.
pub open spec fn cubic_coord(c0: int, c1: int, c2: int, c3: int, k: int, n: int) -> int {
    bernstein_sum(c0, c1, c2, c3, k, n) / (n * n * n)
}

/// The cubic Bézier curve with control points `p0..p3` at `t = k / n`.
pub open spec fn cubic_point(p0: Point, p1: Point, p2: Point, p3: Point, k: int, n: int) -> Point {
    Point {
        x: cubic_coord(p0.x as int, p1.x as int, p2.x as int, p3.x as int, k, n) as i64,
        y: cubic_coord(p0.y as int, p1.y as int, p2.y as int, p3.y as int, k, n) as i64,
    }
}

/// Sample `s` of `samples` steps along the segment from anchor `a` to anchor `b`.
pub open spec fn segment_sample(a: Anchor, b: Anchor, s: int, samples: int) -> Point {
    cubic_point(a.pos, a.handle_out, b.handle_in, b.pos, s, samples)
}

/// Every segment sampled at `samples + 1` evenly spaced parameters, segments in order.
pub open spec fn flattened(anchors: Seq<Anchor>, samples: nat) -> Seq<Point> {
    let m: int = samples as int + 1;
    let len = if anchors.len() >= 2 {
        ((anchors.len() - 1) * m) as nat
    } else {
        0
    };
    Seq::new(len, |j: int| segment_sample(anchors[j / m], anchors[j / m + 1], j % m, samples as int))
}

fn cubic_coord_exec(c0: i64, c1: i64, c2: i64, c3: i64, k: u64, n: u64) -> (r: i64)
    requires
        in_range(c0 as int),
        in_range(c1 as int),
        in_range(c2 as int),
        in_range(c3 as int),
        0 < n <= MAX_STEPS,
        k <= n,
    ensures
        r as int == cubic_coord(c0 as int, c1 as int, c2 as int, c3 as int, k as int, n as int),
        in_range(r as int),
{
    let ni: i128 = n as i128;
    let ki: i128 = k as i128;
    let u: i128 = ni - ki;
    proof {
        assert(0 <= u * u <= 65536 * 65536 && 0 <= ki * ki <= 65536 * 65536) by (nonlinear_arith)
            requires
                0 <= u <= 65536,
                0 <= ki <= 65536,
        ;
    }
    let uu: i128 = u * u;
    let kk: i128 = ki * ki;
    proof {
        assert(0 <= uu * u && 0 <= uu * ki && 0 <= u * kk && 0 <= kk * ki) by (nonlinear_arith)
            requires
                0 <= u,
                0 <= ki,
                0 <= uu,
                0 <= kk,
        ;
        assert(uu * u + 3 * (uu * ki) + 3 * (u * kk) + kk * ki == ni * ni * ni) by (nonlinear_arith)
            requires
                u == ni - ki,
                uu == u * u,
                kk == ki * ki,
        ;
        assert(ni * ni * ni <= 65536 * 65536 * 65536) by (nonlinear_arith)
            requires
                0 < ni <= 65536,
        ;
        assert(0 < ni * ni * ni) by (nonlinear_arith)
            requires
                0 < ni,
        ;
    }
    let w0: i128 = uu * u;
    let w1: i128 = 3 * (uu * ki);
    let w2: i128 = 3 * (u * kk);
    let w3: i128 = kk * ki;
    proof {
        assert(0 < ni * ni <= 65536 * 65536) by (nonlinear_arith)
            requires
                0 < ni <= 65536,
        ;
    }
    let d: i128 = ni * ni * ni;
    let ghost m: int = COORD_MAX as int;
    proof {
        lemma_product_within(w0 as int, w0 as int, c0 as int, m);
        lemma_product_within(w1 as int, w1 as int, c1 as int, m);
        lemma_product_within(w2 as int, w2 as int, c2 as int, m);
        lemma_product_within(w3 as int, w3 as int, c3 as int, m);
        assert(w0 * m + w1 * m + w2 * m + w3 * m == d * m) by (nonlinear_arith)
            requires
                w0 + w1 + w2 + w3 == d,
        ;
        assert(d * m <= 65536 * 65536 * 65536 * m) by (nonlinear_arith)
            requires
                0 < d <= 65536 * 65536 * 65536,
                m > 0,
        ;
    }
    proof {
        assert(bernstein_sum(c0 as int, c1 as int, c2 as int, c3 as int, k as int, n as int) == w0
            * c0 + w1 * c1 + w2 * c2 + w3 * c3) by (nonlinear_arith)
            requires
                u == n - k,
                ki == k,
                uu == u * u,
                kk == ki * ki,
                w0 == uu * u,
                w1 == 3 * (uu * ki),
                w2 == 3 * (u * kk),
                w3 == kk * ki,
        ;
    }
    let num: i128 = w0 * (c0 as i128) + w1 * (c1 as i128) + w2 * (c2 as i128) + w3 * (c3 as i128);
    proof {
        assert(-(m * d) <= num <= m * d);
        lemma_div_within(num as int, m, d as int);
    }
    floor_div(num, d) as i64
}

/// The cubic Bézier curve with control points `p0..p3` at parameter `t = k / n`.
pub fn cubic_bezier(p0: Point, p1: Point, p2: Point, p3: Point, k: u64, n: u64) -> (r: Point)
    requires
        p0.in_bounds(),
        p1.in_bounds(),
        p2.in_bounds(),
        p3.in_bounds(),
        0 < n <= MAX_STEPS,
        k <= n,
    ensures
        r == cubic_point(p0, p1, p2, p3, k as int, n as int),
        r.in_bounds(),
{
    let x: i64 = cubic_coord_exec(p0.x, p1.x, p2.x, p3.x, k, n);
    let y: i64 = cubic_coord_exec(p0.y, p1.y, p2.y, p3.y, k, n);
    Point { x, y }
}

/// The curve through `anchors` as a polyline: each segment sampled at `samples + 1`
/// evenly spaced parameters from its start anchor to its end anchor.
pub fn flatten(anchors: &Vec<Anchor>, samples: u64) -> (r: Vec<Point>)
    requires
        forall|i: int| 0 <= i < anchors@.len() ==> (#[trigger] anchors@[i]).in_bounds(),
        0 < samples <= MAX_STEPS,
    ensures
        r@ == flattened(anchors@, samples as nat),
{
    let mut r: Vec<Point> = Vec::new();
    let ghost m: int = samples + 1;
    if anchors.len() < 2 {
        assert(r@ =~= flattened(anchors@, samples as nat));
        return r;
    }
    let mut i: usize = 0;
    while i < anchors.len() - 1
        invariant
            forall|i: int| 0 <= i < anchors@.len() ==> (#[trigger] anchors@[i]).in_bounds(),
            0 < samples <= MAX_STEPS,
            m == samples + 1,
            anchors@.len() >= 2,
            i + 1 <= anchors@.len(),
            r@.len() == i * m,
            forall|j: int|
                0 <= j < r@.len() ==> #[trigger] r@[j] == segment_sample(
                    anchors@[j / m],
                    anchors@[j / m + 1],
                    j % m,
                    samples as int,
                ),
        decreases anchors@.len() - i,
    {
        let a = anchors[i];
        let b = anchors[i + 1];
        let mut s: u64 = 0;
        while s <= samples
            invariant
                forall|i: int| 0 <= i < anchors@.len() ==> (#[trigger] anchors@[i]).in_bounds(),
                0 < samples <= MAX_STEPS,
                m == samples + 1,
                i + 1 < anchors@.len(),
                a == anchors@[i as int],
                b == anchors@[i + 1],
                s <= samples + 1,
                r@.len() == i * m + s,
                forall|j: int|
                    0 <= j < r@.len() ==> #[trigger] r@[j] == segment_sample(
                        anchors@[j / m],
                        anchors@[j / m + 1],
                        j % m,
                        samples as int,
                    ),
            decreases samples + 1 - s,
        {
            let p = cubic_bezier(a.pos, a.handle_out, b.handle_in, b.pos, s, samples);
            proof {
                lemma_fundamental_div_mod_converse(i * m + s, m, i as int, s as int);
            }
            r.push(p);
            s = s + 1;
        }
        proof {
            assert(r@.len() == (i + 1) * m) by (nonlinear_arith)
                requires
                    r@.len() == i * m + m,
            ;
        }
        i = i + 1;
    }
    assert(r@ =~= flattened(anchors@, samples as nat));
    r
}

proof fn lemma_bernstein_ends(c0: int, c1: int, c2: int, c3: int, n: int)
    ensures
        bernstein_sum(c0, c1, c2, c3, 0, n) == (n * n * n) * c0,
        bernstein_sum(c0, c1, c2, c3, n, n) == (n * n * n) * c3,
{
    let u = n - 0;
    assert(u * u * u * c0 + 3 * u * u * 0 * c1 + 3 * u * 0 * 0 * c2 + 0 * 0 * 0 * c3 == (n * n
        * n) * c0) by (nonlinear_arith)
        requires
            u == n,
    ;
    let v = n - n;
    assert(v * v * v * c0 + 3 * v * v * n * c1 + 3 * v * n * n * c2 + n * n * n * c3 == (n * n
        * n) * c3) by (nonlinear_arith)
        requires
            v == 0,
    ;
}

/// The curve starts at its first control point and ends at its last.
pub proof fn lemma_cubic_endpoints(p0: Point, p1: Point, p2: Point, p3: Point, n: int)
    requires
        p0.in_bounds(),
        p3.in_bounds(),
        n > 0,
    ensures
        cubic_point(p0, p1, p2, p3, 0, n) == p0,
        cubic_point(p0, p1, p2, p3, n, n) == p3,
{
    let d = n * n * n;
    lemma_bernstein_ends(p0.x as int, p1.x as int, p2.x as int, p3.x as int, n);
    lemma_bernstein_ends(p0.y as int, p1.y as int, p2.y as int, p3.y as int, n);
    assert(d > 0) by (nonlinear_arith)
        requires
            n > 0,
            d == n * n * n,
    ;
    lemma_div_multiples_vanish(p0.x as int, d);
    lemma_div_multiples_vanish(p0.y as int, d);
    lemma_div_multiples_vanish(p3.x as int, d);
    lemma_div_multiples_vanish(p3.y as int, d);
}

/// A flattened curve begins at the first anchor and ends at the last one.
pub proof fn lemma_flatten_endpoints(anchors: Seq<Anchor>, samples: nat)
    requires
        anchors.len() >= 2,
        samples > 0,
        forall|i: int| 0 <= i < anchors.len() ==> (#[trigger] anchors[i]).in_bounds(),
    ensures
        flattened(anchors, samples).len() > 0,
        flattened(anchors, samples)[0] == anchors[0].pos,
        flattened(anchors, samples).last() == anchors.last().pos,
{
    let m: int = samples as int + 1;
    let f = flattened(anchors, samples);
    let last = (anchors.len() - 1) * m - 1;
    assert((anchors.len() - 1) * m == (anchors.len() - 2) * m + m) by (nonlinear_arith);
    assert((anchors.len() - 2) * m >= 0) by (nonlinear_arith)
        requires
            anchors.len() >= 2,
            m > 0,
    ;
    lemma_fundamental_div_mod_converse(0, m, 0, 0);
    lemma_fundamental_div_mod_converse(last, m, anchors.len() - 2, samples as int);
    let a = anchors[0];
    let b = anchors[1];
    lemma_cubic_endpoints(a.pos, a.handle_out, b.handle_in, b.pos, samples as int);
    let y = anchors[anchors.len() - 2];
    let z = anchors[anchors.len() - 1];
    lemma_cubic_endpoints(y.pos, y.handle_out, z.handle_in, z.pos, samples as int);
}

} // verus!
