use crate::anchor::{
    is_mirrored, is_opposite, lemma_smooth_keeps_opposite, lemma_translate_round_trip, offset_point,
    smoothed, translated, Anchor,
};
use crate::geometry::{is_within, within, Point};
use vstd::prelude::*;

verus! {

/// The element of an anchor captured by a drag gesture, with the anchor's index.
#[derive(Clone, Copy, Debug, PartialEq, Eq, Structural)]
pub enum DragType {
    Anchor(usize),
    HandleIn(usize),
    HandleOut(usize),
}

impl DragType {
    pub open spec fn index_spec(self) -> usize {
        match self {
            DragType::Anchor(i) => i,
            DragType::HandleIn(i) => i,
            DragType::HandleOut(i) => i,
        }
    }

    /// Index of the anchor the target belongs to.
    pub fn index(&self) -> (r: usize)
        ensures
            r == self.index_spec(),
    {
        match self {
            DragType::Anchor(i) => *i,
            DragType::HandleIn(i) => *i,
            DragType::HandleOut(i) => *i,
        }
    }
}

/// Every anchor of `s` lies within the coordinate range.
pub open spec fn all_in_bounds(s: Seq<Anchor>) -> bool {
    forall|i: int| 0 <= i < s.len() ==> (#[trigger] s[i]).in_bounds()
}

pub open spec fn hits_in(c: Point, a: Anchor, r: u64) -> bool {
    within(c, a.handle_in, r)
}

pub open spec fn hits_out(c: Point, a: Anchor, r: u64) -> bool {
    within(c, a.handle_out, r)
}

pub open spec fn hits_pos(c: Point, a: Anchor, r: u64) -> bool {
    within(c, a.pos, r)
}

/// `res` is what a hit test at `c` with radius `r` finds among `s`: the first incoming
/// handle in range, else the first outgoing handle, else the first anchor point, else nothing.
pub open spec fn is_hit_result(c: Point, s: Seq<Anchor>, r: u64, res: Option<(DragType, usize)>) -> bool {
    match res {
        Some((DragType::HandleIn(i), j)) => {
            &&& j == i
            &&& i < s.len()
            &&& hits_in(c, s[i as int], r)
            &&& forall|k: int| 0 <= k < i ==> !hits_in(c, #[trigger] s[k], r)
        },
        Some((DragType::HandleOut(i), j)) => {
            &&& j == i
            &&& i < s.len()
            &&& hits_out(c, s[i as int], r)
            &&& forall|k: int| 0 <= k < s.len() ==> !hits_in(c, #[trigger] s[k], r)
            &&& forall|k: int| 0 <= k < i ==> !hits_out(c, #[trigger] s[k], r)
        },
        Some((DragType::Anchor(i), j)) => {
            &&& j == i
            &&& i < s.len()
            &&& hits_pos(c, s[i as int], r)
            &&& forall|k: int| 0 <= k < s.len() ==> !hits_in(c, #[trigger] s[k], r)
            &&& forall|k: int| 0 <= k < s.len() ==> !hits_out(c, #[trigger] s[k], r)
            &&& forall|k: int| 0 <= k < i ==> !hits_pos(c, #[trigger] s[k], r)
        },
        None => {
            &&& forall|k: int| 0 <= k < s.len() ==> !hits_in(c, #[trigger] s[k], r)
            &&& forall|k: int| 0 <= k < s.len() ==> !hits_out(c, #[trigger] s[k], r)
            &&& forall|k: int| 0 <= k < s.len() ==> !hits_pos(c, #[trigger] s[k], r)
        },
    }
}

/// The reflection of `h` through `p`.
pub open spec fn mirror(p: Point, h: Point) -> Point {
    Point { x: (2 * p.x - h.x) as i64, y: (2 * p.y - h.y) as i64 }
}

/// The anchor after the element `t` of it has been moved by `d`.
///
/// Moving the anchor point carries both handles along (and re-smooths a smooth anchor);
/// moving one handle of a smooth anchor sets the other to its exact reflection.
pub open spec fn dragged(a: Anchor, t: DragType, d: Point) -> Anchor {
    match t {
        DragType::Anchor(_) => {
            let m = translated(a, d);
            if a.is_smooth {
                smoothed(m)
            } else {
                m
            }
        },
        DragType::HandleIn(_) => {
            let h = offset_point(a.handle_in, d.x as int, d.y as int);
            Anchor {
                handle_in: h,
                handle_out: if a.is_smooth {
                    mirror(a.pos, h)
                } else {
                    a.handle_out
                },
                ..a
            }
        },
        DragType::HandleOut(_) => {
            let h = offset_point(a.handle_out, d.x as int, d.y as int);
            Anchor {
                handle_out: h,
                handle_in: if a.is_smooth {
                    mirror(a.pos, h)
                } else {
                    a.handle_in
                },
                ..a
            }
        },
    }
}

/// A drag stays within the coordinate range, the translated anchor included.
pub open spec fn drag_fits(a: Anchor, t: DragType, d: Point) -> bool {
    &&& (t is Anchor ==> translated(a, d).in_bounds())
    &&& dragged(a, t, d).in_bounds()
}

/// The anchor after a drag: moved, unless the move would leave the coordinate range.
pub open spec fn drag_result(a: Anchor, t: DragType, d: Point) -> Anchor {
    if drag_fits(a, t, d) {
        dragged(a, t, d)
    } else {
        a
    }
}

/// Hit test over `anchors` at `cursor`: incoming handles first, then outgoing handles, then
/// anchor points, each scanned in index order; an element is hit when it lies strictly
/// closer than `radius`.
pub fn hit_test(cursor: Point, anchors: &Vec<Anchor>, radius: u64) -> (res: Option<(DragType, usize)>)
    requires
        cursor.in_bounds(),
        all_in_bounds(anchors@),
    ensures
        is_hit_result(cursor, anchors@, radius, res),
{
    let n: usize = anchors.len();
    let mut i: usize = 0;
    while i < n
        invariant
            n == anchors@.len(),
            i <= n,
            cursor.in_bounds(),
            all_in_bounds(anchors@),
            forall|k: int| 0 <= k < i ==> !hits_in(cursor, #[trigger] anchors@[k], radius),
        decreases n - i,
    {
        if is_within(cursor, anchors[i].handle_in, radius) {
            return Some((DragType::HandleIn(i), i));
        }
        i = i + 1;
    }
    i = 0;
    while i < n
        invariant
            n == anchors@.len(),
            i <= n,
            cursor.in_bounds(),
            all_in_bounds(anchors@),
            forall|k: int| 0 <= k < n ==> !hits_in(cursor, #[trigger] anchors@[k], radius),
            forall|k: int| 0 <= k < i ==> !hits_out(cursor, #[trigger] anchors@[k], radius),
        decreases n - i,
    {
        if is_within(cursor, anchors[i].handle_out, radius) {
            return Some((DragType::HandleOut(i), i));
        }
        i = i + 1;
    }
    i = 0;
    while i < n
        invariant
            n == anchors@.len(),
            i <= n,
            cursor.in_bounds(),
            all_in_bounds(anchors@),
            forall|k: int| 0 <= k < n ==> !hits_in(cursor, #[trigger] anchors@[k], radius),
            forall|k: int| 0 <= k < n ==> !hits_out(cursor, #[trigger] anchors@[k], radius),
            forall|k: int| 0 <= k < i ==> !hits_pos(cursor, #[trigger] anchors@[k], radius),
        decreases n - i,
    {
        if is_within(cursor, anchors[i].pos, radius) {
            return Some((DragType::Anchor(i), i));
        }
        i = i + 1;
    }
    None
}

/// On an anchor that is not smooth, dragging one handle leaves the other where it was.
pub proof fn lemma_non_smooth_drag_keeps_other_handle(a: Anchor, i: usize, d: Point)
    requires
        !a.is_smooth,
    ensures
        drag_result(a, DragType::HandleIn(i), d).handle_out == a.handle_out,
        drag_result(a, DragType::HandleOut(i), d).handle_in == a.handle_in,
{
}

/// On an anchor that is not smooth, dragging one handle moves exactly that handle by the
/// delta, as long as it stays within the coordinate range.
pub proof fn lemma_non_smooth_handle_drag_moves_by_delta(a: Anchor, i: usize, d: Point)
    requires
        !a.is_smooth,
        a.in_bounds(),
        d.in_bounds(),
    ensures
        offset_point(a.handle_in, d.x as int, d.y as int).in_bounds() ==> drag_result(
            a,
            DragType::HandleIn(i),
            d,
        ) == (Anchor { handle_in: offset_point(a.handle_in, d.x as int, d.y as int), ..a }),
        offset_point(a.handle_out, d.x as int, d.y as int).in_bounds() ==> drag_result(
            a,
            DragType::HandleOut(i),
            d,
        ) == (Anchor { handle_out: offset_point(a.handle_out, d.x as int, d.y as int), ..a }),
{
}

/// The handles of `a` point in opposite directions, or both sit on the anchor point: the
/// arrangement that smoothing keeps.
pub open spec fn has_opposite_handles(a: Anchor) -> bool {
    is_opposite(
        a.handle_in.x - a.pos.x,
        a.handle_in.y - a.pos.y,
        a.handle_out.x - a.pos.x,
        a.handle_out.y - a.pos.y,
    ) || (a.handle_in == a.pos && a.handle_out == a.pos)
}

/// Dragging an anchor point carries its handles along rigidly, whether or not the anchor is
/// smooth, provided a smooth anchor's handles point in opposite directions; dragging it back
/// by the opposite delta restores the anchor.
pub proof fn lemma_anchor_drag_round_trip(a: Anchor, i: usize, d: Point, e: Point)
    requires
        a.in_bounds(),
        d.in_bounds(),
        e.x == -d.x,
        e.y == -d.y,
        a.is_smooth ==> has_opposite_handles(a),
        translated(a, d).in_bounds(),
    ensures
        drag_result(a, DragType::Anchor(i), d) == translated(a, d),
        drag_result(drag_result(a, DragType::Anchor(i), d), DragType::Anchor(i), e) == a,
{
    let m = translated(a, d);
    lemma_translate_round_trip(a, d, e);
    if a.is_smooth {
        assert(has_opposite_handles(m));
        lemma_smooth_keeps_opposite(m);
        lemma_smooth_keeps_opposite(a);
    }
}

/// On a smooth anchor, dragging one handle (within the coordinate range) leaves the other
/// handle its exact reflection through the anchor point.
pub proof fn lemma_smooth_drag_mirrors(a: Anchor, t: DragType, d: Point)
    requires
        a.in_bounds(),
        a.is_smooth,
        !(t is Anchor),
        drag_fits(a, t, d),
    ensures
        is_mirrored(drag_result(a, t, d)),
{
}

/// Handles come first: when some incoming handle is in range, the hit test returns an
/// incoming handle, at an index no greater than that one, whatever anchor points are
/// also in range.
pub proof fn lemma_handle_hit_first(
    c: Point,
    s: Seq<Anchor>,
    r: u64,
    res: Option<(DragType, usize)>,
    i: int,
)
    requires
        is_hit_result(c, s, r, res),
        0 <= i < s.len(),
        hits_in(c, s[i], r),
    ensures
        res matches Some((DragType::HandleIn(j), _)) && j <= i,
{
    match res {
        Some((DragType::HandleIn(j), _)) => {
            if j > i {
                assert(!hits_in(c, s[i], r));
            }
        },
        _ => {
            assert(!hits_in(c, s[i], r));
        },
    }
}

/// The single result that a hit test can have.
pub open spec fn hit_of(c: Point, s: Seq<Anchor>, r: u64) -> Option<(DragType, usize)> {
    choose|res: Option<(DragType, usize)>| is_hit_result(c, s, r, res)
}

proof fn lemma_hit_result_unique(
    c: Point,
    s: Seq<Anchor>,
    r: u64,
    a: Option<(DragType, usize)>,
    b: Option<(DragType, usize)>,
)
    requires
        is_hit_result(c, s, r, a),
        is_hit_result(c, s, r, b),
    ensures
        a == b,
{
    match a {
        Some((DragType::HandleIn(i), _)) => {
            assert(hits_in(c, s[i as int], r));
            match b {
                Some((DragType::HandleIn(j), _)) => {
                    assert(hits_in(c, s[j as int], r));
                },
                _ => {},
            }
        },
        Some((DragType::HandleOut(i), _)) => {
            assert(hits_out(c, s[i as int], r));
            match b {
                Some((DragType::HandleIn(j), _)) => {
                    assert(hits_in(c, s[j as int], r));
                },
                Some((DragType::HandleOut(j), _)) => {
                    assert(hits_out(c, s[j as int], r));
                },
                _ => {},
            }
        },
        Some((DragType::Anchor(i), _)) => {
            assert(hits_pos(c, s[i as int], r));
            match b {
                Some((DragType::HandleIn(j), _)) => {
                    assert(hits_in(c, s[j as int], r));
                },
                Some((DragType::HandleOut(j), _)) => {
                    assert(hits_out(c, s[j as int], r));
                },
                Some((DragType::Anchor(j), _)) => {
                    assert(hits_pos(c, s[j as int], r));
                },
                _ => {},
            }
        },
        None => {
            match b {
                Some((DragType::HandleIn(j), _)) => {
                    assert(hits_in(c, s[j as int], r));
                },
                Some((DragType::HandleOut(j), _)) => {
                    assert(hits_out(c, s[j as int], r));
                },
                Some((DragType::Anchor(j), _)) => {
                    assert(hits_pos(c, s[j as int], r));
                },
                _ => {},
            }
        },
    }
}

/// The drag target once a gesture start at `c` has been handled: the element hit, if any.
pub open spec fn target_after_start(
    s: Seq<Anchor>,
    current: Option<DragType>,
    c: Point,
    r: u64,
    started: bool,
) -> Option<DragType> {
    if started {
        match hit_of(c, s, r) {
            Some((t, _)) => Some(t),
            None => current,
        }
    } else {
        current
    }
}

/// The anchors after a frame in which the drag target is `t`.
pub open spec fn anchors_after_drag(s: Seq<Anchor>, t: Option<DragType>, moved: bool, d: Point) -> Seq<
    Anchor,
> {
    match t {
        Some(t) => if moved && t.index_spec() < s.len() {
            s.update(t.index_spec() as int, drag_result(s[t.index_spec() as int], t, d))
        } else {
            s
        },
        None => s,
    }
}

/// The drag target at the end of a frame: cleared when the gesture ends, or when a drag
/// addresses an anchor that is no longer there.
pub open spec fn target_after_frame(len: nat, t: Option<DragType>, moved: bool, stopped: bool) -> Option<
    DragType,
> {
    if stopped {
        None
    } else {
        match t {
            Some(t) => if moved && t.index_spec() >= len {
                None
            } else {
                Some(t)
            },
            None => None,
        }
    }
}

/// The curve editor's state: the anchors of one edge and the element being dragged.
pub struct BezierWidget {
    pub edge_index: usize,
    pub anchors: Vec<Anchor>,
    pub dragging: Option<DragType>,
}

impl BezierWidget {
    /// Every anchor lies within the coordinate range.
    pub open spec fn wf(&self) -> bool {
        all_in_bounds(self.anchors@)
    }

    /// An editor for the given anchors of edge `edge_index`, with no drag in progress.
    pub fn new(anchors: Vec<Anchor>, edge_index: usize) -> (r: BezierWidget)
        ensures
            r.anchors@ == anchors@,
            r.edge_index == edge_index,
            r.dragging.is_none(),
    {
        BezierWidget { edge_index, anchors, dragging: None }
    }

    /// The smallest axis-aligned box holding every anchor point: its lower corner and its
    /// extent.
    pub fn desired_size(&self) -> (r: (Point, Point))
        requires
            self.anchors@.len() > 0,
            self.wf(),
        ensures
            forall|i: int|
                0 <= i < self.anchors@.len() ==> r.0.x <= (#[trigger] self.anchors@[i]).pos.x
                    && r.0.y <= self.anchors@[i].pos.y && self.anchors@[i].pos.x <= r.0.x + r.1.x
                    && self.anchors@[i].pos.y <= r.0.y + r.1.y,
            exists|i: int| 0 <= i < self.anchors@.len() && r.0.x == self.anchors@[i].pos.x,
            exists|i: int| 0 <= i < self.anchors@.len() && r.0.y == self.anchors@[i].pos.y,
            exists|i: int|
                0 <= i < self.anchors@.len() && r.0.x + r.1.x == self.anchors@[i].pos.x,
            exists|i: int|
                0 <= i < self.anchors@.len() && r.0.y + r.1.y == self.anchors@[i].pos.y,
    {
        let s = Ghost(self.anchors@);
        let mut min = self.anchors[0].pos;
        let mut max = self.anchors[0].pos;
        let ghost mut ix0: int = 0;
        let ghost mut iy0: int = 0;
        let ghost mut ix1: int = 0;
        let ghost mut iy1: int = 0;
        let mut i: usize = 1;
        while i < self.anchors.len()
            invariant
                s@ == self.anchors@,
                self.wf(),
                1 <= i <= s@.len(),
                forall|k: int|
                    0 <= k < i ==> min.x <= (#[trigger] s@[k]).pos.x && min.y <= s@[k].pos.y
                        && s@[k].pos.x <= max.x && s@[k].pos.y <= max.y,
                0 <= ix0 < i && min.x == s@[ix0].pos.x,
                0 <= iy0 < i && min.y == s@[iy0].pos.y,
                0 <= ix1 < i && max.x == s@[ix1].pos.x,
                0 <= iy1 < i && max.y == s@[iy1].pos.y,
            decreases s@.len() - i,
        {
            let p = self.anchors[i].pos;
            if p.x < min.x {
                min.x = p.x;
                proof {
                    ix0 = i as int;
                }
            }
            if p.y < min.y {
                min.y = p.y;
                proof {
                    iy0 = i as int;
                }
            }
            if p.x > max.x {
                max.x = p.x;
                proof {
                    ix1 = i as int;
                }
            }
            if p.y > max.y {
                max.y = p.y;
                proof {
                    iy1 = i as int;
                }
            }
            i = i + 1;
        }
        proof {
            assert(s@[ix0].in_bounds() && s@[iy0].in_bounds());
            assert(s@[ix1].in_bounds() && s@[iy1].in_bounds());
        }
        (min, Point { x: max.x - min.x, y: max.y - min.y })
    }

    /// Hit test at canvas point `world_pos`; see the free function `hit_test`.
    pub fn hit_test(&self, world_pos: Point, hit_radius: u64) -> (res: Option<(DragType, usize)>)
        requires
            world_pos.in_bounds(),
            self.wf(),
        ensures
            is_hit_result(world_pos, self.anchors@, hit_radius, res),
            res == hit_of(world_pos, self.anchors@, hit_radius),
    {
        let res = hit_test(world_pos, &self.anchors, hit_radius);
        proof {
            lemma_hit_result_unique(
                world_pos,
                self.anchors@,
                hit_radius,
                res,
                hit_of(world_pos, self.anchors@, hit_radius),
            );
        }
        res
    }

    /// Moves anchor `index` and its handles by `delta`, re-smoothing a smooth anchor.
    pub fn drag_anchor(&mut self, index: usize, delta: Point)
        requires
            old(self).wf(),
            index < old(self).anchors@.len(),
            delta.in_bounds(),
        ensures
            final(self).anchors@ == old(self).anchors@.update(
                index as int,
                drag_result(old(self).anchors@[index as int], DragType::Anchor(index), delta),
            ),
            final(self).dragging == old(self).dragging,
            final(self).edge_index == old(self).edge_index,
            final(self).wf(),
    {
        let mut a = self.anchors[index];
        assert(a.in_bounds());
        a.translate(delta);
        if a.fits() {
            if a.is_smooth {
                a.enforce_smooth();
            }
            if a.fits() {
                self.anchors[index] = a;
            }
        }
        assert(self.anchors@ =~= old(self).anchors@.update(
            index as int,
            drag_result(old(self).anchors@[index as int], DragType::Anchor(index), delta),
        ));
    }

    /// Moves the incoming handle of anchor `index` by `delta`; on a smooth anchor the
    /// outgoing handle becomes its reflection through the anchor point.
    pub fn drag_handle_in(&mut self, index: usize, delta: Point)
        requires
            old(self).wf(),
            index < old(self).anchors@.len(),
            delta.in_bounds(),
        ensures
            final(self).anchors@ == old(self).anchors@.update(
                index as int,
                drag_result(old(self).anchors@[index as int], DragType::HandleIn(index), delta),
            ),
            final(self).dragging == old(self).dragging,
            final(self).edge_index == old(self).edge_index,
            final(self).wf(),
    {
        let mut a = self.anchors[index];
        assert(a.in_bounds());
        a.handle_in = Point { x: a.handle_in.x + delta.x, y: a.handle_in.y + delta.y };
        if a.is_smooth {
            a.handle_out = Point { x: 2 * a.pos.x - a.handle_in.x, y: 2 * a.pos.y - a.handle_in.y };
        }
        if a.fits() {
            self.anchors[index] = a;
        }
        assert(self.anchors@ =~= old(self).anchors@.update(
            index as int,
            drag_result(old(self).anchors@[index as int], DragType::HandleIn(index), delta),
        ));
    }

    /// Moves the outgoing handle of anchor `index` by `delta`; on a smooth anchor the
    /// incoming handle becomes its reflection through the anchor point.
    pub fn drag_handle_out(&mut self, index: usize, delta: Point)
        requires
            old(self).wf(),
            index < old(self).anchors@.len(),
            delta.in_bounds(),
        ensures
            final(self).anchors@ == old(self).anchors@.update(
                index as int,
                drag_result(old(self).anchors@[index as int], DragType::HandleOut(index), delta),
            ),
            final(self).dragging == old(self).dragging,
            final(self).edge_index == old(self).edge_index,
            final(self).wf(),
    {
        let mut a = self.anchors[index];
        assert(a.in_bounds());
        a.handle_out = Point { x: a.handle_out.x + delta.x, y: a.handle_out.y + delta.y };
        if a.is_smooth {
            a.handle_in = Point { x: 2 * a.pos.x - a.handle_out.x, y: 2 * a.pos.y - a.handle_out.y };
        }
        if a.fits() {
            self.anchors[index] = a;
        }
        assert(self.anchors@ =~= old(self).anchors@.update(
            index as int,
            drag_result(old(self).anchors@[index as int], DragType::HandleOut(index), delta),
        ));
    }

    /// Handles one frame of pointer input, in canvas units: a gesture start at `world_pos`
    /// picks the drag target by hit test, a drag moves the target by `delta`, and a gesture
    /// end clears the target. A target whose anchor is gone is cleared instead of moved.
    pub fn apply_actions(
        &mut self,
        world_pos: Point,
        hit_radius: u64,
        started: bool,
        moved: bool,
        stopped: bool,
        delta: Point,
    )
        requires
            old(self).wf(),
            world_pos.in_bounds(),
            delta.in_bounds(),
        ensures
            final(self).anchors@ == anchors_after_drag(
                old(self).anchors@,
                target_after_start(old(self).anchors@, old(self).dragging, world_pos, hit_radius, started),
                moved,
                delta,
            ),
            final(self).dragging == target_after_frame(
                old(self).anchors@.len(),
                target_after_start(old(self).anchors@, old(self).dragging, world_pos, hit_radius, started),
                moved,
                stopped,
            ),
            final(self).edge_index == old(self).edge_index,
            final(self).wf(),
    {
        if started {
            match self.hit_test(world_pos, hit_radius) {
                Some((t, _)) => {
                    self.dragging = Some(t);
                },
                None => {},
            }
        }
        if moved {
            match self.dragging {
                Some(t) => {
                    let i: usize = t.index();
                    if i < self.anchors.len() {
                        match t {
                            DragType::Anchor(i) => self.drag_anchor(i, delta),
                            DragType::HandleIn(i) => self.drag_handle_in(i, delta),
                            DragType::HandleOut(i) => self.drag_handle_out(i, delta),
                        }
                    } else {
                        self.dragging = None;
                    }
                },
                None => {},
            }
        }
        if stopped {
            self.dragging = None;
        }
    }
}

} // verus!
