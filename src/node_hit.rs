use crate::geometry::Point;
use vstd::prelude::*;

verus! {

/// An axis-aligned rectangle in canvas coordinates, edges included.
#[derive(Clone, Copy, Debug, PartialEq, Eq, Structural)]
pub struct CanvasRect {
    pub min: Point,
    pub max: Point,
}

impl CanvasRect {
    pub open spec fn holds(self, p: Point) -> bool {
        self.min.x <= p.x <= self.max.x && self.min.y <= p.y <= self.max.y
    }

    /// Whether `p` lies inside the rectangle or on its border.
    pub fn contains(&self, p: Point) -> (r: bool)
        ensures
            r == self.holds(p),
    {
        self.min.x <= p.x && p.x <= self.max.x && self.min.y <= p.y && p.y <= self.max.y
    }
}

/// A node, given as its index and its rectangle if it has been laid out, lies under `p`.
pub open spec fn node_under(n: (usize, Option<CanvasRect>), p: Point) -> bool {
    match n.1 {
        Some(r) => r.holds(p),
        None => false,
    }
}

/// Entry `i` is the first of `nodes` that lies under `p`.
pub open spec fn is_first_node_under(nodes: Seq<(usize, Option<CanvasRect>)>, p: Point, i: int) -> bool {
    &&& 0 <= i < nodes.len()
    &&& node_under(nodes[i], p)
    &&& forall|k: int| 0 <= k < i ==> !node_under(#[trigger] nodes[k], p)
}

/// The index of the first node, in the order given, whose rectangle holds `p`; nodes not
/// yet laid out are passed over.
pub fn hit_test_node(nodes: &Vec<(usize, Option<CanvasRect>)>, p: Point) -> (r: Option<usize>)
    ensures
        r matches Some(id) ==> exists|i: int| is_first_node_under(nodes@, p, i) && nodes@[i].0 == id,
        r is None ==> forall|k: int| 0 <= k < nodes@.len() ==> !node_under(#[trigger] nodes@[k], p),
{
    let mut i: usize = 0;
    while i < nodes.len()
        invariant
            i <= nodes@.len(),
            forall|k: int| 0 <= k < i ==> !node_under(#[trigger] nodes@[k], p),
        decreases nodes@.len() - i,
    {
        let (id, rect) = nodes[i];
        match rect {
            Some(r) => {
                if r.contains(p) {
                    assert(is_first_node_under(nodes@, p, i as int));
                    return Some(id);
                }
            },
            None => {},
        }
        i = i + 1;
    }
    None
}

} // verus!
