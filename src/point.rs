use vstd::prelude::*;

verus! {

/// A cell of the grid: column `x` and row `y`.
#[derive(Clone, Copy, Debug, PartialEq, Eq, Structural)]
pub struct Point {
    pub x: usize,
    pub y: usize,
}

impl Point {
    pub fn new(x: usize, y: usize) -> (r: Point)
        ensures
            r.x == x,
            r.y == y,
    {
        Point { x, y }
    }
}

/// A node of the breadth-first search tree: a cell and the index, within the
/// search's node arena, of the node it was discovered from (`None` for the root).
#[derive(Clone, Copy, Debug, PartialEq, Eq, Structural)]
pub struct PointWithParent {
    pub point: Point,
    pub parent: Option<usize>,
}

impl From<Point> for PointWithParent {
    fn from(point: Point) -> (r: PointWithParent)
        ensures
            r.point == point,
            r.parent.is_none(),
    {
        PointWithParent { point, parent: None }
    }
}

impl vstd::std_specs::convert::FromSpecImpl<Point> for PointWithParent {
    open spec fn obeys_from_spec() -> bool {
        true
    }

    open spec fn from_spec(point: Point) -> PointWithParent {
        PointWithParent { point, parent: None }
    }
}

impl From<PointWithParent> for Point {
    fn from(node: PointWithParent) -> (r: Point)
        ensures
            r == node.point,
    {
        node.point
    }
}

impl vstd::std_specs::convert::FromSpecImpl<PointWithParent> for Point {
    open spec fn obeys_from_spec() -> bool {
        true
    }

    open spec fn from_spec(node: PointWithParent) -> Point {
        node.point
    }
}

} // verus!
