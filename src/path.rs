use vstd::prelude::*;

use crate::board::{count_obstacles, lemma_index_bound, lemma_index_injective, Board, BoardView};
use crate::point::{Point, PointWithParent};

verus! {

/// The cell one step from `(x, y)` in direction `d` (0 to 5) on the hex grid
/// whose odd rows are shifted right by half a cell: the row above and the row
/// below at offset `0` or `v` (`1` on an odd row, `-1` on an even one), and the
/// left and right cells of the same row.
pub open spec fn neighbor(p: Point, d: int) -> (int, int) {
    let x = p.x as int;
    let y = p.y as int;
    let v = if y % 2 == 1 {
        1int
    } else {
        -1int
    };
    if d == 0 {
        (x, y - 1)
    } else if d == 1 {
        (x + v, y - 1)
    } else if d == 2 {
        (x - 1, y)
    } else if d == 3 {
        (x + 1, y)
    } else if d == 4 {
        (x, y + 1)
    } else {
        (x + v, y + 1)
    }
}

pub open spec fn coords(p: Point) -> (int, int) {
    (p.x as int, p.y as int)
}

pub open spec fn adjacent(a: Point, b: Point) -> bool {
    ||| coords(b) == neighbor(a, 0)
    ||| coords(b) == neighbor(a, 1)
    ||| coords(b) == neighbor(a, 2)
    ||| coords(b) == neighbor(a, 3)
    ||| coords(b) == neighbor(a, 4)
    ||| coords(b) == neighbor(a, 5)
}

impl BoardView {
    pub open spec fn on_boundary(self, p: Point) -> bool {
        p.x == 0 || p.x == self.size - 1 || p.y == 0 || p.y == self.size - 1
    }

    /// `path` starts at the cat and moves, one hex step at a time, through
    /// cells of the grid that are not obstacles.
    pub open spec fn is_walk(self, path: Seq<Point>) -> bool {
        &&& path.len() >= 1
        &&& path[0] == self.cat
        &&& forall|i: int| 0 <= i < path.len() ==> self.in_range(path[i].x as int, path[i].y as int)
        &&& forall|i: int|
            1 <= i < path.len() ==> adjacent(path[i - 1], #[trigger] path[i]) && !self.obstacle(
                path[i].x as int,
                path[i].y as int,
            )
    }

    /// A walk of the cat that ends on the edge of the grid.
    pub open spec fn is_escape_path(self, path: Seq<Point>) -> bool {
        self.is_walk(path) && self.on_boundary(path.last())
    }

    /// An escape path that no other escape path is shorter than.
    pub open spec fn is_shortest_escape(self, path: Seq<Point>) -> bool {
        &&& self.is_escape_path(path)
        &&& forall|other: Seq<Point>| #[trigger] self.is_escape_path(other) ==> path.len() <= other.len()
    }

    pub open spec fn can_escape(self) -> bool {
        exists|path: Seq<Point>| self.is_escape_path(path)
    }
}

/// The cat's move along `path`: its second cell, or the start where it has one
/// cell only.
pub open spec fn first_step(path: Seq<Point>) -> Point {
    if path.len() >= 2 {
        path[1]
    } else {
        path[0]
    }
}

/// The neighbour of `p` in direction `d`, where it lies on the grid.
fn step(p: Point, d: usize, size: usize) -> (r: Option<Point>)
    requires
        d < 6,
        p.x < size,
        p.y < size,
    ensures
        r == if 0 <= neighbor(p, d as int).0 < size && 0 <= neighbor(p, d as int).1 < size {
            Some(Point { x: neighbor(p, d as int).0 as usize, y: neighbor(p, d as int).1 as usize })
        } else {
            None::<Point>
        },
{
    let odd = p.y % 2 == 1;
    let nx: Option<usize> = if d == 0 || d == 4 {
        Some(p.x)
    } else if d == 2 || ((d == 1 || d == 5) && !odd) {
        if p.x > 0 {
            Some(p.x - 1)
        } else {
            None
        }
    } else {
        if p.x + 1 < size {
            Some(p.x + 1)
        } else {
            None
        }
    };
    let ny: Option<usize> = if d == 2 || d == 3 {
        Some(p.y)
    } else if d <= 1 {
        if p.y > 0 {
            Some(p.y - 1)
        } else {
            None
        }
    } else {
        if p.y + 1 < size {
            Some(p.y + 1)
        } else {
            None
        }
    };
    match (nx, ny) {
        (Some(x), Some(y)) => Some(Point::new(x, y)),
        _ => None,
    }
}

/// Node `j` of a search: a cell of the grid, reached from the cat by the walk
/// `paths[j]`, which extends its parent's walk by that cell. Only the root has
/// no parent.
pub open spec fn node_ok(
    b: BoardView,
    nodes: Seq<PointWithParent>,
    paths: Seq<Seq<Point>>,
    j: int,
) -> bool {
    let q = nodes[j].point;
    &&& b.in_range(q.x as int, q.y as int)
    &&& b.is_walk(paths[j])
    &&& paths[j].last() == q
    &&& (nodes[j].parent is None <==> j == 0)
    &&& (nodes[j].parent matches Some(k) ==> 0 <= k < j && paths[j] == paths[k as int].push(q))
    &&& forall|w: Seq<Point>| #[trigger] b.is_walk(w) && w.last() == q ==> paths[j].len() <= w.len()
}

/// The search tree, rooted at the cat's cell.
pub open spec fn tree_ok(b: BoardView, nodes: Seq<PointWithParent>, paths: Seq<Seq<Point>>) -> bool {
    &&& paths.len() == nodes.len()
    &&& nodes.len() >= 1
    &&& paths[0] == seq![b.cat]
    &&& forall|j: int| 0 <= j < nodes.len() ==> #[trigger] node_ok(b, nodes, paths, j)
}

/// The marked cells are exactly the cells of the nodes, one node each.
pub open spec fn marks_ok(b: BoardView, nodes: Seq<PointWithParent>, visited: Seq<bool>) -> bool {
    &&& visited.len() == b.cells.len()
    &&& nodes.len() == count_obstacles(visited)
    &&& forall|j: int|
        0 <= j < nodes.len() ==> visited[b.index(
            (#[trigger] nodes[j]).point.x as int,
            nodes[j].point.y as int,
        )]
    &&& forall|k: int|
        0 <= k < visited.len() && #[trigger] visited[k] ==> exists|j: int|
            0 <= j < nodes.len() && b.index(nodes[j].point.x as int, nodes[j].point.y as int) == k
}

/// Every walk of the cat with at most `m` cells ends on a marked cell.
pub open spec fn reach_marked(b: BoardView, visited: Seq<bool>, m: int) -> bool {
    forall|w: Seq<Point>|
        #[trigger] b.is_walk(w) && w.len() <= m ==> visited[b.index(w.last().x as int, w.last().y as int)]
}

/// The nodes come in order of walk length, and none is more than one step
/// longer than the node at `head`.
pub open spec fn layered(paths: Seq<Seq<Point>>, head: int) -> bool {
    &&& forall|i: int, j: int|
        0 <= i <= j < paths.len() ==> (#[trigger] paths[i]).len() <= (#[trigger] paths[j]).len()
    &&& head < paths.len() ==> forall|j: int|
        0 <= j < paths.len() ==> (#[trigger] paths[j]).len() <= paths[head].len() + 1
}

/// The neighbour of node `j` in direction `d` is marked, where it is a free
/// cell of the grid.
pub open spec fn expanded(
    b: BoardView,
    nodes: Seq<PointWithParent>,
    visited: Seq<bool>,
    j: int,
    d: int,
) -> bool {
    let (nx, ny) = neighbor(nodes[j].point, d);
    b.in_range(nx, ny) && !b.obstacle(nx, ny) ==> visited[b.index(nx, ny)]
}

proof fn lemma_push_node(
    b: BoardView,
    nodes: Seq<PointWithParent>,
    paths: Seq<Seq<Point>>,
    visited: Seq<bool>,
    cur: usize,
    nb: Point,
    nodes2: Seq<PointWithParent>,
    paths2: Seq<Seq<Point>>,
    visited2: Seq<bool>,
)
    requires
        b.wf(),
        tree_ok(b, nodes, paths),
        marks_ok(b, nodes, visited),
        cur < nodes.len(),
        b.in_range(nb.x as int, nb.y as int),
        adjacent(nodes[cur as int].point, nb),
        !b.obstacle(nb.x as int, nb.y as int),
        !visited[b.index(nb.x as int, nb.y as int)],
        layered(paths, cur as int),
        reach_marked(b, visited, paths[cur as int].len() as int),
        nodes2 == nodes.push(PointWithParent { point: nb, parent: Some(cur) }),
        paths2 == paths.push(paths[cur as int].push(nb)),
        visited2 == visited.update(b.index(nb.x as int, nb.y as int), true),
    ensures
        tree_ok(b, nodes2, paths2),
        marks_ok(b, nodes2, visited2),
        layered(paths2, cur as int),
        reach_marked(b, visited2, paths[cur as int].len() as int),
        forall|j: int, d: int|
            0 <= j < nodes.len() && expanded(b, nodes, visited, j, d) ==> #[trigger] expanded(
                b,
                nodes2,
                visited2,
                j,
                d,
            ),
{
    let idx = b.index(nb.x as int, nb.y as int);
    lemma_index_bound(nb.x as int, nb.y as int, b.size as int);
    crate::board::lemma_count_set(visited, idx);
    assert(node_ok(b, nodes, paths, cur as int));
    let walk = paths[cur as int].push(nb);
    assert forall|i: int| 1 <= i < walk.len() implies adjacent(walk[i - 1], #[trigger] walk[i])
        && !b.obstacle(walk[i].x as int, walk[i].y as int) by {
        if i < walk.len() - 1 {
            assert(walk[i] == paths[cur as int][i]);
            assert(walk[i - 1] == paths[cur as int][i - 1]);
        }
    }
    assert(b.is_walk(walk));
    assert forall|j: int| 0 <= j < nodes2.len() implies #[trigger] node_ok(b, nodes2, paths2, j) by {
        if j < nodes.len() {
            assert(node_ok(b, nodes, paths, j));
            assert(nodes2[j] == nodes[j]);
            assert(paths2[j] == paths[j]);
            if let Some(k) = nodes[j].parent {
                assert(paths2[k as int] == paths[k as int]);
            }
        } else {
            assert(nodes2[j].point == nb);
            assert(paths2[j] == walk);
            assert(paths2[cur as int] == paths[cur as int]);
            assert forall|w: Seq<Point>| #[trigger] b.is_walk(w) && w.last() == nb implies paths2[j].len()
                <= w.len() by {
                if w.len() <= paths[cur as int].len() {
                    assert(visited[idx]);
                }
            }
        }
    }
    assert forall|i: int, j: int| 0 <= i <= j < paths2.len() implies (#[trigger] paths2[i]).len() <= (
    #[trigger] paths2[j]).len() by {
        if j == paths.len() {
            assert(paths2[i] == paths[i] || i == j);
        } else {
            assert(paths2[i] == paths[i]);
            assert(paths2[j] == paths[j]);
        }
    }
    assert forall|j: int| 0 <= j < paths2.len() implies (#[trigger] paths2[j]).len() <= paths2[cur as int].len()
        + 1 by {
        if j < paths.len() {
            assert(paths2[j] == paths[j]);
        }
    }
    assert forall|w: Seq<Point>| #[trigger] b.is_walk(w) && w.len() <= paths[cur as int].len() implies visited2[b.index(
        w.last().x as int,
        w.last().y as int,
    )] by {
        lemma_index_bound(w.last().x as int, w.last().y as int, b.size as int);
    }
    assert forall|j: int| 0 <= j < nodes2.len() implies visited2[b.index(
        (#[trigger] nodes2[j]).point.x as int,
        nodes2[j].point.y as int,
    )] by {
        if j < nodes.len() {
            assert(nodes2[j] == nodes[j]);
            assert(node_ok(b, nodes, paths, j));
            lemma_index_bound(nodes[j].point.x as int, nodes[j].point.y as int, b.size as int);
        }
    }
    assert forall|k: int| 0 <= k < visited2.len() && #[trigger] visited2[k] implies exists|j: int|
        0 <= j < nodes2.len() && b.index(nodes2[j].point.x as int, nodes2[j].point.y as int)
            == k by {
        if k == idx {
            assert(b.index(
                nodes2[nodes.len() as int].point.x as int,
                nodes2[nodes.len() as int].point.y as int,
            ) == k);
        } else {
            assert(visited[k]);
            let j = choose|j: int|
                0 <= j < nodes.len() && b.index(nodes[j].point.x as int, nodes[j].point.y as int)
                    == k;
            assert(nodes2[j] == nodes[j]);
        }
    }
    assert forall|j: int, d: int|
        0 <= j < nodes.len() && expanded(b, nodes, visited, j, d) implies #[trigger] expanded(
        b,
        nodes2,
        visited2,
        j,
        d,
    ) by {
        assert(nodes2[j] == nodes[j]);
        let (nx, ny) = neighbor(nodes[j].point, d);
        if b.in_range(nx, ny) {
            lemma_index_bound(nx, ny, b.size as int);
        }
    }
}

/// The node whose cell is the marked cell `a`.
proof fn lemma_node_of_marked(
    b: BoardView,
    nodes: Seq<PointWithParent>,
    paths: Seq<Seq<Point>>,
    visited: Seq<bool>,
    a: Point,
) -> (j: int)
    requires
        b.wf(),
        tree_ok(b, nodes, paths),
        marks_ok(b, nodes, visited),
        b.in_range(a.x as int, a.y as int),
        visited[b.index(a.x as int, a.y as int)],
    ensures
        0 <= j < nodes.len(),
        nodes[j].point == a,
        node_ok(b, nodes, paths, j),
{
    lemma_index_bound(a.x as int, a.y as int, b.size as int);
    let j = choose|j: int|
        0 <= j < nodes.len() && b.index(nodes[j].point.x as int, nodes[j].point.y as int) == b.index(
            a.x as int,
            a.y as int,
        );
    let r = nodes[j].point;
    assert(node_ok(b, nodes, paths, j));
    lemma_index_injective(r.x as int, r.y as int, a.x as int, a.y as int, b.size as int);
    j
}

/// A walk without its last cell is a walk, and its last cell is a free
/// neighbour of the cell before.
proof fn lemma_walk_prefix(b: BoardView, w: Seq<Point>)
    requires
        b.is_walk(w),
        w.len() >= 2,
    ensures
        b.is_walk(w.drop_last()),
        adjacent(w.drop_last().last(), w.last()),
        !b.obstacle(w.last().x as int, w.last().y as int),
{
    let prev = w.drop_last();
    assert forall|i: int| 1 <= i < prev.len() implies adjacent(prev[i - 1], #[trigger] prev[i])
        && !b.obstacle(prev[i].x as int, prev[i].y as int) by {
        assert(prev[i] == w[i]);
        assert(prev[i - 1] == w[i - 1]);
    }
    assert(prev.last() == w[w.len() - 2]);
    assert(w.last() == w[w.len() - 1]);
}

/// A free neighbour of an expanded node is marked.
proof fn lemma_expanded_neighbor(
    b: BoardView,
    nodes: Seq<PointWithParent>,
    visited: Seq<bool>,
    j: int,
    q: Point,
)
    requires
        0 <= j < nodes.len(),
        forall|d: int| 0 <= d < 6 ==> #[trigger] expanded(b, nodes, visited, j, d),
        adjacent(nodes[j].point, q),
        b.in_range(q.x as int, q.y as int),
        !b.obstacle(q.x as int, q.y as int),
    ensures
        visited[b.index(q.x as int, q.y as int)],
{
    assert(expanded(b, nodes, visited, j, 0));
    assert(expanded(b, nodes, visited, j, 1));
    assert(expanded(b, nodes, visited, j, 2));
    assert(expanded(b, nodes, visited, j, 3));
    assert(expanded(b, nodes, visited, j, 4));
    assert(expanded(b, nodes, visited, j, 5));
}

/// Once node `cur` is expanded, the walks as long as the next node's walk
/// end on marked cells.
proof fn lemma_advance(
    b: BoardView,
    nodes: Seq<PointWithParent>,
    paths: Seq<Seq<Point>>,
    visited: Seq<bool>,
    cur: int,
)
    requires
        b.wf(),
        tree_ok(b, nodes, paths),
        marks_ok(b, nodes, visited),
        0 <= cur < nodes.len(),
        layered(paths, cur),
        reach_marked(b, visited, paths[cur].len() as int),
        forall|j: int, d: int|
            0 <= j <= cur && 0 <= d < 6 ==> #[trigger] expanded(b, nodes, visited, j, d),
    ensures
        layered(paths, cur + 1),
        cur + 1 < nodes.len() ==> reach_marked(b, visited, paths[cur + 1].len() as int),
{
    if cur + 1 < nodes.len() {
        let next = paths[cur + 1].len();
        assert(paths[cur].len() <= next);
        assert forall|w: Seq<Point>| #[trigger] b.is_walk(w) && w.len() <= next implies visited[b.index(
            w.last().x as int,
            w.last().y as int,
        )] by {
            if w.len() > paths[cur].len() {
                lemma_walk_prefix(b, w);
                let prev = w.drop_last();
                let a = prev.last();
                assert(b.in_range(a.x as int, a.y as int)) by {
                    assert(a == prev[prev.len() - 1]);
                }
                let j = lemma_node_of_marked(b, nodes, paths, visited, a);
                assert(paths[j].len() <= prev.len());
                if j > cur {
                    assert(paths[cur + 1].len() <= paths[j].len());
                }
                assert(b.in_range(w.last().x as int, w.last().y as int)) by {
                    assert(w.last() == w[w.len() - 1]);
                }
                lemma_expanded_neighbor(b, nodes, visited, j, w.last());
            }
        }
    }
}

/// Where every node has been expanded, every walk of the cat ends on a marked
/// cell.
proof fn lemma_walk_stays_marked(
    b: BoardView,
    path: Seq<Point>,
    nodes: Seq<PointWithParent>,
    paths: Seq<Seq<Point>>,
    visited: Seq<bool>,
)
    requires
        b.wf(),
        b.is_walk(path),
        tree_ok(b, nodes, paths),
        marks_ok(b, nodes, visited),
        forall|j: int, d: int|
            0 <= j < nodes.len() && 0 <= d < 6 ==> #[trigger] expanded(b, nodes, visited, j, d),
    ensures
        visited[b.index(path.last().x as int, path.last().y as int)],
    decreases path.len(),
{
    if path.len() == 1 {
        assert(node_ok(b, nodes, paths, 0));
        assert(nodes[0].point == path.last());
    } else {
        lemma_walk_prefix(b, path);
        let prev = path.drop_last();
        lemma_walk_stays_marked(b, prev, nodes, paths, visited);
        let a = prev.last();
        assert(b.in_range(a.x as int, a.y as int)) by {
            assert(a == prev[prev.len() - 1]);
        }
        let j = lemma_node_of_marked(b, nodes, paths, visited, a);
        assert(b.in_range(path.last().x as int, path.last().y as int)) by {
            assert(path.last() == path[path.len() - 1]);
        }
        lemma_expanded_neighbor(b, nodes, visited, j, path.last());
    }
}

impl Board {
    /// Breadth-first search from the cat's cell over free cells of the grid,
    /// neighbours taken in the order of `neighbor`'s directions. Returns the
    /// cat's next move on a shortest escape path (the cat's own cell where it
    /// is already on the edge), or `None` where no escape path exists.
    pub fn bfs(&self) -> (r: Option<Point>)
        requires
            self@.wf(),
        ensures
            r.is_none() <==> !self@.can_escape(),
            r matches Some(p) ==> exists|path: Seq<Point>|
                #[trigger] self@.is_shortest_escape(path) && first_step(path) == p,
            self@.on_boundary(self@.cat) ==> r == Some(self@.cat),
    {
        let ghost b = self@;
        let size = self.size();
        let n: usize = self.cells().len();
        let cat = self.cat_position();
        let mut visited: Vec<bool> = Vec::new();
        let mut i: usize = 0;
        while i < n
            invariant
                i <= n,
                visited@ == Seq::new(i as nat, |k: int| false),
            decreases n - i,
        {
            visited.push(false);
            i = i + 1;
        }
        let cat_idx = self.get_idx(cat.x, cat.y);
        proof {
            crate::board::lemma_count_all_clear(visited@);
            crate::board::lemma_count_set(visited@, cat_idx as int);
        }
        visited.set(cat_idx, true);
        let mut nodes: Vec<PointWithParent> = Vec::new();
        nodes.push(PointWithParent { point: cat, parent: None });
        let ghost mut paths: Seq<Seq<Point>> = seq![seq![cat]];
        proof {
            assert(node_ok(b, nodes@, paths, 0));
            assert forall|k: int| 0 <= k < visited@.len() && #[trigger] visited@[k] implies exists|
                j: int,
            |
                0 <= j < nodes.len() && b.index(nodes@[j].point.x as int, nodes@[j].point.y as int)
                    == k by {
                assert(k == cat_idx);
                assert(nodes@[0].point == cat);
            }
            assert forall|w: Seq<Point>| #[trigger] b.is_walk(w) && w.len() <= 1 implies visited@[b.index(
                w.last().x as int,
                w.last().y as int,
            )] by {
                assert(w.last() == w[0]);
            }
        }
        let mut head: usize = 0;
        while head < nodes.len()
            invariant
                b == self@,
                b.wf(),
                size == b.size,
                n == b.cells.len(),
                cat == b.cat,
                tree_ok(b, nodes@, paths),
                marks_ok(b, nodes@, visited@),
                head <= nodes.len(),
                layered(paths, head as int),
                head < nodes.len() ==> reach_marked(b, visited@, paths[head as int].len() as int),
                forall|j: int, d: int|
                    0 <= j < head && 0 <= d < 6 ==> #[trigger] expanded(b, nodes@, visited@, j, d),
                forall|j: int| 0 <= j < head ==> !b.on_boundary(#[trigger] nodes@[j].point),
            decreases n - head,
        {
            proof {
                crate::board::lemma_count_le_len(visited@);
            }
            let cur = head;
            let current = nodes[cur];
            let x = current.point.x;
            let y = current.point.y;
            proof {
                assert(node_ok(b, nodes@, paths, cur as int));
            }
            if x == 0 || x == size - 1 || y == 0 || y == size - 1 {
                let last = walk_to_first_step(&nodes, cur, Ghost(b), Ghost(paths));
                proof {
                    let path = paths[cur as int];
                    assert(b.is_escape_path(path));
                    assert forall|other: Seq<Point>| #[trigger] b.is_escape_path(other) implies path.len()
                        <= other.len() by {
                        if other.len() < path.len() {
                            let q = other.last();
                            assert(b.in_range(q.x as int, q.y as int)) by {
                                assert(q == other[other.len() - 1]);
                            }
                            let j = lemma_node_of_marked(b, nodes@, paths, visited@, q);
                            if j >= cur {
                                assert(paths[cur as int].len() <= paths[j].len());
                            }
                            assert(!b.on_boundary(nodes@[j].point));
                        }
                    }
                    assert(b.is_shortest_escape(path));
                    assert(node_ok(b, nodes@, paths, 0));
                    if cur > 0 {
                        assert(!b.on_boundary(nodes@[0].point));
                    }
                }
                return Some(nodes[last].point);
            }
            head = head + 1;
            let mut d: usize = 0;
            while d < 6
                invariant
                    b == self@,
                    b.wf(),
                    size == b.size,
                    n == b.cells.len(),
                    cat == b.cat,
                    cur < head,
                    head == cur + 1,
                    current == nodes@[cur as int],
                    !b.on_boundary(current.point),
                    b.in_range(current.point.x as int, current.point.y as int),
                    d <= 6,
                    tree_ok(b, nodes@, paths),
                    marks_ok(b, nodes@, visited@),
                    head <= nodes.len(),
                    layered(paths, cur as int),
                    reach_marked(b, visited@, paths[cur as int].len() as int),
                    forall|j: int, dd: int|
                        0 <= j < head && 0 <= dd < 6 && (j < cur || dd < d) ==> #[trigger] expanded(
                            b,
                            nodes@,
                            visited@,
                            j,
                            dd,
                        ),
                    forall|j: int| 0 <= j < head ==> !b.on_boundary(#[trigger] nodes@[j].point),
                decreases 6 - d,
            {
                if let Some(nb) = step(current.point, d, size) {
                    let idx = self.get_idx(nb.x, nb.y);
                    if !visited[idx] && !self.is_obstacle(nb.x, nb.y) {
                        let ghost nodes1 = nodes@;
                        let ghost visited1 = visited@;
                        let ghost paths1 = paths;
                        visited.set(idx, true);
                        nodes.push(PointWithParent { point: nb, parent: Some(cur) });
                        proof {
                            paths = paths.push(paths[cur as int].push(nb));
                            lemma_push_node(
                                b,
                                nodes1,
                                paths1,
                                visited1,
                                cur,
                                nb,
                                nodes@,
                                paths,
                                visited@,
                            );
                            assert forall|j: int| 0 <= j < head implies !b.on_boundary(
                                #[trigger] nodes@[j].point,
                            ) by {
                                assert(nodes@[j] == nodes1[j]);
                            }
                        }
                    }
                }
                proof {
                    assert(expanded(b, nodes@, visited@, cur as int, d as int));
                }
                d = d + 1;
            }
            proof {
                lemma_advance(b, nodes@, paths, visited@, cur as int);
            }
        }
        proof {
            assert(node_ok(b, nodes@, paths, 0));
            assert(!b.on_boundary(nodes@[0].point));
            assert forall|path: Seq<Point>| !b.is_escape_path(path) by {
                if b.is_escape_path(path) {
                    lemma_walk_stays_marked(b, path, nodes@, paths, visited@);
                    let q = path.last();
                    lemma_index_bound(q.x as int, q.y as int, b.size as int);
                    let j = choose|j: int|
                        0 <= j < nodes.len() && b.index(
                            nodes@[j].point.x as int,
                            nodes@[j].point.y as int,
                        ) == b.index(q.x as int, q.y as int);
                    let r = nodes@[j].point;
                    assert(node_ok(b, nodes@, paths, j));
                    lemma_index_injective(
                        r.x as int,
                        r.y as int,
                        q.x as int,
                        q.y as int,
                        b.size as int,
                    );
                    assert(r == q);
                }
            }
        }
        None
    }
}

/// Follows parent links from node `cur` to the root's child on that chain (or
/// to the root itself where `cur` is the root): the first step of the walk
/// that reaches node `cur`.
fn walk_to_first_step(
    nodes: &Vec<PointWithParent>,
    cur: usize,
    Ghost(b): Ghost<BoardView>,
    Ghost(paths): Ghost<Seq<Seq<Point>>>,
) -> (last: usize)
    requires
        tree_ok(b, nodes@, paths),
        cur < nodes.len(),
    ensures
        last < nodes.len(),
        nodes@[last as int].point == first_step(paths[cur as int]),
        cur == 0 ==> last == 0,
{
    let mut p: usize = cur;
    let mut last: usize = cur;
    assert(node_ok(b, nodes@, paths, cur as int));
    assert(paths[cur as int].subrange(0, paths[cur as int].len() as int) =~= paths[cur as int]);
    while nodes[p].parent.is_some()
        invariant
            tree_ok(b, nodes@, paths),
            p < nodes.len(),
            last < nodes.len(),
            cur < nodes.len(),
            paths[p as int].len() <= paths[cur as int].len(),
            paths[cur as int].subrange(0, paths[p as int].len() as int) == paths[p as int],
            (p == cur && last == cur) || (paths[last as int].len() == paths[p as int].len() + 1
                && paths[last as int].len() <= paths[cur as int].len()
                && paths[cur as int].subrange(0, paths[last as int].len() as int)
                == paths[last as int]),
        decreases p,
    {
        assert(node_ok(b, nodes@, paths, p as int));
        let par = nodes[p].parent.unwrap();
        proof {
            let pp = paths[p as int];
            assert(pp.subrange(0, pp.len() - 1) =~= paths[par as int]);
            assert(paths[cur as int].subrange(0, paths[par as int].len() as int)
                =~= paths[cur as int].subrange(0, pp.len() as int).subrange(
                0,
                paths[par as int].len() as int,
            ));
        }
        last = p;
        p = par;
    }
    proof {
        let path = paths[cur as int];
        assert(node_ok(b, nodes@, paths, last as int));
        assert(node_ok(b, nodes@, paths, cur as int));
        assert(node_ok(b, nodes@, paths, p as int));
        assert(p == 0);
        if p != cur {
            let pl = paths[last as int];
            assert(pl.len() == 2);
            assert(pl[1] == path.subrange(0, 2)[1]);
            assert(nodes@[last as int].point == pl[1]);
        }
    }
    last
}

/// Whether the cat can escape depends on the board alone: two results that
/// each meet the search's contract on one board agree on it.
pub proof fn escape_verdict_is_determined(b: BoardView, r1: Option<Point>, r2: Option<Point>)
    requires
        r1.is_none() <==> !b.can_escape(),
        r2.is_none() <==> !b.can_escape(),
    ensures
        r1.is_none() == r2.is_none(),
{
}

/// Moving the cat to the first step of a shortest escape path leaves the
/// rest of that path as a shortest escape path, one cell shorter: following
/// the search's answer reaches the edge in as many moves as the shortest
/// escape has steps.
pub proof fn lemma_step_shortens_escape(b: BoardView, path: Seq<Point>)
    requires
        b.wf(),
        b.is_shortest_escape(path),
        path.len() >= 2,
    ensures
        (BoardView { cat: first_step(path), ..b }).is_shortest_escape(path.drop_first()),
        path.drop_first().len() == path.len() - 1,
{
    let b2 = BoardView { cat: first_step(path), ..b };
    let rest = path.drop_first();
    assert forall|i: int| 1 <= i < rest.len() implies adjacent(rest[i - 1], #[trigger] rest[i])
        && !b2.obstacle(rest[i].x as int, rest[i].y as int) by {
        assert(rest[i] == path[i + 1]);
        assert(rest[i - 1] == path[i]);
    }
    assert forall|i: int| 0 <= i < rest.len() implies b2.in_range(rest[i].x as int, rest[i].y as int) by {
        assert(rest[i] == path[i + 1]);
    }
    assert(rest.last() == path.last());
    assert(b2.is_escape_path(rest));
    assert forall|other: Seq<Point>| #[trigger] b2.is_escape_path(other) implies rest.len()
        <= other.len() by {
        if other.len() < rest.len() {
            let longer = seq![b.cat] + other;
            assert(longer[1] == other[0]);
            assert(longer[1] == path[1]);
            assert forall|i: int| 1 <= i < longer.len() implies adjacent(
                longer[i - 1],
                #[trigger] longer[i],
            ) && !b.obstacle(longer[i].x as int, longer[i].y as int) by {
                if i == 1 {
                    assert(path[0] == b.cat);
                } else {
                    assert(longer[i] == other[i - 1]);
                    assert(longer[i - 1] == other[i - 2]);
                }
            }
            assert forall|i: int| 0 <= i < longer.len() implies b.in_range(
                longer[i].x as int,
                longer[i].y as int,
            ) by {
                if i > 0 {
                    assert(longer[i] == other[i - 1]);
                }
            }
            assert(longer.last() == other.last());
            assert(b.is_escape_path(longer));
        }
    }
}

} // verus!
