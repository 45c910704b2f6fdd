use vstd::prelude::*;

use crate::point::Point;
use crate::utils::generate_random_number;

verus! {

/// What a board holds: its side length, one obstacle flag per cell in
/// row-major order (cell `(x, y)` at `y * size + x`), and the cat's cell.
pub struct BoardView {
    pub size: nat,
    pub cells: Seq<bool>,
    pub cat: Point,
}

impl BoardView {
    pub open spec fn in_range(self, x: int, y: int) -> bool {
        0 <= x < self.size && 0 <= y < self.size
    }

    pub open spec fn wf(self) -> bool {
        &&& self.size >= 1
        &&& self.size * self.size <= usize::MAX
        &&& self.cells.len() == self.size * self.size
        &&& self.in_range(self.cat.x as int, self.cat.y as int)
    }

    pub open spec fn index(self, x: int, y: int) -> int {
        y * self.size + x
    }

    pub open spec fn obstacle(self, x: int, y: int) -> bool {
        self.cells[self.index(x, y)]
    }

    pub open spec fn cat_on_obstacle(self) -> bool {
        self.obstacle(self.cat.x as int, self.cat.y as int)
    }
}

/// Number of obstacle flags that are set.
pub open spec fn count_obstacles(cells: Seq<bool>) -> nat
    decreases cells.len(),
{
    if cells.len() == 0 {
        0
    } else {
        count_obstacles(cells.drop_last()) + if cells.last() {
            1nat
        } else {
            0nat
        }
    }
}

/// How many obstacles a fresh board of side `size` gets for a drawn `extra`:
/// `size + extra`, or every cell but the cat's where that is fewer.
pub open spec fn scattered_count(size: nat, extra: int) -> int {
    vstd::math::min(size + extra, size * size - 1)
}

/// Cell index `i` may take an obstacle: it is neither the cat's cell nor an
/// obstacle.
pub open spec fn is_free(b: BoardView, i: int) -> bool {
    i != b.index(b.cat.x as int, b.cat.y as int) && !b.cells[i]
}

/// The free cells among the first `k` indices, in increasing order.
pub open spec fn free_prefix(b: BoardView, k: int) -> Seq<usize>
    decreases k,
{
    if k <= 0 {
        seq![]
    } else {
        free_prefix(b, k - 1) + if is_free(b, k - 1) {
            seq![(k - 1) as usize]
        } else {
            seq![]
        }
    }
}

/// The indices of the free cells of the board, in row-major order.
pub open spec fn free_cells(b: BoardView) -> Seq<usize> {
    free_prefix(b, b.cells.len() as int)
}

pub proof fn lemma_free_prefix(b: BoardView, k: int)
    requires
        0 <= k <= usize::MAX,
    ensures
        forall|m: int|
            0 <= m < free_prefix(b, k).len() ==> (#[trigger] free_prefix(b, k)[m]) < k && is_free(
                b,
                free_prefix(b, k)[m] as int,
            ),
        free_prefix(b, k).len() == 0 ==> forall|i: int| 0 <= i < k ==> !is_free(b, i),
    decreases k,
{
    if k > 0 {
        lemma_free_prefix(b, k - 1);
        let p = free_prefix(b, k - 1);
        let q = free_prefix(b, k);
        assert forall|m: int| 0 <= m < q.len() implies (#[trigger] q[m]) < k && is_free(b, q[m] as int) by {
            if m < p.len() {
                assert(q[m] == p[m]);
            } else {
                assert(is_free(b, k - 1));
                assert(q =~= p + seq![(k - 1) as usize]);
                assert(q[m] == (k - 1) as usize);
            }
        }
        if q.len() == 0 {
            assert(!is_free(b, k - 1));
        }
    }
}

/// A cell `(x, y)` of the grid has its row-major index in `[0, size * size)`.
pub proof fn lemma_index_bound(x: int, y: int, size: int)
    requires
        0 <= x < size,
        0 <= y < size,
    ensures
        0 <= y * size + x < size * size,
{
    assert(0 <= y * size + x < size * size) by (nonlinear_arith)
        requires
            0 <= x < size,
            0 <= y < size,
    ;
}

/// Two cells of the grid with one row-major index are the same cell.
pub proof fn lemma_index_injective(x1: int, y1: int, x2: int, y2: int, size: int)
    requires
        0 <= x1 < size,
        0 <= y1 < size,
        0 <= x2 < size,
        0 <= y2 < size,
        y1 * size + x1 == y2 * size + x2,
    ensures
        x1 == x2,
        y1 == y2,
{
    assert(y1 == y2) by (nonlinear_arith)
        requires
            0 <= x1 < size,
            0 <= x2 < size,
            0 <= y1,
            0 <= y2,
            y1 * size + x1 == y2 * size + x2,
    ;
}

pub proof fn lemma_count_all_clear(cells: Seq<bool>)
    requires
        forall|i: int| 0 <= i < cells.len() ==> !cells[i],
    ensures
        count_obstacles(cells) == 0,
    decreases cells.len(),
{
    if cells.len() > 0 {
        lemma_count_all_clear(cells.drop_last());
    }
}

pub proof fn lemma_count_set(cells: Seq<bool>, i: int)
    requires
        0 <= i < cells.len(),
        !cells[i],
    ensures
        count_obstacles(cells.update(i, true)) == count_obstacles(cells) + 1,
    decreases cells.len(),
{
    let u = cells.update(i, true);
    if i == cells.len() - 1 {
        assert(u.drop_last() =~= cells.drop_last());
    } else {
        assert(u.drop_last() =~= cells.drop_last().update(i, true));
        lemma_count_set(cells.drop_last(), i);
    }
}

/// With cell `c` clear, at most all the other cells are obstacles; exactly
/// that many when every other cell is one.
proof fn lemma_count_one_clear(cells: Seq<bool>, c: int)
    requires
        0 <= c < cells.len(),
        !cells[c],
    ensures
        count_obstacles(cells) <= cells.len() - 1,
        (forall|i: int| 0 <= i < cells.len() && i != c ==> cells[i]) ==> count_obstacles(cells)
            == cells.len() - 1,
    decreases cells.len(),
{
    let d = cells.drop_last();
    if c == cells.len() - 1 {
        lemma_count_le_len(d);
        if forall|i: int| 0 <= i < cells.len() && i != c ==> cells[i] {
            lemma_count_all_set(d);
        }
    } else {
        lemma_count_one_clear(d, c);
    }
}

pub proof fn lemma_count_le_len(cells: Seq<bool>)
    ensures
        count_obstacles(cells) <= cells.len(),
    decreases cells.len(),
{
    if cells.len() > 0 {
        lemma_count_le_len(cells.drop_last());
    }
}

proof fn lemma_count_all_set(cells: Seq<bool>)
    requires
        forall|i: int| 0 <= i < cells.len() ==> cells[i],
    ensures
        count_obstacles(cells) == cells.len(),
    decreases cells.len(),
{
    if cells.len() > 0 {
        lemma_count_all_set(cells.drop_last());
    }
}


/// The grid's obstacle state and the cat's cell.
pub struct Board {
    board: Vec<bool>,
    size: usize,
    cat_pos: Point,
}

impl View for Board {
    type V = BoardView;

    closed spec fn view(&self) -> BoardView {
        BoardView { size: self.size as nat, cells: self.board@, cat: self.cat_pos }
    }
}

impl Board {
    /// A `size` by `size` board with no obstacles; the cat waits at `(0, 0)`
    /// until `init` places it.
    pub fn new(size: usize) -> (r: Board)
        requires
            size >= 1,
            size * size <= usize::MAX,
        ensures
            r@.wf(),
            r@.size == size,
            r@.cat == (Point { x: 0, y: 0 }),
            r@.cells == Seq::new((size * size) as nat, |i: int| false),
    {
        let n: usize = size * size;
        let mut board: Vec<bool> = Vec::new();
        let mut i: usize = 0;
        while i < n
            invariant
                i <= n,
                board@ == Seq::new(i as nat, |k: int| false),
            decreases n - i,
        {
            board.push(false);
            i = i + 1;
        }
        Board { board, size, cat_pos: Point::new(0, 0) }
    }

    /// Puts the cat in the centre and scatters a fresh set of obstacles.
    pub fn init(&mut self)
        requires
            old(self)@.wf(),
        ensures
            final(self)@.wf(),
            final(self)@.size == old(self)@.size,
            final(self)@.cat == (Point { x: (old(self)@.size / 2) as usize, y: (old(self)@.size / 2) as usize }),
            !final(self)@.cat_on_obstacle(),
            exists|k: int|
                0 <= k < 5 && count_obstacles(final(self)@.cells) == #[trigger] scattered_count(
                    final(self)@.size,
                    k,
                ),
    {
        self.reset_cat();
        self.generate_board();
    }

    pub(crate) fn get_idx(&self, x: usize, y: usize) -> (r: usize)
        requires
            self@.wf(),
            self@.in_range(x as int, y as int),
        ensures
            r == self@.index(x as int, y as int),
            r < self@.cells.len(),
    {
        proof {
            lemma_index_bound(x as int, y as int, self.size as int);
        }
        y * self.size + x
    }

    fn get_value(&self, x: usize, y: usize) -> (r: bool)
        requires
            self@.wf(),
            self@.in_range(x as int, y as int),
        ensures
            r == self@.obstacle(x as int, y as int),
    {
        let idx = self.get_idx(x, y);
        self.board[idx]
    }

    fn set_value(&mut self, x: usize, y: usize, value: bool)
        requires
            old(self)@.wf(),
            old(self)@.in_range(x as int, y as int),
        ensures
            final(self)@.wf(),
            final(self)@ == (BoardView {
                cells: old(self)@.cells.update(old(self)@.index(x as int, y as int), value),
                ..old(self)@
            }),
    {
        let idx = self.get_idx(x, y);
        self.board.set(idx, value);
    }

    /// Moves the cat to the centre cell `(size / 2, size / 2)`.
    pub fn reset_cat(&mut self)
        requires
            old(self)@.wf(),
        ensures
            final(self)@ == (BoardView {
                cat: Point { x: (old(self)@.size / 2) as usize, y: (old(self)@.size / 2) as usize },
                ..old(self)@
            }),
    {
        let pos = self.size / 2;
        self.cat_pos = Point::new(pos, pos);
    }

    /// The cells that may take an obstacle, in row-major order.
    fn free_cell_list(&self) -> (r: Vec<usize>)
        requires
            self@.wf(),
        ensures
            r@ == free_cells(self@),
    {
        let n = self.board.len();
        let cat_idx = self.get_idx(self.cat_pos.x, self.cat_pos.y);
        let mut free: Vec<usize> = Vec::new();
        let mut j: usize = 0;
        while j < n
            invariant
                self@.wf(),
                n == self@.cells.len(),
                cat_idx == self@.index(self@.cat.x as int, self@.cat.y as int),
                j <= n,
                free@ == free_prefix(self@, j as int),
            decreases n - j,
        {
            if j != cat_idx && !self.board[j] {
                free.push(j);
            }
            proof {
                assert(free@ =~= free_prefix(self@, j + 1));
            }
            j = j + 1;
        }
        free
    }

    /// Puts an obstacle on the free cell at position `r` of `free_cells`.
    pub fn place_free(&mut self, r: usize)
        requires
            old(self)@.wf(),
            r < free_cells(old(self)@).len(),
        ensures
            final(self)@.wf(),
            final(self)@ == (BoardView {
                cells: old(self)@.cells.update(free_cells(old(self)@)[r as int] as int, true),
                ..old(self)@
            }),
    {
        let free = self.free_cell_list();
        proof {
            lemma_free_prefix(self@, self@.cells.len() as int);
        }
        let idx = free[r];
        self.board.set(idx, true);
    }

    /// Clears the board and places `size + extra` obstacles, each on a cell
    /// drawn uniformly among those that are neither the cat's nor an obstacle
    /// yet; it stops early once no such cell is left.
    pub fn scatter(&mut self, extra: usize)
        requires
            old(self)@.wf(),
            extra < 5,
        ensures
            final(self)@.wf(),
            final(self)@.size == old(self)@.size,
            final(self)@.cat == old(self)@.cat,
            !final(self)@.cat_on_obstacle(),
            count_obstacles(final(self)@.cells) == scattered_count(old(self)@.size, extra as int),
    {
        let ghost size = self.size as int;
        let n = self.board.len();
        let mut i: usize = 0;
        while i < n
            invariant
                self@.wf(),
                self@.size == size,
                self@.cat == old(self)@.cat,
                n == self@.cells.len(),
                i <= n,
                forall|k: int| 0 <= k < i ==> !self@.cells[k],
            decreases n - i,
        {
            self.board.set(i, false);
            i = i + 1;
        }
        proof {
            lemma_count_all_clear(self@.cells);
        }
        assert(self.size + 4 <= usize::MAX) by (nonlinear_arith)
            requires
                self.size >= 1,
                self.size * self.size <= usize::MAX,
                usize::MAX >= 0xffff,
        ;
        let target = self.size + extra;
        let cat_idx = self.get_idx(self.cat_pos.x, self.cat_pos.y);
        let mut placed: usize = 0;
        let mut full = false;
        while placed < target && !full
            invariant
                self@.wf(),
                self@.size == size,
                self@.cat == old(self)@.cat,
                n == self@.cells.len(),
                cat_idx == self@.index(self@.cat.x as int, self@.cat.y as int),
                cat_idx < n,
                !self@.cells[cat_idx as int],
                placed <= target,
                count_obstacles(self@.cells) == placed,
                full ==> placed < target && placed == n - 1,
            decreases target - placed + if full {
                0int
            } else {
                1int
            },
        {
            let free = self.free_cell_list();
            proof {
                lemma_free_prefix(self@, n as int);
            }
            if free.len() == 0 {
                proof {
                    assert forall|k: int| 0 <= k < n && k != cat_idx implies self@.cells[k] by {
                        assert(!is_free(self@, k));
                    }
                    lemma_count_one_clear(self@.cells, cat_idx as int);
                }
                full = true;
            } else {
                let r = generate_random_number(0, free.len());
                proof {
                    lemma_count_set(self@.cells, free@[r as int] as int);
                }
                self.place_free(r);
                placed = placed + 1;
            }
        }
        proof {
            lemma_count_one_clear(self@.cells, cat_idx as int);
        }
    }

    /// Clears the board and places `size + k` obstacles, `k` drawn from
    /// `[0, 5)`: see `scatter`.
    pub fn generate_board(&mut self)
        requires
            old(self)@.wf(),
        ensures
            final(self)@.wf(),
            final(self)@.size == old(self)@.size,
            final(self)@.cat == old(self)@.cat,
            !final(self)@.cat_on_obstacle(),
            exists|k: int|
                0 <= k < 5 && count_obstacles(final(self)@.cells) == #[trigger] scattered_count(
                    final(self)@.size,
                    k,
                ),
    {
        let extra = generate_random_number(0, 5);
        self.scatter(extra);
        assert(0 <= extra < 5 && count_obstacles(self@.cells) == scattered_count(
            self@.size,
            extra as int,
        ));
    }

    pub fn size(&self) -> (r: usize)
        ensures
            r == self@.size,
    {
        self.size
    }

    pub fn cat_position(&self) -> (r: Point)
        ensures
            r == self@.cat,
    {
        self.cat_pos
    }

    /// The obstacle flags, row by row.
    pub fn cells(&self) -> (r: &Vec<bool>)
        ensures
            r@ == self@.cells,
    {
        &self.board
    }

    pub fn is_obstacle(&self, x: usize, y: usize) -> (r: bool)
        requires
            self@.wf(),
            self@.in_range(x as int, y as int),
        ensures
            r == self@.obstacle(x as int, y as int),
    {
        self.get_value(x, y)
    }

    /// Whether two candidate indices agree on one index in `[0, size)`.
    pub fn check_number_ok(&self, num1: isize, num2: isize) -> (r: bool)
        ensures
            r == (num1 == num2 && 0 <= num1 < self@.size),
    {
        num1 == num2 && num1 >= 0 && (num1 as usize) < self.size
    }

    /// The cell under a pixel, from the candidate rows and columns that the
    /// pixel's position gives when it is taken to lie inside a cell (`row1`,
    /// `col1`, rounded down) and past a cell with its gap (`row2`, `col2`,
    /// rounded up): the cell `(col1, row1)` where each pair agrees on an index
    /// in `[0, size)`, and none otherwise.
    pub fn cell_from_candidates(&self, row1: isize, row2: isize, col1: isize, col2: isize) -> (r:
        Option<Point>)
        ensures
            r == if row1 == row2 && 0 <= row1 < self@.size && col1 == col2 && 0 <= col1
                < self@.size {
                Some(Point { x: col1 as usize, y: row1 as usize })
            } else {
                None::<Point>
            },
    {
        if self.check_number_ok(row1, row2) && self.check_number_ok(col1, col2) {
            Some(Point::new(col1 as usize, row1 as usize))
        } else {
            None
        }
    }

    /// Whether an obstacle may go on `(x, y)`: it is neither the cat's cell nor
    /// an obstacle already.
    pub fn check_hindrance_ok(&self, x: usize, y: usize) -> (r: bool)
        requires
            self@.wf(),
            self@.in_range(x as int, y as int),
        ensures
            r == (!(x == self@.cat.x && y == self@.cat.y) && !self@.obstacle(x as int, y as int)),
    {
        !(x == self.cat_pos.x && y == self.cat_pos.y) && !self.get_value(x, y)
    }

    /// Marks `(x, y)` as an obstacle.
    pub fn put_hindrance(&mut self, x: usize, y: usize)
        requires
            old(self)@.wf(),
            old(self)@.in_range(x as int, y as int),
        ensures
            final(self)@.wf(),
            final(self)@ == (BoardView {
                cells: old(self)@.cells.update(old(self)@.index(x as int, y as int), true),
                ..old(self)@
            }),
    {
        proof {
            lemma_index_bound(x as int, y as int, self@.size as int);
        }
        self.set_value(x, y, true);
    }

    /// Moves the cat to `(x, y)`, obstacle or not.
    pub fn set_cat(&mut self, x: usize, y: usize)
        requires
            old(self)@.wf(),
            old(self)@.in_range(x as int, y as int),
        ensures
            final(self)@.wf(),
            final(self)@ == (BoardView { cat: Point { x, y }, ..old(self)@ }),
    {
        self.cat_pos = Point::new(x, y);
    }
}

} // verus!
