//! Occupancy grid and the integer core of A* path planning on it.

use vstd::prelude::*;
use vstd::arithmetic::div_mod::lemma_fundamental_div_mod;
use vstd::arithmetic::div_mod::lemma_fundamental_div_mod_converse;

verus! {

/// Grid cell.
#[derive(Debug, Clone, Copy, PartialEq, Eq, Structural)]
pub enum Cell {
    Free,
    Blocked,
}

/// Mathematical model of a grid: its dimensions and its cells in row-major order.
pub struct GridModel {
    pub width: nat,
    pub height: nat,
    pub cells: Seq<Cell>,
}

impl GridModel {
    /// The cell storage holds exactly one cell per grid position.
    pub open spec fn wf(self) -> bool {
        self.cells.len() == self.width * self.height
    }

    /// Row-major index of the coordinates `(x, y)`.
    pub open spec fn index(self, x: int, y: int) -> int {
        y * self.width + x
    }

    /// The index of `(x, y)` falls inside the cell storage.
    pub open spec fn in_cells(self, x: int, y: int) -> bool {
        0 <= x && 0 <= y && self.index(x, y) < self.width * self.height
    }

    /// The cell stored at the index of `(x, y)`.
    pub open spec fn cell(self, x: int, y: int) -> Cell {
        self.cells[self.index(x, y)]
    }

    /// The 4-connected neighbours of `(x, y)` whose cells are free, in the
    /// order left, right, below, above.
    pub open spec fn neighbors4(self, x: int, y: int) -> Seq<(usize, usize)> {
        let left = if x > 0 && self.cell(x - 1, y) == Cell::Free {
            seq![((x - 1) as usize, y as usize)]
        } else {
            seq![]
        };
        let right = if x + 1 < self.width && self.cell(x + 1, y) == Cell::Free {
            seq![((x + 1) as usize, y as usize)]
        } else {
            seq![]
        };
        let below = if y > 0 && self.cell(x, y - 1) == Cell::Free {
            seq![(x as usize, (y - 1) as usize)]
        } else {
            seq![]
        };
        let above = if y + 1 < self.height && self.cell(x, y + 1) == Cell::Free {
            seq![(x as usize, (y + 1) as usize)]
        } else {
            seq![]
        };
        left + right + below + above
    }

    /// The diagonal neighbours of `(x, y)` whose cells are free, in the order
    /// lower-left, lower-right, upper-left, upper-right.
    pub open spec fn diagonal_neighbors(self, x: int, y: int) -> Seq<(usize, usize)> {
        let ll = if x > 0 && y > 0 && self.cell(x - 1, y - 1) == Cell::Free {
            seq![((x - 1) as usize, (y - 1) as usize)]
        } else {
            seq![]
        };
        let lr = if x + 1 < self.width && y > 0 && self.cell(x + 1, y - 1) == Cell::Free {
            seq![((x + 1) as usize, (y - 1) as usize)]
        } else {
            seq![]
        };
        let ul = if x > 0 && y + 1 < self.height && self.cell(x - 1, y + 1) == Cell::Free {
            seq![((x - 1) as usize, (y + 1) as usize)]
        } else {
            seq![]
        };
        let ur = if x + 1 < self.width && y + 1 < self.height && self.cell(x + 1, y + 1)
            == Cell::Free {
            seq![((x + 1) as usize, (y + 1) as usize)]
        } else {
            seq![]
        };
        ll + lr + ul + ur
    }

    /// The 8-connected neighbours of `(x, y)` whose cells are free: the
    /// 4-connected ones, then the diagonal ones.
    pub open spec fn neighbors8(self, x: int, y: int) -> Seq<(usize, usize)> {
        self.neighbors4(x, y) + self.diagonal_neighbors(x, y)
    }

    /// Every cell that the 4-connected neighbour scan of `(x, y)` reads lies
    /// inside the cell storage.
    pub open spec fn neighbors4_readable(self, x: int, y: int) -> bool {
        &&& 0 <= x && 0 <= y
        &&& x > 0 ==> self.in_cells(x - 1, y)
        &&& x + 1 < self.width ==> self.in_cells(x + 1, y)
        &&& y > 0 ==> self.in_cells(x, y - 1)
        &&& y + 1 < self.height ==> self.in_cells(x, y + 1)
    }

    /// Every cell that the 8-connected neighbour scan of `(x, y)` reads lies
    /// inside the cell storage.
    pub open spec fn neighbors8_readable(self, x: int, y: int) -> bool {
        &&& self.neighbors4_readable(x, y)
        &&& x > 0 && y > 0 ==> self.in_cells(x - 1, y - 1)
        &&& x + 1 < self.width && y > 0 ==> self.in_cells(x + 1, y - 1)
        &&& x > 0 && y + 1 < self.height ==> self.in_cells(x - 1, y + 1)
        &&& x + 1 < self.width && y + 1 < self.height ==> self.in_cells(x + 1, y + 1)
    }

    /// The grid after writing `c` at `(x, y)`; writes outside the grid
    /// change nothing.
    pub open spec fn with_cell(self, x: int, y: int, c: Cell) -> GridModel {
        GridModel {
            width: self.width,
            height: self.height,
            cells: if 0 <= x < self.width && 0 <= y < self.height {
                self.cells.update(self.index(x, y), c)
            } else {
                self.cells
            },
        }
    }

    /// `(x, y)` lies in the grid and its cell is free.
    pub open spec fn is_free(self, x: int, y: int) -> bool {
        &&& 0 <= x < self.width
        &&& 0 <= y < self.height
        &&& self.cell(x, y) == Cell::Free
    }
}

/// A cell inside a `width` by `height` grid has its row-major index inside
/// the grid's storage.
pub proof fn lemma_index_in_grid(x: int, y: int, width: int, height: int)
    requires
        0 <= x < width,
        0 <= y < height,
    ensures
        y * width + x < width * height,
{
    assert(y * width + x < width * height) by (nonlinear_arith)
        requires
            0 <= x < width,
            0 <= y < height,
    ;
}

/// Distinct cells of a grid have distinct row-major indices.
pub proof fn lemma_index_injective(x: int, y: int, x2: int, y2: int, width: int)
    requires
        0 <= x < width,
        0 <= x2 < width,
        0 <= y,
        0 <= y2,
        y * width + x == y2 * width + x2,
    ensures
        x == x2,
        y == y2,
{
    if y < y2 {
        assert(y * width + x < y2 * width + x2) by (nonlinear_arith)
            requires
                0 <= x < width,
                0 <= x2,
                y < y2,
        ;
    } else if y2 < y {
        assert(y2 * width + x2 < y * width + x) by (nonlinear_arith)
            requires
                0 <= x2 < width,
                0 <= x,
                y2 < y,
        ;
    }
}

/// Cells are stored row by row: stepping one full row past the end of a
/// row reads the next row.
pub proof fn lemma_row_major(g: GridModel, x: int, y: int)
    ensures
        g.cell(x + g.width, y) == g.cell(x, y + 1),
        g.index(x + 1, y) == g.index(x, y) + 1,
{
    assert((y + 1) * g.width == y * g.width + g.width) by (nonlinear_arith);
}

/// A read of a cell gives back what the last write to it wrote, a write
/// leaves every other cell as it was, and writes keep the grid well formed.
pub proof fn lemma_get_after_set(g: GridModel, x: int, y: int, c: Cell, x2: int, y2: int)
    requires
        g.wf(),
        0 <= x2 < g.width,
        0 <= y2 < g.height,
    ensures
        g.with_cell(x, y, c).wf(),
        g.with_cell(x, y, c).cell(x2, y2) == if x2 == x && y2 == y {
            c
        } else {
            g.cell(x2, y2)
        },
{
    lemma_index_in_grid(x2, y2, g.width as int, g.height as int);
    if 0 <= x < g.width && 0 <= y < g.height {
        lemma_index_in_grid(x, y, g.width as int, g.height as int);
        if g.index(x, y) == g.index(x2, y2) {
            lemma_index_injective(x, y, x2, y2, g.width as int);
        }
    }
}

/// 2D occupancy grid for A* planning.
pub struct Grid {
    width: usize,
    height: usize,
    cells: Vec<Cell>,
}

impl View for Grid {
    type V = GridModel;

    closed spec fn view(&self) -> GridModel {
        GridModel { width: self.width as nat, height: self.height as nat, cells: self.cells@ }
    }
}

impl Grid {
    /// Create a new grid whose cells are all free.
    pub fn new(width: usize, height: usize) -> (grid: Grid)
        requires
            width * height <= usize::MAX,
        ensures
            grid@.wf(),
            grid@.width == width,
            grid@.height == height,
            grid@.cells == Seq::new((width * height) as nat, |i: int| Cell::Free),
    {
        let cells = vec![Cell::Free; width * height];
        let grid = Grid { width, height, cells };
        assert(grid@.cells =~= Seq::new((width * height) as nat, |i: int| Cell::Free));
        grid
    }

    /// Width of the grid in cells.
    pub fn width(&self) -> (w: usize)
        ensures
            w == self@.width,
    {
        self.width
    }

    /// Height of the grid in cells.
    pub fn height(&self) -> (h: usize)
        ensures
            h == self@.height,
    {
        self.height
    }

    /// Row-major index of `(x, y)`.
    fn index_of(&self, x: usize, y: usize) -> (i: usize)
        requires
            self@.wf(),
            self@.in_cells(x as int, y as int),
        ensures
            i == self@.index(x as int, y as int),
            i < self@.cells.len(),
    {
        let n = self.cells.len();
        assert(y * self.width + x < n);
        let row = y * self.width;
        row + x
    }

    /// Get cell at grid coordinates.
    pub fn get(&self, x: usize, y: usize) -> (cell: Cell)
        requires
            self@.wf(),
            self@.in_cells(x as int, y as int),
        ensures
            cell == self@.cell(x as int, y as int),
    {
        let i = self.index_of(x, y);
        self.cells[i]
    }

    /// Set cell at grid coordinates; coordinates outside the grid are ignored.
    pub fn set(&mut self, x: usize, y: usize, cell: Cell)
        requires
            old(self)@.wf(),
        ensures
            final(self)@ == old(self)@.with_cell(x as int, y as int, cell),
    {
        if x < self.width && y < self.height {
            proof {
                lemma_index_in_grid(x as int, y as int, self.width as int, self.height as int);
            }
            let i = self.index_of(x, y);
            self.cells.set(i, cell);
        }
    }

    /// Clamp grid coordinates into the grid, as the last step of converting
    /// world coordinates.
    pub fn clamp_to_grid(&self, gx: usize, gy: usize) -> (c: (usize, usize))
        requires
            self@.width > 0,
            self@.height > 0,
        ensures
            c.0 == if gx < self@.width { gx as int } else { self@.width - 1 },
            c.1 == if gy < self@.height { gy as int } else { self@.height - 1 },
    {
        let mx = self.width - 1;
        let my = self.height - 1;
        (if gx < mx { gx } else { mx }, if gy < my { gy } else { my })
    }

    /// Get 4-connected neighbors.
    #[verifier::rlimit(40)]
    pub fn neighbors4(&self, x: usize, y: usize) -> (n: Vec<(usize, usize)>)
        requires
            self@.wf(),
            self@.neighbors4_readable(x as int, y as int),
        ensures
            n@ == self@.neighbors4(x as int, y as int),
            in_direction_order((x, y), n@),
            ranks_within((x, y), n@, 0, 4),
            no_repeats(n@),
            x < self@.width && y < self@.height ==> forall|c: (usize, usize)|
                n@.contains(c) <==> free_step(self@, (x, y), c, false),
    {
        proof {
            lemma_neighbor_list(self@, x as int, y as int, false);
        }
        let mut n: Vec<(usize, usize)> = Vec::new();
        if x > 0 && self.get(x - 1, y) == Cell::Free {
            n.push((x - 1, y));
        }
        if self.width > 0 && x < self.width - 1 && self.get(x + 1, y) == Cell::Free {
            n.push((x + 1, y));
        }
        if y > 0 && self.get(x, y - 1) == Cell::Free {
            n.push((x, y - 1));
        }
        if self.height > 0 && y < self.height - 1 && self.get(x, y + 1) == Cell::Free {
            n.push((x, y + 1));
        }
        assert(n@ =~= self@.neighbors4(x as int, y as int));
        n
    }

    /// The free diagonal neighbours, in the order of `diagonal_neighbors`.
    #[verifier::rlimit(40)]
    fn diagonal_neighbors(&self, x: usize, y: usize) -> (n: Vec<(usize, usize)>)
        requires
            self@.wf(),
            self@.neighbors8_readable(x as int, y as int),
        ensures
            n@ == self@.diagonal_neighbors(x as int, y as int),
    {
        let mut n: Vec<(usize, usize)> = Vec::new();
        let right_ok = self.width > 0 && x < self.width - 1;
        let up_ok = self.height > 0 && y < self.height - 1;
        if x > 0 && y > 0 && self.get(x - 1, y - 1) == Cell::Free {
            n.push((x - 1, y - 1));
        }
        if right_ok && y > 0 && self.get(x + 1, y - 1) == Cell::Free {
            n.push((x + 1, y - 1));
        }
        if x > 0 && up_ok && self.get(x - 1, y + 1) == Cell::Free {
            n.push((x - 1, y + 1));
        }
        if right_ok && up_ok && self.get(x + 1, y + 1) == Cell::Free {
            n.push((x + 1, y + 1));
        }
        assert(n@ =~= self@.diagonal_neighbors(x as int, y as int));
        n
    }

    /// Get 8-connected neighbors.
    #[verifier::rlimit(40)]
    pub fn neighbors8(&self, x: usize, y: usize) -> (n: Vec<(usize, usize)>)
        requires
            self@.wf(),
            self@.neighbors8_readable(x as int, y as int),
        ensures
            n@ == self@.neighbors8(x as int, y as int),
            in_direction_order((x, y), n@),
            ranks_within((x, y), n@, 0, 8),
            no_repeats(n@),
            x < self@.width && y < self@.height ==> forall|c: (usize, usize)|
                n@.contains(c) <==> free_step(self@, (x, y), c, true),
    {
        proof {
            lemma_neighbor_list(self@, x as int, y as int, true);
        }
        let mut n = self.neighbors4(x, y);
        let mut d = self.diagonal_neighbors(x, y);
        n.append(&mut d);
        n
    }
}

/// The node reached from `c` by following `k` parent links through
/// `came_from`, or `None` when the chain ends earlier, at a node without a
/// parent.
pub open spec fn ancestor(came_from: Seq<Option<usize>>, c: int, k: nat) -> Option<int>
    decreases k,
{
    if k == 0 {
        Some(c)
    } else {
        match ancestor(came_from, c, (k - 1) as nat) {
            Some(a) => if 0 <= a < came_from.len() && came_from[a] is Some {
                Some(came_from[a].unwrap() as int)
            } else {
                None
            },
            None => None,
        }
    }
}

/// Every parent link of `came_from` points into `came_from`.
pub open spec fn parents_in_range(came_from: Seq<Option<usize>>) -> bool {
    forall|i: int|
        0 <= i < came_from.len() && (#[trigger] came_from[i]) is Some ==> came_from[i].unwrap()
            < came_from.len()
}

/// The chain of parent links from `c` holds exactly `n` nodes.
pub open spec fn chain_ends(came_from: Seq<Option<usize>>, c: int, n: nat) -> bool {
    &&& n >= 1
    &&& ancestor(came_from, c, (n - 1) as nat) is Some
    &&& ancestor(came_from, c, n) is None
}

/// Following parent links from `c` ends at a node without a parent.
pub open spec fn reaches_root(came_from: Seq<Option<usize>>, c: int) -> bool {
    exists|n: nat| chain_ends(came_from, c, n)
}

/// Number of nodes on the chain of parent links from `c`.
pub open spec fn chain_length(came_from: Seq<Option<usize>>, c: int) -> nat {
    choose|n: nat| chain_ends(came_from, c, n)
}

/// Grid coordinates of the row-major index `i` in a grid of the given width.
pub open spec fn coords(i: int, width: int) -> (usize, usize) {
    ((i % width) as usize, (i / width) as usize)
}

/// The chain of parent links from `c`, root first, as grid coordinates.
pub open spec fn reconstructed(came_from: Seq<Option<usize>>, c: int, width: int) -> Seq<
    (usize, usize),
> {
    let n = chain_length(came_from, c);
    Seq::new(n, |i: int| coords(ancestor(came_from, c, (n - 1 - i) as nat).unwrap(), width))
}

/// Once a chain of parent links has ended, following more links gives nothing.
pub proof fn lemma_ancestor_ended(came_from: Seq<Option<usize>>, c: int, k: nat, j: nat)
    requires
        ancestor(came_from, c, k) is None,
        k <= j,
    ensures
        ancestor(came_from, c, j) is None,
    decreases j - k,
{
    if k < j {
        lemma_ancestor_ended(came_from, c, k, (j - 1) as nat);
    }
}

/// A chain of parent links has one length only.
pub proof fn lemma_chain_length_unique(came_from: Seq<Option<usize>>, c: int, n: nat, m: nat)
    requires
        chain_ends(came_from, c, n),
        chain_ends(came_from, c, m),
    ensures
        n == m,
{
    if n < m {
        lemma_ancestor_ended(came_from, c, n, (m - 1) as nat);
    } else if m < n {
        lemma_ancestor_ended(came_from, c, m, (n - 1) as nat);
    }
}

/// One step of a walk along parent links: `nodes[i]` is the parent of
/// `nodes[i + 1]`.
pub open spec fn walk_step(came_from: Seq<Option<usize>>, nodes: Seq<int>, i: int) -> bool {
    &&& 0 <= nodes[i + 1] < came_from.len()
    &&& came_from[nodes[i + 1]] == Some(nodes[i] as usize)
}

/// `nodes` runs from a node without parent to `current`, each node being the
/// parent of the next.
pub open spec fn parent_walk(came_from: Seq<Option<usize>>, nodes: Seq<int>, current: int) -> bool {
    &&& nodes.len() >= 1
    &&& nodes.last() == current
    &&& 0 <= nodes[0] < came_from.len()
    &&& came_from[nodes[0]] is None
    &&& forall|i: int| 0 <= i < nodes.len() - 1 ==> #[trigger] walk_step(came_from, nodes, i)
}

/// The nodes reached along parent links stay inside `came_from`.
pub proof fn lemma_ancestor_in_range(came_from: Seq<Option<usize>>, c: int, j: nat)
    requires
        parents_in_range(came_from),
        0 <= c < came_from.len(),
        ancestor(came_from, c, j) is Some,
    ensures
        0 <= ancestor(came_from, c, j).unwrap() < came_from.len(),
    decreases j,
{
    if j > 0 {
        lemma_ancestor_in_range(came_from, c, (j - 1) as nat);
    }
}

/// The chain of `n` nodes from `c` is a walk along parent links from a node
/// without parent to `c`.
pub proof fn lemma_reconstructed_walk(came_from: Seq<Option<usize>>, c: int, n: nat, width: int)
    requires
        parents_in_range(came_from),
        0 <= c < came_from.len(),
        chain_ends(came_from, c, n),
        chain_length(came_from, c) == n,
    ensures
        exists|nodes: Seq<int>|
            #[trigger] parent_walk(came_from, nodes, c) && nodes.len() == n && forall|i: int|
                0 <= i < nodes.len() ==> reconstructed(came_from, c, width)[i] == coords(
                    #[trigger] nodes[i],
                    width,
                ),
{
    let nodes = Seq::new(n, |i: int| ancestor(came_from, c, (n - 1 - i) as nat).unwrap());
    assert forall|j: nat| j < n implies #[trigger] ancestor(came_from, c, j) is Some && 0
        <= ancestor(came_from, c, j).unwrap() < came_from.len() by {
        if ancestor(came_from, c, j) is None {
            lemma_ancestor_ended(came_from, c, j, (n - 1) as nat);
        }
        lemma_ancestor_in_range(came_from, c, j);
    }
    assert(ancestor(came_from, c, (n - 1) as nat) is Some);
    assert(nodes[0] == ancestor(came_from, c, (n - 1) as nat).unwrap());
    assert(came_from[nodes[0]] is None);
    assert(nodes.last() == c);
    assert forall|i: int| 0 <= i < nodes.len() - 1 implies #[trigger] walk_step(came_from, nodes, i) by {
        let m = (n - 2 - i) as nat;
        assert(ancestor(came_from, c, m) is Some);
        assert(ancestor(came_from, c, m + 1) is Some);
        assert(nodes[i + 1] == ancestor(came_from, c, m).unwrap());
        assert(nodes[i] == ancestor(came_from, c, m + 1).unwrap());
    }
    assert(parent_walk(came_from, nodes, c));
}

/// Follow the parent links from `current` to the root and return the visited
/// cells as grid coordinates, root first and `current` last.
pub fn reconstruct(came_from: &[Option<usize>], current: usize, width: usize) -> (path: Vec<
    (usize, usize),
>)
    requires
        width > 0,
        current < came_from@.len(),
        parents_in_range(came_from@),
        reaches_root(came_from@, current as int),
    ensures
        path@ == reconstructed(came_from@, current as int, width as int),
        chain_ends(came_from@, current as int, path@.len()),
        path@.last() == coords(current as int, width as int),
        exists|nodes: Seq<int>|
            #[trigger] parent_walk(came_from@, nodes, current as int) && nodes.len() == path@.len()
                && forall|i: int| 0 <= i < nodes.len() ==> path@[i] == coords(#[trigger] nodes[i], width as int),
{
    let ghost cf = came_from@;
    let ghost n = chain_length(cf, current as int);
    let mut rev: Vec<(usize, usize)> = Vec::new();
    rev.push((current % width, current / width));
    let mut c = current;
    let ghost mut k: nat = 0;
    loop
        invariant
            width > 0,
            cf == came_from@,
            parents_in_range(cf),
            chain_ends(cf, current as int, n),
            c < cf.len(),
            ancestor(cf, current as int, k) == Some(c as int),
            k < n,
            rev@.len() == k + 1,
            forall|i: int|
                0 <= i <= k ==> #[trigger] rev@[i] == coords(
                    ancestor(cf, current as int, i as nat).unwrap(),
                    width as int,
                ),
        ensures
            chain_ends(cf, current as int, rev@.len()),
            rev@.len() == n,
            forall|i: int|
                0 <= i < n ==> #[trigger] rev@[i] == coords(
                    ancestor(cf, current as int, i as nat).unwrap(),
                    width as int,
                ),
        decreases n - k,
    {
        match came_from[c] {
            Some(prev) => {
                assert(ancestor(cf, current as int, k + 1) == Some(prev as int));
                proof {
                    if k + 1 >= n {
                        lemma_ancestor_ended(cf, current as int, n, k + 1);
                    }
                }
                rev.push((prev % width, prev / width));
                c = prev;
                proof {
                    k = k + 1;
                }
            },
            None => {
                assert(chain_ends(cf, current as int, k + 1));
                proof {
                    lemma_chain_length_unique(cf, current as int, n, k + 1);
                }
                break;
            },
        }
    }
    let mut path: Vec<(usize, usize)> = Vec::new();
    let mut j = rev.len();
    while j > 0
        invariant
            j <= rev@.len(),
            rev@.len() == n,
            path@.len() == n - j,
            forall|i: int| 0 <= i < n - j ==> #[trigger] path@[i] == rev@[n - 1 - i],
        decreases j,
    {
        j = j - 1;
        path.push(rev[j]);
    }
    assert(path@ =~= reconstructed(cf, current as int, width as int));
    proof {
        lemma_reconstructed_walk(cf, current as int, n, width as int);
    }
    path
}

/// Whether one step of a path may go from `a` to `b`: to one of the four
/// edge neighbours, or, when diagonal moves are allowed, to any of the eight
/// surrounding cells.
pub open spec fn step_ok(a: (usize, usize), b: (usize, usize), allow_diagonal: bool) -> bool {
    let dx = if a.0 >= b.0 { a.0 - b.0 } else { b.0 - a.0 };
    let dy = if a.1 >= b.1 { a.1 - b.1 } else { b.1 - a.1 };
    if allow_diagonal {
        dx <= 1 && dy <= 1 && dx + dy >= 1
    } else {
        dx + dy == 1
    }
}

/// The step from `path[i]` to `path[i + 1]` is allowed.
pub open spec fn step_at(path: Seq<(usize, usize)>, i: int, allow_diagonal: bool) -> bool {
    step_ok(path[i], path[i + 1], allow_diagonal)
}

/// `path` walks over free cells of the grid, one allowed step at a time.
pub open spec fn is_grid_path(g: GridModel, path: Seq<(usize, usize)>, allow_diagonal: bool) -> bool {
    &&& forall|i: int| 0 <= i < path.len() ==> g.is_free(#[trigger] path[i].0 as int, path[i].1 as int)
    &&& forall|i: int| 0 <= i < path.len() - 1 ==> #[trigger] step_at(path, i, allow_diagonal)
}

/// No cell occurs twice in `path`.
pub open spec fn no_repeats(path: Seq<(usize, usize)>) -> bool {
    forall|i: int, j: int| 0 <= i < j < path.len() ==> path[i] != path[j]
}

/// The neighbours that the search scans around `(x, y)`.
pub open spec fn scanned_neighbors(g: GridModel, x: int, y: int, allow_diagonal: bool) -> Seq<
    (usize, usize),
> {
    if allow_diagonal {
        g.neighbors8(x, y)
    } else {
        g.neighbors4(x, y)
    }
}

/// The cells of `nbrs`, in order, whose nodes are not closed.
pub open spec fn unclosed(nbrs: Seq<(usize, usize)>, closed: Seq<bool>, width: int) -> Seq<
    (usize, usize),
>
    decreases nbrs.len(),
{
    if nbrs.len() == 0 {
        seq![]
    } else {
        let rest = unclosed(nbrs.drop_last(), closed, width);
        let c = nbrs.last();
        if closed[c.1 * width + c.0] {
            rest
        } else {
            rest.push(c)
        }
    }
}

/// `c` is a free cell of the grid one allowed step away from `from`.
pub open spec fn free_step(g: GridModel, from: (usize, usize), c: (usize, usize), allow_diagonal: bool) -> bool {
    &&& c.0 < g.width
    &&& c.1 < g.height
    &&& g.cell(c.0 as int, c.1 as int) == Cell::Free
    &&& step_ok(from, c, allow_diagonal)
}

/// Every cell of `s` is a free cell one allowed step away from `from`.
pub open spec fn all_free_steps(g: GridModel, from: (usize, usize), s: Seq<(usize, usize)>, allow_diagonal: bool) -> bool {
    forall|i: int| 0 <= i < s.len() ==> free_step(g, from, #[trigger] s[i], allow_diagonal)
}

proof fn lemma_all_free_steps_add(
    g: GridModel,
    from: (usize, usize),
    a: Seq<(usize, usize)>,
    b: Seq<(usize, usize)>,
    allow_diagonal: bool,
)
    requires
        all_free_steps(g, from, a, allow_diagonal),
        all_free_steps(g, from, b, allow_diagonal),
    ensures
        all_free_steps(g, from, a + b, allow_diagonal),
{
    assert forall|i: int| 0 <= i < (a + b).len() implies free_step(
        g,
        from,
        #[trigger] (a + b)[i],
        allow_diagonal,
    ) by {
        if i < a.len() {
            assert((a + b)[i] == a[i]);
        } else {
            assert((a + b)[i] == b[i - a.len()]);
        }
    }
}

proof fn lemma_free_step_single(
    g: GridModel,
    from: (usize, usize),
    c: (usize, usize),
    allow_diagonal: bool,
)
    requires
        free_step(g, from, c, allow_diagonal),
    ensures
        all_free_steps(g, from, seq![c], allow_diagonal),
{
}

/// Preconditions shared by the neighbour lemmas: `(x, y)` is a cell of a
/// well-formed grid.
pub open spec fn cell_of_grid(g: GridModel, x: int, y: int) -> bool {
    &&& g.cells.len() == g.width * g.height
    &&& g.width <= usize::MAX
    &&& g.height <= usize::MAX
    &&& 0 <= x < g.width
    &&& 0 <= y < g.height
}

proof fn lemma_neighbors4_steps(g: GridModel, x: int, y: int, allow_diagonal: bool)
    requires
        cell_of_grid(g, x, y),
    ensures
        all_free_steps(g, (x as usize, y as usize), g.neighbors4(x, y), allow_diagonal),
{
    let w = g.width as int;
    let h = g.height as int;
    let from = (x as usize, y as usize);
    let d = allow_diagonal;
    let left = if x > 0 && g.cell(x - 1, y) == Cell::Free {
        lemma_free_step_single(g, from, ((x - 1) as usize, y as usize), d);
        seq![((x - 1) as usize, y as usize)]
    } else {
        seq![]
    };
    let right = if x + 1 < w && g.cell(x + 1, y) == Cell::Free {
        lemma_free_step_single(g, from, ((x + 1) as usize, y as usize), d);
        seq![((x + 1) as usize, y as usize)]
    } else {
        seq![]
    };
    let below = if y > 0 && g.cell(x, y - 1) == Cell::Free {
        lemma_free_step_single(g, from, (x as usize, (y - 1) as usize), d);
        seq![(x as usize, (y - 1) as usize)]
    } else {
        seq![]
    };
    let above = if y + 1 < h && g.cell(x, y + 1) == Cell::Free {
        lemma_free_step_single(g, from, (x as usize, (y + 1) as usize), d);
        seq![(x as usize, (y + 1) as usize)]
    } else {
        seq![]
    };
    lemma_all_free_steps_add(g, from, left, right, d);
    lemma_all_free_steps_add(g, from, left + right, below, d);
    lemma_all_free_steps_add(g, from, left + right + below, above, d);
}

proof fn lemma_diagonal_steps(g: GridModel, x: int, y: int)
    requires
        cell_of_grid(g, x, y),
    ensures
        all_free_steps(g, (x as usize, y as usize), g.diagonal_neighbors(x, y), true),
{
    let w = g.width as int;
    let h = g.height as int;
    let from = (x as usize, y as usize);
    let ll = if x > 0 && y > 0 && g.cell(x - 1, y - 1) == Cell::Free {
        lemma_free_step_single(g, from, ((x - 1) as usize, (y - 1) as usize), true);
        seq![((x - 1) as usize, (y - 1) as usize)]
    } else {
        seq![]
    };
    let lr = if x + 1 < w && y > 0 && g.cell(x + 1, y - 1) == Cell::Free {
        lemma_free_step_single(g, from, ((x + 1) as usize, (y - 1) as usize), true);
        seq![((x + 1) as usize, (y - 1) as usize)]
    } else {
        seq![]
    };
    let ul = if x > 0 && y + 1 < h && g.cell(x - 1, y + 1) == Cell::Free {
        lemma_free_step_single(g, from, ((x - 1) as usize, (y + 1) as usize), true);
        seq![((x - 1) as usize, (y + 1) as usize)]
    } else {
        seq![]
    };
    let ur = if x + 1 < w && y + 1 < h && g.cell(x + 1, y + 1) == Cell::Free {
        lemma_free_step_single(g, from, ((x + 1) as usize, (y + 1) as usize), true);
        seq![((x + 1) as usize, (y + 1) as usize)]
    } else {
        seq![]
    };
    lemma_all_free_steps_add(g, from, ll, lr, true);
    lemma_all_free_steps_add(g, from, ll + lr, ul, true);
    lemma_all_free_steps_add(g, from, ll + lr + ul, ur, true);
}

proof fn lemma_neighbors_readable(g: GridModel, x: int, y: int)
    requires
        cell_of_grid(g, x, y),
    ensures
        g.neighbors4_readable(x, y),
        g.neighbors8_readable(x, y),
{
    let w = g.width as int;
    let h = g.height as int;
    if x > 0 {
        lemma_index_in_grid(x - 1, y, w, h);
    }
    if x + 1 < w {
        lemma_index_in_grid(x + 1, y, w, h);
    }
    if y > 0 {
        lemma_index_in_grid(x, y - 1, w, h);
    }
    if y + 1 < h {
        lemma_index_in_grid(x, y + 1, w, h);
    }
    if x > 0 && y > 0 {
        lemma_index_in_grid(x - 1, y - 1, w, h);
    }
    if x + 1 < w && y > 0 {
        lemma_index_in_grid(x + 1, y - 1, w, h);
    }
    if x > 0 && y + 1 < h {
        lemma_index_in_grid(x - 1, y + 1, w, h);
    }
    if x + 1 < w && y + 1 < h {
        lemma_index_in_grid(x + 1, y + 1, w, h);
    }
}

/// The neighbour scan around a cell inside the grid reads only cells of the
/// grid, and finds free cells one allowed step away.
pub proof fn lemma_scanned_neighbors(g: GridModel, x: int, y: int, allow_diagonal: bool)
    requires
        cell_of_grid(g, x, y),
    ensures
        g.neighbors4_readable(x, y),
        g.neighbors8_readable(x, y),
        all_free_steps(g, (x as usize, y as usize), scanned_neighbors(g, x, y, allow_diagonal), allow_diagonal),
{
    lemma_neighbors_readable(g, x, y);
    lemma_neighbors4_steps(g, x, y, allow_diagonal);
    if allow_diagonal {
        lemma_diagonal_steps(g, x, y);
        lemma_all_free_steps_add(g, (x as usize, y as usize), g.neighbors4(x, y), g.diagonal_neighbors(x, y), true);
    }
}

/// The 8-connected neighbours begin with the 4-connected ones, so every
/// 4-connected neighbour is also an 8-connected one.
pub proof fn lemma_neighbors8_extends_neighbors4(g: GridModel, x: int, y: int)
    ensures
        g.neighbors8(x, y).take(g.neighbors4(x, y).len() as int) == g.neighbors4(x, y),
        forall|c: (usize, usize)| g.neighbors4(x, y).contains(c) ==> g.neighbors8(x, y).contains(c),
{
    let n4 = g.neighbors4(x, y);
    assert(g.neighbors8(x, y).take(n4.len() as int) =~= n4);
    assert forall|c: (usize, usize)| n4.contains(c) implies g.neighbors8(x, y).contains(c) by {
        lemma_contains_add(n4, g.diagonal_neighbors(x, y), c);
    }
}

/// Where `c` lies around `from`: 0 to 3 for the cells to the left, right,
/// below and above, 4 to 7 for the lower-left, lower-right, upper-left and
/// upper-right cells, 8 for any other cell.
pub open spec fn direction_rank(from: (usize, usize), c: (usize, usize)) -> int {
    let x = from.0 as int;
    let y = from.1 as int;
    let cx = c.0 as int;
    let cy = c.1 as int;
    if cy == y && cx == x - 1 {
        0
    } else if cy == y && cx == x + 1 {
        1
    } else if cx == x && cy == y - 1 {
        2
    } else if cx == x && cy == y + 1 {
        3
    } else if cx == x - 1 && cy == y - 1 {
        4
    } else if cx == x + 1 && cy == y - 1 {
        5
    } else if cx == x - 1 && cy == y + 1 {
        6
    } else if cx == x + 1 && cy == y + 1 {
        7
    } else {
        8
    }
}

/// The cells of `s` come in strictly increasing direction around `from`;
/// in particular no cell occurs twice.
pub open spec fn in_direction_order(from: (usize, usize), s: Seq<(usize, usize)>) -> bool {
    forall|i: int, j: int|
        0 <= i < j < s.len() ==> direction_rank(from, s[i]) < direction_rank(from, s[j])
}

/// Every cell of `s` lies in the directions `lo` up to, not including, `hi`.
pub open spec fn ranks_within(from: (usize, usize), s: Seq<(usize, usize)>, lo: int, hi: int) -> bool {
    forall|i: int| 0 <= i < s.len() ==> lo <= #[trigger] direction_rank(from, s[i]) < hi
}

proof fn lemma_order_add(from: (usize, usize), a: Seq<(usize, usize)>, b: Seq<(usize, usize)>, lo: int, mid: int, hi: int)
    requires
        in_direction_order(from, a),
        in_direction_order(from, b),
        ranks_within(from, a, lo, mid),
        ranks_within(from, b, mid, hi),
        lo <= mid <= hi,
    ensures
        in_direction_order(from, a + b),
        ranks_within(from, a + b, lo, hi),
{
    assert forall|i: int| 0 <= i < (a + b).len() implies lo <= #[trigger] direction_rank(
        from,
        (a + b)[i],
    ) < hi by {
        if i < a.len() {
            assert((a + b)[i] == a[i]);
            assert(lo <= direction_rank(from, a[i]) < mid);
        } else {
            assert((a + b)[i] == b[i - a.len()]);
            assert(mid <= direction_rank(from, b[i - a.len()]) < hi);
        }
    }
    assert forall|i: int, j: int| 0 <= i < j < (a + b).len() implies direction_rank(
        from,
        (a + b)[i],
    ) < direction_rank(from, (a + b)[j]) by {
        if j < a.len() {
            assert((a + b)[i] == a[i]);
            assert((a + b)[j] == a[j]);
        } else if i < a.len() {
            assert((a + b)[i] == a[i]);
            assert((a + b)[j] == b[j - a.len()]);
            assert(lo <= direction_rank(from, a[i]) < mid);
            assert(mid <= direction_rank(from, b[j - a.len()]) < hi);
        } else {
            assert((a + b)[i] == b[i - a.len()]);
            assert((a + b)[j] == b[j - a.len()]);
        }
    }
}

proof fn lemma_order_single(from: (usize, usize), s: Seq<(usize, usize)>, r: int)
    requires
        s.len() <= 1,
        s.len() == 1 ==> direction_rank(from, s[0]) == r,
    ensures
        in_direction_order(from, s),
        ranks_within(from, s, r, r + 1),
{
}

/// The neighbour scans list their cells in direction order: left, right,
/// below, above, then lower-left, lower-right, upper-left, upper-right. So
/// each neighbour occurs once.
pub proof fn lemma_neighbors_in_direction_order(g: GridModel, x: int, y: int)
    requires
        0 <= x <= usize::MAX,
        0 <= y <= usize::MAX,
        g.width <= usize::MAX,
        g.height <= usize::MAX,
    ensures
        in_direction_order((x as usize, y as usize), g.neighbors4(x, y)),
        in_direction_order((x as usize, y as usize), g.neighbors8(x, y)),
        ranks_within((x as usize, y as usize), g.neighbors4(x, y), 0, 4),
        ranks_within((x as usize, y as usize), g.neighbors8(x, y), 0, 8),
        no_repeats(g.neighbors4(x, y)),
        no_repeats(g.neighbors8(x, y)),
{
    let from = (x as usize, y as usize);
    let w = g.width as int;
    let h = g.height as int;
    let left = if x > 0 && g.cell(x - 1, y) == Cell::Free {
        seq![((x - 1) as usize, y as usize)]
    } else {
        seq![]
    };
    let right = if x + 1 < w && g.cell(x + 1, y) == Cell::Free {
        seq![((x + 1) as usize, y as usize)]
    } else {
        seq![]
    };
    let below = if y > 0 && g.cell(x, y - 1) == Cell::Free {
        seq![(x as usize, (y - 1) as usize)]
    } else {
        seq![]
    };
    let above = if y + 1 < h && g.cell(x, y + 1) == Cell::Free {
        seq![(x as usize, (y + 1) as usize)]
    } else {
        seq![]
    };
    let ll = if x > 0 && y > 0 && g.cell(x - 1, y - 1) == Cell::Free {
        seq![((x - 1) as usize, (y - 1) as usize)]
    } else {
        seq![]
    };
    let lr = if x + 1 < w && y > 0 && g.cell(x + 1, y - 1) == Cell::Free {
        seq![((x + 1) as usize, (y - 1) as usize)]
    } else {
        seq![]
    };
    let ul = if x > 0 && y + 1 < h && g.cell(x - 1, y + 1) == Cell::Free {
        seq![((x - 1) as usize, (y + 1) as usize)]
    } else {
        seq![]
    };
    let ur = if x + 1 < w && y + 1 < h && g.cell(x + 1, y + 1) == Cell::Free {
        seq![((x + 1) as usize, (y + 1) as usize)]
    } else {
        seq![]
    };
    lemma_order_single(from, left, 0);
    lemma_order_single(from, right, 1);
    lemma_order_single(from, below, 2);
    lemma_order_single(from, above, 3);
    lemma_order_single(from, ll, 4);
    lemma_order_single(from, lr, 5);
    lemma_order_single(from, ul, 6);
    lemma_order_single(from, ur, 7);
    lemma_order_add(from, left, right, 0, 1, 2);
    lemma_order_add(from, left + right, below, 0, 2, 3);
    lemma_order_add(from, left + right + below, above, 0, 3, 4);
    lemma_order_add(from, ll, lr, 4, 5, 6);
    lemma_order_add(from, ll + lr, ul, 4, 6, 7);
    lemma_order_add(from, ll + lr + ul, ur, 4, 7, 8);
    let n4 = g.neighbors4(x, y);
    let dn = g.diagonal_neighbors(x, y);
    assert(n4 == left + right + below + above);
    assert(dn == ll + lr + ul + ur);
    lemma_order_add(from, n4, dn, 0, 4, 8);
    assert(g.neighbors8(x, y) == n4 + dn);
    lemma_order_gives_no_repeats(from, n4);
    lemma_order_gives_no_repeats(from, n4 + dn);
}

/// The neighbour list of `(x, y)` comes in direction order, each cell once,
/// and inside the grid it holds exactly the free cells one allowed step away.
pub proof fn lemma_neighbor_list(g: GridModel, x: int, y: int, allow_diagonal: bool)
    requires
        g.wf(),
        0 <= x <= usize::MAX,
        0 <= y <= usize::MAX,
        g.width <= usize::MAX,
        g.height <= usize::MAX,
    ensures
        ({
            let n = scanned_neighbors(g, x, y, allow_diagonal);
            let from = (x as usize, y as usize);
            &&& in_direction_order(from, n)
            &&& ranks_within(from, n, 0, if allow_diagonal { 8 } else { 4 })
            &&& no_repeats(n)
            &&& x < g.width && y < g.height ==> forall|c: (usize, usize)|
                n.contains(c) <==> free_step(g, from, c, allow_diagonal)
        }),
{
    let n = scanned_neighbors(g, x, y, allow_diagonal);
    let from = (x as usize, y as usize);
    lemma_neighbors_in_direction_order(g, x, y);
    if x < g.width && y < g.height {
        lemma_scanned_neighbors(g, x, y, allow_diagonal);
        assert forall|c: (usize, usize)| n.contains(c) <==> free_step(g, from, c, allow_diagonal) by {
            if free_step(g, from, c, allow_diagonal) {
                lemma_step_is_scanned(g, x, y, c, allow_diagonal);
            }
            if n.contains(c) {
                let m = choose|m: int| 0 <= m < n.len() && n[m] == c;
                assert(free_step(g, from, n[m], allow_diagonal));
            }
        }
    }
}

/// Cells in strictly increasing direction are distinct.
pub proof fn lemma_order_gives_no_repeats(from: (usize, usize), s: Seq<(usize, usize)>)
    requires
        in_direction_order(from, s),
    ensures
        no_repeats(s),
{
    assert forall|i: int, j: int| 0 <= i < j < s.len() implies s[i] != s[j] by {
        assert(direction_rank(from, s[i]) < direction_rank(from, s[j]));
    }
}

/// Coordinates of an index inside a `width` by `height` grid lie in the
/// grid, and index back to it.
pub proof fn lemma_coords_in_grid(i: int, width: int, height: int)
    requires
        0 <= i < width * height,
        0 < width <= usize::MAX,
        height <= usize::MAX,
    ensures
        0 <= i % width < width,
        0 <= i / width < height,
        (i / width) * width + i % width == i,
        coords(i, width).0 == i % width,
        coords(i, width).1 == i / width,
{
    lemma_fundamental_div_mod(i, width);
    assert(0 <= i / width < height) by (nonlinear_arith)
        requires
            i == width * (i / width) + i % width,
            0 <= i % width < width,
            0 <= i < width * height,
            width > 0,
    ;
    assert((i / width) * width == width * (i / width)) by (nonlinear_arith);
}

/// The coordinates of the row-major index of `(x, y)` are `(x, y)`.
pub proof fn lemma_coords_of_index(x: int, y: int, width: int)
    requires
        0 <= x < width,
        0 <= y <= usize::MAX,
    ensures
        coords(y * width + x, width) == (x as usize, y as usize),
        (y * width + x) % width == x,
        (y * width + x) / width == y,
{
    lemma_fundamental_div_mod_converse(y * width + x, width, y, x);
    assert(y * width + x >= 0) by (nonlinear_arith)
        requires
            0 <= x < width,
            0 <= y,
    ;
}

/// The nodes of the cells of `cands`, in order, that are neither in `open`
/// nor met earlier in `cands`.
pub open spec fn fresh_nodes(cands: Seq<(usize, usize)>, open: Seq<usize>, width: int) -> Seq<
    usize,
>
    decreases cands.len(),
{
    if cands.len() == 0 {
        seq![]
    } else {
        let rest = fresh_nodes(cands.drop_last(), open, width);
        let c = cands.last();
        let i = (c.1 * width + c.0) as usize;
        if open.contains(i) || rest.contains(i) {
            rest
        } else {
            rest.push(i)
        }
    }
}

/// No node occurs twice in `s`.
pub open spec fn distinct_nodes(s: Seq<usize>) -> bool {
    forall|i: int, j: int| 0 <= i < j < s.len() ==> s[i] != s[j]
}

/// Some cell of `cands` has the node `x` in a grid of the given width.
pub open spec fn has_node(cands: Seq<(usize, usize)>, x: usize, width: int) -> bool {
    exists|j: int| 0 <= j < cands.len() && (cands[j].1 * width + cands[j].0) as usize == x
}

/// The fresh nodes are the nodes of the cells of `cands` that are not in
/// `open`, each once.
pub proof fn lemma_fresh_nodes(cands: Seq<(usize, usize)>, open: Seq<usize>, width: int)
    ensures
        distinct_nodes(fresh_nodes(cands, open, width)),
        forall|x: usize|
            #[trigger] fresh_nodes(cands, open, width).contains(x) <==> (!open.contains(x)
                && has_node(cands, x, width)),
    decreases cands.len(),
{
    if cands.len() > 0 {
        let d = cands.drop_last();
        lemma_fresh_nodes(d, open, width);
        let rest = fresh_nodes(d, open, width);
        let c = cands.last();
        let i = (c.1 * width + c.0) as usize;
        let f = fresh_nodes(cands, open, width);
        assert forall|x: usize| #[trigger] f.contains(x) <==> (!open.contains(x) && has_node(cands, x, width)) by {
            lemma_contains_push(rest, i, x);
            if has_node(d, x, width) {
                let j = choose|j: int| 0 <= j < d.len() && (d[j].1 * width + d[j].0) as usize == x;
                assert(cands[j] == d[j]);
            }
            if has_node(cands, x, width) {
                let j = choose|j: int| 0 <= j < cands.len() && (cands[j].1 * width + cands[j].0) as usize == x;
                if j < d.len() {
                    assert(cands[j] == d[j]);
                    assert(has_node(d, x, width));
                }
            }
            if x == i {
                assert(cands[cands.len() - 1] == c);
            }
        }
        if !(open.contains(i) || rest.contains(i)) {
            assert forall|a: int, b: int| 0 <= a < b < f.len() implies f[a] != f[b] by {
                if b == rest.len() {
                    assert(f[a] == rest[a]);
                    assert(rest.contains(rest[a]));
                } else {
                    assert(f[a] == rest[a]);
                    assert(f[b] == rest[b]);
                }
            }
        }
    }
}

/// `came_from` with every node of `fresh` linked to `parent`.
pub open spec fn linked(came_from: Seq<Option<usize>>, fresh: Seq<usize>, parent: usize) -> Seq<
    Option<usize>,
> {
    Seq::new(
        came_from.len(),
        |i: int|
            if fresh.contains(i as usize) {
                Some(parent)
            } else {
                came_from[i]
            },
    )
}

proof fn lemma_contains_add<A>(a: Seq<A>, b: Seq<A>, x: A)
    ensures
        (a + b).contains(x) <==> a.contains(x) || b.contains(x),
{
    if a.contains(x) {
        let i = choose|i: int| 0 <= i < a.len() && a[i] == x;
        assert((a + b)[i] == x);
    }
    if b.contains(x) {
        let i = choose|i: int| 0 <= i < b.len() && b[i] == x;
        assert((a + b)[a.len() + i] == x);
    }
    if (a + b).contains(x) {
        let i = choose|i: int| 0 <= i < (a + b).len() && (a + b)[i] == x;
        if i < a.len() {
            assert(a[i] == x);
        } else {
            assert(b[i - a.len()] == x);
        }
    }
}

proof fn lemma_contains_push<A>(a: Seq<A>, v: A, x: A)
    ensures
        a.push(v).contains(x) <==> a.contains(x) || x == v,
{
    if a.contains(x) {
        let i = choose|i: int| 0 <= i < a.len() && a[i] == x;
        assert(a.push(v)[i] == x);
    }
    if x == v {
        assert(a.push(v)[a.len() as int] == x);
    }
    if a.push(v).contains(x) {
        let i = choose|i: int| 0 <= i < a.push(v).len() && a.push(v)[i] == x;
        if i < a.len() {
            assert(a[i] == x);
        }
    }
}

/// The cells that `unclosed` keeps are cells of `nbrs` whose nodes are not
/// closed, and it keeps every such cell.
proof fn lemma_unclosed(nbrs: Seq<(usize, usize)>, closed: Seq<bool>, width: int)
    ensures
        forall|j: int|
            0 <= j < unclosed(nbrs, closed, width).len() ==> {
                let c = #[trigger] unclosed(nbrs, closed, width)[j];
                &&& nbrs.contains(c)
                &&& !closed[c.1 * width + c.0]
            },
        forall|m: int|
            0 <= m < nbrs.len() && !closed[nbrs[m].1 * width + nbrs[m].0] ==> unclosed(
                nbrs,
                closed,
                width,
            ).contains(#[trigger] nbrs[m]),
    decreases nbrs.len(),
{
    if nbrs.len() > 0 {
        let d = nbrs.drop_last();
        lemma_unclosed(d, closed, width);
        let rest = unclosed(d, closed, width);
        let u = unclosed(nbrs, closed, width);
        let c = nbrs.last();
        assert forall|j: int| 0 <= j < u.len() implies {
            let e = #[trigger] u[j];
            &&& nbrs.contains(e)
            &&& !closed[e.1 * width + e.0]
        } by {
            if j < rest.len() {
                assert(u[j] == rest[j]);
                let m = choose|m: int| 0 <= m < d.len() && d[m] == rest[j];
                assert(nbrs[m] == d[m]);
            } else {
                assert(u[j] == c);
                assert(nbrs[nbrs.len() - 1] == c);
            }
        }
        assert forall|m: int|
            0 <= m < nbrs.len() && !closed[nbrs[m].1 * width + nbrs[m].0] implies u.contains(
            #[trigger] nbrs[m],
        ) by {
            if m < d.len() {
                assert(d[m] == nbrs[m]);
                assert(rest.contains(nbrs[m]));
                if !closed[c.1 * width + c.0] {
                    lemma_contains_push(rest, c, nbrs[m]);
                }
            } else {
                lemma_contains_push(rest, c, nbrs[m]);
            }
        }
    }
}

/// `unclosed` keeps the cells it keeps in their order.
pub proof fn lemma_unclosed_in_order(from: (usize, usize), nbrs: Seq<(usize, usize)>, closed: Seq<bool>, width: int)
    requires
        in_direction_order(from, nbrs),
    ensures
        in_direction_order(from, unclosed(nbrs, closed, width)),
    decreases nbrs.len(),
{
    if nbrs.len() > 0 {
        let d = nbrs.drop_last();
        let c = nbrs.last();
        assert(in_direction_order(from, d)) by {
            assert forall|i: int, j: int| 0 <= i < j < d.len() implies direction_rank(from, d[i])
                < direction_rank(from, d[j]) by {
                assert(d[i] == nbrs[i]);
                assert(d[j] == nbrs[j]);
            }
        }
        lemma_unclosed_in_order(from, d, closed, width);
        lemma_unclosed(d, closed, width);
        let rest = unclosed(d, closed, width);
        if !closed[c.1 * width + c.0] {
            let u = rest.push(c);
            assert forall|i: int, j: int| 0 <= i < j < u.len() implies direction_rank(from, u[i])
                < direction_rank(from, u[j]) by {
                if j == rest.len() {
                    let e = rest[i];
                    assert(d.contains(e));
                    let m = choose|m: int| 0 <= m < d.len() && d[m] == e;
                    assert(nbrs[m] == e);
                    assert(u[j] == nbrs[nbrs.len() - 1]);
                } else {
                    assert(u[i] == rest[i]);
                    assert(u[j] == rest[j]);
                }
            }
        }
    }
}

/// The candidates of an expansion around `(x, y)` come in direction order,
/// each once, and are exactly the free cells one allowed step away whose
/// nodes are not closed.
pub proof fn lemma_candidates_exact(g: GridModel, x: int, y: int, allow_diagonal: bool, closed: Seq<bool>)
    requires
        cell_of_grid(g, x, y),
    ensures
        ({
            let cands = unclosed(scanned_neighbors(g, x, y, allow_diagonal), closed, g.width as int);
            let from = (x as usize, y as usize);
            &&& in_direction_order(from, cands)
            &&& no_repeats(cands)
            &&& forall|c: (usize, usize)|
                cands.contains(c) <==> (free_step(g, from, c, allow_diagonal) && !closed[g.index(
                    c.0 as int,
                    c.1 as int,
                )])
        }),
{
    let from = (x as usize, y as usize);
    let w = g.width as int;
    let nbrs = scanned_neighbors(g, x, y, allow_diagonal);
    let cands = unclosed(nbrs, closed, w);
    lemma_neighbors_in_direction_order(g, x, y);
    lemma_unclosed_in_order(from, nbrs, closed, w);
    lemma_order_gives_no_repeats(from, cands);
    lemma_scanned_neighbors(g, x, y, allow_diagonal);
    lemma_unclosed(nbrs, closed, w);
    assert forall|c: (usize, usize)| cands.contains(c) <==> (free_step(g, from, c, allow_diagonal)
        && !closed[g.index(c.0 as int, c.1 as int)]) by {
        if cands.contains(c) {
            let j = choose|j: int| 0 <= j < cands.len() && cands[j] == c;
            assert(nbrs.contains(cands[j]));
            let m = choose|m: int| 0 <= m < nbrs.len() && nbrs[m] == c;
            assert(free_step(g, from, nbrs[m], allow_diagonal));
        }
        if free_step(g, from, c, allow_diagonal) && !closed[g.index(c.0 as int, c.1 as int)] {
            lemma_step_is_scanned(g, x, y, c, allow_diagonal);
            let m = choose|m: int| 0 <= m < nbrs.len() && nbrs[m] == c;
            assert(!closed[nbrs[m].1 * w + nbrs[m].0]);
        }
    }
}

/// Every free cell of the grid one allowed step away from `(x, y)` is among
/// the neighbours that the search scans around `(x, y)`.
pub proof fn lemma_step_is_scanned(g: GridModel, x: int, y: int, c: (usize, usize), allow_diagonal: bool)
    requires
        cell_of_grid(g, x, y),
        free_step(g, (x as usize, y as usize), c, allow_diagonal),
    ensures
        scanned_neighbors(g, x, y, allow_diagonal).contains(c),
{
    let w = g.width as int;
    let h = g.height as int;
    let left = if x > 0 && g.cell(x - 1, y) == Cell::Free {
        seq![((x - 1) as usize, y as usize)]
    } else {
        seq![]
    };
    let right = if x + 1 < w && g.cell(x + 1, y) == Cell::Free {
        seq![((x + 1) as usize, y as usize)]
    } else {
        seq![]
    };
    let below = if y > 0 && g.cell(x, y - 1) == Cell::Free {
        seq![(x as usize, (y - 1) as usize)]
    } else {
        seq![]
    };
    let above = if y + 1 < h && g.cell(x, y + 1) == Cell::Free {
        seq![(x as usize, (y + 1) as usize)]
    } else {
        seq![]
    };
    let ll = if x > 0 && y > 0 && g.cell(x - 1, y - 1) == Cell::Free {
        seq![((x - 1) as usize, (y - 1) as usize)]
    } else {
        seq![]
    };
    let lr = if x + 1 < w && y > 0 && g.cell(x + 1, y - 1) == Cell::Free {
        seq![((x + 1) as usize, (y - 1) as usize)]
    } else {
        seq![]
    };
    let ul = if x > 0 && y + 1 < h && g.cell(x - 1, y + 1) == Cell::Free {
        seq![((x - 1) as usize, (y + 1) as usize)]
    } else {
        seq![]
    };
    let ur = if x + 1 < w && y + 1 < h && g.cell(x + 1, y + 1) == Cell::Free {
        seq![((x + 1) as usize, (y + 1) as usize)]
    } else {
        seq![]
    };
    let n4 = g.neighbors4(x, y);
    let dn = g.diagonal_neighbors(x, y);
    assert(n4 == left + right + below + above);
    assert(dn == ll + lr + ul + ur);
    lemma_contains_add(left, right, c);
    lemma_contains_add(left + right, below, c);
    lemma_contains_add(left + right + below, above, c);
    lemma_contains_add(ll, lr, c);
    lemma_contains_add(ll + lr, ul, c);
    lemma_contains_add(ll + lr + ul, ur, c);
    lemma_contains_add(n4, dn, c);
    let cx = c.0 as int;
    let cy = c.1 as int;
    if cy == y {
        if cx == x - 1 {
            assert(left[0] == c);
        } else {
            assert(right[0] == c);
        }
    } else if cx == x {
        if cy == y - 1 {
            assert(below[0] == c);
        } else {
            assert(above[0] == c);
        }
    } else if cy == y - 1 {
        if cx == x - 1 {
            assert(ll[0] == c);
        } else {
            assert(lr[0] == c);
        }
    } else {
        if cx == x - 1 {
            assert(ul[0] == c);
        } else {
            assert(ur[0] == c);
        }
    }
}

/// A* planner.
pub struct AStarPlanner {
    pub allow_diagonal: bool,
}

impl AStarPlanner {
    pub fn new(allow_diagonal: bool) -> (planner: AStarPlanner)
        ensures
            planner.allow_diagonal == allow_diagonal,
    {
        AStarPlanner { allow_diagonal }
    }
}

/// Outcome of expanding a node of the open set.
#[derive(Debug)]
pub enum Expansion {
    /// The node is the goal; the path from the start to it.
    Reached(Vec<(usize, usize)>),
    /// The node is now closed and its candidate neighbours are ready to be relaxed.
    Expanded,
}

/// Search state of A* on a grid: the open set, the closed set and the parent
/// links. Which open node to expand next, and which candidates that are
/// already open get the expanded node as their new parent, are left to the
/// caller, who scores the nodes. Whatever the caller picks, every path the
/// search returns is a walk over free cells from the start to the goal, and
/// once the open set runs out no such walk exists.
pub struct AStarSearch<'a> {
    grid: &'a Grid,
    allow_diagonal: bool,
    start_point: (usize, usize),
    goal: (usize, usize),
    start: usize,
    open: Vec<usize>,
    closed: Vec<bool>,
    came_from: Vec<Option<usize>>,
    current: usize,
    candidates: Vec<(usize, usize)>,
    depth: Ghost<Seq<nat>>,
}

impl<'a> AStarSearch<'a> {
    /// The grid searched.
    pub closed spec fn grid_model(&self) -> GridModel {
        self.grid@
    }

    /// Whether diagonal steps are allowed.
    pub closed spec fn diagonal(&self) -> bool {
        self.allow_diagonal
    }

    /// The start coordinates given to the search.
    pub closed spec fn start_point(&self) -> (usize, usize) {
        self.start_point
    }

    /// The goal coordinates.
    pub closed spec fn goal_point(&self) -> (usize, usize) {
        self.goal
    }

    /// Row-major index of the start node.
    pub closed spec fn start_node(&self) -> int {
        self.start as int
    }

    /// The open set, in insertion order.
    pub closed spec fn open_nodes(&self) -> Seq<usize> {
        self.open@
    }

    /// Which nodes are closed.
    pub closed spec fn closed_nodes(&self) -> Seq<bool> {
        self.closed@
    }

    /// The parent link of each node.
    pub closed spec fn came_from_links(&self) -> Seq<Option<usize>> {
        self.came_from@
    }

    /// The node expanded last.
    pub closed spec fn current_node(&self) -> int {
        self.current as int
    }

    /// The candidate neighbours of the node expanded last.
    pub closed spec fn candidate_cells(&self) -> Seq<(usize, usize)> {
        self.candidates@
    }

    /// Both states search the same grid between the same cells, with the same
    /// kind of steps.
    pub open spec fn same_problem(&self, other: &Self) -> bool {
        &&& self.grid_model() == other.grid_model()
        &&& self.diagonal() == other.diagonal()
        &&& self.start_point() == other.start_point()
        &&& self.goal_point() == other.goal_point()
        &&& self.start_node() == other.start_node()
    }

    /// Number of steps from the start along parent links, for nodes that the
    /// search has reached.
    closed spec fn node_depth(&self, c: int) -> nat {
        if self.closed@[c] {
            self.depth@[c]
        } else if c == self.start {
            0
        } else {
            self.depth@[self.came_from@[c].unwrap() as int] + 1
        }
    }

    /// The node is the start or has a parent.
    closed spec fn rooted(&self, c: int) -> bool {
        c == self.start || self.came_from@[c] is Some
    }

    /// The parent of `i` is closed and one allowed step away from `i`, and
    /// `i` is a free node other than the start.
    closed spec fn parent_ok(&self, i: int) -> bool {
        let g = self.grid@;
        let p = self.came_from@[i].unwrap() as int;
        &&& p < g.width * g.height
        &&& self.closed@[p]
        &&& i != self.start
        &&& g.cells[i] == Cell::Free
        &&& step_ok(coords(p, g.width as int), coords(i, g.width as int), self.allow_diagonal)
    }

    /// The closed node `i` lies one step deeper than its parent.
    closed spec fn closed_ok(&self, i: int) -> bool {
        if i == self.start {
            self.depth@[i] == 0
        } else {
            &&& self.came_from@[i] is Some
            &&& self.depth@[i] == self.depth@[self.came_from@[i].unwrap() as int] + 1
        }
    }

    /// The cell `e` is closed, open, or a candidate.
    closed spec fn covered(&self, e: (usize, usize)) -> bool {
        let i = self.grid@.index(e.0 as int, e.1 as int);
        ||| self.closed@[i]
        ||| self.open@.contains(i as usize)
        ||| self.candidates@.contains(e)
    }

    /// Every neighbour scanned around the closed node `c` is covered.
    closed spec fn frontier_ok(&self, c: int) -> bool {
        let w = self.grid@.width as int;
        let nbrs = scanned_neighbors(self.grid@, c % w, c / w, self.allow_diagonal);
        forall|m: int| 0 <= m < nbrs.len() ==> self.covered(#[trigger] nbrs[m])
    }

    /// Sizes of the state, and the facts about the start node.
    closed spec fn dims_ok(&self) -> bool {
        let g = self.grid@;
        let n = g.width * g.height;
        &&& g.cells.len() == n
        &&& g.width <= usize::MAX
        &&& g.height <= usize::MAX
        &&& n <= usize::MAX
        &&& self.closed@.len() == n
        &&& self.came_from@.len() == n
        &&& self.depth@.len() == n
        &&& self.start < n
        &&& self.start == g.index(self.start_point.0 as int, self.start_point.1 as int)
        &&& g.cells[self.start as int] == Cell::Free
        &&& self.came_from@[self.start as int] is None
        &&& !self.closed@[self.start as int] ==> self.open@.contains(self.start)
    }

    /// Until the start is closed, no node is.
    #[verifier::opaque]
    closed spec fn pristine_ok(&self) -> bool {
        !self.closed@[self.start as int] ==> forall|i: int|
            0 <= i < self.closed@.len() ==> !(#[trigger] self.closed@[i])
    }

    /// Open nodes are distinct, not closed, and reached from the start.
    #[verifier::opaque]
    closed spec fn open_ok(&self) -> bool {
        let n = self.closed@.len();
        &&& forall|k: int|
            0 <= k < self.open@.len() ==> {
                let o = #[trigger] self.open@[k];
                &&& o < n
                &&& !self.closed@[o as int]
                &&& self.rooted(o as int)
            }
        &&& forall|k: int, l: int|
            0 <= k < l < self.open@.len() ==> self.open@[k] != self.open@[l]
    }

    /// Every parent link leads from a closed node, one allowed step, to a
    /// free node.
    #[verifier::opaque]
    closed spec fn links_ok(&self) -> bool {
        forall|i: int|
            0 <= i < self.closed@.len() && (#[trigger] self.came_from@[i]) is Some ==> self.parent_ok(i)
    }

    /// Closed nodes lie one step deeper than their parents.
    #[verifier::opaque]
    closed spec fn depths_ok(&self) -> bool {
        forall|i: int| 0 <= i < self.closed@.len() && #[trigger] self.closed@[i] ==> self.closed_ok(i)
    }

    /// Candidates are free, not closed, and one allowed step from the closed
    /// node expanded last.
    #[verifier::opaque]
    closed spec fn candidates_ok(&self) -> bool {
        let g = self.grid@;
        &&& self.candidates@.len() > 0 ==> {
            &&& self.current < self.closed@.len()
            &&& self.closed@[self.current as int]
            &&& self.closed@[self.start as int]
        }
        &&& forall|j: int|
            0 <= j < self.candidates@.len() ==> {
                let c = #[trigger] self.candidates@[j];
                &&& free_step(g, coords(self.current as int, g.width as int), c, self.allow_diagonal)
                &&& !self.closed@[g.index(c.0 as int, c.1 as int)]
            }
    }

    /// The goal is never closed.
    #[verifier::opaque]
    closed spec fn goal_ok(&self) -> bool {
        forall|i: int|
            0 <= i < self.closed@.len() && #[trigger] self.closed@[i] ==> coords(
                i,
                self.grid@.width as int,
            ) != self.goal
    }

    /// The neighbours of every closed node are covered.
    #[verifier::opaque]
    closed spec fn frontier_all(&self) -> bool {
        forall|i: int| 0 <= i < self.closed@.len() && #[trigger] self.closed@[i] ==> self.frontier_ok(i)
    }

    /// Well-formedness of the search state, while candidates may still wait
    /// to enter the open set.
    closed spec fn wf_core(&self) -> bool {
        &&& self.dims_ok()
        &&& self.pristine_ok()
        &&& self.open_ok()
        &&& self.links_ok()
        &&& self.depths_ok()
        &&& self.candidates_ok()
        &&& self.goal_ok()
        &&& self.frontier_all()
    }

    /// Every candidate has entered the open set.
    #[verifier::opaque]
    closed spec fn settled(&self) -> bool {
        forall|j: int|
            0 <= j < self.candidates@.len() ==> self.open@.contains(
                self.grid@.index(#[trigger] self.candidates@[j].0 as int, self.candidates@[j].1 as int) as usize,
            )
    }

    /// Well-formedness of the search state.
    pub closed spec fn wf(&self) -> bool {
        &&& self.wf_core()
        &&& self.settled()
    }

    /// Start a search from `start` towards `goal`; `None` when either cell is
    /// blocked (the goal is read only when the start is free).
    pub fn new(grid: &'a Grid, allow_diagonal: bool, start: (usize, usize), goal: (usize, usize)) -> (search: Option<AStarSearch<'a>>)
        requires
            grid@.wf(),
            grid@.in_cells(start.0 as int, start.1 as int),
            grid@.cell(start.0 as int, start.1 as int) == Cell::Free ==> grid@.in_cells(
                goal.0 as int,
                goal.1 as int,
            ),
        ensures
            search is None <==> (grid@.cell(start.0 as int, start.1 as int) == Cell::Blocked
                || grid@.cell(goal.0 as int, goal.1 as int) == Cell::Blocked),
            search matches Some(s) ==> {
                let n = grid@.width * grid@.height;
                &&& s.wf()
                &&& s.grid_model() == grid@
                &&& s.diagonal() == allow_diagonal
                &&& s.start_point() == start
                &&& s.goal_point() == goal
                &&& s.start_node() == grid@.index(start.0 as int, start.1 as int)
                &&& s.open_nodes() == seq![s.start_node() as usize]
                &&& s.closed_nodes() == Seq::new(n, |i: int| false)
                &&& s.came_from_links() == Seq::new(n, |i: int| None::<usize>)
                &&& s.candidate_cells() == Seq::<(usize, usize)>::empty()
            },
    {
        if grid.get(start.0, start.1) == Cell::Blocked || grid.get(goal.0, goal.1) == Cell::Blocked {
            return None;
        }
        let total = grid.cells.len();
        let si = grid.index_of(start.0, start.1);
        let mut closed: Vec<bool> = Vec::new();
        let mut came_from: Vec<Option<usize>> = Vec::new();
        let mut i: usize = 0;
        while i < total
            invariant
                i <= total,
                closed@ == Seq::new(i as nat, |k: int| false),
                came_from@ == Seq::new(i as nat, |k: int| None::<usize>),
            decreases total - i,
        {
            closed.push(false);
            came_from.push(None);
            i = i + 1;
            assert(closed@ =~= Seq::new(i as nat, |k: int| false));
            assert(came_from@ =~= Seq::new(i as nat, |k: int| None::<usize>));
        }
        let mut open: Vec<usize> = Vec::new();
        open.push(si);
        let search = AStarSearch {
            grid,
            allow_diagonal,
            start_point: start,
            goal,
            start: si,
            open,
            closed,
            came_from,
            current: si,
            candidates: Vec::new(),
            depth: Ghost(Seq::new(total as nat, |k: int| 0nat)),
        };
        assert(search.open@ =~= seq![si]);
        assert(search.open@[0] == si);
        proof {
            reveal(AStarSearch::pristine_ok);
            reveal(AStarSearch::open_ok);
            reveal(AStarSearch::links_ok);
            reveal(AStarSearch::depths_ok);
            reveal(AStarSearch::candidates_ok);
            reveal(AStarSearch::goal_ok);
            reveal(AStarSearch::frontier_all);
            reveal(AStarSearch::settled);
        }
        Some(search)
    }

    /// Row-major index of the start node.
    pub fn start_index(&self) -> (i: usize)
        ensures
            i == self.start_node(),
    {
        self.start
    }

    /// The open set, in insertion order.
    pub fn open(&self) -> (o: &Vec<usize>)
        ensures
            o@ == self.open_nodes(),
    {
        &self.open
    }

    /// The candidate neighbours of the node expanded last.
    pub fn candidates(&self) -> (c: &Vec<(usize, usize)>)
        ensures
            c@ == self.candidate_cells(),
    {
        &self.candidates
    }


    /// Whether `ni` is in the open set.
    fn open_contains(&self, ni: usize) -> (r: bool)
        ensures
            r == self.open@.contains(ni),
    {
        let mut q: usize = 0;
        while q < self.open.len()
            invariant
                q <= self.open@.len(),
                forall|k2: int| 0 <= k2 < q ==> self.open@[k2] != ni,
            decreases self.open@.len() - q,
        {
            if self.open[q] == ni {
                return true;
            }
            q = q + 1;
        }
        false
    }

    /// `t` is `s` with the open node at position `k` closed, and with the
    /// neighbours of that node that are not closed as the candidates.
    closed spec fn close_step(s: Self, t: Self, k: int) -> bool {
        let g = s.grid@;
        let w = g.width as int;
        let cur = s.open@[k] as int;
        &&& 0 <= k < s.open@.len()
        &&& coords(cur, w) != s.goal
        &&& t.grid@ == g
        &&& t.allow_diagonal == s.allow_diagonal
        &&& t.start_point == s.start_point
        &&& t.goal == s.goal
        &&& t.start == s.start
        &&& t.open@ == s.open@.remove(k)
        &&& t.closed@ == s.closed@.update(cur, true)
        &&& t.came_from@ == s.came_from@
        &&& t.depth@ == s.depth@.update(cur, s.node_depth(cur))
        &&& t.current == s.open@[k]
        &&& t.candidates@ == unclosed(
            scanned_neighbors(g, cur % w, cur / w, s.allow_diagonal),
            t.closed@,
            w,
        )
    }

    /// Facts about the node that a close step closes: it was an open node
    /// reached from the start, the start is closed afterwards, and every
    /// other open node stays open.
    proof fn lemma_close_facts(s: Self, t: Self, k: int)
        requires
            s.wf(),
            Self::close_step(s, t, k),
        ensures
            ({
                let cur = s.open@[k] as int;
                let n = s.grid@.width * s.grid@.height;
                &&& 0 <= cur < n
                &&& !s.closed@[cur]
                &&& s.rooted(cur)
                &&& cur != s.start ==> s.parent_ok(cur)
                &&& t.closed@[s.start as int]
                &&& forall|q: int|
                    0 <= q < s.open@.len() && s.open@[q] != cur ==> t.open@.contains(
                        #[trigger] s.open@[q],
                    )
            }),
    {
        reveal(AStarSearch::open_ok);
        reveal(AStarSearch::links_ok);
        reveal(AStarSearch::pristine_ok);
        let cur = s.open@[k] as int;
        if cur != s.start {
            assert(s.parent_ok(cur));
        }
        assert forall|q: int| 0 <= q < s.open@.len() && s.open@[q] != cur implies t.open@.contains(
            #[trigger] s.open@[q],
        ) by {
            if q < k {
                assert(t.open@[q] == s.open@[q]);
            } else {
                assert(t.open@[q - 1] == s.open@[q]);
            }
        }
    }

    proof fn lemma_close_open(s: Self, t: Self, k: int)
        requires
            s.wf(),
            Self::close_step(s, t, k),
        ensures
            t.dims_ok(),
            t.pristine_ok(),
            t.open_ok(),
    {
        Self::lemma_close_facts(s, t, k);
        reveal(AStarSearch::open_ok);
        reveal(AStarSearch::pristine_ok);
        let n = s.grid@.width * s.grid@.height;
        assert forall|k2: int, l: int| 0 <= k2 < l < t.open@.len() implies t.open@[k2] != t.open@[l] by {
            let k2o = if k2 < k { k2 } else { k2 + 1 };
            let lo = if l < k { l } else { l + 1 };
            assert(t.open@[k2] == s.open@[k2o]);
            assert(t.open@[l] == s.open@[lo]);
        }
        assert forall|k2: int| 0 <= k2 < t.open@.len() implies {
            let o = #[trigger] t.open@[k2];
            &&& o < n
            &&& !t.closed@[o as int]
            &&& t.rooted(o as int)
        } by {
            let k2o = if k2 < k { k2 } else { k2 + 1 };
            assert(t.open@[k2] == s.open@[k2o]);
            assert(s.open@[k2o] != s.open@[k]);
        }
    }

    proof fn lemma_close_links(s: Self, t: Self, k: int)
        requires
            s.wf(),
            Self::close_step(s, t, k),
        ensures
            t.links_ok(),
    {
        Self::lemma_close_facts(s, t, k);
        reveal(AStarSearch::links_ok);
        assert forall|i: int|
            0 <= i < t.closed@.len() && (#[trigger] t.came_from@[i]) is Some implies t.parent_ok(i) by {
            assert(s.parent_ok(i));
        }
    }

    proof fn lemma_close_depths(s: Self, t: Self, k: int)
        requires
            s.wf(),
            Self::close_step(s, t, k),
        ensures
            t.depths_ok(),
    {
        Self::lemma_close_facts(s, t, k);
        reveal(AStarSearch::depths_ok);
        reveal(AStarSearch::links_ok);
        let cur = s.open@[k] as int;
        assert forall|i: int| 0 <= i < t.closed@.len() && #[trigger] t.closed@[i] implies t.closed_ok(i) by {
            if i != cur {
                assert(s.closed@[i]);
                assert(s.closed_ok(i));
                if i != s.start {
                    assert(s.parent_ok(i));
                }
            }
        }
    }

    proof fn lemma_close_candidates(s: Self, t: Self, k: int)
        requires
            s.wf(),
            Self::close_step(s, t, k),
        ensures
            t.candidates_ok(),
    {
        Self::lemma_close_facts(s, t, k);
        reveal(AStarSearch::candidates_ok);
        let g = s.grid@;
        let w = g.width as int;
        let cur = s.open@[k] as int;
        assert(w > 0) by (nonlinear_arith)
            requires
                0 <= cur < g.width * g.height,
                w == g.width,
        ;
        lemma_coords_in_grid(cur, w, g.height as int);
        let cx = cur % w;
        let cy = cur / w;
        let nbrs = scanned_neighbors(g, cx, cy, s.allow_diagonal);
        lemma_scanned_neighbors(g, cx, cy, s.allow_diagonal);
        lemma_unclosed(nbrs, t.closed@, w);
        assert forall|j: int| 0 <= j < t.candidates@.len() implies {
            let c = #[trigger] t.candidates@[j];
            &&& free_step(g, coords(t.current as int, w), c, t.allow_diagonal)
            &&& !t.closed@[g.index(c.0 as int, c.1 as int)]
        } by {
            let c = t.candidates@[j];
            let m = choose|m: int| 0 <= m < nbrs.len() && nbrs[m] == c;
            assert(free_step(g, (cx as usize, cy as usize), nbrs[m], s.allow_diagonal));
        }
    }

    proof fn lemma_close_goal(s: Self, t: Self, k: int)
        requires
            s.wf(),
            Self::close_step(s, t, k),
        ensures
            t.goal_ok(),
    {
        Self::lemma_close_facts(s, t, k);
        reveal(AStarSearch::goal_ok);
        assert forall|i: int|
            0 <= i < t.closed@.len() && #[trigger] t.closed@[i] implies coords(i, t.grid@.width as int)
            != t.goal by {
            if i != s.open@[k] as int {
                assert(s.closed@[i]);
            }
        }
    }

    proof fn lemma_close_frontier(s: Self, t: Self, k: int)
        requires
            s.wf(),
            Self::close_step(s, t, k),
        ensures
            t.frontier_all(),
    {
        Self::lemma_close_facts(s, t, k);
        reveal(AStarSearch::frontier_all);
        reveal(AStarSearch::settled);
        let g = s.grid@;
        let w = g.width as int;
        let cur = s.open@[k] as int;
        let nbrs = scanned_neighbors(g, cur % w, cur / w, s.allow_diagonal);
        lemma_unclosed(nbrs, t.closed@, w);
        let n = g.width * g.height;
        assert(w > 0) by (nonlinear_arith)
            requires
                0 <= cur < n,
                n == g.width * g.height,
                w == g.width,
        ;
        assert forall|i: int| 0 <= i < t.closed@.len() && #[trigger] t.closed@[i] implies t.frontier_ok(i) by {
            let nb = scanned_neighbors(g, i % w, i / w, s.allow_diagonal);
            lemma_coords_in_grid(i, w, g.height as int);
            lemma_scanned_neighbors(g, i % w, i / w, s.allow_diagonal);
            assert forall|m: int| 0 <= m < nb.len() implies g.index(
                #[trigger] nb[m].0 as int,
                nb[m].1 as int,
            ) < n by {
                assert(free_step(g, ((i % w) as usize, (i / w) as usize), nb[m], s.allow_diagonal));
                lemma_index_in_grid(nb[m].0 as int, nb[m].1 as int, w, g.height as int);
            }
            if i == cur {
                assert forall|m: int| 0 <= m < nb.len() implies t.covered(#[trigger] nb[m]) by {
                    let e = nb[m];
                    assert(nbrs[m] == e);
                    let ie = g.index(e.0 as int, e.1 as int);
                    if !t.closed@[ie] {
                        assert(!t.closed@[nbrs[m].1 * w + nbrs[m].0]);
                        assert(t.candidates@.contains(e));
                    }
                }
            } else {
                assert(s.closed@[i]);
                assert(s.frontier_ok(i));
                assert forall|m: int| 0 <= m < nb.len() implies t.covered(#[trigger] nb[m]) by {
                    let e = nb[m];
                    let ie = g.index(e.0 as int, e.1 as int);
                    assert(s.covered(e));
                    if s.candidates@.contains(e) {
                        let j = choose|j: int| 0 <= j < s.candidates@.len() && s.candidates@[j] == e;
                        assert(s.open@.contains(
                            g.index(s.candidates@[j].0 as int, s.candidates@[j].1 as int) as usize,
                        ));
                    }
                    if s.open@.contains(ie as usize) && ie != cur {
                        let q = choose|q: int| 0 <= q < s.open@.len() && s.open@[q] == ie as usize;
                        assert(t.open@.contains(s.open@[q]));
                    }
                }
            }
        }
    }

    /// Closing the node at position `k` of the open set, with its unclosed
    /// neighbours as the new candidates, keeps the search well formed.
    proof fn lemma_after_close(s: Self, t: Self, k: int)
        requires
            s.wf(),
            Self::close_step(s, t, k),
        ensures
            t.wf_core(),
    {
        Self::lemma_close_open(s, t, k);
        Self::lemma_close_links(s, t, k);
        Self::lemma_close_depths(s, t, k);
        Self::lemma_close_candidates(s, t, k);
        Self::lemma_close_goal(s, t, k);
        Self::lemma_close_frontier(s, t, k);
    }

    /// Make the node expanded last the parent of candidate `j`, and add the
    /// candidate to the open set when it is not there yet.
    fn attach(&mut self, j: usize)
        requires
            old(self).wf_core(),
            j < old(self).candidates@.len(),
        ensures
            final(self).wf_core(),
            final(self).grid == old(self).grid,
            final(self).allow_diagonal == old(self).allow_diagonal,
            final(self).start_point == old(self).start_point,
            final(self).goal == old(self).goal,
            final(self).start == old(self).start,
            final(self).closed@ == old(self).closed@,
            final(self).current == old(self).current,
            final(self).candidates@ == old(self).candidates@,
            ({
                let c = old(self).candidates@[j as int];
                let ni = old(self).grid@.index(c.0 as int, c.1 as int);
                &&& final(self).came_from@ == old(self).came_from@.update(
                    ni,
                    Some(old(self).current),
                )
                &&& final(self).open@ == if old(self).open@.contains(ni as usize) {
                    old(self).open@
                } else {
                    old(self).open@.push(ni as usize)
                }
            }),
    {
        let ghost g = self.grid@;
        let ghost n = g.width * g.height;
        let (nx, ny) = self.candidates[j];
        let w = self.grid.width();
        proof {
            reveal(AStarSearch::candidates_ok);
            assert(free_step(
                g,
                coords(self.current as int, w as int),
                self.candidates@[j as int],
                self.allow_diagonal,
            ));
            lemma_index_in_grid(nx as int, ny as int, w as int, g.height as int);
            lemma_coords_of_index(nx as int, ny as int, w as int);
        }
        let ni = ny * w + nx;
        let found = self.open_contains(ni);
        self.came_from.set(ni, Some(self.current));
        if !found {
            self.open.push(ni);
            assert(self.open@[old(self).open@.len() as int] == ni);
        }
        proof {
            let s = *old(self);
            assert(!s.closed@[ni as int]) by {
                reveal(AStarSearch::candidates_ok);
            }
            assert(ni != self.start) by {
                reveal(AStarSearch::candidates_ok);
            }
            assert forall|x: usize| s.open@.contains(x) implies self.open@.contains(x) by {
                let q = choose|q: int| 0 <= q < s.open@.len() && s.open@[q] == x;
                assert(self.open@[q] == x);
            }
            assert(self.open@.contains(ni));
            assert(self.dims_ok());
            assert(self.pristine_ok()) by {
                reveal(AStarSearch::pristine_ok);
            }
            assert(self.open_ok()) by {
                reveal(AStarSearch::open_ok);
                assert forall|k2: int| 0 <= k2 < self.open@.len() implies {
                    let o = #[trigger] self.open@[k2];
                    &&& o < n
                    &&& !self.closed@[o as int]
                    &&& self.rooted(o as int)
                } by {
                    if k2 < s.open@.len() {
                        assert(self.open@[k2] == s.open@[k2]);
                    }
                }
                assert forall|k2: int, l: int|
                    0 <= k2 < l < self.open@.len() implies self.open@[k2] != self.open@[l] by {
                    if l == s.open@.len() {
                        assert(s.open@.contains(self.open@[k2]));
                    }
                }
            }
            assert(self.links_ok()) by {
                reveal(AStarSearch::links_ok);
                reveal(AStarSearch::candidates_ok);
                assert forall|i2: int|
                    0 <= i2 < n && (#[trigger] self.came_from@[i2]) is Some implies self.parent_ok(i2) by {
                    if i2 != ni {
                        assert(s.parent_ok(i2));
                    }
                }
            }
            assert(self.depths_ok()) by {
                reveal(AStarSearch::depths_ok);
                assert forall|i2: int| 0 <= i2 < n && #[trigger] self.closed@[i2] implies self.closed_ok(i2) by {
                    assert(s.closed_ok(i2));
                }
            }
            assert(self.candidates_ok()) by {
                reveal(AStarSearch::candidates_ok);
            }
            assert(self.goal_ok()) by {
                reveal(AStarSearch::goal_ok);
            }
            assert(self.frontier_all()) by {
                reveal(AStarSearch::frontier_all);
                assert forall|i: int| 0 <= i < n && #[trigger] self.closed@[i] implies self.frontier_ok(i) by {
                    assert(s.frontier_ok(i));
                    let nb = scanned_neighbors(g, i % (w as int), i / (w as int), self.allow_diagonal);
                    assert forall|m: int| 0 <= m < nb.len() implies self.covered(#[trigger] nb[m]) by {
                        assert(s.covered(nb[m]));
                    }
                }
            }
        }
    }

    /// Expand the node at position `k` of the open set. When it is the goal,
    /// return the path to it and leave the search as it is. Else close it,
    /// take its free neighbours that are not closed as the candidates, and
    /// open each candidate that is not open yet, with the node as its parent.
    #[verifier::rlimit(40)]
    pub fn expand(&mut self, k: usize) -> (e: Expansion)
        requires
            old(self).wf(),
            k < old(self).open_nodes().len(),
        ensures
            final(self).wf(),
            final(self).same_problem(&*old(self)),
            ({
                let s = *old(self);
                let t = *final(self);
                let g = s.grid_model();
                let w = g.width as int;
                let cur = s.open_nodes()[k as int] as int;
                let rest = s.open_nodes().remove(k as int);
                &&& 0 <= cur < g.width * g.height
                &&& !s.closed_nodes()[cur]
                &&& t.closed_nodes().len() == g.width * g.height
                &&& distinct_nodes(t.open_nodes())
                &&& (e is Reached <==> coords(cur, w) == s.goal_point())
                &&& e matches Expansion::Reached(path) ==> {
                    &&& t.open_nodes() == s.open_nodes()
                    &&& t.closed_nodes() == s.closed_nodes()
                    &&& t.came_from_links() == s.came_from_links()
                    &&& t.current_node() == s.current_node()
                    &&& t.candidate_cells() == s.candidate_cells()
                    &&& path@ == reconstructed(s.came_from_links(), cur, w)
                    &&& path@.len() >= 1
                    &&& path@[0] == coords(s.start_node(), w)
                    &&& s.start_point().0 < w ==> path@[0] == s.start_point()
                    &&& path@.last() == s.goal_point()
                    &&& is_grid_path(g, path@, s.diagonal())
                    &&& no_repeats(path@)
                }
                &&& e is Expanded ==> {
                    &&& t.closed_nodes() == s.closed_nodes().update(cur, true)
                    &&& t.current_node() == cur
                    &&& t.candidate_cells() == unclosed(
                        scanned_neighbors(g, cur % w, cur / w, s.diagonal()),
                        t.closed_nodes(),
                        w,
                    )
                    &&& in_direction_order(coords(cur, w), t.candidate_cells())
                    &&& no_repeats(t.candidate_cells())
                    &&& forall|c: (usize, usize)|
                        t.candidate_cells().contains(c) <==> (free_step(g, coords(cur, w), c, s.diagonal())
                            && !t.closed_nodes()[g.index(c.0 as int, c.1 as int)])
                    &&& forall|x: usize|
                        t.open_nodes().contains(x) <==> (rest.contains(x) || has_node(t.candidate_cells(), x, w))
                    &&& forall|i: int|
                        0 <= i < g.width * g.height ==> #[trigger] t.came_from_links()[i] == if !rest.contains(
                            i as usize,
                        ) && has_node(t.candidate_cells(), i as usize, w) {
                            Some(cur as usize)
                        } else {
                            s.came_from_links()[i]
                        }
                    &&& t.open_nodes() == rest + fresh_nodes(t.candidate_cells(), rest, w)
                    &&& t.came_from_links() == linked(
                        s.came_from_links(),
                        fresh_nodes(t.candidate_cells(), rest, w),
                        cur as usize,
                    )
                }
            }),
    {
        let ghost g = self.grid@;
        let ghost n = g.width * g.height;
        let current = self.open[k];
        let w = self.grid.width();
        proof {
            reveal(AStarSearch::open_ok);
            assert(self.open@[k as int] == current);
            assert(w > 0) by (nonlinear_arith)
                requires
                    current < n,
                    n == g.width * g.height,
                    w == g.width,
            ;
            lemma_coords_in_grid(current as int, w as int, g.height as int);
        }
        let cx = current % w;
        let cy = current / w;
        if cx == self.goal.0 && cy == self.goal.1 {
            proof {
                reveal(AStarSearch::open_ok);
                reveal(AStarSearch::links_ok);
                assert(self.open@[k as int] == current);
                self.lemma_rooted_chain_ends(current as int);
                let cf = self.came_from@;
                assert(parents_in_range(cf)) by {
                    assert forall|i: int|
                        0 <= i < cf.len() && (#[trigger] cf[i]) is Some implies cf[i].unwrap()
                        < cf.len() by {
                        assert(self.parent_ok(i));
                    }
                }
            }
            let path = reconstruct(self.came_from.as_slice(), current, w);
            proof {
                self.lemma_goal_path(current as int, path@);
            }
            return Expansion::Reached(path);
        }
        let ghost d = self.node_depth(current as int);
        self.open.remove(k);
        self.closed.set(current, true);
        self.depth = Ghost(self.depth@.update(current as int, d));
        self.current = current;
        proof {
            lemma_scanned_neighbors(g, cx as int, cy as int, self.allow_diagonal);
        }
        let nbrs = if self.allow_diagonal {
            self.grid.neighbors8(cx, cy)
        } else {
            self.grid.neighbors4(cx, cy)
        };
        let mut cands: Vec<(usize, usize)> = Vec::new();
        let mut i: usize = 0;
        while i < nbrs.len()
            invariant
                i <= nbrs@.len(),
                nbrs@ == scanned_neighbors(g, cx as int, cy as int, self.allow_diagonal),
                all_free_steps(g, (cx, cy), nbrs@, self.allow_diagonal),
                self.closed@.len() == n,
                n == g.width * g.height,
                n <= usize::MAX,
                g.height <= usize::MAX,
                w == g.width,
                cands@ == unclosed(nbrs@.take(i as int), self.closed@, w as int),
            decreases nbrs@.len() - i,
        {
            let (nx, ny) = nbrs[i];
            assert(free_step(g, (cx, cy), nbrs@[i as int], self.allow_diagonal));
            proof {
                lemma_index_in_grid(nx as int, ny as int, w as int, g.height as int);
            }
            let ni = ny * w + nx;
            if !self.closed[ni] {
                cands.push((nx, ny));
            }
            assert(nbrs@.take(i + 1).drop_last() =~= nbrs@.take(i as int));
            i = i + 1;
        }
        assert(nbrs@.take(nbrs@.len() as int) =~= nbrs@);
        proof {
            lemma_candidates_exact(g, cx as int, cy as int, self.allow_diagonal, self.closed@);
        }
        self.candidates = cands;
        proof {
            assert(Self::close_step(*old(self), *self, k as int));
            Self::lemma_after_close(*old(self), *self, k as int);
        }
        let ghost rest = self.open@;
        let ghost cf0 = self.came_from@;
        let ghost cands_all = self.candidates@;
        let mut j: usize = 0;
        while j < self.candidates.len()
            invariant
                self.wf_core(),
                self.grid == old(self).grid,
                self.allow_diagonal == old(self).allow_diagonal,
                self.start_point == old(self).start_point,
                self.goal == old(self).goal,
                self.start == old(self).start,
                self.current == current,
                self.candidates@ == cands_all,
                self.closed@ == old(self).closed@.update(current as int, true),
                w == g.width,
                g == self.grid@,
                j <= cands_all.len(),
                self.open@ == rest + fresh_nodes(cands_all.take(j as int), rest, w as int),
                self.came_from@ == linked(cf0, fresh_nodes(cands_all.take(j as int), rest, w as int), current),
                cf0.len() == n,
                forall|j2: int|
                    0 <= j2 < j ==> self.open@.contains(
                        g.index(#[trigger] cands_all[j2].0 as int, cands_all[j2].1 as int) as usize,
                    ),
            decreases cands_all.len() - j,
        {
            let (nx, ny) = self.candidates[j];
            proof {
                reveal(AStarSearch::candidates_ok);
                assert(free_step(
                    g,
                    coords(self.current as int, w as int),
                    self.candidates@[j as int],
                    self.allow_diagonal,
                ));
                lemma_index_in_grid(nx as int, ny as int, w as int, g.height as int);
            }
            let ni = ny * w + nx;
            let ghost fr = fresh_nodes(cands_all.take(j as int), rest, w as int);
            let ghost open_before = self.open@;
            let present = self.open_contains(ni);
            if !present {
                self.attach(j);
            }
            proof {
                let t1 = cands_all.take(j + 1);
                assert(t1.drop_last() =~= cands_all.take(j as int));
                assert(t1.last() == cands_all[j as int]);
                lemma_contains_add(rest, fr, ni);
                lemma_contains_push(fr, ni, ni);
                if !present {
                    assert(self.open@ =~= rest + fr.push(ni));
                    assert forall|x: int| 0 <= x < n implies #[trigger] self.came_from@[x] == linked(cf0, fr.push(ni), current)[x] by {
                        lemma_contains_push(fr, ni, x as usize);
                    }
                    assert(self.came_from@ =~= linked(cf0, fr.push(ni), current));
                    assert(self.open@[open_before.len() as int] == ni);
                }
                assert forall|j2: int| 0 <= j2 < j + 1 implies self.open@.contains(
                    g.index(#[trigger] cands_all[j2].0 as int, cands_all[j2].1 as int) as usize,
                ) by {
                    if j2 < j {
                        let x = g.index(cands_all[j2].0 as int, cands_all[j2].1 as int) as usize;
                        assert(open_before.contains(x));
                        if !present {
                            let q = choose|q: int| 0 <= q < open_before.len() && open_before[q] == x;
                            assert(self.open@[q] == x);
                        }
                    }
                }
            }
            j = j + 1;
        }
        assert(cands_all.take(cands_all.len() as int) =~= cands_all);
        proof {
            reveal(AStarSearch::settled);
            reveal(AStarSearch::open_ok);
            let fr = fresh_nodes(cands_all, rest, w as int);
            lemma_fresh_nodes(cands_all, rest, w as int);
            assert forall|x: usize| self.open@.contains(x) <==> (rest.contains(x) || has_node(cands_all, x, w as int)) by {
                lemma_contains_add(rest, fr, x);
            }
            assert(self.came_from@.len() == n);
        }
        Expansion::Expanded
    }

    /// Make the node expanded last the parent of candidate `j`, and add the
    /// candidate to the open set when it is not there yet.
    pub fn relax(&mut self, j: usize)
        requires
            old(self).wf(),
            j < old(self).candidate_cells().len(),
        ensures
            final(self).wf(),
            final(self).same_problem(&*old(self)),
            ({
                let s = *old(self);
                let t = *final(self);
                let c = s.candidate_cells()[j as int];
                let ni = s.grid_model().index(c.0 as int, c.1 as int);
                &&& t.came_from_links() == s.came_from_links().update(
                    ni,
                    Some(s.current_node() as usize),
                )
                &&& t.open_nodes() == if s.open_nodes().contains(ni as usize) {
                    s.open_nodes()
                } else {
                    s.open_nodes().push(ni as usize)
                }
                &&& t.closed_nodes() == s.closed_nodes()
                &&& t.current_node() == s.current_node()
                &&& t.candidate_cells() == s.candidate_cells()
                &&& distinct_nodes(t.open_nodes())
            }),
    {
        self.attach(j);
        proof {
            reveal(AStarSearch::open_ok);
            reveal(AStarSearch::settled);
            assert forall|j2: int| 0 <= j2 < self.candidates@.len() implies self.open@.contains(
                self.grid@.index(#[trigger] self.candidates@[j2].0 as int, self.candidates@[j2].1 as int) as usize,
            ) by {
                let x = self.grid@.index(self.candidates@[j2].0 as int, self.candidates@[j2].1 as int) as usize;
                assert(old(self).open@.contains(x));
                let q = choose|q: int| 0 <= q < old(self).open@.len() && old(self).open@[q] == x;
                assert(self.open@[q] == x);
            }
        }
    }

    /// Every cell of a walk from the start is closed once the open set has
    /// run out.
    proof fn lemma_walk_closed(&self, path: Seq<(usize, usize)>, i: int)
        requires
            self.wf(),
            self.open@.len() == 0,
            path.len() >= 1,
            path[0] == self.start_point,
            is_grid_path(self.grid@, path, self.allow_diagonal),
            0 <= i < path.len(),
        ensures
            self.closed@[self.grid@.index(path[i].0 as int, path[i].1 as int)],
        decreases i,
    {
        let g = self.grid@;
        let w = g.width as int;
        let h = g.height as int;
        assert(g.is_free(path[i].0 as int, path[i].1 as int));
        if i == 0 {
        } else {
            self.lemma_walk_closed(path, i - 1);
            let a = path[i - 1];
            let b = path[i];
            assert(g.is_free(a.0 as int, a.1 as int));
            assert(step_at(path, i - 1, self.allow_diagonal));
            let ca = g.index(a.0 as int, a.1 as int);
            let cb = g.index(b.0 as int, b.1 as int);
            lemma_index_in_grid(a.0 as int, a.1 as int, w, h);
            lemma_index_in_grid(b.0 as int, b.1 as int, w, h);
            lemma_coords_of_index(a.0 as int, a.1 as int, w);
            reveal(AStarSearch::frontier_all);
            reveal(AStarSearch::settled);
            assert(self.frontier_ok(ca));
            let nb = scanned_neighbors(g, ca % w, ca / w, self.allow_diagonal);
            lemma_step_is_scanned(g, a.0 as int, a.1 as int, b, self.allow_diagonal);
            let m = choose|m: int| 0 <= m < nb.len() && nb[m] == b;
            assert(self.covered(nb[m]));
            if self.candidates@.contains(b) {
                let j = choose|j: int| 0 <= j < self.candidates@.len() && self.candidates@[j] == b;
                assert(self.open@.contains(
                    g.index(self.candidates@[j].0 as int, self.candidates@[j].1 as int) as usize,
                ));
            }
        }
    }

    /// When the open set has run out, no walk over free cells leads from the
    /// start to the goal: the search has closed every cell that such a walk
    /// reaches, and it never closes the goal.
    pub proof fn lemma_exhausted(&self, path: Seq<(usize, usize)>)
        requires
            self.wf(),
            self.open_nodes().len() == 0,
            path.len() >= 1,
            path[0] == self.start_point(),
            is_grid_path(self.grid_model(), path, self.diagonal()),
        ensures
            path.last() != self.goal_point(),
    {
        let g = self.grid@;
        let last = path.len() - 1;
        self.lemma_walk_closed(path, last);
        let p = path[last];
        assert(g.is_free(p.0 as int, p.1 as int));
        lemma_index_in_grid(p.0 as int, p.1 as int, g.width as int, g.height as int);
        lemma_coords_of_index(p.0 as int, p.1 as int, g.width as int);
        reveal(AStarSearch::goal_ok);
    }

    /// The path reconstructed from a reached node starts at the start, ends at
    /// the node, and walks over free cells one allowed step at a time.
    proof fn lemma_goal_path(&self, c: int, path: Seq<(usize, usize)>)
        requires
            self.wf_core(),
            0 <= c < self.grid@.width * self.grid@.height,
            self.rooted(c),
            path == reconstructed(self.came_from@, c, self.grid@.width as int),
            chain_ends(self.came_from@, c, path.len()),
        ensures
            path.len() >= 1,
            path[0] == coords(self.start as int, self.grid@.width as int),
            self.start_point.0 < self.grid@.width ==> path[0] == self.start_point,
            path.last() == coords(c, self.grid@.width as int),
            is_grid_path(self.grid@, path, self.allow_diagonal),
            no_repeats(path),
    {
        let g = self.grid@;
        let w = g.width as int;
        let cf = self.came_from@;
        assert(w > 0) by (nonlinear_arith)
            requires
                0 <= c < g.width * g.height,
                w == g.width,
        ;
        self.lemma_rooted_chain_ends(c);
        let len = self.node_depth(c) + 1;
        lemma_chain_length_unique(cf, c, path.len(), len);
        assert forall|i: int| 0 <= i < path.len() implies g.is_free(
            #[trigger] path[i].0 as int,
            path[i].1 as int,
        ) by {
            self.lemma_rooted_chain(c, (len - 1 - i) as nat);
            let a = ancestor(cf, c, (len - 1 - i) as nat).unwrap();
            lemma_coords_in_grid(a, w, g.height as int);
        }
        assert forall|i: int| 0 <= i < path.len() - 1 implies #[trigger] step_at(
            path,
            i,
            self.allow_diagonal,
        ) by {
            self.lemma_rooted_chain(c, (len - 1 - i) as nat);
        }
        assert forall|i: int, j: int| 0 <= i < j < path.len() implies path[i] != path[j] by {
            self.lemma_rooted_chain(c, (len - 1 - i) as nat);
            self.lemma_rooted_chain(c, (len - 1 - j) as nat);
            let a = ancestor(cf, c, (len - 1 - i) as nat).unwrap();
            let b = ancestor(cf, c, (len - 1 - j) as nat).unwrap();
            lemma_coords_in_grid(a, w, g.height as int);
            lemma_coords_in_grid(b, w, g.height as int);
            if path[i] == path[j] {
                assert(a == b);
            }
        }
        let sp = self.start_point;
        if sp.0 < w {
            lemma_coords_of_index(sp.0 as int, sp.1 as int, w);
        }
    }

    /// The chain of parent links from a reached node passes only through
    /// reached, free nodes, one allowed step at a time, and ends at the start.
    proof fn lemma_rooted_chain(&self, c: int, j: nat)
        requires
            self.wf_core(),
            0 <= c < self.grid@.width * self.grid@.height,
            self.rooted(c),
            j <= self.node_depth(c),
        ensures
            ({
                let cf = self.came_from@;
                let g = self.grid@;
                let a = ancestor(cf, c, j);
                &&& a is Some
                &&& 0 <= a.unwrap() < g.width * g.height
                &&& self.rooted(a.unwrap())
                &&& g.cells[a.unwrap()] == Cell::Free
                &&& self.node_depth(a.unwrap()) + j == self.node_depth(c)
                &&& j >= 1 ==> step_ok(
                    coords(a.unwrap(), g.width as int),
                    coords(ancestor(cf, c, (j - 1) as nat).unwrap(), g.width as int),
                    self.allow_diagonal,
                )
            }),
        decreases j,
    {
        reveal(AStarSearch::links_ok);
        reveal(AStarSearch::depths_ok);
        let cf = self.came_from@;
        let g = self.grid@;
        if j == 0 {
            if c != self.start {
                assert(self.parent_ok(c));
            }
        } else {
            self.lemma_rooted_chain(c, (j - 1) as nat);
            let b = ancestor(cf, c, (j - 1) as nat).unwrap();
            assert(b != self.start);
            assert(self.parent_ok(b));
            let p = cf[b].unwrap() as int;
            assert(ancestor(cf, c, j) == Some(p));
            if p != self.start {
                assert(self.closed_ok(p));
                assert(self.parent_ok(p));
            }
        }
    }

    /// The chain of parent links from a reached node ends at the start, after
    /// `node_depth(c) + 1` nodes.
    proof fn lemma_rooted_chain_ends(&self, c: int)
        requires
            self.wf_core(),
            0 <= c < self.grid@.width * self.grid@.height,
            self.rooted(c),
        ensures
            chain_ends(self.came_from@, c, self.node_depth(c) + 1),
            ancestor(self.came_from@, c, self.node_depth(c)) == Some(self.start as int),
    {
        reveal(AStarSearch::links_ok);
        reveal(AStarSearch::depths_ok);
        let d = self.node_depth(c);
        self.lemma_rooted_chain(c, d);
        let a = ancestor(self.came_from@, c, d).unwrap();
        if a != self.start {
            assert(self.parent_ok(a));
        }
        assert(a == self.start);
    }
}

} // verus!
