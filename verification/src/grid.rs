use crate::symmetry_type::SymmetryType;
use vstd::prelude::*;

verus! {

/// The number of `true` entries of `s`.
pub open spec fn count_true(s: Seq<bool>) -> nat
    decreases s.len(),
{
    if s.len() == 0 {
        0
    } else {
        count_true(s.drop_last()) + if s.last() {
            1nat
        } else {
            0nat
        }
    }
}

/// The coordinates `coord(i)` of the indices `i` below `n` for which `keep(i)` holds, in order.
pub open spec fn collect_coords(
    n: int,
    keep: spec_fn(int) -> bool,
    coord: spec_fn(int) -> (int, int),
) -> Seq<(int, int)>
    decreases n,
{
    if n <= 0 {
        seq![]
    } else if keep(n - 1) {
        collect_coords(n - 1, keep, coord).push(coord(n - 1))
    } else {
        collect_coords(n - 1, keep, coord)
    }
}

/// Coordinate arrays as pairs of integers.
pub open spec fn pairs(v: Seq<[isize; 2]>) -> Seq<(int, int)> {
    v.map_values(|p: [isize; 2]| (p[0] as int, p[1] as int))
}

/// Bounds of a block structure in global coordinates: `(min_x, min_y, max_x, max_y)`.
pub type Bounds = (int, int, int, int);

/// A square grid of cells, each holding a block or not. The cells are stored row by row from
/// the bottom, left to right within a row, so that cell `(x, y)` is `cells[y * size + x]`.
/// Global coordinates put the origin at cell `(size / 2, size / 2)`.
pub struct Grid {
    pub cells: Seq<bool>,
    pub size: nat,
}

impl Grid {
    /// There is one entry for each of the `size * size` cells.
    pub open spec fn wf(self) -> bool {
        self.cells.len() == self.size * self.size
    }

    /// The cell coordinates of the global origin, on both axes.
    pub open spec fn origin(self) -> int {
        (self.size / 2) as int
    }

    pub open spec fn in_grid(self, x: int, y: int) -> bool {
        0 <= x < self.size && 0 <= y < self.size
    }

    /// Is there a block in cell `(x, y)`? Never outside the grid.
    pub open spec fn cell(self, x: int, y: int) -> bool {
        self.in_grid(x, y) && self.cells[y * self.size + x]
    }

    /// Is there a block whose left bottom corner has global coordinates `(x, y)`?
    pub open spec fn has_block(self, x: int, y: int) -> bool {
        self.cell(x + self.origin(), y + self.origin())
    }

    /// The grid of the given size whose cell `(x, y)` holds `f(x, y)`.
    pub open spec fn from_fn(size: nat, f: spec_fn(int, int) -> bool) -> Grid {
        Grid {
            cells: Seq::new(size * size, |i: int| f(i % (size as int), i / (size as int))),
            size,
        }
    }

    /// The number of blocks.
    pub open spec fn count(self) -> nat {
        count_true(self.cells)
    }

    /// The global coordinates of the left bottom corners of the blocks, in the order of the cells.
    pub open spec fn block_coords(self) -> Seq<(int, int)> {
        let g = self.size as int;
        let o = self.origin();
        collect_coords(
            self.cells.len() as int,
            |i: int| self.cells[i],
            |i: int| (i % g - o, i / g - o),
        )
    }

    /// The global coordinates of the outer corners (see `outer_corner_at`), in the order of
    /// the cells.
    pub open spec fn outer_corner_coords(self) -> Seq<(int, int)> {
        let g = self.size as int;
        let o = self.origin();
        collect_coords(
            self.cells.len() as int,
            |i: int| self.outer_corner_at(i % g, i / g),
            |i: int| (i % g - o + 1, i / g - o + 1),
        )
    }

    /// Is there any block at all?
    pub open spec fn nonempty(self) -> bool {
        exists|x: int, y: int| self.cell(x, y)
    }

    /// Cell `(x, y)` is an interior block: a block off the edge of the grid whose four direct
    /// neighbors are blocks.
    pub open spec fn interior_at(self, x: int, y: int) -> bool {
        &&& 0 < x < self.size - 1
        &&& 0 < y < self.size - 1
        &&& self.cell(x, y)
        &&& self.cell(x + 1, y)
        &&& self.cell(x - 1, y)
        &&& self.cell(x, y + 1)
        &&& self.cell(x, y - 1)
    }

    /// Cell `(x, y)` is a boundary block: a block on the edge of the grid or next to a cell
    /// without a block.
    pub open spec fn boundary_at(self, x: int, y: int) -> bool {
        &&& self.cell(x, y)
        &&& {
            ||| x == 0
            ||| x == self.size - 1
            ||| y == 0
            ||| y == self.size - 1
            ||| !self.cell(x + 1, y)
            ||| !self.cell(x - 1, y)
            ||| !self.cell(x, y + 1)
            ||| !self.cell(x, y - 1)
        }
    }

    pub open spec fn interior(self) -> Grid {
        Grid::from_fn(self.size, |x: int, y: int| self.interior_at(x, y))
    }

    pub open spec fn boundary(self) -> Grid {
        Grid::from_fn(self.size, |x: int, y: int| self.boundary_at(x, y))
    }

    pub open spec fn complement(self) -> Grid {
        Grid::from_fn(self.size, |x: int, y: int| !self.cell(x, y))
    }

    /// Corner point `(x, y)`, the top right corner of cell `(x, y)`, is the corner of exactly
    /// one block.
    pub open spec fn outer_corner_at(self, x: int, y: int) -> bool {
        &&& x != self.size - 1
        &&& y != self.size - 1
        &&& (if self.cell(x, y) {
            1int
        } else {
            0
        }) + (if self.cell(x + 1, y) {
            1int
        } else {
            0
        }) + (if self.cell(x, y + 1) {
            1int
        } else {
            0
        }) + (if self.cell(x + 1, y + 1) {
            1int
        } else {
            0
        }) == 1
    }

    /// `b` is the bounding box of the blocks in global coordinates; for a grid without blocks,
    /// the single cell at the origin.
    pub open spec fn bounds_ok(self, b: Bounds) -> bool {
        let o = self.origin();
        if self.nonempty() {
            &&& exists|y: int| #[trigger] self.cell(b.0 + o, y)
            &&& exists|x: int| #[trigger] self.cell(x, b.1 + o)
            &&& exists|y: int| #[trigger] self.cell(b.2 + o, y)
            &&& exists|x: int| #[trigger] self.cell(x, b.3 + o)
            &&& forall|x: int, y: int|
                #[trigger] self.cell(x, y) ==> b.0 + o <= x <= b.2 + o && b.1 + o <= y <= b.3 + o
        } else {
            b == (-o, -o, -o, -o)
        }
    }

    /// `b` is the bounding box of the blocks in grid coordinates (cell columns and rows), inside
    /// the grid; for a grid without blocks, the single cell `(0, 0)`.
    pub open spec fn grid_bounds_ok(self, b: Bounds) -> bool {
        if self.nonempty() {
            &&& 0 <= b.0 <= b.2 < self.size
            &&& 0 <= b.1 <= b.3 < self.size
            &&& exists|y: int| #[trigger] self.cell(b.0, y)
            &&& exists|x: int| #[trigger] self.cell(x, b.1)
            &&& exists|y: int| #[trigger] self.cell(b.2, y)
            &&& exists|x: int| #[trigger] self.cell(x, b.3)
            &&& forall|x: int, y: int| #[trigger] self.cell(x, y) ==> b.0 <= x <= b.2 && b.1 <= y <= b.3
        } else {
            b == (0int, 0int, 0int, 0int)
        }
    }

    /// The bounding box (see `bounds_ok`).
    pub open spec fn bounds(self) -> Bounds {
        choose|b: Bounds| self.bounds_ok(b)
    }

    /// The width and height of the bounding box.
    pub open spec fn diameters(self) -> (int, int) {
        let b = self.bounds();
        (b.2 - b.0 + 1, b.3 - b.1 + 1)
    }

    /// The cell columns of the middle of the bounding box: one for an odd width, two for an
    /// even width.
    pub open spec fn center_columns(self) -> Seq<usize> {
        let base = self.origin() + self.bounds().0 + self.diameters().0 / 2;
        if self.diameters().0 % 2 == 0 {
            seq![(base - 1) as usize, base as usize]
        } else {
            seq![base as usize]
        }
    }

    /// The cell rows of the middle of the bounding box.
    pub open spec fn center_rows(self) -> Seq<usize> {
        let base = self.origin() + self.bounds().1 + self.diameters().1 / 2;
        if self.diameters().1 % 2 == 0 {
            seq![(base - 1) as usize, base as usize]
        } else {
            seq![base as usize]
        }
    }

    /// The center 1, 2 or 4 blocks of the bounding box.
    pub open spec fn center(self) -> Grid {
        squares_grid(self.size, self.center_columns(), self.center_rows())
    }

    /// Mirrored along the horizontal axis through the middle of the bounds `b`.
    pub open spec fn flip_horizontal(self, b: Bounds) -> Grid {
        let o = self.origin();
        Grid::from_fn(self.size, |x: int, y: int| self.has_block(x - o, -(y - o) + b.1 + b.3))
    }

    /// Mirrored along the vertical axis through the middle of the bounds `b`.
    pub open spec fn flip_vertical(self, b: Bounds) -> Grid {
        let o = self.origin();
        Grid::from_fn(self.size, |x: int, y: int| self.has_block(-(x - o) + b.0 + b.2, y - o))
    }

    /// Can the grid be mirrored in a 45° diagonal through its center? So when the center is 1
    /// or 4 blocks.
    pub open spec fn diagonals_possible(self) -> bool {
        self.center().count() == 1 || self.center().count() == 4
    }

    /// Mirrored along the 45° up diagonal through the left bottom corner of the center blocks.
    pub open spec fn flip_up_diagonal(self) -> Grid {
        let o = self.origin();
        let c = self.center().bounds();
        let x_m = c.0;
        let y_m = c.1;
        Grid::from_fn(
            self.size,
            |x: int, y: int| self.has_block((y - o) + x_m - y_m, (x - o) - x_m + y_m),
        )
    }

    /// Mirrored along the 45° down diagonal through the center.
    pub open spec fn flip_down_diagonal(self) -> Grid {
        let o = self.origin();
        let c = self.center().bounds();
        let x_m = if self.center().count() == 1 {
            c.0 + 1
        } else {
            c.0 + 2
        };
        let y_m = c.1;
        Grid::from_fn(
            self.size,
            |x: int, y: int| self.has_block(-(y - o) + x_m + y_m - 1, -(x - o) + x_m + y_m - 1),
        )
    }

    /// The symmetry type: reflections first, then rotations.
    pub open spec fn symmetry_type(self) -> SymmetryType {
        let b = self.bounds();
        let dp = self.diagonals_possible();
        let h = self == self.flip_horizontal(b);
        let v = self == self.flip_vertical(b);
        let u = dp && self == self.flip_up_diagonal();
        let d = dp && self == self.flip_down_diagonal();
        if (h && u) || (h && d) || (v && u) || (v && d) {
            SymmetryType::ReflectionsAll
        } else if h && v {
            SymmetryType::ReflectionsCardinals
        } else if u && d {
            SymmetryType::ReflectionsDiagonals
        } else if h {
            SymmetryType::ReflectionHorizontal
        } else if v {
            SymmetryType::ReflectionVertical
        } else if u {
            SymmetryType::ReflectionDiagonalUp
        } else if d {
            SymmetryType::ReflectionDiagonalDown
        } else {
            let f = self.flip_horizontal(b);
            if dp && f.diagonals_possible() && self == f.flip_up_diagonal() {
                SymmetryType::RotationQuarter
            } else if self == f.flip_vertical(b) {
                SymmetryType::RotationHalf
            } else {
                SymmetryType::NoSymmetry
            }
        }
    }
}

/// The largest size among the grids (0 for none).
pub open spec fn max_size(stack: Seq<Grid>) -> nat
    decreases stack.len(),
{
    if stack.len() == 0 {
        0
    } else {
        let rest = max_size(stack.drop_last());
        if stack.last().size > rest {
            stack.last().size
        } else {
            rest
        }
    }
}

/// The number of grids with a block at global coordinates `(x, y)`.
pub open spec fn layers_with_block(stack: Seq<Grid>, x: int, y: int) -> nat
    decreases stack.len(),
{
    if stack.len() == 0 {
        0
    } else {
        layers_with_block(stack.drop_last(), x, y) + if stack.last().has_block(x, y) {
            1nat
        } else {
            0nat
        }
    }
}

/// The grid of the largest size with a block wherever any grid of the stack has one (at the
/// same global position).
pub open spec fn combine_any_grid(stack: Seq<Grid>) -> Grid {
    let size = max_size(stack);
    let o = (size / 2) as int;
    Grid::from_fn(
        size,
        |x: int, y: int| exists|k: int| 0 <= k < stack.len() && #[trigger] stack[k].has_block(x - o, y - o),
    )
}

/// The grid of the largest size with a block wherever every grid of the stack has one.
pub open spec fn combine_all_grid(stack: Seq<Grid>) -> Grid {
    let size = max_size(stack);
    let o = (size / 2) as int;
    Grid::from_fn(
        size,
        |x: int, y: int| forall|k: int| 0 <= k < stack.len() ==> #[trigger] stack[k].has_block(x - o, y - o),
    )
}

/// The grid of the largest size with a block wherever at least `min_layers` grids of the stack
/// have one.
pub open spec fn combine_at_least_grid(stack: Seq<Grid>, min_layers: int) -> Grid {
    let size = max_size(stack);
    let o = (size / 2) as int;
    Grid::from_fn(size, |x: int, y: int| layers_with_block(stack, x - o, y - o) >= min_layers)
}

/// All cells whose column is in `xs`.
pub open spec fn strips_x_grid(size: nat, xs: Seq<usize>) -> Grid {
    Grid::from_fn(size, |x: int, y: int| xs.contains(x as usize))
}

/// All cells whose row is in `ys`.
pub open spec fn strips_y_grid(size: nat, ys: Seq<usize>) -> Grid {
    Grid::from_fn(size, |x: int, y: int| ys.contains(y as usize))
}

/// All cells whose column is in `xs` and whose row is in `ys`.
pub open spec fn squares_grid(size: nat, xs: Seq<usize>, ys: Seq<usize>) -> Grid {
    Grid::from_fn(size, |x: int, y: int| xs.contains(x as usize) && ys.contains(y as usize))
}

/// The index of a cell and its coordinates determine each other.
pub proof fn lemma_index_coords(i: int, g: int)
    requires
        0 <= g,
        0 <= i < g * g,
    ensures
        0 < g,
        0 <= i % g < g,
        0 <= i / g < g,
        i == (i / g) * g + i % g,
{
    if g == 0 {
        assert(g * g == 0);
    }
    assert(i == (i / g) * g + i % g && 0 <= i % g < g) by (nonlinear_arith)
        requires
            0 < g,
    ;
    assert(0 <= i / g < g) by (nonlinear_arith)
        requires
            0 < g,
            0 <= i < g * g,
            i == (i / g) * g + i % g,
            0 <= i % g < g,
    ;
}

/// The indices of the four direct neighbors of the cell at index `i`.
pub proof fn lemma_neighbor_indices(i: int, g: int)
    requires
        0 <= g,
        0 <= i < g * g,
    ensures
        0 < g,
        0 <= i % g < g,
        0 <= i / g < g,
        i == (i / g) * g + i % g,
        i % g + 1 < g ==> i + 1 < g * g,
        i / g + 1 < g ==> i + g < g * g,
        i / g > 0 ==> i >= g,
        (i / g + 1) * g + i % g == i + g,
        (i / g - 1) * g + i % g == i - g,
        (i / g) * g + (i % g + 1) == i + 1,
        (i / g) * g + (i % g - 1) == i - 1,
{
    lemma_index_coords(i, g);
    let x = i % g;
    let y = i / g;
    assert(y + 1 < g ==> i + g < g * g) by (nonlinear_arith)
        requires
            i == y * g + x,
            0 <= x < g,
    ;
    assert(x + 1 < g ==> i + 1 < g * g) by (nonlinear_arith)
        requires
            i == y * g + x,
            0 <= y < g,
    ;
    assert(y > 0 ==> i >= g) by (nonlinear_arith)
        requires
            i == y * g + x,
            0 <= x,
            0 < g,
    ;
    assert((y + 1) * g + x == i + g) by (nonlinear_arith)
        requires
            i == y * g + x,
    ;
    assert((y - 1) * g + x == i - g) by (nonlinear_arith)
        requires
            i == y * g + x,
    ;
}

/// A cell inside the grid has an index in range, and that index gives back its coordinates.
pub proof fn lemma_coords_index(x: int, y: int, g: int)
    requires
        0 <= x < g,
        0 <= y < g,
    ensures
        0 <= y * g + x < g * g,
        (y * g + x) % g == x,
        (y * g + x) / g == y,
{
    assert(0 <= y * g + x < g * g) by (nonlinear_arith)
        requires
            0 <= x < g,
            0 <= y < g,
    ;
    vstd::arithmetic::div_mod::lemma_fundamental_div_mod_converse(y * g + x, g, y, x);
}

/// A sequence counts no `true` entry exactly when it has none.
pub proof fn lemma_count_zero(s: Seq<bool>)
    ensures
        (count_true(s) == 0) == (forall|i: int| 0 <= i < s.len() ==> !s[i]),
    decreases s.len(),
{
    if s.len() > 0 {
        lemma_count_zero(s.drop_last());
        if count_true(s) == 0 {
            assert forall|i: int| 0 <= i < s.len() implies !s[i] by {
                if i < s.len() - 1 {
                    assert(s[i] == s.drop_last()[i]);
                }
            }
        }
        if forall|i: int| 0 <= i < s.len() ==> !s[i] {
            assert(!s[s.len() - 1]);
            assert forall|i: int| 0 <= i < s.drop_last().len() implies !s.drop_last()[i] by {
                assert(s.drop_last()[i] == s[i]);
            }
        }
    }
}

/// A grid has a block exactly when its number of blocks is not zero.
pub proof fn lemma_nonempty_count(grid: Grid)
    requires
        grid.wf(),
    ensures
        grid.nonempty() == (grid.count() != 0),
{
    let g = grid.size as int;
    lemma_count_zero(grid.cells);
    if grid.nonempty() {
        let (x, y) = choose|x: int, y: int| grid.cell(x, y);
        lemma_coords_index(x, y, g);
        assert(grid.cells[y * g + x]);
    }
    if grid.count() != 0 {
        let i = choose|i: int| 0 <= i < grid.cells.len() && grid.cells[i];
        lemma_index_coords(i, g);
        assert(grid.cell(i % g, i / g));
    }
}

/// Two boxes that both are the bounding box of a grid are the same.
pub proof fn lemma_bounds_unique(grid: Grid, b: Bounds, c: Bounds)
    requires
        grid.bounds_ok(b),
        grid.bounds_ok(c),
    ensures
        b == c,
{
    let o = grid.origin();
    if grid.nonempty() {
        let y0 = choose|y: int| #[trigger] grid.cell(b.0 + o, y);
        let y1 = choose|y: int| #[trigger] grid.cell(c.0 + o, y);
        let x0 = choose|x: int| #[trigger] grid.cell(x, b.1 + o);
        let x1 = choose|x: int| #[trigger] grid.cell(x, c.1 + o);
        let y2 = choose|y: int| #[trigger] grid.cell(b.2 + o, y);
        let y3 = choose|y: int| #[trigger] grid.cell(c.2 + o, y);
        let x2 = choose|x: int| #[trigger] grid.cell(x, b.3 + o);
        let x3 = choose|x: int| #[trigger] grid.cell(x, c.3 + o);
        assert(grid.cell(b.0 + o, y0));
        assert(grid.cell(c.0 + o, y1));
        assert(grid.cell(x0, b.1 + o));
        assert(grid.cell(x1, c.1 + o));
        assert(grid.cell(b.2 + o, y2));
        assert(grid.cell(c.2 + o, y3));
        assert(grid.cell(x2, b.3 + o));
        assert(grid.cell(x3, c.3 + o));
    }
}

/// The bounds of a grid are the box that `bounds_ok` describes, once one is known.
pub proof fn lemma_bounds_is(grid: Grid, b: Bounds)
    requires
        grid.bounds_ok(b),
    ensures
        grid.bounds() == b,
{
    lemma_bounds_unique(grid, grid.bounds(), b);
}

/// A cell of a grid built from a function holds the function's value there.
pub proof fn lemma_from_fn_cell(size: nat, f: spec_fn(int, int) -> bool, x: int, y: int)
    requires
        0 <= x < size,
        0 <= y < size,
    ensures
        Grid::from_fn(size, f).cell(x, y) == f(x, y),
        Grid::from_fn(size, f).wf(),
{
    lemma_coords_index(x, y, size as int);
}

/// Every block is either an interior block or a boundary block, never both, and there are no
/// interior or boundary blocks where there is no block.
pub proof fn lemma_interior_boundary_partition(grid: Grid, x: int, y: int)
    requires
        grid.wf(),
        grid.in_grid(x, y),
    ensures
        grid.cell(x, y) == (grid.interior().cell(x, y) || grid.boundary().cell(x, y)),
        !(grid.interior().cell(x, y) && grid.boundary().cell(x, y)),
{
    lemma_from_fn_cell(grid.size, |x: int, y: int| grid.interior_at(x, y), x, y);
    lemma_from_fn_cell(grid.size, |x: int, y: int| grid.boundary_at(x, y), x, y);
}

/// Whether a cell is an interior block depends only on the cell and its four side neighbours:
/// a block off the edge of the grid whose four side neighbours are blocks is an interior block
/// and not a boundary block, whatever its diagonal neighbours hold; every other block is a
/// boundary block.
pub proof fn lemma_interior_by_side_neighbors(grid: Grid, x: int, y: int)
    requires
        grid.wf(),
        grid.in_grid(x, y),
    ensures
        ({
            let inner = 0 < x < grid.size - 1 && 0 < y < grid.size - 1 && grid.cell(x, y)
                && grid.cell(x + 1, y) && grid.cell(x - 1, y) && grid.cell(x, y + 1) && grid.cell(
                x,
                y - 1,
            );
            &&& grid.interior().cell(x, y) == inner
            &&& grid.boundary().cell(x, y) == (grid.cell(x, y) && !inner)
        }),
{
    lemma_from_fn_cell(grid.size, |x: int, y: int| grid.interior_at(x, y), x, y);
    lemma_from_fn_cell(grid.size, |x: int, y: int| grid.boundary_at(x, y), x, y);
}

/// Two grids of one size that agree on a cell and its four side neighbours agree on whether that
/// cell is an interior block and on whether it is a boundary block.
pub proof fn lemma_interior_is_local(a: Grid, b: Grid, x: int, y: int)
    requires
        a.wf(),
        b.wf(),
        a.size == b.size,
        a.in_grid(x, y),
        a.cell(x, y) == b.cell(x, y),
        a.cell(x + 1, y) == b.cell(x + 1, y),
        a.cell(x - 1, y) == b.cell(x - 1, y),
        a.cell(x, y + 1) == b.cell(x, y + 1),
        a.cell(x, y - 1) == b.cell(x, y - 1),
    ensures
        a.interior().cell(x, y) == b.interior().cell(x, y),
        a.boundary().cell(x, y) == b.boundary().cell(x, y),
{
    lemma_interior_by_side_neighbors(a, x, y);
    lemma_interior_by_side_neighbors(b, x, y);
}

/// Two well-formed grids of one size with the same blocks are the same grid.
proof fn lemma_grid_ext(a: Grid, b: Grid)
    requires
        a.wf(),
        b.wf(),
        a.size == b.size,
        forall|x: int, y: int| a.in_grid(x, y) ==> #[trigger] a.cell(x, y) == b.cell(x, y),
    ensures
        a == b,
{
    let g = a.size as int;
    assert forall|i: int| 0 <= i < a.cells.len() implies a.cells[i] == b.cells[i] by {
        lemma_index_coords(i, g);
        assert(a.cell(i % g, i / g) == b.cell(i % g, i / g));
    }
    assert(a.cells =~= b.cells);
}

/// A grid that is its own mirror image in the horizontal axis through the middle of its bounds
/// gets a symmetry type with that reflection; the same for the vertical axis; and a grid that is
/// its own image under the half turn about the middle of its bounds (the horizontal mirror
/// image mirrored vertically) never gets `NoSymmetry`.
pub proof fn lemma_symmetric_grid_has_symmetry(grid: Grid)
    requires
        grid.wf(),
    ensures
        ({
            let b = grid.bounds();
            let t = grid.symmetry_type();
            &&& (forall|x: int, y: int, yy: int|
                y + yy == b.1 + b.3 ==> #[trigger] grid.has_block(x, y) == #[trigger] grid.has_block(
                    x,
                    yy,
                )) ==> (t
                == SymmetryType::ReflectionsAll || t == SymmetryType::ReflectionsCardinals || t
                == SymmetryType::ReflectionHorizontal)
            &&& (forall|x: int, xx: int, y: int|
                x + xx == b.0 + b.2 ==> #[trigger] grid.has_block(x, y) == #[trigger] grid.has_block(
                    xx,
                    y,
                )) ==> (t
                == SymmetryType::ReflectionsAll || t == SymmetryType::ReflectionsCardinals || t
                == SymmetryType::ReflectionVertical)
            &&& (forall|x: int, xx: int, y: int, yy: int|
                x + xx == b.0 + b.2 && y + yy == b.1 + b.3 ==> #[trigger] grid.has_block(x, y)
                    == #[trigger] grid.has_block(xx, yy)) ==> t
                != SymmetryType::NoSymmetry
        }),
{
    let b = grid.bounds();
    lemma_symmetry_type_of_self_images(grid);
    if forall|x: int, y: int, yy: int|
        y + yy == b.1 + b.3 ==> #[trigger] grid.has_block(x, y) == #[trigger] grid.has_block(x, yy) {
        lemma_mirror_horizontal_self(grid, b);
    }
    if forall|x: int, xx: int, y: int|
        x + xx == b.0 + b.2 ==> #[trigger] grid.has_block(x, y) == #[trigger] grid.has_block(xx, y) {
        lemma_mirror_vertical_self(grid, b);
    }
    if forall|x: int, xx: int, y: int, yy: int|
        x + xx == b.0 + b.2 && y + yy == b.1 + b.3 ==> #[trigger] grid.has_block(x, y)
            == #[trigger] grid.has_block(xx, yy) {
        lemma_half_turn_self(grid, b);
    }
}

/// The symmetry type reports the reflection in each axis, and some symmetry for the half turn,
/// when the grid is its own image under it.
proof fn lemma_symmetry_type_of_self_images(grid: Grid)
    ensures
        ({
            let b = grid.bounds();
            let t = grid.symmetry_type();
            let f = grid.flip_horizontal(b);
            &&& grid == f ==> (t == SymmetryType::ReflectionsAll || t
                == SymmetryType::ReflectionsCardinals || t == SymmetryType::ReflectionHorizontal)
            &&& grid == grid.flip_vertical(b) ==> (t == SymmetryType::ReflectionsAll || t
                == SymmetryType::ReflectionsCardinals || t == SymmetryType::ReflectionVertical)
            &&& grid == f.flip_vertical(b) ==> t != SymmetryType::NoSymmetry
        }),
{
}

/// A grid whose blocks are mirrored in the horizontal line through the middle of `b` is its
/// own mirror image.
proof fn lemma_mirror_horizontal_self(grid: Grid, b: Bounds)
    requires
        grid.wf(),
        forall|x: int, y: int, yy: int|
            y + yy == b.1 + b.3 ==> #[trigger] grid.has_block(x, y) == #[trigger] grid.has_block(x, yy),
    ensures
        grid == grid.flip_horizontal(b),
{
    let o = grid.origin();
    let fh = grid.flip_horizontal(b);
    assert forall|x: int, y: int| grid.in_grid(x, y) implies #[trigger] grid.cell(x, y)
        == fh.cell(x, y) by {
        lemma_from_fn_cell(
            grid.size,
            |x: int, y: int| grid.has_block(x - o, -(y - o) + b.1 + b.3),
            x,
            y,
        );
        assert(grid.has_block(x - o, y - o) == grid.has_block(x - o, b.1 + b.3 - (y - o)));
    }
    lemma_grid_ext(grid, fh);
}

/// A grid whose blocks are mirrored in the vertical line through the middle of `b` is its own
/// mirror image.
proof fn lemma_mirror_vertical_self(grid: Grid, b: Bounds)
    requires
        grid.wf(),
        forall|x: int, xx: int, y: int|
            x + xx == b.0 + b.2 ==> #[trigger] grid.has_block(x, y) == #[trigger] grid.has_block(xx, y),
    ensures
        grid == grid.flip_vertical(b),
{
    let o = grid.origin();
    let fv = grid.flip_vertical(b);
    assert forall|x: int, y: int| grid.in_grid(x, y) implies #[trigger] grid.cell(x, y)
        == fv.cell(x, y) by {
        lemma_from_fn_cell(
            grid.size,
            |x: int, y: int| grid.has_block(-(x - o) + b.0 + b.2, y - o),
            x,
            y,
        );
        assert(grid.has_block(x - o, y - o) == grid.has_block(b.0 + b.2 - (x - o), y - o));
    }
    lemma_grid_ext(grid, fv);
}

/// A grid whose blocks are symmetric under the half turn about the middle of `b` is its own
/// horizontal mirror image mirrored vertically.
proof fn lemma_half_turn_self(grid: Grid, b: Bounds)
    requires
        grid.wf(),
        forall|x: int, xx: int, y: int, yy: int|
            x + xx == b.0 + b.2 && y + yy == b.1 + b.3 ==> #[trigger] grid.has_block(x, y)
                == #[trigger] grid.has_block(xx, yy),
    ensures
        grid == grid.flip_horizontal(b).flip_vertical(b),
{
    let o = grid.origin();
    let g = grid.size;
    let fh = grid.flip_horizontal(b);
    let rot = fh.flip_vertical(b);
    assert forall|x: int, y: int| grid.in_grid(x, y) implies #[trigger] grid.cell(x, y)
        == rot.cell(x, y) by {
        lemma_from_fn_cell(g, |x: int, y: int| fh.has_block(-(x - o) + b.0 + b.2, y - o), x, y);
        let xx = -(x - o) + b.0 + b.2 + o;
        if fh.in_grid(xx, y) {
            lemma_from_fn_cell(
                g,
                |x: int, y: int| grid.has_block(x - o, -(y - o) + b.1 + b.3),
                xx,
                y,
            );
        }
        assert(grid.has_block(x - o, y - o) == grid.has_block(
            b.0 + b.2 - (x - o),
            b.1 + b.3 - (y - o),
        ));
    }
    lemma_grid_ext(grid, rot);
}

/// A grid gets `NoSymmetry` exactly when none of the checked maps takes it onto itself: not the
/// mirror images in the horizontal and vertical axes through the middle of its bounds, not those
/// in the two diagonals (where they are possible), not the quarter turn (the horizontal mirror
/// image mirrored in the up diagonal) and not the half turn (the horizontal mirror image
/// mirrored vertically).
pub proof fn lemma_no_symmetry_means_no_self_image(grid: Grid)
    ensures
        ({
            let b = grid.bounds();
            let dp = grid.diagonals_possible();
            let f = grid.flip_horizontal(b);
            (grid.symmetry_type() == SymmetryType::NoSymmetry) == {
                &&& grid != f
                &&& grid != grid.flip_vertical(b)
                &&& !(dp && grid == grid.flip_up_diagonal())
                &&& !(dp && grid == grid.flip_down_diagonal())
                &&& !(dp && f.diagonals_possible() && grid == f.flip_up_diagonal())
                &&& grid != f.flip_vertical(b)
            }
        }),
{
}

/// Taking the complement twice gives back the blocks: the complement has a block exactly in the
/// cells of the grid without one.
pub proof fn lemma_complement_involution(grid: Grid, x: int, y: int)
    requires
        grid.wf(),
        grid.in_grid(x, y),
    ensures
        grid.complement().cell(x, y) == !grid.cell(x, y),
        grid.complement().complement().cell(x, y) == grid.cell(x, y),
{
    lemma_from_fn_cell(grid.size, |x: int, y: int| !grid.cell(x, y), x, y);
    let c = grid.complement();
    lemma_from_fn_cell(c.size, |x: int, y: int| !c.cell(x, y), x, y);
}

/// The boundary of the blocks lies within the blocks, and so does their interior.
pub proof fn lemma_boundary_interior_within(grid: Grid, x: int, y: int)
    requires
        grid.wf(),
    ensures
        grid.boundary().cell(x, y) ==> grid.cell(x, y),
        grid.interior().cell(x, y) ==> grid.cell(x, y),
{
    if grid.in_grid(x, y) {
        lemma_interior_boundary_partition(grid, x, y);
    }
}

} // verus!
