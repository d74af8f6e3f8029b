use crate::grid::{
    collect_coords, count_true, lemma_coords_index, lemma_index_coords, lemma_neighbor_indices, pairs,
    Grid, lemma_nonempty_count, lemma_bounds_is, Bounds, squares_grid, strips_x_grid, strips_y_grid,
    max_size, layers_with_block, combine_any_grid, combine_all_grid, combine_at_least_grid,
};
use crate::sparse_graph::vec_contains;
use crate::symmetry_type::SymmetryType;
use vstd::prelude::*;

verus! {

/// The size of a grid whose cells fit in memory is small next to the range of `isize`.
proof fn lemma_small_grid(g: int)
    requires
        0 <= g,
        g * g <= usize::MAX,
    ensures
        8 * g <= isize::MAX,
{
    if g >= 16 {
        assert(g * g >= 16 * g) by (nonlinear_arith)
            requires
                g >= 16,
        ;
    }
}

/// Cell coordinates of a grid whose cells fit in memory are far from the limits of `isize`.
pub proof fn lemma_grid_fits(g: int)
    requires
        0 <= g,
        g * g <= usize::MAX,
    ensures
        g <= isize::MAX / 8,
{
    lemma_small_grid(g);
}

/// Captures a bit matrix. The length of the vector should always be edge_length**2
#[derive(Default, Debug, Clone, PartialEq)]
pub struct Blocks {
    pub blocks: Vec<bool>,
    pub grid_size: usize,  // of type usize because we index with it a bunch of times
    // the total number of cells where there can be blocks is edge_length**2
    // Order is x first left to right, then y down to up (to match coord space)
    // The global origin (0,0) lies at cell (grid_size / 2, grid_size / 2).
}

impl View for Blocks {
    type V = Grid;

    open spec fn view(&self) -> Grid {
        Grid { cells: self.blocks@, size: self.grid_size as nat }
    }
}

/// The invariant of a grid of blocks: one entry per cell.
pub open spec fn wf_blocks(b: &Blocks) -> bool {
    b@.wf()
}

// longterm: build sequences
/// Getter methods
impl Blocks {
    pub fn new(blocks: Vec<bool>, grid_size: usize) -> (b: Self)
        ensures
            b.blocks@ == blocks@,
            b.grid_size == grid_size,
    {
        Blocks { blocks, grid_size }
    }

    /// The cell coordinates of the global origin (on both axes).
    pub fn origin_usize(&self) -> (o: usize)
        ensures
            o == self@.origin(),
    {
        self.grid_size / 2
    }

    /// Get the index of the block whose left bottom corner coordinates are the global coord, if it
    ///  exists (else return none)
    pub fn get_index_from_global_coord_usize(&self, global_coord: [isize; 2]) -> (r: Option<usize>)
        requires
            wf_blocks(self),
        ensures
            r is Some <==> self@.in_grid(
                global_coord[0] + self@.origin(),
                global_coord[1] + self@.origin(),
            ),
            r matches Some(i) ==> i == (global_coord[1] + self@.origin()) * self.grid_size + (
            global_coord[0] + self@.origin()) && i < self.blocks@.len(),
    {
        let g = self.grid_size;
        let n = self.blocks.len();
        proof {
            lemma_small_grid(g as int);
        }
        let o = (g / 2) as isize;
        let gi = g as isize;
        if -o <= global_coord[0] && -o <= global_coord[1] && global_coord[0] < gi - o
            && global_coord[1] < gi - o {
            let lx = (global_coord[0] + o) as usize;
            let ly = (global_coord[1] + o) as usize;
            proof {
                lemma_coords_index(lx as int, ly as int, g as int);
            }
            Some(ly * g + lx)
        } else {
            None
        }
    }

    pub fn get_global_coord_usize_from_index(&self, i: usize) -> (c: [isize; 2])
        requires
            wf_blocks(self),
            self.grid_size > 0,
            i / self.grid_size <= isize::MAX,
        ensures
            c[0] == i % self.grid_size - self@.origin(),
            c[1] == i / self.grid_size - self@.origin(),
    {
        let g = self.grid_size;
        let n = self.blocks.len();
        proof {
            lemma_small_grid(g as int);
        }
        let o = (g / 2) as isize;
        [(i % g) as isize - o, (i / g) as isize - o]
    }

    /// return true if there is a block with left bottom coordinate the input global coordinate
    /// if the point is outside the grid or there is no block there, return false
    pub fn is_block_on_global_coord(&self, global_coord: [isize; 2]) -> (r: bool)
        requires
            wf_blocks(self),
        ensures
            r == self@.has_block(global_coord[0] as int, global_coord[1] as int),
    {
        match self.get_index_from_global_coord_usize(global_coord) {
            None => false,
            Some(index) => self.blocks[index],
        }
    }

    /// Global centered block coordinates in usize, i.e., where the origin lies at (0,0)
    #[verifier::loop_isolation(false)]
    pub fn get_all_block_coords_usize(&self) -> (coords: Vec<[isize; 2]>)
        requires
            wf_blocks(self),
        ensures
            pairs(coords@) == self@.block_coords(),
    {
        let g = self.grid_size;
        let ghost grid = self@;
        let ghost keep = |i: int| grid.cells[i];
        let ghost coord = |i: int| (i % (g as int) - grid.origin(), i / (g as int) - grid.origin());
        let n = self.blocks.len();
        proof {
            lemma_small_grid(g as int);
        }
        let o = (g / 2) as isize;
        let mut output_vec: Vec<[isize; 2]> = Vec::new();
        let mut i: usize = 0;
        while i < self.blocks.len()
            invariant
                grid == self@,
                grid.wf(),
                g == self.grid_size,
                o == grid.origin(),
                8 * g <= isize::MAX,
                i <= self.blocks@.len(),
                pairs(output_vec@) == collect_coords(i as int, keep, coord),
            decreases self.blocks@.len() - i,
        {
            if self.blocks[i] {
                proof {
                    lemma_index_coords(i as int, g as int);
                }
                output_vec.push([(i % g) as isize - o, (i / g) as isize - o]);
                assert(pairs(output_vec@) =~= collect_coords(i + 1, keep, coord));
            } else {
                assert(!keep(i as int));
                assert(collect_coords(i + 1, keep, coord) == collect_coords(i as int, keep, coord));
            }
            i = i + 1;
        }
        output_vec
    }
}

/// Methods for getting basic metrics
impl Blocks {
    /// Get number of blocks
    pub fn get_nr_blocks(&self) -> (n: u64)
        ensures
            n == self@.count(),
    {
        let mut count: u64 = 0;
        let mut i: usize = 0;
        while i < self.blocks.len()
            invariant
                i <= self.blocks@.len(),
                count == count_true(self.blocks@.take(i as int)),
                count <= i,
            decreases self.blocks@.len() - i,
        {
            assert(self.blocks@.take(i + 1).drop_last() =~= self.blocks@.take(i as int));
            if self.blocks[i] {
                count = count + 1;
            }
            i = i + 1;
        }
        assert(self.blocks@.take(i as int) =~= self.blocks@);
        count
    }

    /// Get (thin-walled) interior, i.e., blocks in self which have no neighbors which share a side
    /// with an air block
    pub fn get_interior(&self) -> (interior: Blocks)
        requires
            wf_blocks(self),
        ensures
            interior@ == self@.interior(),
            wf_blocks(&interior),
    {
        let g = self.grid_size;
        let n = self.blocks.len();
        let ghost grid = self@;
        let mut out: Vec<bool> = Vec::new();
        let mut i: usize = 0;
        while i < n
            invariant
                grid == self@,
                grid.wf(),
                g == self.grid_size,
                n == g * g,
                i <= n,
                out@.len() == i,
                forall|j: int| 0 <= j < i ==> out@[j] == grid.interior_at(j % (g as int), j / (g as int)),
            decreases n - i,
        {
            proof {
                lemma_neighbor_indices(i as int, g as int);
            }
            let x = i % g;
            let y = i / g;
            let v = self.blocks[i] == true
            // has to be a block in self
             && x != 0 && x != g - 1 && y != 0 && y != g - 1
            // cannot lie on the boundary of the grid
             && self.blocks[i + 1] && self.blocks[i - 1] && self.blocks[i + g] && self.blocks[i
                - g];
            // all direct neighbors should also be blocks
            proof {
                let (xi, yi) = (x as int, y as int);
                assert(v == grid.interior_at(xi, yi));
            }
            out.push(v);
            i = i + 1;
        }
        assert(out@ =~= grid.interior().cells);
        Blocks::new(out, g)
    }
}

impl Blocks {
    /// Get (thin-walled) boundary
    /// (There is the obvious relation of boundary + interior = blocks, but we won't use it)
    #[verifier::loop_isolation(false)]
    pub fn get_boundary(&self) -> (boundary: Blocks)
        requires
            wf_blocks(self),
        ensures
            boundary@ == self@.boundary(),
            wf_blocks(&boundary),
    {
        let g = self.grid_size;
        let n = self.blocks.len();
        let ghost grid = self@;
        let mut out: Vec<bool> = Vec::new();
        let mut i: usize = 0;
        while i < n
            invariant
                i <= n,
                out@.len() == i,
                forall|j: int| 0 <= j < i ==> out@[j] == grid.boundary_at(j % (g as int), j / (g as int)),
            decreases n - i,
        {
            proof {
                lemma_neighbor_indices(i as int, g as int);
            }
            let x = i % g;
            let y = i / g;
            let v = self.blocks[i] == true
            // has to be a block
            // and (be on the grid boundary or border any non-block)
             && (x == 0 || x == g - 1 || y == 0 || y == g - 1 || !self.blocks[i + 1]
                || !self.blocks[i - 1] || !self.blocks[i + g] || !self.blocks[i - g]);
            assert(v == grid.boundary_at(x as int, y as int));
            out.push(v);
            i = i + 1;
        }
        assert(out@ =~= grid.boundary().cells);
        Blocks::new(out, g)
    }

    /// Complement of blocks (for building interiors)
    #[verifier::loop_isolation(false)]
    pub fn get_complement(&self) -> (complement: Blocks)
        requires
            wf_blocks(self),
        ensures
            complement@ == self@.complement(),
            wf_blocks(&complement),
    {
        let g = self.grid_size;
        let n = self.blocks.len();
        let ghost grid = self@;
        let mut out: Vec<bool> = Vec::new();
        let mut i: usize = 0;
        while i < n
            invariant
                i <= n,
                out@.len() == i,
                forall|j: int| 0 <= j < i ==> out@[j] == !grid.cell(j % (g as int), j / (g as int)),
            decreases n - i,
        {
            proof {
                lemma_neighbor_indices(i as int, g as int);
            }
            out.push(!self.blocks[i]);
            i = i + 1;
        }
        assert(out@ =~= grid.complement().cells);
        Blocks::new(out, g)
    }

    /// Returns a (unordered) list of all corners of the blocks (so block coordinates ±0.5 around
    /// the center of a block) which are the corner of exactly 1 block, in global coordinates.
    /// (exactly 2 blocks corresponds to a corner which is an edge of the whole block structure,
    /// and exactly 3 blocks corresponds to an inner corner)
    /// The convex hull only depends on points of this type (so it should be a large reduction).
    #[verifier::loop_isolation(false)]
    pub fn get_outer_corners_usize(&self) -> (corners: Vec<[isize; 2]>)
        requires
            wf_blocks(self),
        ensures
            pairs(corners@) == self@.outer_corner_coords(),
    {
        // loop over all 2x2s in the grid, which we think of as points between the blocks
        // then count the number of blocks
        let g = self.grid_size;
        let n = self.blocks.len();
        let ghost grid = self@;
        let ghost keep = |i: int| grid.outer_corner_at(i % (g as int), i / (g as int));
        let ghost coord = |i: int|
            (i % (g as int) - grid.origin() + 1, i / (g as int) - grid.origin() + 1);
        proof {
            lemma_small_grid(g as int);
        }
        let o = (g / 2) as isize;
        let mut output: Vec<[isize; 2]> = Vec::new();
        // For an n×n grid there are (n-1)×(n-1) points between 4 points... (vaguely speaking)
        let mut corner_point: usize = 0;
        while corner_point < n
            invariant
                corner_point <= n,
                pairs(output@) == collect_coords(corner_point as int, keep, coord),
            decreases n - corner_point,
        {
            proof {
                lemma_neighbor_indices(corner_point as int, g as int);
            }
            let x = corner_point % g;
            let y = corner_point / g;
            // Filter out those corner points which don't have a 2×2 around them
            // (using bottom right index to match corners to their block)
            if y == g - 1 || x == g - 1 {
                // do nothing
                assert(!keep(corner_point as int));
            } else {
                proof {
                    lemma_neighbor_indices(corner_point + g, g as int);
                    assert((corner_point + g) / (g as int) == y + 1 && (corner_point + g) % (g as int) == x) by {
                        lemma_coords_index(x as int, y + 1, g as int);
                    }
                }
                let a: u8 = if self.blocks[corner_point] { 1 } else { 0 };
                let b: u8 = if self.blocks[corner_point + 1] { 1 } else { 0 };
                let c: u8 = if self.blocks[corner_point + g] { 1 } else { 0 };
                let d: u8 = if self.blocks[corner_point + g + 1] { 1 } else { 0 };
                if a + b + c + d == 1 {
                    // add to output
                    output.push([x as isize - o + 1, y as isize - o + 1]);
                    assert(keep(corner_point as int));
                    assert(pairs(output@) =~= collect_coords(corner_point + 1, keep, coord));
                } else {
                    assert(!keep(corner_point as int));
                }
            }
            corner_point = corner_point + 1;
        }
        output
    }
}

/// The bounds as a tuple of integers.
pub open spec fn bounds_tuple(b: [[isize; 2]; 2]) -> Bounds {
    (b[0][0] as int, b[0][1] as int, b[1][0] as int, b[1][1] as int)
}

/// Has cell `(xx, yy)` been visited when the scan over columns, then rows, is at `(x, y)`?
pub open spec fn scanned(x: int, y: int, xx: int, yy: int) -> bool {
    xx < x || (xx == x && yy < y)
}

/// Methods for getting bounds
impl Blocks {
    /// The smallest box that contains all blocks, as ((x_1, y_1), (x_2, y_2)) in global
    /// coordinates; a structure without blocks gets the grid cell (0, 0).
    #[verifier::loop_isolation(false)]
    fn global_bounds(&self) -> (bounds: [[isize; 2]; 2])
        requires
            wf_blocks(self),
        ensures
            self@.bounds_ok(bounds_tuple(bounds)),
            self@.bounds() == bounds_tuple(bounds),
    {
        let g = self.grid_size;
        let n = self.blocks.len();
        let ghost grid = self@;
        proof {
            lemma_small_grid(g as int);
        }
        let mut x_1 = g;
        let mut y_1 = g;
        let mut x_2: usize = 0;
        let mut y_2: usize = 0;
        let ghost mut any = false;

        let mut x: usize = 0;
        while x < g
            invariant
                x <= g,
                any == (exists|xx: int, yy: int| scanned(x as int, 0, xx, yy) && #[trigger] grid.cell(xx, yy)),
                !any ==> x_1 == g && y_1 == g && x_2 == 0 && y_2 == 0,
                forall|xx: int, yy: int| scanned(x as int, 0, xx, yy) && #[trigger] grid.cell(xx, yy)
                    ==> x_1 <= xx <= x_2 && y_1 <= yy <= y_2,
                any ==> (exists|yy: int| scanned(x as int, 0, x_1 as int, yy) && #[trigger] grid.cell(x_1 as int, yy)),
                any ==> (exists|xx: int| scanned(x as int, 0, xx, y_1 as int) && #[trigger] grid.cell(xx, y_1 as int)),
                any ==> (exists|yy: int| scanned(x as int, 0, x_2 as int, yy) && #[trigger] grid.cell(x_2 as int, yy)),
                any ==> (exists|xx: int| scanned(x as int, 0, xx, y_2 as int) && #[trigger] grid.cell(xx, y_2 as int)),
            decreases g - x,
        {
            let mut y: usize = 0;
            while y < g
                invariant
                    x < g,
                    y <= g,
                    any == (exists|xx: int, yy: int| scanned(x as int, y as int, xx, yy) && #[trigger] grid.cell(xx, yy)),
                    !any ==> x_1 == g && y_1 == g && x_2 == 0 && y_2 == 0,
                    forall|xx: int, yy: int| scanned(x as int, y as int, xx, yy) && #[trigger] grid.cell(xx, yy)
                        ==> x_1 <= xx <= x_2 && y_1 <= yy <= y_2,
                    any ==> (exists|yy: int| scanned(x as int, y as int, x_1 as int, yy) && #[trigger] grid.cell(x_1 as int, yy)),
                    any ==> (exists|xx: int| scanned(x as int, y as int, xx, y_1 as int) && #[trigger] grid.cell(xx, y_1 as int)),
                    any ==> (exists|yy: int| scanned(x as int, y as int, x_2 as int, yy) && #[trigger] grid.cell(x_2 as int, yy)),
                    any ==> (exists|xx: int| scanned(x as int, y as int, xx, y_2 as int) && #[trigger] grid.cell(xx, y_2 as int)),
                decreases g - y,
            {
                proof {
                    lemma_coords_index(x as int, y as int, g as int);
                }
                if self.blocks[x + y * g] {
                    proof {
                        assert(grid.cell(x as int, y as int));
                        any = true;
                    }
                    x_1 = if x < x_1 { x } else { x_1 };
                    y_1 = if y < y_1 { y } else { y_1 };
                    x_2 = if x > x_2 { x } else { x_2 };
                    y_2 = if y > y_2 { y } else { y_2 };
                } else {
                    assert(!grid.cell(x as int, y as int));
                }
                y = y + 1;
            }
            proof {
                assert forall|xx: int, yy: int| scanned(x + 1, 0, xx, yy) implies scanned(x as int, y as int, xx, yy) || !grid.in_grid(xx, yy) by {}
            }
            x = x + 1;
        }

        // handle empty inputs as the center being at the bottom left (a single block)
        let nr = self.get_nr_blocks();
        proof {
            lemma_nonempty_count(grid);
            assert(grid.nonempty() == any) by {
                if grid.nonempty() {
                    let (xx, yy) = choose|xx: int, yy: int| grid.cell(xx, yy);
                    assert(scanned(x as int, 0, xx, yy));
                }
            }
        }
        if nr == 0 {
            x_1 = 0;
            y_1 = 0;
        }
        let o = (g / 2) as isize;
        let bounds = [
            [x_1 as isize - o, y_1 as isize - o],
            [x_2 as isize - o, y_2 as isize - o],
        ];
        proof {
            if any {
                let ghost b = bounds_tuple(bounds);
                assert(grid.origin() == o);
                let y0 = choose|yy: int| scanned(x as int, 0, x_1 as int, yy) && #[trigger] grid.cell(x_1 as int, yy);
                assert(grid.cell(b.0 + o, y0));
                let x0 = choose|xx: int| scanned(x as int, 0, xx, y_1 as int) && #[trigger] grid.cell(xx, y_1 as int);
                assert(grid.cell(x0, b.1 + o));
                let y2 = choose|yy: int| scanned(x as int, 0, x_2 as int, yy) && #[trigger] grid.cell(x_2 as int, yy);
                assert(grid.cell(b.2 + o, y2));
                let x2 = choose|xx: int| scanned(x as int, 0, xx, y_2 as int) && #[trigger] grid.cell(xx, y_2 as int);
                assert(grid.cell(x2, b.3 + o));
                assert forall|xx: int, yy: int| #[trigger] grid.cell(xx, yy) implies b.0 + o <= xx <= b.2 + o && b.1 + o <= yy <= b.3 + o by {
                    assert(scanned(x as int, 0, xx, yy));
                }
            }
            lemma_bounds_is(grid, bounds_tuple(bounds));
        }
        bounds
    }

    /// Get the smallest box that contains all blocks in the input.
    /// The output is in coordinates relative to the grid system (cell columns and rows)
    /// Presented in the format ((x_1, y_1), (x_2, y_2)), where
    /// 0 <= x_1 <= x_2 < grid_size,   0 <= y_1 <= y_2 < grid_size
    /// A structure without blocks gets the single cell (0, 0).
    pub fn get_bounds(&self) -> (bounds: [[isize; 2]; 2])
        requires
            wf_blocks(self),
        ensures
            self@.grid_bounds_ok(bounds_tuple(bounds)),
            bounds_tuple(bounds) == (
                self@.bounds().0 + self@.origin(),
                self@.bounds().1 + self@.origin(),
                self@.bounds().2 + self@.origin(),
                self@.bounds().3 + self@.origin(),
            ),
    {
        let b = self.global_bounds();
        let n = self.blocks.len();
        let ghost grid = self@;
        proof {
            lemma_small_grid(self.grid_size as int);
            lemma_bounds_range(grid, bounds_tuple(b));
        }
        let o = (self.grid_size / 2) as isize;
        let bounds = [[b[0][0] + o, b[0][1] + o], [b[1][0] + o, b[1][1] + o]];
        proof {
            let gb = bounds_tuple(bounds);
            if grid.nonempty() {
                let y0 = choose|y: int| #[trigger] grid.cell(b[0][0] + grid.origin(), y);
                assert(grid.cell(gb.0, y0));
                let x1 = choose|x: int| #[trigger] grid.cell(x, b[0][1] + grid.origin());
                assert(grid.cell(x1, gb.1));
                let y2 = choose|y: int| #[trigger] grid.cell(b[1][0] + grid.origin(), y);
                assert(grid.cell(gb.2, y2));
                let x3 = choose|x: int| #[trigger] grid.cell(x, b[1][1] + grid.origin());
                assert(grid.cell(x3, gb.3));
            }
        }
        bounds
    }

    /// Get the diameters of the bounding box of the input
    /// Need to get the x and y diameters separately by asymmetry.
    /// Diameters are preferred over radii since we always get an integer this way
    pub fn get_diameters(&self) -> (diameters: [usize; 2])
        requires
            wf_blocks(self),
        ensures
            diameters[0] == self@.diameters().0,
            diameters[1] == self@.diameters().1,
    {
        let b = self.global_bounds();
        let n = self.blocks.len();
        let ghost grid = self@;
        proof {
            lemma_small_grid(self.grid_size as int);
            lemma_bounds_range(grid, bounds_tuple(b));
        }
        [(b[1][0] - b[0][0] + 1) as usize, (b[1][1] - b[0][1] + 1) as usize]
    }
}

/// The bounding box lies in the grid (or is the origin cell), with its low corner below its
/// high corner.
pub proof fn lemma_bounds_range(grid: Grid, b: Bounds)
    requires
        grid.wf(),
        grid.bounds_ok(b),
    ensures
        -grid.origin() <= b.0 <= b.2 < grid.size - grid.origin() || (b.0 == b.2 == -grid.origin()),
        -grid.origin() <= b.1 <= b.3 < grid.size - grid.origin() || (b.1 == b.3 == -grid.origin()),
        -grid.origin() <= b.0 <= b.2,
        -grid.origin() <= b.1 <= b.3,
        b.2 - b.0 + 1 <= grid.size || grid.size == 0,
        b.3 - b.1 + 1 <= grid.size || grid.size == 0,
        b.2 + grid.origin() < grid.size || !grid.nonempty(),
        b.3 + grid.origin() < grid.size || !grid.nonempty(),
{
    let o = grid.origin();
    if grid.nonempty() {
        let y0 = choose|y: int| #[trigger] grid.cell(b.0 + o, y);
        let x0 = choose|x: int| #[trigger] grid.cell(x, b.1 + o);
        let y2 = choose|y: int| #[trigger] grid.cell(b.2 + o, y);
        let x2 = choose|x: int| #[trigger] grid.cell(x, b.3 + o);
        assert(grid.cell(b.0 + o, y0));
        assert(grid.cell(x0, b.1 + o));
        assert(grid.cell(b.2 + o, y2));
        assert(grid.cell(x2, b.3 + o));
    }
}

/// Methods for construction
impl Blocks {
    // All blocks that have x coord in the set
    #[verifier::loop_isolation(false)]
    pub fn strips_at_x_coords(x_coords: Vec<usize>, grid_size: usize) -> (strips: Blocks)
        requires
            grid_size * grid_size <= usize::MAX,
        ensures
            strips@ == strips_x_grid(grid_size as nat, x_coords@),
            wf_blocks(&strips),
    {
        let g = grid_size;
        let n = g * g;
        let mut out: Vec<bool> = Vec::new();
        let mut i: usize = 0;
        while i < n
            invariant
                i <= n,
                out@.len() == i,
                forall|j: int| 0 <= j < i ==> out@[j] == x_coords@.contains((j % (g as int)) as usize),
            decreases n - i,
        {
            proof {
                lemma_index_coords(i as int, g as int);
            }
            out.push(vec_contains(&x_coords, i % g));
            i = i + 1;
        }
        assert(out@ =~= strips_x_grid(grid_size as nat, x_coords@).cells);
        Blocks::new(out, g)
    }

    // All blocks that have y coord in the set
    #[verifier::loop_isolation(false)]
    pub fn strips_at_y_coords(y_coords: Vec<usize>, grid_size: usize) -> (strips: Blocks)
        requires
            grid_size * grid_size <= usize::MAX,
        ensures
            strips@ == strips_y_grid(grid_size as nat, y_coords@),
            wf_blocks(&strips),
    {
        let g = grid_size;
        let n = g * g;
        let mut out: Vec<bool> = Vec::new();
        let mut i: usize = 0;
        while i < n
            invariant
                i <= n,
                out@.len() == i,
                forall|j: int| 0 <= j < i ==> out@[j] == y_coords@.contains((j / (g as int)) as usize),
            decreases n - i,
        {
            proof {
                lemma_index_coords(i as int, g as int);
            }
            out.push(vec_contains(&y_coords, i / g));
            i = i + 1;
        }
        assert(out@ =~= strips_y_grid(grid_size as nat, y_coords@).cells);
        Blocks::new(out, g)
    }

    /// Blocks that have x and y coords contained in the provided vectors
    #[verifier::loop_isolation(false)]
    pub fn squares_at_xy_coords(x_coords: Vec<usize>, y_coords: Vec<usize>, grid_size: usize) -> (squares: Blocks)
        requires
            grid_size * grid_size <= usize::MAX,
        ensures
            squares@ == squares_grid(grid_size as nat, x_coords@, y_coords@),
            wf_blocks(&squares),
    {
        let g = grid_size;
        let n = g * g;
        let mut out: Vec<bool> = Vec::new();
        let mut i: usize = 0;
        while i < n
            invariant
                i <= n,
                out@.len() == i,
                forall|j: int| 0 <= j < i ==> out@[j] == (x_coords@.contains((j % (g as int)) as usize)
                    && y_coords@.contains((j / (g as int)) as usize)),
            decreases n - i,
        {
            proof {
                lemma_index_coords(i as int, g as int);
            }
            out.push(vec_contains(&x_coords, i % g) && vec_contains(&y_coords, i / g));
            i = i + 1;
        }
        assert(out@ =~= squares_grid(grid_size as nat, x_coords@, y_coords@).cells);
        Blocks::new(out, g)
    }

    // Return the blocks object which contains the center 1, 2, or 4 blocks (depending on parities)
    pub fn get_center_blocks(&self) -> (center: Blocks)
        requires
            wf_blocks(self),
        ensures
            center@ == self@.center(),
            wf_blocks(&center),
    {
        let g = self.grid_size;
        let n = self.blocks.len();
        let ghost grid = self@;
        let b = self.global_bounds();
        let d = self.get_diameters();
        proof {
            lemma_small_grid(g as int);
            lemma_bounds_range(grid, bounds_tuple(b));
        }
        let o = (g / 2) as isize;
        let diameter_x = d[0];
        let diameter_y = d[1];

        // get indices, 1 or 2 depending on parity
        let base_x = o + b[0][0] + diameter_x as isize / 2;
        let x_indices = if diameter_x % 2 == 0 {
            vec![(base_x - 1) as usize, base_x as usize]
        } else {
            vec![base_x as usize]
        };
        let base_y = o + b[0][1] + diameter_y as isize / 2;
        let y_indices = if diameter_y % 2 == 0 {
            vec![(base_y - 1) as usize, base_y as usize]
        } else {
            vec![base_y as usize]
        };
        assert(x_indices@ =~= grid.center_columns());
        assert(y_indices@ =~= grid.center_rows());
        Self::squares_at_xy_coords(x_indices, y_indices, g)
    }
}

/// Methods for comparing
impl Blocks {
    /// Do the two have the same grid size and the same blocks?
    pub fn same_as(&self, other: &Blocks) -> (same: bool)
        ensures
            same == (self@ == other@),
    {
        if self.grid_size != other.grid_size || self.blocks.len() != other.blocks.len() {
            return false;
        }
        let mut i: usize = 0;
        while i < self.blocks.len()
            invariant
                self.blocks@.len() == other.blocks@.len(),
                i <= self.blocks@.len(),
                forall|j: int| 0 <= j < i ==> self.blocks@[j] == other.blocks@[j],
            decreases self.blocks@.len() - i,
        {
            if self.blocks[i] != other.blocks[i] {
                return false;
            }
            i = i + 1;
        }
        assert(self.blocks@ =~= other.blocks@);
        true
    }
}

/// Every coordinate of `b` lies within `g` of the origin.
pub open spec fn bounds_small(b: [[isize; 2]; 2], g: int) -> bool {
    &&& -g <= b[0][0] <= g
    &&& -g <= b[0][1] <= g
    &&& -g <= b[1][0] <= g
    &&& -g <= b[1][1] <= g
}

/// Methods for modifying blocks (flipping and rotating)
impl Blocks {
    /// Flip the blocks along the horizontal axis through the center of the bounds.
    #[verifier::loop_isolation(false)]
    fn flip_horizontal(&self, bounds: [[isize; 2]; 2]) -> (flipped: Self)
        requires
            wf_blocks(self),
            bounds_small(bounds, self.grid_size as int),
        ensures
            flipped@ == self@.flip_horizontal(bounds_tuple(bounds)),
            wf_blocks(&flipped),
    {
        let g = self.grid_size;
        let n = self.blocks.len();
        let ghost grid = self@;
        let ghost o = grid.origin();
        proof {
            lemma_small_grid(g as int);
        }
        let y_1 = bounds[0][1];
        let y_2 = bounds[1][1];
        let mut out: Vec<bool> = Vec::new();
        let mut index: usize = 0;
        while index < n
            invariant
                index <= n,
                out@.len() == index,
                forall|j: int|
                    0 <= j < index ==> out@[j] == grid.has_block(
                        j % (g as int) - o,
                        -(j / (g as int) - o) + y_1 + y_2,
                    ),
            decreases n - index,
        {
            proof {
                lemma_index_coords(index as int, g as int);
            }
            let c = self.get_global_coord_usize_from_index(index);
            // formula for mirroring in the middle of y_1 and y_2
            let image_global_coord = [c[0], -c[1] + y_1 + y_2];
            out.push(self.is_block_on_global_coord(image_global_coord));
            index = index + 1;
        }
        assert(out@ =~= grid.flip_horizontal(bounds_tuple(bounds)).cells);
        Blocks::new(out, g)
    }

    /// Flip the blocks along the vertical axis through the center of the bounds.
    #[verifier::loop_isolation(false)]
    fn flip_vertical(&self, bounds: [[isize; 2]; 2]) -> (flipped: Self)
        requires
            wf_blocks(self),
            bounds_small(bounds, self.grid_size as int),
        ensures
            flipped@ == self@.flip_vertical(bounds_tuple(bounds)),
            wf_blocks(&flipped),
    {
        let g = self.grid_size;
        let n = self.blocks.len();
        let ghost grid = self@;
        let ghost o = grid.origin();
        proof {
            lemma_small_grid(g as int);
        }
        let x_1 = bounds[0][0];
        let x_2 = bounds[1][0];
        let mut out: Vec<bool> = Vec::new();
        let mut index: usize = 0;
        while index < n
            invariant
                index <= n,
                out@.len() == index,
                forall|j: int|
                    0 <= j < index ==> out@[j] == grid.has_block(
                        -(j % (g as int) - o) + x_1 + x_2,
                        j / (g as int) - o,
                    ),
            decreases n - index,
        {
            proof {
                lemma_index_coords(index as int, g as int);
            }
            let c = self.get_global_coord_usize_from_index(index);
            // formula for mirroring in the middle of x_1 and x_2
            let preimage_global_coord = [-c[0] + x_1 + x_2, c[1]];
            out.push(self.is_block_on_global_coord(preimage_global_coord));
            index = index + 1;
        }
        assert(out@ =~= grid.flip_vertical(bounds_tuple(bounds)).cells);
        Blocks::new(out, g)
    }

    /// Flip the blocks along the 45° up diagonal through the center.
    /// Requires that the center is either 1 or 4, so that this diagonal goes nicely through the grid
    /// (Else reflection doesn't take cells to cells)
    #[verifier::loop_isolation(false)]
    fn flip_up_diagonal(&self) -> (flipped: Self)
        requires
            wf_blocks(self),
            self@.diagonals_possible(),
        ensures
            flipped@ == self@.flip_up_diagonal(),
            wf_blocks(&flipped),
    {
        let g = self.grid_size;
        let n = self.blocks.len();
        let ghost grid = self@;
        let ghost o = grid.origin();
        proof {
            lemma_small_grid(g as int);
        }
        let center_blocks = self.get_center_blocks();
        let cb = center_blocks.global_bounds();
        proof {
            lemma_bounds_range(center_blocks@, bounds_tuple(cb));
        }
        let x_m = cb[0][0];  // Point through which the mirror goes
        let y_m = cb[0][1];
        let mut out: Vec<bool> = Vec::new();
        let mut index: usize = 0;
        while index < n
            invariant
                index <= n,
                out@.len() == index,
                forall|j: int|
                    0 <= j < index ==> out@[j] == grid.has_block(
                        (j / (g as int) - o) + x_m - y_m,
                        (j % (g as int) - o) - x_m + y_m,
                    ),
            decreases n - index,
        {
            proof {
                lemma_index_coords(index as int, g as int);
            }
            let c = self.get_global_coord_usize_from_index(index);
            // formula for mirroring in the up diagonal through [x_m, y_m]
            let image_global_coord = [c[1] + x_m - y_m, c[0] - x_m + y_m];
            out.push(self.is_block_on_global_coord(image_global_coord));
            index = index + 1;
        }
        assert(out@ =~= grid.flip_up_diagonal().cells);
        Blocks::new(out, g)
    }

    /// Flip the blocks along the 45° down diagonal through the center.
    /// Requires that the center is either 1 or 4, so that this diagonal goes nicely through the grid
    /// (Else reflection doesn't take cells to cells)
    #[verifier::loop_isolation(false)]
    fn flip_down_diagonal(&self) -> (flipped: Self)
        requires
            wf_blocks(self),
            self@.diagonals_possible(),
        ensures
            flipped@ == self@.flip_down_diagonal(),
            wf_blocks(&flipped),
    {
        let g = self.grid_size;
        let n = self.blocks.len();
        let ghost grid = self@;
        let ghost o = grid.origin();
        proof {
            lemma_small_grid(g as int);
        }
        let center_blocks = self.get_center_blocks();
        let cb = center_blocks.global_bounds();
        proof {
            lemma_bounds_range(center_blocks@, bounds_tuple(cb));
        }
        let x_lb = cb[0][0];  // left bottom corner
        let y_lb = cb[0][1];
        // Point through which the mirror goes
        let x_m = if center_blocks.get_nr_blocks() == 1 {
            x_lb + 1  // go right one from bottom left
        } else {
            x_lb + 2  // go right two from bottom left
        };
        let y_m = y_lb;
        let mut out: Vec<bool> = Vec::new();
        let mut index: usize = 0;
        while index < n
            invariant
                index <= n,
                out@.len() == index,
                forall|j: int|
                    0 <= j < index ==> out@[j] == grid.has_block(
                        -(j / (g as int) - o) + x_m + y_m - 1,
                        -(j % (g as int) - o) + x_m + y_m - 1,
                    ),
            decreases n - index,
        {
            proof {
                lemma_index_coords(index as int, g as int);
            }
            let c = self.get_global_coord_usize_from_index(index);
            // NOTE! We flip the left bottom corner! so to look up the preimage, we need to
            //  account for looking at the right top corner, hence the -1, -1 term
            let image_global_coord = [-c[1] + x_m + y_m - 1, -c[0] + x_m + y_m - 1];
            out.push(self.is_block_on_global_coord(image_global_coord));
            index = index + 1;
        }
        assert(out@ =~= grid.flip_down_diagonal().cells);
        Blocks::new(out, g)
    }
}

/// Methods for symmetry detection
impl Blocks {
    /// Get the symmetry type of the block structure
    pub fn get_symmetry_type(&self) -> (symmetry: SymmetryType)
        requires
            wf_blocks(self),
        ensures
            symmetry == self@.symmetry_type(),
    {
        let n = self.blocks.len();
        let ghost grid = self@;
        let bounds = self.global_bounds();
        proof {
            lemma_small_grid(self.grid_size as int);
            lemma_bounds_range(grid, bounds_tuple(bounds));
        }
        let nr_center = self.get_center_blocks().get_nr_blocks();
        let diagonals_possible = nr_center == 1 || nr_center == 4;

        let h = self.same_as(&self.flip_horizontal(bounds));
        let v = self.same_as(&self.flip_vertical(bounds));
        // rely on short-circuiting here to prevent flipping where the diagonals miss the cells
        let u = diagonals_possible && self.same_as(&self.flip_up_diagonal());
        let d = diagonals_possible && self.same_as(&self.flip_down_diagonal());

        // If any are true, we are in the reflection case
        if (h && u) || (h && d) || (v && u) || (v && d) {
            SymmetryType::ReflectionsAll
        } else if h && v {
            SymmetryType::ReflectionsCardinals
        } else if u && d {
            SymmetryType::ReflectionsDiagonals
        } else if h {
            SymmetryType::ReflectionHorizontal
        } else if v {
            SymmetryType::ReflectionVertical
        } else if u {
            SymmetryType::ReflectionDiagonalUp
        } else if d {
            SymmetryType::ReflectionDiagonalDown
        } else {
            // Rotation case
            // Check 90° rotation symmetry. The mirrored structure has the same bounds, hence the
            // same center, so its diagonals are possible whenever those of the structure are.
            let flipped = self.flip_horizontal(bounds);
            let nr_flipped_center = flipped.get_center_blocks().get_nr_blocks();
            if diagonals_possible && (nr_flipped_center == 1 || nr_flipped_center == 4)
                && self.same_as(&flipped.flip_up_diagonal()) {
                SymmetryType::RotationQuarter
            } else if self.same_as(&flipped.flip_vertical(bounds)) {
                SymmetryType::RotationHalf
            } else {
                SymmetryType::NoSymmetry
            }
        }
    }
}

/// The grids of a stack of blocks.
pub open spec fn grids(stack: Seq<Blocks>) -> Seq<Grid> {
    stack.map_values(|b: Blocks| b@)
}

/// Every member of the stack is well formed.
pub open spec fn all_wf(stack: Seq<Blocks>) -> bool {
    forall|k: int| 0 <= k < stack.len() ==> wf_blocks(#[trigger] &stack[k])
}

/// Methods for combining different Blocks
impl Blocks {
    /// The largest grid size of a nonempty stack, and the fact that its square fits in memory.
    fn largest_grid_size(stack: &Vec<Self>) -> (g: usize)
        requires
            stack@.len() > 0,
            all_wf(stack@),
        ensures
            g == max_size(grids(stack@)),
            g * g <= usize::MAX,
    {
        let mut g: usize = 0;
        let mut k: usize = 0;
        while k < stack.len()
            invariant
                k <= stack@.len(),
                all_wf(stack@),
                g == max_size(grids(stack@.take(k as int))),
                g * g <= usize::MAX,
            decreases stack@.len() - k,
        {
            let n = stack[k].blocks.len();
            assert(grids(stack@.take(k + 1)).drop_last() =~= grids(stack@.take(k as int)));
            assert(wf_blocks(&stack@[k as int]));
            if stack[k].grid_size > g {
                g = stack[k].grid_size;
            }
            k = k + 1;
        }
        assert(stack@.take(k as int) =~= stack@);
        g
    }

    /// Whether each member of the stack has a block at the global coordinate, counted.
    fn count_layers_with_block(stack: &Vec<Self>, global_coord: [isize; 2]) -> (count: usize)
        requires
            all_wf(stack@),
        ensures
            count == layers_with_block(grids(stack@), global_coord[0] as int, global_coord[1] as int),
            count <= stack@.len(),
    {
        let mut count: usize = 0;
        let mut k: usize = 0;
        while k < stack.len()
            invariant
                k <= stack@.len(),
                all_wf(stack@),
                count <= k,
                count == layers_with_block(grids(stack@.take(k as int)), global_coord[0] as int, global_coord[1] as int),
            decreases stack@.len() - k,
        {
            assert(grids(stack@.take(k + 1)).drop_last() =~= grids(stack@.take(k as int)));
            assert(wf_blocks(&stack@[k as int]));
            if stack[k].is_block_on_global_coord(global_coord) {
                count = count + 1;
            }
            k = k + 1;
        }
        assert(stack@.take(k as int) =~= stack@);
        count
    }

    /// A block is in the output iff there is a block at the same global position for any layer in
    ///  the input.
    #[verifier::loop_isolation(false)]
    pub fn combine_any(stack: Vec<Self>) -> (combined: Self)
        requires
            stack@.len() > 0,
            all_wf(stack@),
        ensures
            combined@ == combine_any_grid(grids(stack@)),
            wf_blocks(&combined),
    {
        // determine largest grid size
        let grid_size = Self::largest_grid_size(&stack);
        let g = grid_size;
        let n = g * g;
        proof {
            lemma_small_grid(g as int);
        }
        let o = (g / 2) as isize;
        let ghost gs = grids(stack@);
        let mut out: Vec<bool> = Vec::new();
        let mut i: usize = 0;
        while i < n
            invariant
                i <= n,
                out@.len() == i,
                forall|j: int| 0 <= j < i ==> out@[j] == (exists|k: int| 0 <= k < gs.len() && #[trigger] gs[k].has_block(j % (g as int) - o, j / (g as int) - o)),
            decreases n - i,
        {
            proof {
                lemma_index_coords(i as int, g as int);
            }
            let global_coord = [(i % g) as isize - o, (i / g) as isize - o];
            let mut any = false;
            let mut k: usize = 0;
            while k < stack.len()
                invariant
                    k <= stack@.len(),
                    any == (exists|kk: int| 0 <= kk < k && #[trigger] gs[kk].has_block(global_coord[0] as int, global_coord[1] as int)),
                decreases stack@.len() - k,
            {
                assert(wf_blocks(&stack@[k as int]));
                let b = stack[k].is_block_on_global_coord(global_coord);
                assert(gs[k as int] == stack@[k as int]@);
                any = any || b;
                k = k + 1;
            }
            out.push(any);
            i = i + 1;
        }
        assert(out@ =~= combine_any_grid(gs).cells);
        Blocks::new(out, grid_size)
    }

    /// A block is in the output iff for every layer in the input, there is a block at the same
    ///  global position
    #[verifier::loop_isolation(false)]
    pub fn combine_all(stack: Vec<Self>) -> (combined: Self)
        requires
            stack@.len() > 0,
            all_wf(stack@),
        ensures
            combined@ == combine_all_grid(grids(stack@)),
            wf_blocks(&combined),
    {
        // determine largest grid size
        let grid_size = Self::largest_grid_size(&stack);
        let g = grid_size;
        let n = g * g;
        proof {
            lemma_small_grid(g as int);
        }
        let o = (g / 2) as isize;
        let ghost gs = grids(stack@);
        let mut out: Vec<bool> = Vec::new();
        let mut i: usize = 0;
        while i < n
            invariant
                i <= n,
                out@.len() == i,
                forall|j: int| 0 <= j < i ==> out@[j] == (forall|k: int| 0 <= k < gs.len() ==> #[trigger] gs[k].has_block(j % (g as int) - o, j / (g as int) - o)),
            decreases n - i,
        {
            proof {
                lemma_index_coords(i as int, g as int);
            }
            let global_coord = [(i % g) as isize - o, (i / g) as isize - o];
            let mut all = true;
            let mut k: usize = 0;
            while k < stack.len()
                invariant
                    k <= stack@.len(),
                    all == (forall|kk: int| 0 <= kk < k ==> #[trigger] gs[kk].has_block(global_coord[0] as int, global_coord[1] as int)),
                decreases stack@.len() - k,
            {
                assert(wf_blocks(&stack@[k as int]));
                let b = stack[k].is_block_on_global_coord(global_coord);
                assert(gs[k as int] == stack@[k as int]@);
                all = all && b;
                k = k + 1;
            }
            out.push(all);
            i = i + 1;
        }
        assert(out@ =~= combine_all_grid(gs).cells);
        Blocks::new(out, grid_size)
    }

    /// A block is in the output iff there is a block at the same global position for at least
    ///  `min_layers` layers of the input.
    #[verifier::loop_isolation(false)]
    pub fn combine_at_least(stack: Vec<Self>, min_layers: usize) -> (combined: Self)
        requires
            stack@.len() > 0,
            all_wf(stack@),
        ensures
            combined@ == combine_at_least_grid(grids(stack@), min_layers as int),
            wf_blocks(&combined),
    {
        // determine the largest grid size & associated origin
        let grid_size = Self::largest_grid_size(&stack);
        let g = grid_size;
        let n = g * g;
        proof {
            lemma_small_grid(g as int);
        }
        let o = (g / 2) as isize;
        let ghost gs = grids(stack@);
        let mut out: Vec<bool> = Vec::new();
        let mut i: usize = 0;
        while i < n
            invariant
                i <= n,
                out@.len() == i,
                forall|j: int| 0 <= j < i ==> out@[j] == (layers_with_block(gs, j % (g as int) - o, j / (g as int) - o) >= min_layers),
            decreases n - i,
        {
            proof {
                lemma_index_coords(i as int, g as int);
            }
            let global_coord = [(i % g) as isize - o, (i / g) as isize - o];
            let count = Self::count_layers_with_block(&stack, global_coord);
            out.push(count >= min_layers);
            i = i + 1;
        }
        assert(out@ =~= combine_at_least_grid(gs, min_layers as int).cells);
        Blocks::new(out, grid_size)
    }
}


/// The grid has no block in its bottom row and none in its top row.
pub open spec fn rows_padded(g: Grid) -> bool {
    &&& forall|x: int| 0 <= x < g.size ==> !#[trigger] g.cell(x, 0)
    &&& forall|x: int| 0 <= x < g.size ==> !#[trigger] g.cell(x, g.size - 1)
}

/// The first column from `from` up to `to` (exclusive) where `p` holds, or `to` if there is none.
pub open spec fn first_col(p: spec_fn(int) -> bool, from: int, to: int) -> int
    decreases to - from,
{
    if from >= to {
        to
    } else if p(from) {
        from
    } else {
        first_col(p, from + 1, to)
    }
}

/// The first column found is in range, `p` holds there (unless none was found), and `p` holds
/// at no column before it.
proof fn lemma_first_col(p: spec_fn(int) -> bool, from: int, to: int)
    requires
        from <= to,
    ensures
        from <= first_col(p, from, to) <= to,
        first_col(p, from, to) < to ==> p(first_col(p, from, to)),
        forall|k: int| from <= k < first_col(p, from, to) ==> !#[trigger] p(k),
    decreases to - from,
{
    if from < to && !p(from) {
        lemma_first_col(p, from + 1, to);
    }
}

/// Cell `k` of row `i` holds a block.
pub open spec fn holds(g: Grid, i: int, k: int) -> bool {
    g.cells[i * g.size + k]
}

/// The cell below cell `k` of row `i` holds a block.
pub open spec fn supported(g: Grid, i: int, k: int) -> bool {
    g.cells[(i - 1) * g.size + k]
}

/// The cell left-diagonally above cell `k` of row `i` (the cell at the index one before the cell
/// above) holds no block.
pub open spec fn diag_open(g: Grid, i: int, k: int) -> bool {
    !g.cells[(i + 1) * g.size + k - 1]
}

/// The first column of row `i` with a block (the size of the grid if there is none).
pub open spec fn row_start(g: Grid, i: int) -> int {
    first_col(|k: int| holds(g, i, k), 0, g.size as int)
}

/// The end of the first run of blocks of row `i`: the first column after its start without a
/// block.
pub open spec fn row_end(g: Grid, i: int) -> int {
    first_col(|k: int| !holds(g, i, k), row_start(g, i), g.size as int)
}

/// The first block of the run that has a block below it (the run's end if there is none).
pub open spec fn first_supported(g: Grid, i: int) -> int {
    first_col(|k: int| supported(g, i, k), row_start(g, i), row_end(g, i))
}

/// The symmetry axis of the run: the first block after its first supported block that has no
/// block below it (the run's end if there is none).
pub open spec fn row_axis(g: Grid, i: int) -> int {
    if first_supported(g, i) < row_end(g, i) {
        first_col(|k: int| !supported(g, i, k), first_supported(g, i) + 1, row_end(g, i))
    } else {
        row_end(g, i)
    }
}

/// What row `i` adds to the build sequence: whether it records a count (it has a block, and its
/// first run reaches an axis or ends before the grid's edge), the count (the blocks of the run
/// before its first supported block: those without a block below them), and whether the
/// sequence stops after this row (some block of the run before the axis has no block
/// left-diagonally above it: the 45° point is reached).
pub open spec fn row_record(g: Grid, i: int) -> (bool, int, bool) {
    (
        row_start(g, i) < g.size && row_axis(g, i) < g.size,
        first_supported(g, i) - row_start(g, i),
        exists|k: int| row_start(g, i) <= k < row_axis(g, i) && #[trigger] diag_open(g, i, k),
    )
}

/// The build sequence from row `i` up: the count recorded for each row that records one, until
/// a row after which the sequence stops.
pub open spec fn build_sequence(g: Grid, i: int) -> Seq<usize>
    decreases g.size - i,
{
    if i >= g.size {
        Seq::empty()
    } else {
        let r = row_record(g, i);
        if r.0 {
            if r.2 {
                seq![r.1 as usize]
            } else {
                seq![r.1 as usize] + build_sequence(g, i + 1)
            }
        } else {
            build_sequence(g, i + 1)
        }
    }
}

/// The first column found is `k` when `p` holds at `k` and at no column before it.
proof fn lemma_first_col_is(p: spec_fn(int) -> bool, from: int, to: int, k: int)
    requires
        from <= k <= to,
        k < to ==> p(k),
        forall|j: int| from <= j < k ==> !#[trigger] p(j),
    ensures
        first_col(p, from, to) == k,
{
    lemma_first_col(p, from, to);
    let c = first_col(p, from, to);
    if c < k {
        assert(p(c));
        assert(!p(c));
    }
    if k < c {
        assert(!p(k));
    }
}

/// Whether `(x, y)` is a cell of the rectangle `[x0, x0 + w) x [y0, y0 + h)`.
pub open spec fn in_rect(x: int, y: int, x0: int, y0: int, w: int, h: int) -> bool {
    x0 <= x < x0 + w && y0 <= y < y0 + h
}

/// Rows without blocks below row `y0` record nothing.
proof fn lemma_empty_rows_below(g: Grid, y0: int, i: int)
    requires
        g.wf(),
        0 <= i <= y0 < g.size,
        forall|x: int, y: int| y < y0 ==> !#[trigger] g.cell(x, y),
    ensures
        build_sequence(g, i) == build_sequence(g, y0),
    decreases y0 - i,
{
    if i < y0 {
        let s = g.size as int;
        let p = |k: int| holds(g, i, k);
        assert forall|k: int| 0 <= k < s implies !#[trigger] p(k) by {
            assert(!g.cell(k, i));
        }
        lemma_first_col_is(p, 0, s, s);
        assert(row_start(g, i) == s);
        lemma_empty_rows_below(g, y0, i + 1);
    }
}

/// The build sequence of a `w` by `h` rectangle of blocks, with empty cells all around it, is
/// `[w]`: its bottom row is recorded, and since the row above it starts in the same column the
/// 45° point is reached there and the sequence stops.
pub proof fn lemma_build_sequence_rectangle(g: Grid, x0: int, y0: int, w: int, h: int)
    requires
        g.wf(),
        w >= 1,
        h >= 1,
        1 <= x0,
        x0 + w < g.size,
        1 <= y0,
        y0 + h < g.size,
        forall|x: int, y: int| #[trigger] g.cell(x, y) == (g.in_grid(x, y) && in_rect(x, y, x0, y0, w, h)),
    ensures
        rows_padded(g),
        build_sequence(g, 0) == seq![w as usize],
{
    let s = g.size as int;
    assert forall|x: int, y: int| y < y0 implies !#[trigger] g.cell(x, y) by {}
    lemma_empty_rows_below(g, y0, 0);
    // the bottom row of the rectangle starts at x0 and ends at x0 + w
    assert(g.cell(x0, y0));
    let p_start = |k: int| holds(g, y0, k);
    assert forall|k: int| 0 <= k < x0 implies !#[trigger] p_start(k) by {
        assert(!g.cell(k, y0));
    }
    lemma_first_col_is(p_start, 0, s, x0);
    let a = row_start(g, y0);
    assert(a == x0);
    assert(!g.cell(x0 + w, y0));
    let p_end = |k: int| !holds(g, y0, k);
    assert forall|k: int| x0 <= k < x0 + w implies !#[trigger] p_end(k) by {
        assert(g.cell(k, y0));
    }
    lemma_first_col_is(p_end, x0, s, x0 + w);
    let e = row_end(g, y0);
    assert(e == x0 + w);
    // nothing lies below it
    let p_below = |k: int| supported(g, y0, k);
    assert forall|k: int| x0 <= k < x0 + w implies !#[trigger] p_below(k) by {
        assert(!g.cell(k, y0 - 1));
    }
    lemma_first_col_is(p_below, x0, x0 + w, x0 + w);
    assert(first_supported(g, y0) == x0 + w);
    assert(row_axis(g, y0) == x0 + w);
    // the cell left-diagonally above its first block is empty
    assert(!g.cell(x0 - 1, y0 + 1));
    assert(diag_open(g, y0, x0));
    assert(row_record(g, y0) == (true, w, true));
    assert(rows_padded(g)) by {
        assert forall|x: int| 0 <= x < g.size implies !#[trigger] g.cell(x, 0) by {}
        assert forall|x: int| 0 <= x < g.size implies !#[trigger] g.cell(x, g.size - 1) by {}
    }
}

/// Whether `(x, y)` is a cell of the stack of `h` rows from row `y0` up whose bottom row is
/// `[x0, x0 + w)` and each row of which reaches one column further on both sides than the row
/// below it.
pub open spec fn in_widening_rows(x: int, y: int, x0: int, y0: int, w: int, h: int) -> bool {
    y0 <= y < y0 + h && x0 - (y - y0) <= x < x0 + w + (y - y0)
}

/// What row `y0 + j` of widening rows (see `in_widening_rows`) records: the bottom row its `w`
/// blocks, every other row the one block that sticks out past the row below it on the left;
/// the sequence stops at the top row, whose blocks have nothing above them.
proof fn lemma_widening_row_record(g: Grid, x0: int, y0: int, w: int, h: int, j: int)
    requires
        g.wf(),
        w >= 1,
        0 <= j < h,
        1 <= y0,
        y0 + h < g.size,
        1 <= x0 - (h - 1),
        x0 + w + (h - 1) < g.size,
        forall|x: int, y: int| #[trigger]
            g.cell(x, y) == (g.in_grid(x, y) && in_widening_rows(x, y, x0, y0, w, h)),
    ensures
        row_record(g, y0 + j) == (true, if j == 0 {
            w
        } else {
            1
        }, j == h - 1),
{
    let s = g.size as int;
    let i = y0 + j;
    let a = x0 - j;
    let e = x0 + w + j;
    // the row is the run [a, e)
    assert(g.cell(a, i));
    let p_start = |k: int| holds(g, i, k);
    assert forall|k: int| 0 <= k < a implies !#[trigger] p_start(k) by {
        assert(!g.cell(k, i));
    }
    lemma_first_col_is(p_start, 0, s, a);
    assert(row_start(g, i) == a);
    assert(!g.cell(e, i));
    let p_end = |k: int| !holds(g, i, k);
    assert forall|k: int| a <= k < e implies !#[trigger] p_end(k) by {
        assert(g.cell(k, i));
    }
    lemma_first_col_is(p_end, a, s, e);
    assert(row_end(g, i) == e);
    // the row below is the run [a + 1, e - 1), or nothing for the bottom row
    let p_below = |k: int| supported(g, i, k);
    if j == 0 {
        assert forall|k: int| a <= k < e implies !#[trigger] p_below(k) by {
            assert(!g.cell(k, i - 1));
        }
        lemma_first_col_is(p_below, a, e, e);
        assert(first_supported(g, i) == e);
        assert(row_axis(g, i) == e);
    } else {
        assert(!g.cell(a, i - 1));
        assert(g.cell(a + 1, i - 1));
        assert forall|k: int| a <= k < a + 1 implies !#[trigger] p_below(k) by {
            assert(!g.cell(k, i - 1));
        }
        lemma_first_col_is(p_below, a, e, a + 1);
        assert(first_supported(g, i) == a + 1);
        let p_axis = |k: int| !supported(g, i, k);
        assert(!g.cell(e - 1, i - 1));
        assert forall|k: int| a + 2 <= k < e - 1 implies !#[trigger] p_axis(k) by {
            assert(g.cell(k, i - 1));
        }
        lemma_first_col_is(p_axis, a + 2, e, e - 1);
        assert(row_axis(g, i) == e - 1);
    }
    let t = row_axis(g, i);
    // the row above covers every cell left-diagonally above the row's blocks, unless this is
    // the top row
    if j == h - 1 {
        assert(!g.cell(a - 1, i + 1));
        assert(diag_open(g, i, a));
    } else {
        assert forall|k: int| a <= k < t implies !#[trigger] diag_open(g, i, k) by {
            assert(g.cell(k - 1, i + 1));
        }
    }
}

/// The build sequence from row `y0 + j` of widening rows up: one block for each row from there
/// to the top.
proof fn lemma_widening_rows_upper(g: Grid, x0: int, y0: int, w: int, h: int, j: int)
    requires
        g.wf(),
        w >= 1,
        1 <= j < h,
        1 <= y0,
        y0 + h < g.size,
        1 <= x0 - (h - 1),
        x0 + w + (h - 1) < g.size,
        forall|x: int, y: int| #[trigger]
            g.cell(x, y) == (g.in_grid(x, y) && in_widening_rows(x, y, x0, y0, w, h)),
    ensures
        build_sequence(g, y0 + j) == Seq::new((h - j) as nat, |k: int| 1usize),
    decreases h - j,
{
    lemma_widening_row_record(g, x0, y0, w, h, j);
    if j == h - 1 {
        assert(build_sequence(g, y0 + j) =~= Seq::new((h - j) as nat, |k: int| 1usize));
    } else {
        lemma_widening_rows_upper(g, x0, y0, w, h, j + 1);
        assert(build_sequence(g, y0 + j) =~= Seq::new((h - j) as nat, |k: int| 1usize));
    }
}

/// The build sequence of `h` rows of blocks with empty cells all around them, whose bottom row
/// holds `w` blocks and each row of which reaches one column further on both sides than the row
/// below it, is `w` followed by `h - 1` ones: each row adds the one block that sticks out on the
/// left, and the sequence stops at the top row.
pub proof fn lemma_build_sequence_widening_rows(g: Grid, x0: int, y0: int, w: int, h: int)
    requires
        g.wf(),
        w >= 1,
        h >= 1,
        1 <= y0,
        y0 + h < g.size,
        1 <= x0 - (h - 1),
        x0 + w + (h - 1) < g.size,
        forall|x: int, y: int| #[trigger]
            g.cell(x, y) == (g.in_grid(x, y) && in_widening_rows(x, y, x0, y0, w, h)),
    ensures
        rows_padded(g),
        build_sequence(g, 0) == seq![w as usize] + Seq::new((h - 1) as nat, |k: int| 1usize),
{
    assert forall|x: int, y: int| y < y0 implies !#[trigger] g.cell(x, y) by {}
    lemma_empty_rows_below(g, y0, 0);
    lemma_widening_row_record(g, x0, y0, w, h, 0);
    if h == 1 {
        assert(build_sequence(g, y0) =~= seq![w as usize] + Seq::new(0, |k: int| 1usize));
    } else {
        lemma_widening_rows_upper(g, x0, y0, w, h, 1);
        assert(build_sequence(g, y0) =~= seq![w as usize] + Seq::new((h - 1) as nat, |k: int| 1usize));
    }
    assert(rows_padded(g)) by {
        assert forall|x: int| 0 <= x < g.size implies !#[trigger] g.cell(x, 0) by {}
        assert forall|x: int| 0 <= x < g.size implies !#[trigger] g.cell(x, g.size - 1) by {}
    }
}

impl Blocks {
    /// The number of blocks to place on each layer when building the shape row by row from the
    /// bottom, up to the 45° point: for each row, the blocks that have no block below them, up
    /// to the symmetry axis.
    pub fn get_build_sequence(&self) -> (sequence: Vec<usize>)
        requires
            wf_blocks(self),
            rows_padded(self@),
        ensures
            sequence@ == build_sequence(self@, 0),
    {
        let g = self.grid_size;
        let n = self.blocks.len();
        let ghost grid = self@;
        proof {
            lemma_small_grid(g as int);
        }
        let mut nr_blocks_per_layer: Vec<usize> = Vec::new();
        let mut stop = false;
        let mut i: usize = 0;
        while i < g && !stop
            invariant
                grid == self@,
                wf_blocks(self),
                rows_padded(grid),
                g == self.grid_size,
                n == self.blocks@.len(),
                i <= g,
                !stop ==> nr_blocks_per_layer@ + build_sequence(grid, i as int) == build_sequence(grid, 0),
                stop ==> nr_blocks_per_layer@ == build_sequence(grid, 0),
            decreases g - i,
        {
            let mut count: usize = 0;
            let mut below = false;
            let mut had = false;
            let mut last = false;
            let mut recorded = false;
            let mut stops = false;
            let ghost a = row_start(grid, i as int);
            let ghost e = row_end(grid, i as int);
            let ghost f = first_supported(grid, i as int);
            let ghost t = row_axis(grid, i as int);
            proof {
                lemma_first_col(|k: int| holds(grid, i as int, k), 0, g as int);
                lemma_first_col(|k: int| !holds(grid, i as int, k), a, g as int);
                lemma_first_col(|k: int| supported(grid, i as int, k), a, e);
                if f < e {
                    lemma_first_col(|k: int| !supported(grid, i as int, k), f + 1, e);
                }
                assert forall|k: int| 0 <= k < a implies !#[trigger] holds(grid, i as int, k) by {
                    assert(!(|k: int| holds(grid, i as int, k))(k));
                }
                assert forall|k: int| a <= k < e implies #[trigger] holds(grid, i as int, k) by {
                    assert(!(|k: int| !holds(grid, i as int, k))(k));
                }
                assert forall|k: int| a <= k < f implies !#[trigger] supported(grid, i as int, k) by {
                    assert(!(|k: int| supported(grid, i as int, k))(k));
                }
                if f < e {
                    assert forall|k: int| f + 1 <= k < t implies #[trigger] supported(grid, i as int, k) by {
                        assert(!(|k: int| !supported(grid, i as int, k))(k));
                    }
                }
            }
            let mut j: usize = 0;
            while j < g
                invariant_except_break
                    !recorded,
                    !had ==> count == 0 && !below && !last && forall|k: int| 0 <= k < j ==> !#[trigger] holds(grid, i as int, k),
                    had ==> a < j <= e,
                    had ==> below == (f < j),
                    had && below ==> f < e && forall|k: int| f < k < j ==> #[trigger] supported(grid, i as int, k),
                    had ==> count == (if below { f } else { j as int }) - a,
                    had ==> (last <==> exists|k: int| a <= k < j && #[trigger] diag_open(grid, i as int, k)),
                invariant
                    grid == self@,
                    wf_blocks(self),
                    rows_padded(grid),
                    g == self.grid_size,
                    n == self.blocks@.len(),
                    i < g,
                    j <= g,
                    count <= j,
                    a == row_start(grid, i as int),
                    e == row_end(grid, i as int),
                    f == first_supported(grid, i as int),
                    t == row_axis(grid, i as int),
                    0 <= a <= g,
                    a <= e <= g,
                    a <= f <= e,
                    a < g ==> holds(grid, i as int, a),
                    forall|k: int| 0 <= k < a ==> !#[trigger] holds(grid, i as int, k),
                    e < g ==> !holds(grid, i as int, e),
                    forall|k: int| a <= k < e ==> #[trigger] holds(grid, i as int, k),
                    f < e ==> supported(grid, i as int, f),
                    forall|k: int| a <= k < f ==> !#[trigger] supported(grid, i as int, k),
                    f < e ==> f + 1 <= t <= e,
                    f < e && t < e ==> !supported(grid, i as int, t),
                    f < e ==> forall|k: int| f + 1 <= k < t ==> #[trigger] supported(grid, i as int, k),
                    f >= e ==> t == e,
                ensures
                    recorded == row_record(grid, i as int).0,
                    recorded ==> count == row_record(grid, i as int).1 && stops == row_record(grid, i as int).2,
                decreases g - j,
            {
                proof {
                    lemma_coords_index(j as int, i as int, g as int);
                }
                assert(self.blocks@[i * g + j] == holds(grid, i as int, j as int));
                if self.blocks[i * g + j] {
                    proof {
                        assert(grid.cell(j as int, i as int));
                        assert(!grid.cell(j as int, 0) && !grid.cell(j as int, g - 1));
                        assert(0 < i < g - 1);
                        lemma_coords_index(j as int, (i - 1) as int, g as int);
                        assert((i - 1) * g + j < g * g) by (nonlinear_arith)
                            requires
                                0 < i < g,
                                j < g,
                        ;
                        assert((i + 1) * g + j - 1 < g * g && (i + 1) * g + j >= 1) by (nonlinear_arith)
                            requires
                                0 < i < g - 1,
                                j < g,
                        ;
                    }
                    assert(self.blocks@[(i - 1) * g + j] == supported(grid, i as int, j as int));
                    assert(self.blocks@[(i + 1) * g + j - 1] == !diag_open(grid, i as int, j as int));
                    proof {
                        if !had {
                            assert(a == j);
                        }
                    }
                    had = true;
                    if !self.blocks[(i - 1) * g + j] {
                        if below {
                            recorded = true;
                            stops = last;
                            break;
                        }
                        count = count + 1;
                    } else {
                        below = true;
                    }
                    if !self.blocks[(i + 1) * g + j - 1] {
                        last = true;
                    }
                } else {
                    if had {
                        recorded = true;
                        stops = last;
                        break;
                    }
                }
                j = j + 1;
            }
            let ghost rest = build_sequence(grid, (i + 1) as int);
            assert(build_sequence(grid, i as int) == {
                let r = row_record(grid, i as int);
                if r.0 {
                    if r.2 {
                        seq![r.1 as usize]
                    } else {
                        seq![r.1 as usize] + rest
                    }
                } else {
                    rest
                }
            });
            if recorded {
                let ghost before = nr_blocks_per_layer@;
                nr_blocks_per_layer.push(count);
                if stops {
                    stop = true;
                    assert(nr_blocks_per_layer@ =~= before + seq![count]);
                } else {
                    assert(nr_blocks_per_layer@ + rest =~= before + (seq![count] + rest));
                }
            }
            i = i + 1;
        }
        proof {
            if !stop {
                assert(build_sequence(grid, i as int) =~= Seq::<usize>::empty());
                assert(nr_blocks_per_layer@ + Seq::<usize>::empty() =~= nr_blocks_per_layer@);
            }
        }
        nr_blocks_per_layer
    }
}

} // verus!
