use crate::blocks::{wf_blocks, Blocks};
use crate::grid::{collect_coords, lemma_coords_index, lemma_index_coords, pairs, Bounds};
use crate::sparse_graph::SparseGraph;
use vstd::prelude::*;

verus! {

/// The point of a coordinate array.
pub open spec fn pt(p: [isize; 2]) -> (int, int) {
    (p[0] as int, p[1] as int)
}

/// The two points share a side: they differ by one in exactly one coordinate.
pub open spec fn adjacent4(p: (int, int), q: (int, int)) -> bool {
    ||| (p.0 == q.0 && (p.1 - q.1 == 1 || q.1 - p.1 == 1))
    ||| (p.1 == q.1 && (p.0 - q.0 == 1 || q.0 - p.0 == 1))
}

/// The two points are equal or share a side.
pub open spec fn touches4(p: (int, int), q: (int, int)) -> bool {
    p == q || adjacent4(p, q)
}

/// The two points are equal or share a side or a corner.
pub open spec fn touches8(p: (int, int), q: (int, int)) -> bool {
    -1 <= p.0 - q.0 <= 1 && -1 <= p.1 - q.1 <= 1
}

/// Every point after the first shares a side with an earlier point, so the points form one
/// 4-connected piece.
pub open spec fn grown_connected(s: Seq<(int, int)>) -> bool {
    forall|k: int| 0 < k < s.len() ==> #[trigger] has_earlier_neighbor(s, k)
}

/// The point at position `k` shares a side with a point at an earlier position.
pub open spec fn has_earlier_neighbor(s: Seq<(int, int)>, k: int) -> bool {
    exists|j: int| 0 <= j < k && adjacent4(s[j], s[k])
}

/// Does `v` hold the point `p`?
fn find_point(v: &Vec<[isize; 2]>, p: [isize; 2]) -> (r: Option<usize>)
    ensures
        r matches Some(k) ==> k < v@.len() && pt(v@[k as int]) == pt(p),
        r is None ==> !pairs(v@).contains(pt(p)),
{
    let mut k: usize = 0;
    while k < v.len()
        invariant
            k <= v@.len(),
            forall|j: int| 0 <= j < k ==> pt(v@[j]) != pt(p),
        decreases v@.len() - k,
    {
        if v[k][0] == p[0] && v[k][1] == p[1] {
            return Some(k);
        }
        k = k + 1;
    }
    proof {
        if pairs(v@).contains(pt(p)) {
            let j = choose|j: int| 0 <= j < pairs(v@).len() && pairs(v@)[j] == pt(p);
            assert(pt(v@[j]) == pt(p));
        }
    }
    None
}

/// Sparse representation of a blocks object (that forgets about the origin)
/// `indices` holds x iff there is a block at x, each point once.
#[derive(Clone, Debug)]
pub struct SparseBlocks {
    indices: Vec<[isize; 2]>,
}

impl View for SparseBlocks {
    type V = Seq<(int, int)>;

    /// The points, in the order they are stored.
    closed spec fn view(&self) -> Seq<(int, int)> {
        pairs(self.indices@)
    }
}

impl SparseBlocks {
    /// No point occurs twice.
    pub open spec fn wf(&self) -> bool {
        self@.no_duplicates()
    }

    /// The set of points.
    pub open spec fn points(&self) -> Set<(int, int)> {
        self@.to_set()
    }

    /// Every coordinate is far from the limits of `isize`, so that neighbors, differences and
    /// offsets can be computed.
    pub open spec fn moderate(&self) -> bool {
        forall|k: int|
            0 <= k < self@.len() ==> -(isize::MAX / 4) <= (#[trigger] self@[k]).0 <= isize::MAX / 4
                && -(isize::MAX / 4) <= self@[k].1 <= isize::MAX / 4
    }

    /// The shape with the given points, each taken once.
    pub fn from_coords(coords: Vec<[isize; 2]>) -> (s: Self)
        ensures
            s.wf(),
            s.points() == pairs(coords@).to_set(),
    {
        let mut indices: Vec<[isize; 2]> = Vec::new();
        let mut k: usize = 0;
        while k < coords.len()
            invariant
                k <= coords@.len(),
                pairs(indices@).no_duplicates(),
                pairs(indices@).to_set() == pairs(coords@.take(k as int)).to_set(),
            decreases coords@.len() - k,
        {
            let p = coords[k];
            let ghost before = pairs(indices@);
            assert(pairs(coords@.take(k + 1)) =~= pairs(coords@.take(k as int)).push(pt(p)));
            proof {
                pairs(coords@.take(k as int)).lemma_push_to_set_commute(pt(p));
                before.lemma_push_to_set_commute(pt(p));
            }
            match find_point(&indices, p) {
                Some(j) => {
                    assert(before[j as int] == pt(p));
                    assert(pairs(coords@.take(k + 1)).to_set() =~= pairs(coords@.take(k as int)).to_set().insert(pt(p)));
                    assert(before.to_set().insert(pt(p)) =~= before.to_set());
                },
                None => {
                    indices.push(p);
                    assert(pairs(indices@) =~= before.push(pt(p)));
                    assert(pairs(coords@.take(k + 1)).to_set() =~= pairs(coords@.take(k as int)).to_set().insert(pt(p)));
                    assert(before.push(pt(p)).to_set() =~= before.to_set().insert(pt(p)));
                    assert forall|i: int, j: int| 0 <= i < j < before.len() + 1 implies before.push(pt(p))[i] != before.push(pt(p))[j] by {
                        if j == before.len() {
                            assert(before.contains(before[i]));
                        }
                    }
                },
            }
            k = k + 1;
        }
        assert(coords@.take(k as int) =~= coords@);
        SparseBlocks { indices }
    }

    pub fn get_coords(&self) -> (coords: &Vec<[isize; 2]>)
        ensures
            pairs(coords@) == self@,
    {
        &self.indices
    }
}

/// Without repeated indices among the kept ones, the collected coordinates are distinct, and
/// they are exactly the coordinates of the kept indices.
pub proof fn lemma_collect_coords(
    n: int,
    keep: spec_fn(int) -> bool,
    coord: spec_fn(int) -> (int, int),
)
    requires
        forall|i: int, j: int|
            #![trigger keep(i), keep(j)]
            0 <= i < n && 0 <= j < n && i != j && keep(i) && keep(j) ==> coord(i) != coord(j),
    ensures
        collect_coords(n, keep, coord).no_duplicates(),
        forall|p: (int, int)|
            #[trigger] collect_coords(n, keep, coord).contains(p) <==> exists|i: int|
                0 <= i < n && #[trigger] keep(i) && coord(i) == p,
    decreases n,
{
    if n > 0 {
        lemma_collect_coords(n - 1, keep, coord);
        let prev = collect_coords(n - 1, keep, coord);
        if keep(n - 1) {
            let cur = prev.push(coord(n - 1));
            assert forall|p: (int, int)| cur.contains(p) <==> exists|i: int|
                0 <= i < n && #[trigger] keep(i) && coord(i) == p by {
                if cur.contains(p) {
                    let j = choose|j: int| 0 <= j < cur.len() && cur[j] == p;
                    if j < prev.len() {
                        assert(prev.contains(p));
                    } else {
                        assert(coord(n - 1) == p);
                    }
                }
                if exists|i: int| 0 <= i < n && #[trigger] keep(i) && coord(i) == p {
                    let i = choose|i: int| 0 <= i < n && #[trigger] keep(i) && coord(i) == p;
                    if i < n - 1 {
                        assert(prev.contains(p));
                        let j = choose|j: int| 0 <= j < prev.len() && prev[j] == p;
                        assert(cur[j] == p);
                    } else {
                        assert(cur[prev.len() as int] == p);
                    }
                }
            }
            assert forall|i: int, j: int| 0 <= i < j < cur.len() implies cur[i] != cur[j] by {
                if j == prev.len() {
                    assert(prev.contains(prev[i]));
                    let k = choose|k: int| 0 <= k < n - 1 && #[trigger] keep(k) && coord(k) == prev[i];
                }
            }
        }
    } else {
        assert(collect_coords(n, keep, coord) =~= Seq::<(int, int)>::empty());
    }
}

/// `b` is the bounding box of the points, in the order (min x, min y, max x, max y); for no
/// points, the empty box from the largest to the smallest `isize`.
pub open spec fn seq_bounds_ok(s: Seq<(int, int)>, b: Bounds) -> bool {
    if s.len() == 0 {
        b == (isize::MAX as int, isize::MAX as int, isize::MIN as int, isize::MIN as int)
    } else {
        &&& exists|k: int| 0 <= k < s.len() && (#[trigger] s[k]).0 == b.0
        &&& exists|k: int| 0 <= k < s.len() && (#[trigger] s[k]).1 == b.1
        &&& exists|k: int| 0 <= k < s.len() && (#[trigger] s[k]).0 == b.2
        &&& exists|k: int| 0 <= k < s.len() && (#[trigger] s[k]).1 == b.3
        &&& forall|k: int| 0 <= k < s.len() ==> b.0 <= (#[trigger] s[k]).0 <= b.2 && b.1 <= s[k].1 <= b.3
    }
}

/// The bounding box of the points (see `seq_bounds_ok`).
pub open spec fn seq_bounds(s: Seq<(int, int)>) -> Bounds {
    choose|b: Bounds| seq_bounds_ok(s, b)
}

/// The width and height of the bounding box.
pub open spec fn seq_dimensions(s: Seq<(int, int)>) -> (int, int) {
    let b = seq_bounds(s);
    (b.2 - b.0 + 1, b.3 - b.1 + 1)
}

pub proof fn lemma_seq_bounds_unique(s: Seq<(int, int)>, b: Bounds, c: Bounds)
    requires
        seq_bounds_ok(s, b),
        seq_bounds_ok(s, c),
    ensures
        b == c,
{
    if s.len() > 0 {
        let k0 = choose|k: int| 0 <= k < s.len() && (#[trigger] s[k]).0 == b.0;
        let k1 = choose|k: int| 0 <= k < s.len() && (#[trigger] s[k]).0 == c.0;
        let k2 = choose|k: int| 0 <= k < s.len() && (#[trigger] s[k]).1 == b.1;
        let k3 = choose|k: int| 0 <= k < s.len() && (#[trigger] s[k]).1 == c.1;
        let k4 = choose|k: int| 0 <= k < s.len() && (#[trigger] s[k]).0 == b.2;
        let k5 = choose|k: int| 0 <= k < s.len() && (#[trigger] s[k]).0 == c.2;
        let k6 = choose|k: int| 0 <= k < s.len() && (#[trigger] s[k]).1 == b.3;
        let k7 = choose|k: int| 0 <= k < s.len() && (#[trigger] s[k]).1 == c.3;
        assert(s[k0].0 == b.0 && s[k1].0 == c.0 && s[k2].1 == b.1 && s[k3].1 == c.1);
        assert(s[k4].0 == b.2 && s[k5].0 == c.2 && s[k6].1 == b.3 && s[k7].1 == c.3);
    }
}

/// Adding a point to the sequence widens its bounding box to hold the point.
pub proof fn lemma_seq_bounds_push(s: Seq<(int, int)>, b: Bounds, p: (int, int))
    requires
        seq_bounds_ok(s, b),
        s.len() > 0 || (isize::MIN <= p.0 <= isize::MAX && isize::MIN <= p.1 <= isize::MAX),
    ensures
        seq_bounds_ok(
            s.push(p),
            (
                if p.0 < b.0 { p.0 } else { b.0 },
                if p.1 < b.1 { p.1 } else { b.1 },
                if p.0 > b.2 { p.0 } else { b.2 },
                if p.1 > b.3 { p.1 } else { b.3 },
            ),
        ),
{
    let t = s.push(p);
    let n = s.len() as int;
    assert(t[n] == p);
    if s.len() > 0 {
        assert forall|k: int| 0 <= k < n implies t[k] == s[k] by {}
        let k0 = choose|k: int| 0 <= k < s.len() && (#[trigger] s[k]).0 == b.0;
        let k1 = choose|k: int| 0 <= k < s.len() && (#[trigger] s[k]).1 == b.1;
        let k2 = choose|k: int| 0 <= k < s.len() && (#[trigger] s[k]).0 == b.2;
        let k3 = choose|k: int| 0 <= k < s.len() && (#[trigger] s[k]).1 == b.3;
        assert(t[k0] == s[k0] && t[k1] == s[k1] && t[k2] == s[k2] && t[k3] == s[k3]);
    }
}

/// Is there a point of `a` and a point of `b` that are equal?
pub open spec fn overlapping(a: Seq<(int, int)>, b: Seq<(int, int)>) -> bool {
    exists|i: int, j: int| 0 <= i < a.len() && 0 <= j < b.len() && #[trigger] a[i] == #[trigger] b[j]
}

/// Is there a point of `a` and a point of `b` that are equal or share a side?
pub open spec fn strongly_connected(a: Seq<(int, int)>, b: Seq<(int, int)>) -> bool {
    exists|i: int, j: int| 0 <= i < a.len() && 0 <= j < b.len() && #[trigger] touches4(a[i], b[j])
}

/// Is there a point of `a` and a point of `b` that are equal or share a side or a corner?
pub open spec fn weakly_connected(a: Seq<(int, int)>, b: Seq<(int, int)>) -> bool {
    exists|i: int, j: int| 0 <= i < a.len() && 0 <= j < b.len() && #[trigger] touches8(a[i], b[j])
}

/// Edge `e` comes strictly before edge `f` in lexicographic order.
pub open spec fn edge_before(e: [usize; 2], f: [usize; 2]) -> bool {
    e[0] < f[0] || (e[0] == f[0] && e[1] < f[1])
}

impl SparseBlocks {
    /// The shape of the blocks of `blocks`, in global coordinates.
    pub fn from_blocks(blocks: &Blocks) -> (s: Self)
        requires
            wf_blocks(blocks),
        ensures
            s.wf(),
            forall|p: (int, int)| #[trigger] s.points().contains(p) <==> blocks@.has_block(p.0, p.1),
            s.moderate(),
    {
        let indices = blocks.get_all_block_coords_usize();
        let n = blocks.blocks.len();
        let ghost grid = blocks@;
        let ghost g = grid.size as int;
        let ghost o = grid.origin();
        let ghost keep = |i: int| grid.cells[i];
        let ghost coord = |i: int| (i % g - o, i / g - o);
        proof {
            assert forall|i: int, j: int|
                #![trigger keep(i), keep(j)]
                0 <= i < grid.cells.len() && 0 <= j < grid.cells.len() && i != j && keep(i) && keep(j)
                    implies coord(i) != coord(j) by {
                lemma_index_coords(i, g);
                lemma_index_coords(j, g);
            }
            lemma_collect_coords(grid.cells.len() as int, keep, coord);
            assert(pairs(indices@) == collect_coords(grid.cells.len() as int, keep, coord));
            assert forall|p: (int, int)| #[trigger] pairs(indices@).to_set().contains(p) <==> grid.has_block(p.0, p.1) by {
                if grid.has_block(p.0, p.1) {
                    lemma_coords_index(p.0 + o, p.1 + o, g);
                    let i = (p.1 + o) * g + p.0 + o;
                    assert(keep(i) && coord(i) == p);
                }
                if pairs(indices@).contains(p) {
                    let i = choose|i: int| 0 <= i < grid.cells.len() && #[trigger] keep(i) && coord(i) == p;
                    lemma_index_coords(i, g);
                    assert(grid.cell(i % g, i / g));
                }
            }
            assert forall|k: int| 0 <= k < pairs(indices@).len() implies -(isize::MAX / 4) <= (
            #[trigger] pairs(indices@)[k]).0 <= isize::MAX / 4 && -(isize::MAX / 4)
                <= pairs(indices@)[k].1 <= isize::MAX / 4 by {
                assert(pairs(indices@).contains(pairs(indices@)[k]));
                let i = choose|i: int| 0 <= i < grid.cells.len() && #[trigger] keep(i) && coord(i) == pairs(indices@)[k];
                lemma_index_coords(i, g);
                crate::blocks::lemma_grid_fits(g);
            }
        }
        SparseBlocks { indices }
    }

    /// Get the maximal and minimal coordinates of the blocks (for pattern matching) in the form
    ///  [[min_x, min_y], [max_x, max_y]] (same as in the rest of the program)
    pub fn get_bounds(&self) -> (bounds: [[isize; 2]; 2])
        ensures
            seq_bounds_ok(self@, (bounds[0][0] as int, bounds[0][1] as int, bounds[1][0] as int, bounds[1][1] as int)),
            seq_bounds(self@) == (bounds[0][0] as int, bounds[0][1] as int, bounds[1][0] as int, bounds[1][1] as int),
    {
        let mut low_x = isize::MAX;
        let mut low_y = isize::MAX;
        let mut high_x = isize::MIN;
        let mut high_y = isize::MIN;
        let ghost s = self@;
        let mut k: usize = 0;
        while k < self.indices.len()
            invariant
                s == self@,
                s.len() == self.indices@.len(),
                k <= s.len(),
                seq_bounds_ok(s.take(k as int), (low_x as int, low_y as int, high_x as int, high_y as int)),
            decreases s.len() - k,
        {
            let p = self.indices[k];
            proof {
                assert(s.take(k + 1) =~= s.take(k as int).push(pt(p)));
                lemma_seq_bounds_push(s.take(k as int), (low_x as int, low_y as int, high_x as int, high_y as int), pt(p));
            }
            low_x = if p[0] < low_x { p[0] } else { low_x };
            high_x = if p[0] > high_x { p[0] } else { high_x };
            low_y = if p[1] < low_y { p[1] } else { low_y };
            high_y = if p[1] > high_y { p[1] } else { high_y };
            k = k + 1;
        }
        assert(s.take(k as int) =~= s);
        let bounds = [[low_x, low_y], [high_x, high_y]];
        proof {
            lemma_seq_bounds_unique(s, seq_bounds(s), (low_x as int, low_y as int, high_x as int, high_y as int));
        }
        bounds
    }
}


/// The bounding box of the points fits in `isize`: there is a point, and the width and height
/// can be held.
pub open spec fn extent_fits(s: Seq<(int, int)>) -> bool {
    &&& s.len() > 0
    &&& seq_dimensions(s).0 <= isize::MAX
    &&& seq_dimensions(s).1 <= isize::MAX
}

/// The two points share a side or are equal, computed without overflow.
fn touch4(p: [isize; 2], q: [isize; 2]) -> (r: bool)
    ensures
        r == touches4(pt(p), pt(q)),
{
    let dx: i128 = p[0] as i128 - q[0] as i128;
    let dy: i128 = p[1] as i128 - q[1] as i128;
    (dx == 0 && -1 <= dy && dy <= 1) || (dy == 0 && -1 <= dx && dx <= 1)
}

/// The two points share a side or a corner or are equal, computed without overflow.
fn touch8(p: [isize; 2], q: [isize; 2]) -> (r: bool)
    ensures
        r == touches8(pt(p), pt(q)),
{
    let dx: i128 = p[0] as i128 - q[0] as i128;
    let dy: i128 = p[1] as i128 - q[1] as i128;
    -1 <= dx && dx <= 1 && -1 <= dy && dy <= 1
}

impl SparseBlocks {
    /// The width and height of the bounding box.
    pub fn get_dimensions(&self) -> (dims: [usize; 2])
        requires
            extent_fits(self@),
        ensures
            dims[0] == seq_dimensions(self@).0,
            dims[1] == seq_dimensions(self@).1,
    {
        let bounds = self.get_bounds();
        [(bounds[1][0] - bounds[0][0] + 1) as usize, (bounds[1][1] - bounds[0][1] + 1) as usize]
    }

    /// Get the dimensions rotated such that the long size is the first coordinate
    /// For now serves as "canonical form" on which we base coloring and lettering
    pub fn get_rotated_dimensions(&self) -> (dims: [usize; 2])
        requires
            extent_fits(self@),
        ensures
            seq_dimensions(self@).0 < seq_dimensions(self@).1 ==> dims[0] == seq_dimensions(self@).1
                && dims[1] == seq_dimensions(self@).0,
            seq_dimensions(self@).0 >= seq_dimensions(self@).1 ==> dims[0] == seq_dimensions(self@).0
                && dims[1] == seq_dimensions(self@).1,
    {
        let mut dim = self.get_dimensions();
        if dim[0] < dim[1] {
            dim = [dim[1], dim[0]];
        }
        dim
    }

    /// Return true iff the two sparse blocks have overlap
    pub fn is_overlapping(comp_a: &SparseBlocks, comp_b: &SparseBlocks) -> (r: bool)
        ensures
            r == overlapping(comp_a@, comp_b@),
    {
        let mut i: usize = 0;
        while i < comp_a.indices.len()
            invariant
                i <= comp_a@.len(),
                comp_a@.len() == comp_a.indices@.len(),
                forall|k: int, j: int|
                    0 <= k < i && 0 <= j < comp_b@.len() ==> #[trigger] comp_a@[k] != #[trigger] comp_b@[j],
            decreases comp_a@.len() - i,
        {
            let p = comp_a.indices[i];
            assert(comp_a@[i as int] == pt(p));
            match find_point(&comp_b.indices, p) {
                Some(j) => {
                    assert(comp_b@[j as int] == comp_a@[i as int]);
                    return true;
                },
                None => {
                    assert forall|j: int| 0 <= j < comp_b@.len() implies comp_a@[i as int] != #[trigger] comp_b@[j] by {
                        if comp_a@[i as int] == comp_b@[j] {
                            assert(pairs(comp_b.indices@).contains(comp_b@[j]));
                        }
                    }
                },
            }
            i = i + 1;
        }
        false
    }

    /// Return true iff the two sparse blocks are strongly connected (share an edge)
    pub fn is_strongly_connected(comp_a: &SparseBlocks, comp_b: &SparseBlocks) -> (r: bool)
        ensures
            r == strongly_connected(comp_a@, comp_b@),
    {
        let mut i: usize = 0;
        while i < comp_a.indices.len()
            invariant
                i <= comp_a@.len(),
                comp_a@.len() == comp_a.indices@.len(),
                comp_b@.len() == comp_b.indices@.len(),
                forall|k: int, j: int|
                    0 <= k < i && 0 <= j < comp_b@.len() ==> !#[trigger] touches4(comp_a@[k], comp_b@[j]),
            decreases comp_a@.len() - i,
        {
            let p = comp_a.indices[i];
            let mut j: usize = 0;
            while j < comp_b.indices.len()
                invariant
                    i < comp_a@.len(),
                    j <= comp_b@.len(),
                    comp_a@.len() == comp_a.indices@.len(),
                    comp_b@.len() == comp_b.indices@.len(),
                    pt(p) == comp_a@[i as int],
                    forall|k: int, j2: int|
                        0 <= k < i && 0 <= j2 < comp_b@.len() ==> !#[trigger] touches4(comp_a@[k], comp_b@[j2]),
                    forall|j2: int| 0 <= j2 < j ==> !#[trigger] touches4(comp_a@[i as int], comp_b@[j2]),
                decreases comp_b@.len() - j,
            {
                let q = comp_b.indices[j];
                assert(comp_b@[j as int] == pt(q));
                if touch4(p, q) {
                    return true;
                }
                j = j + 1;
            }
            i = i + 1;
        }
        false
    }

    /// Return true iff the two sparse blocks are weakly connected (share a vertex)
    pub fn is_weakly_connected(comp_a: &SparseBlocks, comp_b: &SparseBlocks) -> (r: bool)
        ensures
            r == weakly_connected(comp_a@, comp_b@),
    {
        let mut i: usize = 0;
        while i < comp_a.indices.len()
            invariant
                i <= comp_a@.len(),
                comp_a@.len() == comp_a.indices@.len(),
                comp_b@.len() == comp_b.indices@.len(),
                forall|k: int, j: int|
                    0 <= k < i && 0 <= j < comp_b@.len() ==> !#[trigger] touches8(comp_a@[k], comp_b@[j]),
            decreases comp_a@.len() - i,
        {
            let p = comp_a.indices[i];
            let mut j: usize = 0;
            while j < comp_b.indices.len()
                invariant
                    i < comp_a@.len(),
                    j <= comp_b@.len(),
                    comp_a@.len() == comp_a.indices@.len(),
                    comp_b@.len() == comp_b.indices@.len(),
                    pt(p) == comp_a@[i as int],
                    forall|k: int, j2: int|
                        0 <= k < i && 0 <= j2 < comp_b@.len() ==> !#[trigger] touches8(comp_a@[k], comp_b@[j2]),
                    forall|j2: int| 0 <= j2 < j ==> !#[trigger] touches8(comp_a@[i as int], comp_b@[j2]),
                decreases comp_b@.len() - j,
            {
                let q = comp_b.indices[j];
                assert(comp_b@[j as int] == pt(q));
                if touch8(p, q) {
                    return true;
                }
                j = j + 1;
            }
            i = i + 1;
        }
        false
    }
}


/// Every point of `s` that shares a side with a point of `c` is in `c`.
pub open spec fn closed_in(c: Seq<(int, int)>, s: Seq<(int, int)>) -> bool {
    forall|i: int, k: int|
        #![trigger c[i], s[k]]
        0 <= i < c.len() && 0 <= k < s.len() && adjacent4(c[i], s[k]) ==> c.contains(s[k])
}

/// `c` is a connected component of the points `s`: distinct points of `s`, at least one, connected
/// through shared sides, and holding every point of `s` that shares a side with one of them.
pub open spec fn is_component(c: Seq<(int, int)>, s: Seq<(int, int)>) -> bool {
    &&& c.no_duplicates()
    &&& c.len() > 0
    &&& grown_connected(c)
    &&& closed_in(c, s)
    &&& forall|x: (int, int)| c.contains(x) ==> s.contains(x)
}

/// `x` lies in one of the shapes.
pub open spec fn in_some(comps: Seq<SparseBlocks>, x: (int, int)) -> bool {
    exists|c: int| 0 <= c < comps.len() && #[trigger] comps[c]@.contains(x)
}

/// Each shape is a connected component of `s` and no point lies in two of them.
pub open spec fn disjoint_components(comps: Seq<SparseBlocks>, s: Seq<(int, int)>) -> bool {
    &&& forall|i: int| 0 <= i < comps.len() ==> is_component(#[trigger] comps[i]@, s)
    &&& forall|i: int, j: int, x: (int, int)|
        #![trigger comps[i]@.contains(x), comps[j]@.contains(x)]
        0 <= i < j < comps.len() && comps[i]@.contains(x) ==> !comps[j]@.contains(x)
}

/// A sequence without repeats whose points all lie in another sequence without repeats is no
/// longer than it.
proof fn lemma_sub_len(c: Seq<(int, int)>, s: Seq<(int, int)>)
    requires
        c.no_duplicates(),
        s.no_duplicates(),
        forall|x: (int, int)| c.contains(x) ==> s.contains(x),
    ensures
        c.len() <= s.len(),
{
    c.unique_seq_to_set();
    s.unique_seq_to_set();
    assert(c.to_set().subset_of(s.to_set()));
    vstd::set_lib::lemma_len_subset(c.to_set(), s.to_set());
}

/// The two points share a side, computed without overflow.
fn adjacent(p: [isize; 2], q: [isize; 2]) -> (r: bool)
    ensures
        r == adjacent4(pt(p), pt(q)),
{
    let dx: i128 = p[0] as i128 - q[0] as i128;
    let dy: i128 = p[1] as i128 - q[1] as i128;
    (dx == 0 && (dy == 1 || dy == -1)) || (dy == 0 && (dx == 1 || dx == -1))
}

impl SparseBlocks {
    /// Return a vector of the connected components of the input
    pub fn connected_components(&self) -> (comps: Vec<Self>)
        requires
            self.wf(),
        ensures
            disjoint_components(comps@, self@),
            forall|i: int| 0 <= i < comps@.len() ==> (#[trigger] comps@[i]).wf(),
            forall|x: (int, int)| self@.contains(x) ==> in_some(comps@, x),
    {
        let n = self.indices.len();
        let ghost s = self@;
        let mut taken: Vec<bool> = Vec::new();
        while taken.len() < n
            invariant
                taken@.len() <= n,
                forall|k: int| 0 <= k < taken@.len() ==> !taken@[k],
            decreases n - taken@.len(),
        {
            taken.push(false);
        }
        let mut comps: Vec<SparseBlocks> = Vec::new();
        let mut start: usize = 0;
        while start < n
            invariant
                s == self@,
                s.len() == n,
                n == self.indices@.len(),
                s.no_duplicates(),
                taken@.len() == n,
                start <= n,
                forall|k: int| 0 <= k < n ==> (#[trigger] taken@[k] <==> in_some(comps@, s[k])),
                forall|k: int| 0 <= k < start ==> #[trigger] taken@[k],
                disjoint_components(comps@, s),
            decreases n - start,
        {
            if !taken[start] {
                taken.set(start, true);
                let mut comp: Vec<[isize; 2]> = Vec::new();
                comp.push(self.indices[start]);
                let ghost first = pairs(comp@);
                assert(first[0] == s[start as int]);
                assert(first.contains(s[start as int]));
                assert forall|k: int| 0 <= k < n implies (#[trigger] taken@[k] <==> in_some(comps@, s[k])
                    || first.contains(s[k])) by {
                    if first.contains(s[k]) {
                        assert(s[k] == s[start as int]);
                    }
                }
                let mut f: usize = 0;
                while f < comp.len()
                    invariant
                        s == self@,
                        s.len() == n,
                        n == self.indices@.len(),
                        s.no_duplicates(),
                        taken@.len() == n,
                        start < n,
                        pairs(comp@).len() > 0,
                        pairs(comp@).len() <= n,
                        f <= pairs(comp@).len(),
                        pairs(comp@).no_duplicates(),
                        grown_connected(pairs(comp@)),
                        forall|x: (int, int)| pairs(comp@).contains(x) ==> s.contains(x),
                        forall|x: (int, int)| pairs(comp@).contains(x) ==> !in_some(comps@, x),
                        forall|k: int| 0 <= k < n ==> (#[trigger] taken@[k] <==> in_some(comps@, s[k])
                            || pairs(comp@).contains(s[k])),
                        forall|i: int, k: int|
                            #![trigger pairs(comp@)[i], s[k]]
                            0 <= i < f && 0 <= k < n && adjacent4(pairs(comp@)[i], s[k]) ==> taken@[k],
                        forall|k: int| 0 <= k <= start ==> #[trigger] taken@[k],
                        disjoint_components(comps@, s),
                    decreases n - f,
                {
                    let p = comp[f];
                    let ghost at_f = pairs(comp@);
                    assert(pt(p) == at_f[f as int]);
                    let mut k: usize = 0;
                    while k < n
                        invariant
                            s == self@,
                            s.len() == n,
                            n == self.indices@.len(),
                            s.no_duplicates(),
                            taken@.len() == n,
                            start < n,
                            k <= n,
                            f < at_f.len(),
                            pt(p) == at_f[f as int],
                            pairs(comp@).len() > 0,
                            pairs(comp@).len() <= n,
                            at_f.len() <= pairs(comp@).len(),
                            forall|i: int| 0 <= i < at_f.len() ==> #[trigger] pairs(comp@)[i] == at_f[i],
                            pairs(comp@).no_duplicates(),
                            grown_connected(pairs(comp@)),
                            forall|x: (int, int)| pairs(comp@).contains(x) ==> s.contains(x),
                            forall|x: (int, int)| pairs(comp@).contains(x) ==> !in_some(comps@, x),
                            forall|k2: int| 0 <= k2 < n ==> (#[trigger] taken@[k2] <==> in_some(comps@, s[k2])
                                || pairs(comp@).contains(s[k2])),
                            forall|i: int, k2: int|
                                #![trigger at_f[i], s[k2]]
                                0 <= i < f && 0 <= k2 < n && adjacent4(at_f[i], s[k2]) ==> taken@[k2],
                            forall|k2: int| 0 <= k2 < k && adjacent4(at_f[f as int], s[k2]) ==> #[trigger] taken@[k2],
                            forall|k2: int| 0 <= k2 <= start ==> #[trigger] taken@[k2],
                            disjoint_components(comps@, s),
                        decreases n - k,
                    {
                        let q = self.indices[k];
                        assert(pt(q) == s[k as int]);
                        if !taken[k] && adjacent(p, q) {
                            let ghost before = pairs(comp@);
                            taken.set(k, true);
                            comp.push(q);
                            proof {
                                let cs = pairs(comp@);
                                assert(cs =~= before.push(s[k as int]));
                                assert(!before.contains(s[k as int]));
                                assert forall|a: int, b: int| 0 <= a < b < cs.len() implies cs[a] != cs[b] by {
                                    if b == before.len() {
                                        assert(before.contains(before[a]));
                                    }
                                }
                                assert forall|m: int| 0 < m < cs.len() implies #[trigger] has_earlier_neighbor(cs, m) by {
                                    if m == before.len() {
                                        assert(cs[f as int] == at_f[f as int]);
                                        assert(adjacent4(cs[f as int], cs[m]));
                                    } else {
                                        assert(cs[m] == before[m]);
                                        assert(has_earlier_neighbor(before, m));
                                        let j = choose|j: int| 0 <= j < m && adjacent4(before[j], before[m]);
                                        assert(cs[j] == before[j]);
                                    }
                                }
                                assert forall|x: (int, int)| cs.contains(x) implies s.contains(x) && !in_some(comps@, x) by {
                                    let j = choose|j: int| 0 <= j < cs.len() && cs[j] == x;
                                    if j < before.len() {
                                        assert(before.contains(x));
                                    } else {
                                        assert(s.contains(s[k as int]));
                                    }
                                }
                                assert forall|k2: int| 0 <= k2 < n implies (#[trigger] taken@[k2] <==> in_some(comps@, s[k2])
                                    || cs.contains(s[k2])) by {
                                    if k2 != k {
                                        if cs.contains(s[k2]) && !before.contains(s[k2]) {
                                            let j = choose|j: int| 0 <= j < cs.len() && cs[j] == s[k2];
                                            assert(j == before.len());
                                        }
                                        if before.contains(s[k2]) {
                                            let j = choose|j: int| 0 <= j < before.len() && before[j] == s[k2];
                                            assert(cs[j] == s[k2]);
                                        }
                                    } else {
                                        assert(cs[before.len() as int] == s[k2]);
                                    }
                                }
                                lemma_sub_len(cs, s);
                            }
                        }
                        k = k + 1;
                    }
                    f = f + 1;
                }
                let ghost cs = pairs(comp@);
                proof {
                    assert forall|i: int, k: int|
                        #![trigger cs[i], s[k]]
                        0 <= i < cs.len() && 0 <= k < s.len() && adjacent4(cs[i], s[k]) implies cs.contains(s[k]) by {
                        assert(taken@[k]);
                        if in_some(comps@, s[k]) {
                            let c = choose|c: int| 0 <= c < comps@.len() && #[trigger] comps@[c]@.contains(s[k]);
                            let cc = comps@[c]@;
                            assert(is_component(cc, s));
                            let j = choose|j: int| 0 <= j < cc.len() && cc[j] == s[k];
                            assert(cs.contains(cs[i]));
                            assert(s.contains(cs[i]));
                            let k3 = choose|k3: int| 0 <= k3 < s.len() && s[k3] == cs[i];
                            assert(adjacent4(cc[j], s[k3]));
                            assert(cc.contains(s[k3]));
                            assert(in_some(comps@, cs[i]));
                        }
                    }
                }
                let new_comp = SparseBlocks { indices: comp };
                let ghost old_comps = comps@;
                comps.push(new_comp);
                proof {
                    assert(comps@[old_comps.len() as int]@ == cs);
                    assert forall|i: int| 0 <= i < comps@.len() implies is_component(#[trigger] comps@[i]@, s) by {
                        if i < old_comps.len() {
                            assert(comps@[i] == old_comps[i]);
                        }
                    }
                    assert forall|i: int, j: int, x: (int, int)|
                        #![trigger comps@[i]@.contains(x), comps@[j]@.contains(x)]
                        0 <= i < j < comps@.len() && comps@[i]@.contains(x) implies !comps@[j]@.contains(x) by {
                        assert(comps@[i] == old_comps[i]);
                        if j == old_comps.len() {
                            if cs.contains(x) {
                                assert(in_some(old_comps, x));
                            }
                        } else {
                            assert(comps@[j] == old_comps[j]);
                        }
                    }
                    assert forall|k: int| 0 <= k < n implies (#[trigger] taken@[k] <==> in_some(comps@, s[k])) by {
                        if in_some(old_comps, s[k]) {
                            let c = choose|c: int| 0 <= c < old_comps.len() && #[trigger] old_comps[c]@.contains(s[k]);
                            assert(comps@[c] == old_comps[c]);
                        }
                        if cs.contains(s[k]) {
                            assert(comps@[old_comps.len() as int]@.contains(s[k]));
                        }
                        if in_some(comps@, s[k]) {
                            let c = choose|c: int| 0 <= c < comps@.len() && #[trigger] comps@[c]@.contains(s[k]);
                            if c < old_comps.len() {
                                assert(comps@[c] == old_comps[c]);
                            }
                        }
                    }
                }
            }
            start = start + 1;
        }
        proof {
            assert forall|x: (int, int)| s.contains(x) implies in_some(comps@, x) by {
                let k = choose|k: int| 0 <= k < s.len() && s[k] == x;
                assert(taken@[k]);
            }
        }
        comps
    }
}


/// The pair `(a, b)` comes strictly after edge `e` in lexicographic order.
pub open spec fn edge_below(e: [usize; 2], a: int, b: int) -> bool {
    e[0] < a || (e[0] == a && e[1] < b)
}

/// `edges` lists, in strictly increasing lexicographic order, exactly the pairs `[i, j]` with
/// `i < j < comps.len()` whose shapes are weakly connected.
pub open spec fn is_weak_connection_list(edges: Seq<[usize; 2]>, comps: Seq<SparseBlocks>) -> bool {
    &&& forall|k: int|
        0 <= k < edges.len() ==> (#[trigger] edges[k])[0] < edges[k][1] < comps.len()
            && weakly_connected(comps[edges[k][0] as int]@, comps[edges[k][1] as int]@)
    &&& forall|a: int, b: int|
        0 <= a < b < comps.len() && weakly_connected(#[trigger] comps[a]@, #[trigger] comps[b]@)
            ==> exists|k: int| 0 <= k < edges.len() && (#[trigger] edges[k])[0] == a && edges[k][1] == b
    &&& forall|k: int, l: int|
        #![trigger edges[k], edges[l]]
        0 <= k < l < edges.len() ==> edge_before(edges[k], edges[l])
}

impl SparseBlocks {
    /// For a vector of sparse_blocks, check which ones are weakly connected (so also diagonally)
    /// The graph has a vertex for each shape and an edge `[i, j]`, `i < j`, for each two shapes
    /// that are weakly connected, in lexicographic order.
    /// As convention, we pick that blocks aren't connected to themselves.
    pub fn weak_connection_graph(all_comps: &Vec<Self>) -> (g: SparseGraph)
        ensures
            g.spec_nr_verts() == all_comps@.len(),
            is_weak_connection_list(g.spec_edges(), all_comps@),
    {
        let n = all_comps.len();
        let mut running_edges: Vec<[usize; 2]> = Vec::new();
        let mut i: usize = 0;
        while i < n
            invariant
                n == all_comps@.len(),
                i <= n,
                forall|k: int|
                    0 <= k < running_edges@.len() ==> (#[trigger] running_edges@[k])[0] < running_edges@[k][1] < n
                        && weakly_connected(all_comps@[running_edges@[k][0] as int]@, all_comps@[running_edges@[k][1] as int]@)
                        && running_edges@[k][0] < i,
                forall|a: int, b: int|
                    0 <= a < i && a < b < n && weakly_connected(#[trigger] all_comps@[a]@, #[trigger] all_comps@[b]@)
                        ==> exists|k: int| 0 <= k < running_edges@.len() && (#[trigger] running_edges@[k])[0] == a
                            && running_edges@[k][1] == b,
                forall|k: int, l: int|
                    #![trigger running_edges@[k], running_edges@[l]]
                    0 <= k < l < running_edges@.len() ==> edge_before(running_edges@[k], running_edges@[l]),
            decreases n - i,
        {
            let mut j: usize = i;
            while j < n
                invariant
                    n == all_comps@.len(),
                    i < n,
                    i <= j <= n,
                    forall|k: int|
                        0 <= k < running_edges@.len() ==> (#[trigger] running_edges@[k])[0] < running_edges@[k][1] < n
                            && weakly_connected(all_comps@[running_edges@[k][0] as int]@, all_comps@[running_edges@[k][1] as int]@)
                            && edge_below(running_edges@[k], i as int, j as int),
                    forall|a: int, b: int|
                        ((0 <= a < i && a < b < n) || (a == i && i < b < j)) && weakly_connected(#[trigger] all_comps@[a]@, #[trigger] all_comps@[b]@)
                            ==> exists|k: int| 0 <= k < running_edges@.len() && (#[trigger] running_edges@[k])[0] == a
                                && running_edges@[k][1] == b,
                    forall|k: int, l: int|
                        #![trigger running_edges@[k], running_edges@[l]]
                        0 <= k < l < running_edges@.len() ==> edge_before(running_edges@[k], running_edges@[l]),
                decreases n - j,
            {
                if i != j && SparseBlocks::is_weakly_connected(&all_comps[i], &all_comps[j]) {
                    let ghost before = running_edges@;
                    running_edges.push([i, j]);
                    proof {
                        let e = running_edges@;
                        assert(e[before.len() as int][0] == i && e[before.len() as int][1] == j);
                        assert forall|k: int| 0 <= k < before.len() implies #[trigger] e[k] == before[k] by {}
                        assert forall|a: int, b: int|
                            ((0 <= a < i && a < b < n) || (a == i && i < b < j + 1)) && weakly_connected(#[trigger] all_comps@[a]@, #[trigger] all_comps@[b]@)
                                implies exists|k: int| 0 <= k < e.len() && (#[trigger] e[k])[0] == a
                                    && e[k][1] == b by {
                            if a == i && b == j {
                                assert(e[before.len() as int][0] == a);
                            } else {
                                let k = choose|k: int| 0 <= k < before.len() && (#[trigger] before[k])[0] == a
                                    && before[k][1] == b;
                                assert(e[k] == before[k]);
                            }
                        }
                    }
                }
                j = j + 1;
            }
            i = i + 1;
        }
        SparseGraph::new(n, running_edges)
    }
}


/// The point moved by `(dx, dy)`.
pub open spec fn shift(p: (int, int), dx: int, dy: int) -> (int, int) {
    (p.0 + dx, p.1 + dy)
}

/// Moving the points of `a` by `(dx, dy)` gives exactly the points of `b`.
pub open spec fn translated_by(a: Seq<(int, int)>, b: Seq<(int, int)>, dx: int, dy: int) -> bool {
    &&& forall|p: (int, int)| a.contains(p) ==> #[trigger] b.contains(shift(p, dx, dy))
    &&& forall|q: (int, int)| b.contains(q) ==> #[trigger] a.contains(shift(q, -dx, -dy))
}

/// Some offset moves the points of `a` onto exactly the points of `b`.
#[verifier::opaque]
pub open spec fn is_translate(a: Seq<(int, int)>, b: Seq<(int, int)>) -> bool {
    exists|dx: int, dy: int| translated_by(a, b, dx, dy)
}

/// Every nonempty sequence of points has a bounding box.
pub proof fn lemma_seq_bounds_exist(s: Seq<(int, int)>)
    requires
        s.len() > 0,
    ensures
        seq_bounds_ok(s, seq_bounds(s)),
    decreases s.len(),
{
    if s.len() == 1 {
        let p = s[0];
        assert(seq_bounds_ok(s, (p.0, p.1, p.0, p.1)));
    } else {
        let t = s.drop_last();
        lemma_seq_bounds_exist(t);
        lemma_seq_bounds_push(t, seq_bounds(t), s.last());
        assert(t.push(s.last()) =~= s);
    }
}

/// Moving every point moves the bounding box by the same offset.
pub proof fn lemma_translate_bounds(a: Seq<(int, int)>, b: Seq<(int, int)>, ba: Bounds, dx: int, dy: int)
    requires
        translated_by(a, b, dx, dy),
        seq_bounds_ok(a, ba),
        a.len() > 0,
    ensures
        seq_bounds_ok(b, (ba.0 + dx, ba.1 + dy, ba.2 + dx, ba.3 + dy)),
{
    let bb = (ba.0 + dx, ba.1 + dy, ba.2 + dx, ba.3 + dy);
    assert(a.contains(a[0]));
    assert(b.contains(shift(a[0], dx, dy)));
    assert forall|k: int| 0 <= k < b.len() implies bb.0 <= (#[trigger] b[k]).0 <= bb.2 && bb.1 <= b[k].1 <= bb.3 by {
        assert(b.contains(b[k]));
        assert(a.contains(shift(b[k], -dx, -dy)));
        let i = choose|i: int| 0 <= i < a.len() && a[i] == shift(b[k], -dx, -dy);
        assert(ba.0 <= a[i].0 <= ba.2);
    }
    let k0 = choose|k: int| 0 <= k < a.len() && (#[trigger] a[k]).0 == ba.0;
    let k1 = choose|k: int| 0 <= k < a.len() && (#[trigger] a[k]).1 == ba.1;
    let k2 = choose|k: int| 0 <= k < a.len() && (#[trigger] a[k]).0 == ba.2;
    let k3 = choose|k: int| 0 <= k < a.len() && (#[trigger] a[k]).1 == ba.3;
    assert(a.contains(a[k0]) && a.contains(a[k1]) && a.contains(a[k2]) && a.contains(a[k3]));
    assert(b.contains(shift(a[k0], dx, dy)));
    assert(b.contains(shift(a[k1], dx, dy)));
    assert(b.contains(shift(a[k2], dx, dy)));
    assert(b.contains(shift(a[k3], dx, dy)));
    let j0 = choose|j: int| 0 <= j < b.len() && b[j] == shift(a[k0], dx, dy);
    let j1 = choose|j: int| 0 <= j < b.len() && b[j] == shift(a[k1], dx, dy);
    let j2 = choose|j: int| 0 <= j < b.len() && b[j] == shift(a[k2], dx, dy);
    let j3 = choose|j: int| 0 <= j < b.len() && b[j] == shift(a[k3], dx, dy);
    assert(b[j0].0 == bb.0 && b[j1].1 == bb.1 && b[j2].0 == bb.2 && b[j3].1 == bb.3);
}

/// The points of `a` moved by `(dx, dy)`, in order.
pub open spec fn shifted_seq(a: Seq<(int, int)>, dx: int, dy: int) -> Seq<(int, int)> {
    a.map_values(|p: (int, int)| shift(p, dx, dy))
}

/// Moving the points of a sequence without repeats keeps it without repeats.
proof fn lemma_shifted_unique(a: Seq<(int, int)>, dx: int, dy: int)
    requires
        a.no_duplicates(),
    ensures
        shifted_seq(a, dx, dy).no_duplicates(),
        shifted_seq(a, dx, dy).len() == a.len(),
        forall|x: (int, int)| #[trigger] shifted_seq(a, dx, dy).contains(x) <==> a.contains(shift(x, -dx, -dy)),
{
    let t = shifted_seq(a, dx, dy);
    assert forall|i: int, j: int| 0 <= i < j < t.len() implies t[i] != t[j] by {
        assert(a[i] != a[j]);
    }
    assert forall|x: (int, int)| #[trigger] t.contains(x) <==> a.contains(shift(x, -dx, -dy)) by {
        if t.contains(x) {
            let i = choose|i: int| 0 <= i < t.len() && t[i] == x;
            assert(a[i] == shift(x, -dx, -dy));
        }
        if a.contains(shift(x, -dx, -dy)) {
            let i = choose|i: int| 0 <= i < a.len() && a[i] == shift(x, -dx, -dy);
            assert(t[i] == x);
        }
    }
}

/// Two translates without repeated points have the same number of points.
pub proof fn lemma_translate_len(a: Seq<(int, int)>, b: Seq<(int, int)>, dx: int, dy: int)
    requires
        translated_by(a, b, dx, dy),
        a.no_duplicates(),
        b.no_duplicates(),
    ensures
        a.len() == b.len(),
{
    lemma_shifted_unique(a, dx, dy);
    lemma_shifted_unique(b, -dx, -dy);
    assert forall|x: (int, int)| shifted_seq(a, dx, dy).contains(x) implies b.contains(x) by {
        assert(a.contains(shift(x, -dx, -dy)));
        assert(shift(shift(x, -dx, -dy), dx, dy) == x);
    }
    assert forall|x: (int, int)| shifted_seq(b, -dx, -dy).contains(x) implies a.contains(x) by {
        assert(b.contains(shift(x, dx, dy)));
        assert(shift(shift(x, dx, dy), -dx, -dy) == x);
    }
    lemma_sub_len(shifted_seq(a, dx, dy), b);
    lemma_sub_len(shifted_seq(b, -dx, -dy), a);
}

/// Moving the points of `a` into `b`, with as many points on both sides and none repeated,
/// moves them onto exactly the points of `b`.
proof fn lemma_translate_onto(a: Seq<(int, int)>, b: Seq<(int, int)>, dx: int, dy: int)
    requires
        a.no_duplicates(),
        b.no_duplicates(),
        a.len() == b.len(),
        forall|p: (int, int)| a.contains(p) ==> #[trigger] b.contains(shift(p, dx, dy)),
    ensures
        translated_by(a, b, dx, dy),
{
    let t = shifted_seq(a, dx, dy);
    lemma_shifted_unique(a, dx, dy);
    assert forall|x: (int, int)| t.to_set().contains(x) implies b.to_set().contains(x) by {
        assert(a.contains(shift(x, -dx, -dy)));
        assert(shift(shift(x, -dx, -dy), dx, dy) == x);
    }
    t.unique_seq_to_set();
    b.unique_seq_to_set();
    vstd::set_lib::lemma_subset_equality(t.to_set(), b.to_set());
    assert forall|q: (int, int)| b.contains(q) implies #[trigger] a.contains(shift(q, -dx, -dy)) by {
        assert(b.to_set().contains(q));
        assert(t.to_set().contains(q));
    }
}

/// Does `v` hold the point `p` moved by `(dx, dy)`?
fn contains_shifted(v: &Vec<[isize; 2]>, p: [isize; 2], dx: i128, dy: i128) -> (r: bool)
    requires
        -0x1_0000_0000_0000_0000 <= dx <= 0x1_0000_0000_0000_0000,
        -0x1_0000_0000_0000_0000 <= dy <= 0x1_0000_0000_0000_0000,
    ensures
        r == pairs(v@).contains(shift(pt(p), dx as int, dy as int)),
{
    let x: i128 = p[0] as i128 + dx;
    let y: i128 = p[1] as i128 + dy;
    let mut k: usize = 0;
    while k < v.len()
        invariant
            k <= v@.len(),
            x == p[0] + dx,
            y == p[1] + dy,
            forall|j: int| 0 <= j < k ==> pairs(v@)[j] != shift(pt(p), dx as int, dy as int),
        decreases v@.len() - k,
    {
        if v[k][0] as i128 == x && v[k][1] as i128 == y {
            assert(pairs(v@)[k as int] == shift(pt(p), dx as int, dy as int));
            return true;
        }
        k = k + 1;
    }
    false
}

impl SparseBlocks {
    /// Is self a translate of other? I.e., is there some offset of self which transforms it into other?
    pub fn is_translate_of(&self, other: &Self) -> (r: bool)
        requires
            self.wf(),
            other.wf(),
        ensures
            r == is_translate(self@, other@),
    {
        let ghost a = self@;
        let ghost b = other@;
        proof {
            reveal(is_translate);
        }
        if self.indices.len() != other.indices.len() {
            proof {
                if is_translate(a, b) {
                    let (dx, dy) = choose|dx: int, dy: int| translated_by(a, b, dx, dy);
                    lemma_translate_len(a, b, dx, dy);
                }
            }
            return false;
        }
        let sb = self.get_bounds();
        let ob = other.get_bounds();
        let ghost ba = (sb[0][0] as int, sb[0][1] as int, sb[1][0] as int, sb[1][1] as int);
        let ghost bb = (ob[0][0] as int, ob[0][1] as int, ob[1][0] as int, ob[1][1] as int);
        let sw: i128 = sb[1][0] as i128 - sb[0][0] as i128;
        let sh: i128 = sb[1][1] as i128 - sb[0][1] as i128;
        let ow: i128 = ob[1][0] as i128 - ob[0][0] as i128;
        let oh: i128 = ob[1][1] as i128 - ob[0][1] as i128;
        if sw != ow || sh != oh {
            proof {
                if is_translate(a, b) {
                    let (dx, dy) = choose|dx: int, dy: int| translated_by(a, b, dx, dy);
                    if a.len() > 0 {
                        lemma_translate_bounds(a, b, ba, dx, dy);
                        lemma_seq_bounds_unique(b, bb, (ba.0 + dx, ba.1 + dy, ba.2 + dx, ba.3 + dy));
                    }
                }
            }
            return false;
        }
        let x_offset: i128 = ob[0][0] as i128 - sb[0][0] as i128;
        let y_offset: i128 = ob[0][1] as i128 - sb[0][1] as i128;
        let mut k: usize = 0;
        while k < self.indices.len()
            invariant
                a == self@,
                b == other@,
                a.len() == self.indices@.len(),
                k <= a.len(),
                x_offset == bb.0 - ba.0,
                y_offset == bb.1 - ba.1,
                seq_bounds_ok(a, ba),
                seq_bounds_ok(b, bb),
                -0x1_0000_0000_0000_0000 <= x_offset <= 0x1_0000_0000_0000_0000,
                -0x1_0000_0000_0000_0000 <= y_offset <= 0x1_0000_0000_0000_0000,
                forall|i: int| 0 <= i < k ==> b.contains(shift(#[trigger] a[i], x_offset as int, y_offset as int)),
            decreases a.len() - k,
        {
            let p = self.indices[k];
            assert(pt(p) == a[k as int]);
            if !contains_shifted(&other.indices, p, x_offset, y_offset) {
                proof {
                    reveal(is_translate);
                    if is_translate(a, b) {
                        let (dx, dy) = choose|dx: int, dy: int| translated_by(a, b, dx, dy);
                        lemma_translate_bounds(a, b, ba, dx, dy);
                        lemma_seq_bounds_unique(b, bb, (ba.0 + dx, ba.1 + dy, ba.2 + dx, ba.3 + dy));
                        assert(a.contains(a[k as int]));
                    }
                }
                return false;
            }
            k = k + 1;
        }
        proof {
            assert forall|p: (int, int)| a.contains(p) implies #[trigger] b.contains(shift(p, x_offset as int, y_offset as int)) by {
                let i = choose|i: int| 0 <= i < a.len() && a[i] == p;
            }
            lemma_translate_onto(a, b, x_offset as int, y_offset as int);
            reveal(is_translate);
        }
        true
    }
}


/// The points of each shape.
pub open spec fn views(list: Seq<&SparseBlocks>) -> Seq<Seq<(int, int)>> {
    list.map_values(|b: &SparseBlocks| b@)
}

/// Going through `list` in order, the shapes that are no translate of a shape kept before them.
pub open spec fn translate_representatives(list: Seq<Seq<(int, int)>>) -> Seq<Seq<(int, int)>>
    decreases list.len(),
{
    if list.len() == 0 {
        Seq::empty()
    } else {
        let reps = translate_representatives(list.drop_last());
        if exists|r: int| 0 <= r < reps.len() && is_translate(list.last(), #[trigger] reps[r]) {
            reps
        } else {
            reps.push(list.last())
        }
    }
}

impl SparseBlocks {
    /// Given a list of shapes, remove translate-duplicates (in the sense of being translates)
    pub fn represent_by_translates(list: Vec<&Self>) -> (representatives: Vec<&Self>)
        requires
            forall|i: int| 0 <= i < list@.len() ==> (#[trigger] list@[i]).wf(),
        ensures
            views(representatives@) == translate_representatives(views(list@)),
    {
        let mut representatives: Vec<&Self> = Vec::new();
        let mut i: usize = 0;
        while i < list.len()
            invariant
                i <= list@.len(),
                forall|k: int| 0 <= k < list@.len() ==> (#[trigger] list@[k]).wf(),
                forall|k: int| 0 <= k < representatives@.len() ==> (#[trigger] representatives@[k]).wf(),
                views(representatives@) == translate_representatives(views(list@).take(i as int)),
            decreases list@.len() - i,
        {
            let shape = list[i];
            let ghost reps = views(representatives@);
            let mut found = false;
            let mut j: usize = 0;
            while j < representatives.len()
                invariant_except_break
                    !found,
                    forall|r: int| 0 <= r < j ==> !is_translate(shape@, #[trigger] reps[r]),
                invariant
                    j <= representatives@.len(),
                    shape.wf(),
                    reps == views(representatives@),
                    forall|k: int| 0 <= k < representatives@.len() ==> (#[trigger] representatives@[k]).wf(),
                ensures
                    found == exists|r: int| 0 <= r < reps.len() && is_translate(shape@, #[trigger] reps[r]),
                decreases representatives@.len() - j,
            {
                if shape.is_translate_of(representatives[j]) {
                    found = true;
                    assert(reps[j as int] == representatives@[j as int]@);
                    break;
                }
                assert(reps[j as int] == representatives@[j as int]@);
                j = j + 1;
            }
            proof {
                let t = views(list@).take(i + 1);
                assert(t.drop_last() =~= views(list@).take(i as int));
                assert(t.last() == shape@);
            }
            if !found {
                representatives.push(shape);
                assert(views(representatives@) =~= reps.push(shape@));
            }
            i = i + 1;
        }
        assert(views(list@).take(i as int) =~= views(list@));
        representatives
    }
}


/// A symmetry of a box: a mirroring in the diagonal (only for a square box), then flips of the
/// x and y coordinates.
#[derive(Debug, Clone, Copy, PartialEq, Eq, Structural)]
pub struct Candidate {
    pub swap: bool,
    pub flip_x: bool,
    pub flip_y: bool,
}

/// Where the symmetry `c` of an `x` by `y` box places the cell `p`.
pub open spec fn flip_spec(c: Candidate, x: int, y: int, p: (int, int)) -> (int, int) {
    let r = if c.swap {
        (p.1, p.0)
    } else {
        p
    };
    (if c.flip_x { x - 1 - r.0 } else { r.0 }, if c.flip_y { y - 1 - r.1 } else { r.1 })
}

/// The symmetry is one of the box: a mirroring in the diagonal only for a square box.
pub open spec fn allowed(c: Candidate, x: int, y: int) -> bool {
    x == y || !c.swap
}

/// The symmetry that does `d` first and then `c`.
pub open spec fn compose(c: Candidate, d: Candidate) -> Candidate {
    Candidate {
        swap: c.swap != d.swap,
        flip_x: c.flip_x != (if c.swap { d.flip_y } else { d.flip_x }),
        flip_y: c.flip_y != (if c.swap { d.flip_x } else { d.flip_y }),
    }
}

/// The symmetry that undoes `c`.
pub open spec fn inverse(c: Candidate) -> Candidate {
    Candidate {
        swap: c.swap,
        flip_x: if c.swap { c.flip_y } else { c.flip_x },
        flip_y: if c.swap { c.flip_x } else { c.flip_y },
    }
}

/// The symmetries considered for an `x` by `y` box: the four flips for a rectangle, and also
/// the four with a mirroring in the diagonal for a square.
pub open spec fn initial_candidates(x: int, y: int) -> Seq<Candidate> {
    let flips = seq![
        Candidate { swap: false, flip_x: false, flip_y: false },
        Candidate { swap: false, flip_x: true, flip_y: false },
        Candidate { swap: false, flip_x: false, flip_y: true },
        Candidate { swap: false, flip_x: true, flip_y: true },
    ];
    if x != y {
        flips
    } else {
        flips + seq![
            Candidate { swap: true, flip_x: false, flip_y: false },
            Candidate { swap: true, flip_x: true, flip_y: false },
            Candidate { swap: true, flip_x: false, flip_y: true },
            Candidate { swap: true, flip_x: true, flip_y: true },
        ]
    }
}

/// The cell of scan index `i` in a box of width `x`: left to right along a row, rows from the
/// bottom up, starting at `(0, 0)`.
pub open spec fn scan_cell(x: int, i: int) -> (int, int) {
    (i % x, i / x)
}

/// Two to the power `k`.
pub open spec fn pow_two(k: nat) -> nat
    decreases k,
{
    if k == 0 {
        1
    } else {
        2 * pow_two((k - 1) as nat)
    }
}

/// The scan number of the points `q` over the first `k` scan indices of a box of width `x`:
/// the sum of `2^i` over the scan indices `i` whose cell holds a point.
pub open spec fn scan_value(q: Set<(int, int)>, x: int, k: nat) -> nat
    decreases k,
{
    if k == 0 {
        0
    } else {
        scan_value(q, x, (k - 1) as nat) + if q.contains(scan_cell(x, k - 1)) {
            pow_two((k - 1) as nat)
        } else {
            0
        }
    }
}

/// The points `q` placed by the symmetry `c` of an `x` by `y` box.
pub open spec fn oriented_set(q: Set<(int, int)>, c: Candidate, x: int, y: int) -> Set<(int, int)> {
    q.map(|p: (int, int)| flip_spec(c, x, y, p))
}

/// The scan number of the points `q` placed by the symmetry `c` of an `x` by `y` box.
pub open spec fn box_value(q: Set<(int, int)>, c: Candidate, x: int, y: int) -> nat {
    scan_value(oriented_set(q, c, x, y), x, (x * y) as nat)
}

/// The first symmetry of `cands` whose placing of `q` has the lowest scan number.
pub open spec fn best_candidate(cands: Seq<Candidate>, q: Set<(int, int)>, x: int, y: int) -> Candidate
    decreases cands.len(),
{
    if cands.len() <= 1 {
        cands[0]
    } else {
        let b = best_candidate(cands.drop_last(), q, x, y);
        if box_value(q, cands.last(), x, y) < box_value(q, b, x, y) {
            cands.last()
        } else {
            b
        }
    }
}

/// The bounding box of the shape, with its long side first.
pub open spec fn oriented_dims(s: Seq<(int, int)>) -> (int, int) {
    let d = seq_dimensions(s);
    if d.1 > d.0 {
        (d.1, d.0)
    } else {
        d
    }
}

/// The points moved so that the bottom-left corner of the bounding box is `(0, 0)`, and
/// mirrored in the diagonal when the box is taller than wide.
pub open spec fn placed(s: Seq<(int, int)>) -> Seq<(int, int)> {
    let d = seq_dimensions(s);
    if d.1 > d.0 {
        swap_xy(to_origin(s))
    } else {
        to_origin(s)
    }
}

/// The points moved so that the bottom-left corner of the bounding box is `(0, 0)`.
pub open spec fn to_origin(s: Seq<(int, int)>) -> Seq<(int, int)> {
    s.map_values(|p: (int, int)| (p.0 - seq_bounds(s).0, p.1 - seq_bounds(s).1))
}

/// The points mirrored in the diagonal.
pub open spec fn swap_xy(s: Seq<(int, int)>) -> Seq<(int, int)> {
    s.map_values(|p: (int, int)| (p.1, p.0))
}

/// The symmetry chosen for the normal form: among the symmetries of the box, the first whose
/// placing of the shape has the lowest scan number.
pub open spec fn chosen_candidate(s: Seq<(int, int)>) -> Candidate {
    let d = oriented_dims(s);
    best_candidate(initial_candidates(d.0, d.1), placed(s).to_set(), d.0, d.1)
}

/// The points of the normal form, in the order of the points of `s`.
pub open spec fn normal_form_points(s: Seq<(int, int)>) -> Seq<(int, int)> {
    let d = oriented_dims(s);
    let c = chosen_candidate(s);
    placed(s).map_values(|p: (int, int)| flip_spec(c, d.0, d.1, p))
}

impl Candidate {
    /// Where this symmetry places the cell `coord` of an `x` by `y` box.
    fn flip(&self, x: isize, y: isize, coord: [isize; 2]) -> (r: [isize; 2])
        requires
            1 <= x,
            1 <= y,
            0 <= coord[0],
            0 <= coord[1],
        ensures
            pt(r) == flip_spec(*self, x as int, y as int, pt(coord)),
    {
        let r = if self.swap {
            [coord[1], coord[0]]
        } else {
            coord
        };
        [if self.flip_x {
            (x - 1) - r[0]
        } else {
            r[0]
        }, if self.flip_y {
            (y - 1) - r[1]
        } else {
            r[1]
        }]
    }
}

/// Different cells are placed at different cells by every symmetry.
proof fn lemma_flip_injective(c: Candidate, x: int, y: int, p: (int, int), q: (int, int))
    requires
        flip_spec(c, x, y, p) == flip_spec(c, x, y, q),
    ensures
        p == q,
{
}

/// Mapping the points of a sequence and then taking the set is taking the set and then mapping.
proof fn lemma_map_values_to_set(s: Seq<(int, int)>, f: spec_fn((int, int)) -> (int, int))
    ensures
        s.map_values(f).to_set() == s.to_set().map(f),
{
    assert forall|a: (int, int)| s.map_values(f).to_set().contains(a) implies s.to_set().map(f).contains(a) by {
        let i = choose|i: int| 0 <= i < s.len() && s.map_values(f)[i] == a;
        assert(s.to_set().contains(s[i]));
    }
    assert forall|a: (int, int)| s.to_set().map(f).contains(a) implies s.map_values(f).to_set().contains(a) by {
        let p = choose|p: (int, int)| s.to_set().contains(p) && a == f(p);
        let i = choose|i: int| 0 <= i < s.len() && s[i] == p;
        assert(s.map_values(f)[i] == a);
    }
    assert(s.map_values(f).to_set() =~= s.to_set().map(f));
}

/// The scan number over `k` scan indices is below `2^k`.
proof fn lemma_scan_value_bound(q: Set<(int, int)>, x: int, k: nat)
    ensures
        scan_value(q, x, k) < pow_two(k),
    decreases k,
{
    if k > 0 {
        lemma_scan_value_bound(q, x, (k - 1) as nat);
    }
}

/// The points of `v` placed by the symmetry `c` of an `x` by `y` box, in order.
fn oriented(v: &Vec<[isize; 2]>, c: Candidate, x: usize, y: usize) -> (r: Vec<[isize; 2]>)
    requires
        1 <= x <= isize::MAX,
        1 <= y <= isize::MAX,
        forall|j: int| 0 <= j < pairs(v@).len() ==> 0 <= (#[trigger] pairs(v@)[j]).0 < x && 0 <= pairs(v@)[j].1 < y,
    ensures
        pairs(r@) == pairs(v@).map_values(|p: (int, int)| flip_spec(c, x as int, y as int, p)),
{
    let ghost q = pairs(v@);
    let mut out: Vec<[isize; 2]> = Vec::new();
    let mut k: usize = 0;
    while k < v.len()
        invariant
            q == pairs(v@),
            1 <= x <= isize::MAX,
            1 <= y <= isize::MAX,
            forall|j: int| 0 <= j < q.len() ==> 0 <= (#[trigger] q[j]).0 < x && 0 <= q[j].1 < y,
            k <= q.len(),
            pairs(out@).len() == k,
            forall|j: int| 0 <= j < k ==> #[trigger] pairs(out@)[j] == flip_spec(c, x as int, y as int, q[j]),
        decreases q.len() - k,
    {
        let p = v[k];
        assert(pt(p) == q[k as int]);
        let f = c.flip(x as isize, y as isize, p);
        let ghost old = out@;
        out.push(f);
        assert(pairs(out@) =~= pairs(old).push(pt(f)));
        k = k + 1;
    }
    assert(pairs(out@) =~= q.map_values(|p: (int, int)| flip_spec(c, x as int, y as int, p)));
    out
}

/// Is the scan number of the points of `a` below that of the points of `b`, over the first `n`
/// scan indices of a box of width `x`? Compares from the highest scan index down.
fn scan_less(a: &Vec<[isize; 2]>, b: &Vec<[isize; 2]>, x: usize, n: usize) -> (r: bool)
    requires
        1 <= x <= isize::MAX,
        n <= isize::MAX,
    ensures
        r == (scan_value(pairs(a@).to_set(), x as int, n as nat) < scan_value(
            pairs(b@).to_set(),
            x as int,
            n as nat,
        )),
{
    let ghost sa = pairs(a@).to_set();
    let ghost sb = pairs(b@).to_set();
    let mut i: usize = n;
    while i > 0
        invariant
            1 <= x <= isize::MAX,
            i <= n <= isize::MAX,
            sa == pairs(a@).to_set(),
            sb == pairs(b@).to_set(),
            scan_value(sa, x as int, n as nat) - scan_value(sb, x as int, n as nat) == scan_value(
                sa,
                x as int,
                i as nat,
            ) - scan_value(sb, x as int, i as nat),
        decreases i,
    {
        i = i - 1;
        let ix: usize = i % x;
        let iy: usize = i / x;
        assert(ix < x && iy <= i) by (nonlinear_arith)
            requires
                x >= 1,
                ix == i % x,
                iy == i / x,
        ;
        let cell = [ix as isize, iy as isize];
        assert(pt(cell) == scan_cell(x as int, i as int));
        let in_a = match find_point(a, cell) {
            Some(k) => {
                assert(pairs(a@)[k as int] == pt(cell));
                assert(pairs(a@).contains(pt(cell)));
                true
            },
            None => false,
        };
        let in_b = match find_point(b, cell) {
            Some(k) => {
                assert(pairs(b@)[k as int] == pt(cell));
                assert(pairs(b@).contains(pt(cell)));
                true
            },
            None => false,
        };
        proof {
            assert(in_a == sa.contains(scan_cell(x as int, i as int)));
            assert(in_b == sb.contains(scan_cell(x as int, i as int)));
            lemma_scan_value_bound(sa, x as int, i as nat);
            lemma_scan_value_bound(sb, x as int, i as nat);
        }
        if in_a != in_b {
            return in_b;
        }
    }
    false
}

/// The best candidate is one of the candidates, and no candidate places the points with a
/// lower scan number.
proof fn lemma_best_candidate(cands: Seq<Candidate>, q: Set<(int, int)>, x: int, y: int)
    requires
        cands.len() >= 1,
    ensures
        cands.contains(best_candidate(cands, q, x, y)),
        forall|k: int|
            0 <= k < cands.len() ==> box_value(q, best_candidate(cands, q, x, y), x, y) <= box_value(
                q,
                #[trigger] cands[k],
                x,
                y,
            ),
    decreases cands.len(),
{
    if cands.len() == 1 {
        assert(cands[0] == best_candidate(cands, q, x, y));
    } else {
        let init = cands.drop_last();
        lemma_best_candidate(init, q, x, y);
        let b = best_candidate(init, q, x, y);
        let i = choose|i: int| 0 <= i < init.len() && init[i] == b;
        assert(cands[i] == b);
        assert(cands[cands.len() - 1] == cands.last());
        assert forall|k: int| 0 <= k < cands.len() implies box_value(q, best_candidate(cands, q, x, y), x, y)
            <= box_value(q, #[trigger] cands[k], x, y) by {
            if k < init.len() {
                assert(cands[k] == init[k]);
            }
        }
    }
}

impl SparseBlocks {
    /// Put the input in "normal form".
    /// Left-bottom coordinate is (0,0), and the long side of the bounding box is the x side.
    /// Rotated/flipped so that the associated binary number is lowest. This is computed as,
    /// scanning each row from left to right, rows from bottom to top, starting at (0,0), adding
    /// 2^i if there is a block at scan index i. Of symmetries that give the same number, the first
    /// in the order of `initial_candidates` is taken (they all place the same blocks).
    pub fn normal_form(&self) -> (r: Self)
        requires
            self.wf(),
            extent_fits(self@),
            seq_dimensions(self@).0 * seq_dimensions(self@).1 <= isize::MAX,
        ensures
            r.wf(),
            r@ == normal_form_points(self@),
    {
        let ghost s = self@;
        let bounds = self.get_bounds();
        let ghost b = seq_bounds(s);
        let mut moved: Vec<[isize; 2]> = Vec::new();
        let mut k: usize = 0;
        while k < self.indices.len()
            invariant
                s == self@,
                s.len() == self.indices@.len(),
                extent_fits(s),
                seq_bounds_ok(s, b),
                b == (bounds[0][0] as int, bounds[0][1] as int, bounds[1][0] as int, bounds[1][1] as int),
                k <= s.len(),
                pairs(moved@).len() == k,
                forall|j: int| 0 <= j < k ==> #[trigger] pairs(moved@)[j] == to_origin(s)[j],
            decreases s.len() - k,
        {
            let p = self.indices[k];
            assert(pt(p) == s[k as int]);
            assert(b.0 <= s[k as int].0 <= b.2 && b.1 <= s[k as int].1 <= b.3);
            let ghost old = moved@;
            let m = [p[0] - bounds[0][0], p[1] - bounds[0][1]];
            moved.push(m);
            assert(pairs(moved@) =~= pairs(old).push(pt(m)));
            assert(pairs(moved@)[k as int] == to_origin(s)[k as int]);
            k = k + 1;
        }
        assert(pairs(moved@) =~= to_origin(s));
        let dims = self.get_dimensions();
        let mut x: usize = dims[0];
        let mut y: usize = dims[1];
        let mut indices: Vec<[isize; 2]> = Vec::new();
        if y > x {
            let t = x;
            x = y;
            y = t;
            let mut k: usize = 0;
            while k < moved.len()
                invariant
                    k <= moved@.len(),
                    pairs(indices@).len() == k,
                    forall|j: int| 0 <= j < k ==> #[trigger] pairs(indices@)[j] == swap_xy(pairs(moved@))[j],
                decreases moved@.len() - k,
            {
                let p = moved[k];
                let ghost old = indices@;
                indices.push([p[1], p[0]]);
                assert(pairs(indices@) =~= pairs(old).push(pt([p[1], p[0]])));
                assert(pairs(indices@)[k as int] == swap_xy(pairs(moved@))[k as int]);
                k = k + 1;
            }
            assert(pairs(indices@) =~= swap_xy(pairs(moved@)));
        } else {
            indices = moved;
        }
        let ghost q = pairs(indices@);
        let ghost qs = q.to_set();
        assert(q == placed(s));
        assert((x as int, y as int) == oriented_dims(s));
        proof {
            assert forall|j: int| 0 <= j < q.len() implies 0 <= (#[trigger] q[j]).0 < x && 0 <= q[j].1 < y by {
                assert(b.0 <= s[j].0 <= b.2 && b.1 <= s[j].1 <= b.3);
            }
            assert(1 <= x && 1 <= y) by (nonlinear_arith)
                requires
                    x * y <= isize::MAX,
                    x == seq_dimensions(s).0 || x == seq_dimensions(s).1,
                    y == seq_dimensions(s).0 || y == seq_dimensions(s).1,
                    seq_dimensions(s).0 >= 1,
                    seq_dimensions(s).1 >= 1,
            ;
        }
        let n: usize = x * y;
        let cands: Vec<Candidate> = if x != y {
            vec![
                Candidate { swap: false, flip_x: false, flip_y: false },
                Candidate { swap: false, flip_x: true, flip_y: false },
                Candidate { swap: false, flip_x: false, flip_y: true },
                Candidate { swap: false, flip_x: true, flip_y: true },
            ]
        } else {
            vec![
                Candidate { swap: false, flip_x: false, flip_y: false },
                Candidate { swap: false, flip_x: true, flip_y: false },
                Candidate { swap: false, flip_x: false, flip_y: true },
                Candidate { swap: false, flip_x: true, flip_y: true },
                Candidate { swap: true, flip_x: false, flip_y: false },
                Candidate { swap: true, flip_x: true, flip_y: false },
                Candidate { swap: true, flip_x: false, flip_y: true },
                Candidate { swap: true, flip_x: true, flip_y: true },
            ]
        };
        assert(cands@ =~= initial_candidates(x as int, y as int));
        let mut best = cands[0];
        let mut best_points = oriented(&indices, best, x, y);
        proof {
            lemma_map_values_to_set(q, |p: (int, int)| flip_spec(best, x as int, y as int, p));
            assert(cands@.take(1).len() == 1);
            assert(cands@.take(1)[0] == best);
        }
        let mut k: usize = 1;
        while k < cands.len()
            invariant
                1 <= x <= isize::MAX,
                1 <= y <= isize::MAX,
                n == x * y,
                n <= isize::MAX,
                q == pairs(indices@),
                qs == q.to_set(),
                forall|j: int| 0 <= j < q.len() ==> 0 <= (#[trigger] q[j]).0 < x && 0 <= q[j].1 < y,
                1 <= k <= cands@.len(),
                best == best_candidate(cands@.take(k as int), qs, x as int, y as int),
                pairs(best_points@).to_set() == oriented_set(qs, best, x as int, y as int),
                pairs(best_points@) == q.map_values(|p: (int, int)| flip_spec(best, x as int, y as int, p)),
            decreases cands@.len() - k,
        {
            let c = cands[k];
            let c_points = oriented(&indices, c, x, y);
            proof {
                lemma_map_values_to_set(q, |p: (int, int)| flip_spec(c, x as int, y as int, p));
                let t = cands@.take(k + 1);
                assert(t.drop_last() =~= cands@.take(k as int));
                assert(t.last() == c);
            }
            if scan_less(&c_points, &best_points, x, n) {
                best = c;
                best_points = c_points;
            }
            k = k + 1;
        }
        assert(cands@.take(k as int) =~= cands@);
        assert(best == chosen_candidate(s));
        proof {
            assert(pairs(best_points@) =~= normal_form_points(s));
            assert forall|i1: int, j1: int| 0 <= i1 < j1 < s.len() implies to_origin(s)[i1] != to_origin(s)[j1] by {
                assert(s[i1] != s[j1]);
            }
            assert forall|i1: int, j1: int| 0 <= i1 < j1 < q.len() implies q[i1] != q[j1] by {
                assert(to_origin(s)[i1] != to_origin(s)[j1]);
            }
            assert forall|i1: int, j1: int| 0 <= i1 < j1 < q.len() implies pairs(best_points@)[i1]
                != pairs(best_points@)[j1] by {
                if pairs(best_points@)[i1] == pairs(best_points@)[j1] {
                    lemma_flip_injective(best, x as int, y as int, q[i1], q[j1]);
                }
            }
        }
        SparseBlocks { indices: best_points }
    }
}


/// Every shape is a translate of itself, by the offset zero.
pub proof fn lemma_translate_reflexive(a: Seq<(int, int)>)
    ensures
        is_translate(a, a),
{
    reveal(is_translate);
    assert forall|p: (int, int)| a.contains(p) implies #[trigger] a.contains(shift(p, 0, 0)) by {
        assert(shift(p, 0, 0) == p);
    }
    assert forall|q: (int, int)| a.contains(q) implies #[trigger] a.contains(shift(q, -0, -0)) by {
        assert(shift(q, -0, -0) == q);
    }
    assert(translated_by(a, a, 0, 0));
}

/// If `a` is a translate of `b`, then `b` is a translate of `a`, by the opposite offset.
pub proof fn lemma_translate_symmetric(a: Seq<(int, int)>, b: Seq<(int, int)>)
    requires
        is_translate(a, b),
    ensures
        is_translate(b, a),
{
    reveal(is_translate);
    let (dx, dy) = choose|dx: int, dy: int| translated_by(a, b, dx, dy);
    assert forall|p: (int, int)| b.contains(p) implies #[trigger] a.contains(shift(p, -dx, -dy)) by {}
    assert forall|q: (int, int)| a.contains(q) implies #[trigger] b.contains(shift(q, -(-dx), -(-dy))) by {
        assert(shift(q, -(-dx), -(-dy)) == shift(q, dx, dy));
    }
    assert(translated_by(b, a, -dx, -dy));
}

/// Going through a list of shapes and keeping those that are no translate of one kept before
/// keeps one shape of each translation class: every shape of the list is a translate of a kept
/// shape, no kept shape is a translate of one kept before it, and each kept shape is from the
/// list.
#[verifier::spinoff_prover]
#[verifier::rlimit(40)]
pub proof fn lemma_translate_representatives(list: Seq<Seq<(int, int)>>)
    ensures
        forall|k: int| 0 <= k < list.len() ==> exists|r: int|
            0 <= r < translate_representatives(list).len() && is_translate(
                #[trigger] list[k],
                translate_representatives(list)[r],
            ),
        forall|i: int, j: int|
            0 <= i < j < translate_representatives(list).len() ==> !is_translate(
                #[trigger] translate_representatives(list)[j],
                #[trigger] translate_representatives(list)[i],
            ),
        forall|r: int| 0 <= r < translate_representatives(list).len() ==> list.contains(
            #[trigger] translate_representatives(list)[r],
        ),
    decreases list.len(),
{
    if list.len() > 0 {
        let init = list.drop_last();
        let x = list.last();
        lemma_translate_representatives(init);
        let reps = translate_representatives(init);
        let all = translate_representatives(list);
        assert forall|k: int| 0 <= k < init.len() implies #[trigger] list[k] == init[k] by {}
        if exists|r: int| 0 <= r < reps.len() && is_translate(x, #[trigger] reps[r]) {
            assert(all == reps);
            assert forall|k: int| 0 <= k < list.len() implies exists|r: int|
                0 <= r < all.len() && is_translate(#[trigger] list[k], all[r]) by {
                if k < init.len() {
                    assert(list[k] == init[k]);
                    let r = choose|r: int| 0 <= r < reps.len() && is_translate(init[k], reps[r]);
                } else {
                    assert(list[k] == x);
                }
            }
            assert forall|r: int| 0 <= r < all.len() implies list.contains(#[trigger] all[r]) by {
                assert(init.contains(reps[r]));
                let k = choose|k: int| 0 <= k < init.len() && init[k] == reps[r];
                assert(list[k] == init[k]);
            }
        } else {
            assert(all == reps.push(x));
            lemma_translate_reflexive(x);
            assert forall|k: int| 0 <= k < list.len() implies exists|r: int|
                0 <= r < all.len() && is_translate(#[trigger] list[k], all[r]) by {
                if k < init.len() {
                    assert(list[k] == init[k]);
                    let r = choose|r: int| 0 <= r < reps.len() && is_translate(init[k], reps[r]);
                    assert(all[r] == reps[r]);
                } else {
                    assert(list[k] == x);
                    assert(all[reps.len() as int] == x);
                }
            }
            assert forall|i: int, j: int| 0 <= i < j < all.len() implies !is_translate(
                #[trigger] all[j],
                #[trigger] all[i],
            ) by {
                assert(all[i] == reps[i]);
                if j < reps.len() {
                    assert(all[j] == reps[j]);
                } else {
                    assert(all[j] == x);
                }
            }
            assert forall|r: int| 0 <= r < all.len() implies list.contains(#[trigger] all[r]) by {
                if r < reps.len() {
                    assert(all[r] == reps[r]);
                    assert(init.contains(reps[r]));
                    let k = choose|k: int| 0 <= k < init.len() && init[k] == reps[r];
                    assert(list[k] == init[k]);
                } else {
                    assert(list[list.len() - 1] == x);
                }
            }
        }
    }
}

/// Sequences with the same points keep the same points when each point is mapped.
proof fn lemma_map_same_points(a: Seq<(int, int)>, b: Seq<(int, int)>, f: spec_fn((int, int)) -> (int, int))
    requires
        a.to_set() == b.to_set(),
    ensures
        a.map_values(f).to_set() == b.map_values(f).to_set(),
{
    assert forall|x: (int, int)| a.map_values(f).to_set().contains(x) implies b.map_values(f).to_set().contains(x) by {
        let i = choose|i: int| 0 <= i < a.len() && a.map_values(f)[i] == x;
        assert(a.to_set().contains(a[i]));
        let j = choose|j: int| 0 <= j < b.len() && b[j] == a[i];
        assert(b.map_values(f)[j] == x);
    }
    assert forall|x: (int, int)| b.map_values(f).to_set().contains(x) implies a.map_values(f).to_set().contains(x) by {
        let i = choose|i: int| 0 <= i < b.len() && b.map_values(f)[i] == x;
        assert(b.to_set().contains(b[i]));
        let j = choose|j: int| 0 <= j < a.len() && a[j] == b[i];
        assert(a.map_values(f)[j] == x);
    }
    assert(a.map_values(f).to_set() =~= b.map_values(f).to_set());
}

/// Translates have the same normal form: the normal form forgets where the shape lies.
pub proof fn lemma_normal_form_translate(s: Seq<(int, int)>, t: Seq<(int, int)>, dx: int, dy: int)
    requires
        s.len() > 0,
        translated_by(s, t, dx, dy),
    ensures
        normal_form_points(s).to_set() == normal_form_points(t).to_set(),
{
    lemma_seq_bounds_exist(s);
    let bs = seq_bounds(s);
    lemma_translate_bounds(s, t, bs, dx, dy);
    assert(s.contains(s[0]));
    assert(t.contains(shift(s[0], dx, dy)));
    lemma_seq_bounds_exist(t);
    lemma_seq_bounds_unique(t, seq_bounds(t), (bs.0 + dx, bs.1 + dy, bs.2 + dx, bs.3 + dy));
    let bt = seq_bounds(t);
    assert(seq_dimensions(s) == seq_dimensions(t));
    let os = to_origin(s);
    let ot = to_origin(t);
    assert forall|x: (int, int)| os.to_set().contains(x) implies ot.to_set().contains(x) by {
        let i = choose|i: int| 0 <= i < os.len() && os[i] == x;
        assert(s.contains(s[i]));
        assert(t.contains(shift(s[i], dx, dy)));
        let j = choose|j: int| 0 <= j < t.len() && t[j] == shift(s[i], dx, dy);
        assert(ot[j] == x);
    }
    assert forall|x: (int, int)| ot.to_set().contains(x) implies os.to_set().contains(x) by {
        let j = choose|j: int| 0 <= j < ot.len() && ot[j] == x;
        assert(t.contains(t[j]));
        assert(s.contains(shift(t[j], -dx, -dy)));
        let i = choose|i: int| 0 <= i < s.len() && s[i] == shift(t[j], -dx, -dy);
        assert(os[i] == x);
    }
    assert(os.to_set() =~= ot.to_set());
    lemma_map_same_points(os, ot, |p: (int, int)| (p.1, p.0));
    assert(placed(s).to_set() == placed(t).to_set());
    assert(chosen_candidate(s) == chosen_candidate(t));
    let d = oriented_dims(s);
    let c = chosen_candidate(s);
    lemma_map_same_points(placed(s), placed(t), |p: (int, int)| flip_spec(c, d.0, d.1, p));
}


/// The placing of the points `q` of an `x` by `y` box in normal form: by the first symmetry of
/// the box with the lowest scan number.
pub open spec fn normal_set(q: Set<(int, int)>, x: int, y: int) -> Set<(int, int)> {
    oriented_set(q, best_candidate(initial_candidates(x, y), q, x, y), x, y)
}

/// All points lie in the `x` by `y` box from the origin.
pub open spec fn in_box(q: Set<(int, int)>, x: int, y: int) -> bool {
    forall|p: (int, int)| #[trigger] q.contains(p) ==> 0 <= p.0 < x && 0 <= p.1 < y
}

/// Every symmetry of the box is among the candidates.
proof fn lemma_candidates_complete(c: Candidate, x: int, y: int)
    requires
        allowed(c, x, y),
    ensures
        initial_candidates(x, y).contains(c),
{
    let init = initial_candidates(x, y);
    let k: int = (if c.swap { 4int } else { 0int }) + (if c.flip_x { 1int } else { 0int }) + (if c.flip_y { 2int } else { 0int });
    assert(init[k] == c);
}

/// Every candidate is a symmetry of the box.
proof fn lemma_candidates_allowed(x: int, y: int)
    ensures
        forall|k: int| 0 <= k < initial_candidates(x, y).len() ==> allowed(#[trigger] initial_candidates(x, y)[k], x, y),
        initial_candidates(x, y).len() >= 1,
{
}

/// Doing `d` and then `c` is doing `compose(c, d)`, and `inverse(c)` undoes `c`, for symmetries
/// of the box.
proof fn lemma_compose(c: Candidate, d: Candidate, x: int, y: int, p: (int, int))
    requires
        allowed(c, x, y),
        allowed(d, x, y),
    ensures
        flip_spec(compose(c, d), x, y, p) == flip_spec(c, x, y, flip_spec(d, x, y, p)),
        flip_spec(inverse(c), x, y, flip_spec(c, x, y, p)) == p,
        allowed(compose(c, d), x, y),
        allowed(inverse(c), x, y),
{
}

/// Placing by `d` and then by `c` is placing by `compose(c, d)`.
proof fn lemma_oriented_compose(q: Set<(int, int)>, c: Candidate, d: Candidate, x: int, y: int)
    requires
        allowed(c, x, y),
        allowed(d, x, y),
    ensures
        oriented_set(oriented_set(q, d, x, y), c, x, y) == oriented_set(q, compose(c, d), x, y),
{
    let a = oriented_set(oriented_set(q, d, x, y), c, x, y);
    let b = oriented_set(q, compose(c, d), x, y);
    assert forall|z: (int, int)| a.contains(z) implies b.contains(z) by {
        let w = choose|w: (int, int)| oriented_set(q, d, x, y).contains(w) && z == flip_spec(c, x, y, w);
        let p = choose|p: (int, int)| q.contains(p) && w == flip_spec(d, x, y, p);
        lemma_compose(c, d, x, y, p);
    }
    assert forall|z: (int, int)| b.contains(z) implies a.contains(z) by {
        let p = choose|p: (int, int)| q.contains(p) && z == flip_spec(compose(c, d), x, y, p);
        lemma_compose(c, d, x, y, p);
        assert(oriented_set(q, d, x, y).contains(flip_spec(d, x, y, p)));
    }
    assert(a =~= b);
}

/// A symmetry of the box keeps the points in the box.
proof fn lemma_oriented_in_box(q: Set<(int, int)>, c: Candidate, x: int, y: int)
    requires
        in_box(q, x, y),
        allowed(c, x, y),
    ensures
        in_box(oriented_set(q, c, x, y), x, y),
{
    assert forall|z: (int, int)| #[trigger] oriented_set(q, c, x, y).contains(z) implies 0 <= z.0 < x && 0 <= z.1 < y by {
        let p = choose|p: (int, int)| q.contains(p) && z == flip_spec(c, x, y, p);
    }
}

/// Equal scan numbers over the first `k` scan indices mean the same points at those indices.
proof fn lemma_scan_value_injective(a: Set<(int, int)>, b: Set<(int, int)>, x: int, k: nat)
    requires
        scan_value(a, x, k) == scan_value(b, x, k),
    ensures
        forall|i: int| 0 <= i < k ==> a.contains(#[trigger] scan_cell(x, i)) == b.contains(scan_cell(x, i)),
    decreases k,
{
    if k > 0 {
        let j = (k - 1) as nat;
        lemma_scan_value_bound(a, x, j);
        lemma_scan_value_bound(b, x, j);
        assert(a.contains(scan_cell(x, j as int)) == b.contains(scan_cell(x, j as int)));
        lemma_scan_value_injective(a, b, x, j);
    }
}

/// Two sets of points of the box with the same scan number are the same.
proof fn lemma_box_value_injective(a: Set<(int, int)>, b: Set<(int, int)>, x: int, y: int)
    requires
        1 <= x,
        1 <= y,
        in_box(a, x, y),
        in_box(b, x, y),
        scan_value(a, x, (x * y) as nat) == scan_value(b, x, (x * y) as nat),
    ensures
        a == b,
{
    lemma_scan_value_injective(a, b, x, (x * y) as nat);
    assert forall|p: (int, int)| a.contains(p) <==> b.contains(p) by {
        if a.contains(p) || b.contains(p) {
            let i = p.1 * x + p.0;
            vstd::arithmetic::div_mod::lemma_fundamental_div_mod_converse(i, x, p.1, p.0);
            assert(0 <= i < x * y) by (nonlinear_arith)
                requires
                    0 <= p.0 < x,
                    0 <= p.1 < y,
                    i == p.1 * x + p.0,
            ;
            assert(scan_cell(x, i) == p);
        }
    }
    assert(a =~= b);
}

/// Placing the points of the box by a symmetry of the box first does not change their normal
/// form: the normal form forgets how the points were turned or mirrored within the box.
pub proof fn lemma_normal_set_symmetric(q: Set<(int, int)>, g: Candidate, x: int, y: int)
    requires
        1 <= x,
        1 <= y,
        in_box(q, x, y),
        allowed(g, x, y),
    ensures
        normal_set(oriented_set(q, g, x, y), x, y) == normal_set(q, x, y),
{
    let init = initial_candidates(x, y);
    let q2 = oriented_set(q, g, x, y);
    lemma_candidates_allowed(x, y);
    lemma_best_candidate(init, q, x, y);
    lemma_best_candidate(init, q2, x, y);
    let b1 = best_candidate(init, q, x, y);
    let b2 = best_candidate(init, q2, x, y);
    let i1 = choose|i: int| 0 <= i < init.len() && init[i] == b1;
    let i2 = choose|i: int| 0 <= i < init.len() && init[i] == b2;
    assert(allowed(b1, x, y) && allowed(b2, x, y));
    lemma_compose(b1, inverse(g), x, y, (0, 0));
    lemma_compose(g, g, x, y, (0, 0));
    let c0 = compose(b1, inverse(g));
    lemma_oriented_compose(q, c0, g, x, y);
    lemma_oriented_compose(q, b2, g, x, y);
    lemma_compose(b2, g, x, y, (0, 0));
    assert(oriented_set(q, compose(c0, g), x, y) == oriented_set(q, b1, x, y)) by {
        assert forall|p: (int, int)| flip_spec(compose(c0, g), x, y, p) == flip_spec(b1, x, y, p) by {
            lemma_compose(c0, g, x, y, p);
            lemma_compose(b1, inverse(g), x, y, flip_spec(g, x, y, p));
            lemma_compose(g, g, x, y, p);
        }
        assert(oriented_set(q, compose(c0, g), x, y) =~= oriented_set(q, b1, x, y));
    }
    lemma_candidates_complete(c0, x, y);
    lemma_candidates_complete(compose(b2, g), x, y);
    let k0 = choose|k: int| 0 <= k < init.len() && init[k] == c0;
    let k1 = choose|k: int| 0 <= k < init.len() && init[k] == compose(b2, g);
    assert(box_value(q2, b2, x, y) <= box_value(q2, init[k0], x, y));
    assert(box_value(q, b1, x, y) <= box_value(q, init[k1], x, y));
    lemma_oriented_in_box(q, b1, x, y);
    lemma_oriented_in_box(q, g, x, y);
    lemma_oriented_in_box(q2, b2, x, y);
    lemma_box_value_injective(oriented_set(q2, b2, x, y), oriented_set(q, b1, x, y), x, y);
}

/// A symmetry of the box keeps points that touch all four sides of the box touching all four.
proof fn lemma_flip_bounds(q: Seq<(int, int)>, c: Candidate, x: int, y: int)
    requires
        q.len() > 0,
        seq_bounds_ok(q, (0, 0, x - 1, y - 1)),
        allowed(c, x, y),
    ensures
        seq_bounds_ok(q.map_values(|p: (int, int)| flip_spec(c, x, y, p)), (0, 0, x - 1, y - 1)),
{
    let f = q.map_values(|p: (int, int)| flip_spec(c, x, y, p));
    let k0 = choose|k: int| 0 <= k < q.len() && (#[trigger] q[k]).0 == 0;
    let k1 = choose|k: int| 0 <= k < q.len() && (#[trigger] q[k]).1 == 0;
    let k2 = choose|k: int| 0 <= k < q.len() && (#[trigger] q[k]).0 == x - 1;
    let k3 = choose|k: int| 0 <= k < q.len() && (#[trigger] q[k]).1 == y - 1;
    assert(f[k0] == flip_spec(c, x, y, q[k0]) && f[k1] == flip_spec(c, x, y, q[k1]));
    assert(f[k2] == flip_spec(c, x, y, q[k2]) && f[k3] == flip_spec(c, x, y, q[k3]));
    assert forall|k: int| 0 <= k < f.len() implies 0 <= (#[trigger] f[k]).0 <= x - 1 && 0 <= f[k].1 <= y - 1 by {
        assert(0 <= q[k].0 <= x - 1 && 0 <= q[k].1 <= y - 1);
    }
}

/// The placed points fill out the box of the oriented dimensions from the origin.
proof fn lemma_placed_bounds(s: Seq<(int, int)>)
    requires
        s.len() > 0,
    ensures
        seq_bounds_ok(placed(s), (0, 0, oriented_dims(s).0 - 1, oriented_dims(s).1 - 1)),
{
    lemma_seq_bounds_exist(s);
    let b = seq_bounds(s);
    let d = seq_dimensions(s);
    let o = to_origin(s);
    let k0 = choose|k: int| 0 <= k < s.len() && (#[trigger] s[k]).0 == b.0;
    let k1 = choose|k: int| 0 <= k < s.len() && (#[trigger] s[k]).1 == b.1;
    let k2 = choose|k: int| 0 <= k < s.len() && (#[trigger] s[k]).0 == b.2;
    let k3 = choose|k: int| 0 <= k < s.len() && (#[trigger] s[k]).1 == b.3;
    assert(o[k0].0 == 0 && o[k1].1 == 0 && o[k2].0 == d.0 - 1 && o[k3].1 == d.1 - 1);
    assert forall|k: int| 0 <= k < o.len() implies 0 <= (#[trigger] o[k]).0 <= d.0 - 1 && 0 <= o[k].1 <= d.1 - 1 by {
        assert(b.0 <= s[k].0 <= b.2);
    }
    assert(seq_bounds_ok(o, (0, 0, d.0 - 1, d.1 - 1)));
    if d.1 > d.0 {
        let w = swap_xy(o);
        assert(w[k0].1 == 0 && w[k1].0 == 0 && w[k2].1 == d.0 - 1 && w[k3].0 == d.1 - 1);
        assert forall|k: int| 0 <= k < w.len() implies 0 <= (#[trigger] w[k]).0 <= d.1 - 1 && 0 <= w[k].1 <= d.0 - 1 by {
            assert(0 <= o[k].0 <= d.0 - 1 && 0 <= o[k].1 <= d.1 - 1);
        }
    }
}

/// The normal form has its bottom-left corner at `(0, 0)`: its bounding box is the box of the
/// shape's dimensions, long side first, from the origin.
pub proof fn lemma_normal_form_at_origin(s: Seq<(int, int)>)
    requires
        s.len() > 0,
    ensures
        seq_bounds_ok(normal_form_points(s), (0, 0, oriented_dims(s).0 - 1, oriented_dims(s).1 - 1)),
{
    lemma_placed_bounds(s);
    let od = oriented_dims(s);
    let q = placed(s);
    let init = initial_candidates(od.0, od.1);
    lemma_candidates_allowed(od.0, od.1);
    lemma_best_candidate(init, q.to_set(), od.0, od.1);
    let c = chosen_candidate(s);
    let i = choose|i: int| 0 <= i < init.len() && init[i] == c;
    assert(allowed(init[i], od.0, od.1));
    lemma_flip_bounds(q, c, od.0, od.1);
}

/// The points of the normal form are the placed points in normal form.
proof fn lemma_normal_form_set(s: Seq<(int, int)>)
    ensures
        normal_form_points(s).to_set() == normal_set(placed(s).to_set(), oriented_dims(s).0, oriented_dims(s).1),
{
    let d = oriented_dims(s);
    lemma_map_values_to_set(placed(s), |p: (int, int)| flip_spec(chosen_candidate(s), d.0, d.1, p));
}

/// Points touching all four sides of the box `[0, x) x [0, y)`, `x >= y`, are placed as they
/// are.
proof fn lemma_placed_of_placed(t: Seq<(int, int)>, x: int, y: int)
    requires
        t.len() > 0,
        x >= y,
        seq_bounds_ok(t, (0, 0, x - 1, y - 1)),
    ensures
        placed(t) == t,
        oriented_dims(t) == (x, y),
{
    lemma_seq_bounds_exist(t);
    lemma_seq_bounds_unique(t, seq_bounds(t), (0, 0, x - 1, y - 1));
    assert(to_origin(t) =~= t);
}

/// When the first candidate places the points with a scan number no higher than any other, it
/// is the best candidate.
proof fn lemma_best_is_first(cands: Seq<Candidate>, q: Set<(int, int)>, x: int, y: int)
    requires
        cands.len() >= 1,
        forall|k: int| 0 <= k < cands.len() ==> box_value(q, cands[0], x, y) <= box_value(q, #[trigger] cands[k], x, y),
    ensures
        best_candidate(cands, q, x, y) == cands[0],
    decreases cands.len(),
{
    if cands.len() > 1 {
        let init = cands.drop_last();
        assert forall|k: int| 0 <= k < init.len() implies box_value(q, init[0], x, y) <= box_value(q, #[trigger] init[k], x, y) by {
            assert(init[k] == cands[k]);
        }
        lemma_best_is_first(init, q, x, y);
        assert(cands[cands.len() - 1] == cands.last());
    }
}

/// The normal form is idempotent: the normal form of a shape in normal form is that shape,
/// point for point.
pub proof fn lemma_normal_form_idempotent(s: Seq<(int, int)>)
    requires
        s.len() > 0,
    ensures
        normal_form_points(normal_form_points(s)) == normal_form_points(s),
{
    let od = oriented_dims(s);
    let n = normal_form_points(s);
    lemma_normal_form_at_origin(s);
    lemma_placed_bounds(s);
    lemma_seq_bounds_exist(s);
    assert(od.0 >= od.1);
    assert(n.len() > 0);
    lemma_placed_of_placed(n, od.0, od.1);
    let q = placed(s).to_set();
    let c = chosen_candidate(s);
    lemma_map_values_to_set(placed(s), |p: (int, int)| flip_spec(c, od.0, od.1, p));
    let qn = n.to_set();
    assert(qn == oriented_set(q, c, od.0, od.1));
    let init = initial_candidates(od.0, od.1);
    lemma_candidates_allowed(od.0, od.1);
    lemma_best_candidate(init, q, od.0, od.1);
    let i = choose|i: int| 0 <= i < init.len() && init[i] == c;
    assert(allowed(c, od.0, od.1));
    let id = init[0];
    assert(id == Candidate { swap: false, flip_x: false, flip_y: false });
    assert(oriented_set(qn, id, od.0, od.1) =~= qn) by {
        assert forall|z: (int, int)| qn.contains(z) implies oriented_set(qn, id, od.0, od.1).contains(z) by {
            assert(flip_spec(id, od.0, od.1, z) == z);
        }
    }
    assert forall|k: int| 0 <= k < init.len() implies box_value(qn, init[0], od.0, od.1) <= box_value(
        qn,
        #[trigger] init[k],
        od.0,
        od.1,
    ) by {
        let ck = init[k];
        assert(allowed(ck, od.0, od.1));
        lemma_oriented_compose(q, ck, c, od.0, od.1);
        lemma_compose(ck, c, od.0, od.1, (0, 0));
        lemma_candidates_complete(compose(ck, c), od.0, od.1);
        let j = choose|j: int| 0 <= j < init.len() && init[j] == compose(ck, c);
        assert(box_value(q, c, od.0, od.1) <= box_value(q, init[j], od.0, od.1));
    }
    lemma_best_is_first(init, qn, od.0, od.1);
    assert(chosen_candidate(n) == id);
    assert(normal_form_points(n) =~= n) by {
        assert forall|k: int| 0 <= k < n.len() implies normal_form_points(n)[k] == n[k] by {
            assert(flip_spec(id, od.0, od.1, n[k]) == n[k]);
        }
    }
}

/// The point turned or mirrored about the origin by `c`: a mirroring in the diagonal, then
/// negations of the coordinates (the symmetry `c` of the one-cell box).
pub open spec fn plane_map(c: Candidate, p: (int, int)) -> (int, int) {
    flip_spec(c, 1, 1, p)
}

/// The symmetry of the oriented box that takes the placed points of a shape to the placed
/// points of its image under `plane_map(c, ..)`, where the shape's box was taller than wide
/// (`tall_s`) and the image's box is (`tall_t`).
pub open spec fn placed_symmetry(c: Candidate, tall_s: bool, tall_t: bool) -> Candidate {
    Candidate {
        swap: (c.swap != tall_s) != tall_t,
        flip_x: if tall_t { c.flip_y } else { c.flip_x },
        flip_y: if tall_t { c.flip_x } else { c.flip_y },
    }
}

/// The bounding box of the image of a shape under `plane_map(c, ..)`.
pub open spec fn plane_bounds(c: Candidate, b: Bounds) -> Bounds {
    if !c.swap {
        (
            if c.flip_x { -b.2 } else { b.0 },
            if c.flip_y { -b.3 } else { b.1 },
            if c.flip_x { -b.0 } else { b.2 },
            if c.flip_y { -b.1 } else { b.3 },
        )
    } else {
        (
            if c.flip_x { -b.3 } else { b.1 },
            if c.flip_y { -b.2 } else { b.0 },
            if c.flip_x { -b.1 } else { b.3 },
            if c.flip_y { -b.0 } else { b.2 },
        )
    }
}

/// The image of a shape under `plane_map(c, ..)` has the bounding box `plane_bounds`.
proof fn lemma_plane_bounds(s: Seq<(int, int)>, c: Candidate, b: Bounds)
    requires
        s.len() > 0,
        seq_bounds_ok(s, b),
    ensures
        seq_bounds_ok(s.map_values(|p: (int, int)| plane_map(c, p)), plane_bounds(c, b)),
{
    let t = s.map_values(|p: (int, int)| plane_map(c, p));
    let bt = plane_bounds(c, b);
    let k0 = choose|k: int| 0 <= k < s.len() && (#[trigger] s[k]).0 == b.0;
    let k1 = choose|k: int| 0 <= k < s.len() && (#[trigger] s[k]).1 == b.1;
    let k2 = choose|k: int| 0 <= k < s.len() && (#[trigger] s[k]).0 == b.2;
    let k3 = choose|k: int| 0 <= k < s.len() && (#[trigger] s[k]).1 == b.3;
    assert(t[k0] == plane_map(c, s[k0]) && t[k1] == plane_map(c, s[k1]));
    assert(t[k2] == plane_map(c, s[k2]) && t[k3] == plane_map(c, s[k3]));
    assert forall|k: int| 0 <= k < t.len() implies bt.0 <= (#[trigger] t[k]).0 <= bt.2 && bt.1 <= t[k].1 <= bt.3 by {
        assert(b.0 <= s[k].0 <= b.2 && b.1 <= s[k].1 <= b.3);
    }
}

/// Turning or mirroring a shape about the origin places its points by a symmetry of its
/// oriented box.
proof fn lemma_placed_plane(s: Seq<(int, int)>, c: Candidate)
    requires
        s.len() > 0,
    ensures
        oriented_dims(s.map_values(|p: (int, int)| plane_map(c, p))) == oriented_dims(s),
        allowed(
            placed_symmetry(
                c,
                seq_dimensions(s).1 > seq_dimensions(s).0,
                seq_dimensions(s.map_values(|p: (int, int)| plane_map(c, p))).1 > seq_dimensions(
                    s.map_values(|p: (int, int)| plane_map(c, p)),
                ).0,
            ),
            oriented_dims(s).0,
            oriented_dims(s).1,
        ),
        placed(s.map_values(|p: (int, int)| plane_map(c, p))) == placed(s).map_values(
            |p: (int, int)|
                flip_spec(
                    placed_symmetry(
                        c,
                        seq_dimensions(s).1 > seq_dimensions(s).0,
                        seq_dimensions(s.map_values(|p: (int, int)| plane_map(c, p))).1 > seq_dimensions(
                            s.map_values(|p: (int, int)| plane_map(c, p)),
                        ).0,
                    ),
                    oriented_dims(s).0,
                    oriented_dims(s).1,
                    p,
                ),
        ),
{
    let t = s.map_values(|p: (int, int)| plane_map(c, p));
    lemma_seq_bounds_exist(s);
    let b = seq_bounds(s);
    lemma_plane_bounds(s, c, b);
    lemma_seq_bounds_exist(t);
    lemma_seq_bounds_unique(t, seq_bounds(t), plane_bounds(c, b));
    let ds = seq_dimensions(s);
    let dt = seq_dimensions(t);
    let ts = ds.1 > ds.0;
    let tt = dt.1 > dt.0;
    let h = placed_symmetry(c, ts, tt);
    let od = oriented_dims(s);
    assert forall|k: int| 0 <= k < t.len() implies #[trigger] placed(t)[k] == flip_spec(h, od.0, od.1, placed(s)[k]) by {
        assert(t[k] == plane_map(c, s[k]));
    }
    assert(placed(t) =~= placed(s).map_values(|p: (int, int)| flip_spec(h, od.0, od.1, p)));
}

/// The normal form forgets how the shape is turned or mirrored: a shape turned by a multiple of
/// 90° or mirrored about the origin, and then moved by any offset, has the normal form of the
/// shape.
pub proof fn lemma_normal_form_symmetric(s: Seq<(int, int)>, c: Candidate, t: Seq<(int, int)>, dx: int, dy: int)
    requires
        s.len() > 0,
        translated_by(s.map_values(|p: (int, int)| plane_map(c, p)), t, dx, dy),
    ensures
        normal_form_points(t).to_set() == normal_form_points(s).to_set(),
{
    let m = s.map_values(|p: (int, int)| plane_map(c, p));
    assert(m.len() > 0);
    lemma_normal_form_translate(m, t, dx, dy);
    lemma_placed_plane(s, c);
    let od = oriented_dims(s);
    let h = placed_symmetry(c, seq_dimensions(s).1 > seq_dimensions(s).0, seq_dimensions(m).1 > seq_dimensions(m).0);
    let q = placed(s).to_set();
    lemma_map_values_to_set(placed(s), |p: (int, int)| flip_spec(h, od.0, od.1, p));
    assert(placed(m).to_set() == oriented_set(q, h, od.0, od.1));
    lemma_normal_form_set(m);
    lemma_normal_form_set(s);
    lemma_placed_bounds(s);
    lemma_seq_bounds_exist(s);
    assert(in_box(q, od.0, od.1)) by {
        assert forall|p: (int, int)| #[trigger] q.contains(p) implies 0 <= p.0 < od.0 && 0 <= p.1 < od.1 by {
            let k = choose|k: int| 0 <= k < placed(s).len() && placed(s)[k] == p;
        }
    }
    lemma_normal_set_symmetric(q, h, od.0, od.1);
}

/// The normal form forgets position, rotation and reflection: when the points of `b` are the
/// points of `a` mapped by one of the eight symmetries of the grid (`plane_map(c, ..)`: `[x, y]`
/// to `[x, y]`, `[-x, y]`, `[x, -y]`, `[-x, -y]`, `[y, x]`, `[-y, x]`, `[y, -x]` or `[-y, -x]`) and
/// then moved by `(dx, dy)`, the normal forms of `a` and `b` hold the same points.
pub proof fn lemma_normal_form_forgets_placement(a: SparseBlocks, b: SparseBlocks, c: Candidate, dx: int, dy: int)
    requires
        a@.len() > 0,
        forall|q: (int, int)|
            #[trigger] b.points().contains(q) <==> exists|p: (int, int)|
                a.points().contains(p) && q == shift(plane_map(c, p), dx, dy),
    ensures
        normal_form_points(a@).to_set() == normal_form_points(b@).to_set(),
{
    let m = a@.map_values(|p: (int, int)| plane_map(c, p));
    assert forall|p: (int, int)| m.contains(p) implies #[trigger] b@.contains(shift(p, dx, dy)) by {
        let i = choose|i: int| 0 <= i < m.len() && m[i] == p;
        assert(a.points().contains(a@[i]));
        assert(b.points().contains(shift(p, dx, dy)));
    }
    assert forall|q: (int, int)| b@.contains(q) implies #[trigger] m.contains(shift(q, -dx, -dy)) by {
        assert(b.points().contains(q));
        let p = choose|p: (int, int)| a.points().contains(p) && q == shift(plane_map(c, p), dx, dy);
        let i = choose|i: int| 0 <= i < a@.len() && a@[i] == p;
        assert(m[i] == shift(q, -dx, -dy));
    }
    lemma_normal_form_symmetric(a@, c, b@, dx, dy);
}

/// A shape that is the normal form of a shape is its own normal form, point for point.
pub proof fn lemma_normal_form_of_normal_form(a: SparseBlocks, n: SparseBlocks)
    requires
        a@.len() > 0,
        n@ == normal_form_points(a@),
    ensures
        normal_form_points(n@) == n@,
{
    lemma_normal_form_idempotent(a@);
}

} // verus!
