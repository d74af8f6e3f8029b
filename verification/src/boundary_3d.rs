use crate::blocks::{wf_blocks, Blocks};
use crate::grid::{lemma_coords_index, lemma_index_coords, lemma_neighbor_indices, Grid};
use crate::zvec::ZVec;
use std::collections::VecDeque;
use vstd::prelude::*;

verus! {

/// The grid of `layer` in the stack, if the stack has that layer.
pub open spec fn layer_grid(stack: ZVec<Blocks>, layer: int) -> Option<Grid> {
    if stack.in_range(layer) {
        Some(stack.at(layer)@)
    } else {
        None
    }
}

/// Cell `(x, y)` of `blocks` is on the boundary of the 3D shape formed by the stack of layers:
/// a block that is on the 2D boundary of its layer, on a floating top or bottom face of the
/// stack, or below or above a layer without a block at the same global position.
pub open spec fn boundary_3d_at(
    blocks: Grid,
    above: Option<Grid>,
    below: Option<Grid>,
    bottom_face: bool,
    top_face: bool,
    x: int,
    y: int,
) -> bool {
    let o = blocks.origin();
    &&& blocks.cell(x, y)
    &&& {
        ||| blocks.boundary_at(x, y)
        ||| bottom_face
        ||| top_face
        ||| (above matches Some(a) && !a.has_block(x - o, y - o))
        ||| (below matches Some(b) && !b.has_block(x - o, y - o))
    }
}

/// The 3D boundary of layer `layer` of the stack.
pub open spec fn boundary_3d_layer(
    stack: ZVec<Blocks>,
    layer: int,
    layer_min: int,
    layer_max: int,
    floating_bottom: bool,
    floating_top: bool,
) -> Grid {
    let blocks = stack.at(layer)@;
    Grid::from_fn(
        blocks.size,
        |x: int, y: int|
            boundary_3d_at(
                blocks,
                layer_grid(stack, layer + 1),
                layer_grid(stack, layer - 1),
                layer == layer_min && floating_bottom,
                layer == layer_max && floating_top,
                x,
                y,
            ),
    )
}

/// The 3D boundary of a layer lies within its blocks. A block of the layer is on it when it is
/// on the 2D boundary of its layer, when the layer is a floating bottom or top face, or when the
/// stack has a layer just below (or just above) that holds no block at the same global position:
/// the block is seen from below (or above) through that gap. Any other block is hidden.
pub proof fn lemma_boundary_3d_cell(
    stack: ZVec<Blocks>,
    layer: int,
    layer_min: int,
    layer_max: int,
    floating_bottom: bool,
    floating_top: bool,
    x: int,
    y: int,
)
    requires
        stack.in_range(layer),
    ensures
        ({
            let grid = stack.at(layer)@;
            let o = grid.origin();
            let seen_below = stack.in_range(layer - 1) && !stack.at(layer - 1)@.has_block(
                x - o,
                y - o,
            );
            let seen_above = stack.in_range(layer + 1) && !stack.at(layer + 1)@.has_block(
                x - o,
                y - o,
            );
            let face = (layer == layer_min && floating_bottom) || (layer == layer_max
                && floating_top);
            boundary_3d_layer(stack, layer, layer_min, layer_max, floating_bottom, floating_top).cell(
                x,
                y,
            ) == (grid.cell(x, y) && (grid.boundary().cell(x, y) || face || seen_below
                || seen_above))
        }),
{
    let grid = stack.at(layer)@;
    let r = boundary_3d_layer(stack, layer, layer_min, layer_max, floating_bottom, floating_top);
    if grid.in_grid(x, y) {
        lemma_coords_index(x, y, grid.size as int);
        crate::grid::lemma_from_fn_cell(grid.size, |x: int, y: int| grid.boundary_at(x, y), x, y);
    }
}

/// A block of a layer whose global position holds no block in the layer just below it (when
/// the stack has that layer) is on the 3D boundary: it is seen from below. The same holds for
/// the layer just above.
pub proof fn lemma_boundary_3d_seen_through_gap(
    stack: ZVec<Blocks>,
    layer: int,
    layer_min: int,
    layer_max: int,
    floating_bottom: bool,
    floating_top: bool,
    x: int,
    y: int,
)
    requires
        stack.in_range(layer),
        stack.at(layer)@.cell(x, y),
    ensures
        stack.in_range(layer - 1) && !stack.at(layer - 1)@.has_block(
            x - stack.at(layer)@.origin(),
            y - stack.at(layer)@.origin(),
        ) ==> boundary_3d_layer(
            stack,
            layer,
            layer_min,
            layer_max,
            floating_bottom,
            floating_top,
        ).cell(x, y),
        stack.in_range(layer + 1) && !stack.at(layer + 1)@.has_block(
            x - stack.at(layer)@.origin(),
            y - stack.at(layer)@.origin(),
        ) ==> boundary_3d_layer(
            stack,
            layer,
            layer_min,
            layer_max,
            floating_bottom,
            floating_top,
        ).cell(x, y),
{
    lemma_boundary_3d_cell(stack, layer, layer_min, layer_max, floating_bottom, floating_top, x, y);
}

/// Turning the stack upside down (layer `l` of `flipped` is layer `-l` of `stack`, and the
/// floating bottom and top swap) turns its 3D boundary upside down: what is seen from below in
/// one is seen from above in the other.
pub proof fn lemma_boundary_3d_upside_down(
    stack: ZVec<Blocks>,
    flipped: ZVec<Blocks>,
    layer: int,
    layer_min: int,
    layer_max: int,
    floating_bottom: bool,
    floating_top: bool,
)
    requires
        stack.in_range(layer),
        forall|l: int| #[trigger] flipped.in_range(l) == stack.in_range(-l),
        forall|l: int| flipped.in_range(l) ==> #[trigger] flipped.at(l)@ == stack.at(-l)@,
    ensures
        boundary_3d_layer(flipped, -layer, -layer_max, -layer_min, floating_top, floating_bottom)
            == boundary_3d_layer(
            stack,
            layer,
            layer_min,
            layer_max,
            floating_bottom,
            floating_top,
        ),
{
    assert(flipped.in_range(-layer) && flipped.in_range(-layer + 1) == stack.in_range(layer - 1)
        && flipped.in_range(-layer - 1) == stack.in_range(layer + 1));
    assert(flipped.at(-layer)@ == stack.at(layer)@);
    if stack.in_range(layer - 1) {
        assert(flipped.at(-layer + 1)@ == stack.at(layer - 1)@);
    }
    if stack.in_range(layer + 1) {
        assert(flipped.at(-layer - 1)@ == stack.at(layer + 1)@);
    }
    assert(layer_grid(flipped, -layer + 1) == layer_grid(stack, layer - 1));
    assert(layer_grid(flipped, -layer - 1) == layer_grid(stack, layer + 1));
    let a = boundary_3d_layer(flipped, -layer, -layer_max, -layer_min, floating_top, floating_bottom);
    let b = boundary_3d_layer(stack, layer, layer_min, layer_max, floating_bottom, floating_top);
    assert(a.cells =~= b.cells);
}

/// The blocks of the 3D boundary of one layer.
#[verifier::loop_isolation(false)]
fn boundary_3d_of_layer(
    gen_output: &ZVec<Blocks>,
    layer: isize,
    layer_min: isize,
    layer_max: isize,
    floating_bottom: bool,
    floating_top: bool,
) -> (boundary: Blocks)
    requires
        gen_output.wf(),
        gen_output.in_range(layer as int),
        layer < isize::MAX,
        layer > isize::MIN,
        forall|l: int| #[trigger] gen_output.in_range(l) ==> wf_blocks(&gen_output.at(l)),
    ensures
        boundary@ == boundary_3d_layer(
            *gen_output,
            layer as int,
            layer_min as int,
            layer_max as int,
            floating_bottom,
            floating_top,
        ),
        wf_blocks(&boundary),
{
    let blocks = gen_output.get_ref(layer).unwrap();
    let above = gen_output.get_ref(layer + 1);
    let below = gen_output.get_ref(layer - 1);
    let ghost grid = blocks@;
    assert(wf_blocks(blocks));
    let g = blocks.grid_size;
    let n = blocks.blocks.len();
    let bottom_face = layer == layer_min && floating_bottom;
    let top_face = layer == layer_max && floating_top;
    let mut out: Vec<bool> = Vec::new();
    let mut i: usize = 0;
    while i < n
        invariant
            i <= n,
            out@.len() == i,
            forall|j: int|
                0 <= j < i ==> out@[j] == boundary_3d_at(
                    grid,
                    layer_grid(*gen_output, layer + 1),
                    layer_grid(*gen_output, layer - 1),
                    bottom_face,
                    top_face,
                    j % (g as int),
                    j / (g as int),
                ),
        decreases n - i,
    {
        proof {
            lemma_neighbor_indices(i as int, g as int);
        }
        let global_coords = blocks.get_global_coord_usize_from_index(i);
        let x = i % g;
        let y = i / g;
        let v = blocks.blocks[i] == true
        // has to be a block in self
         && (x == 0
        // edges of layer boundary are automatically boundary  (extreme coords):
         || x == g - 1 || y == 0 || y == g - 1
        // regular 2D boundary: (look in each horizontal direction, any must be empty for i not to be a boundary
         || !blocks.blocks[i + 1] || !blocks.blocks[i - 1] || !blocks.blocks[i + g]
            || !blocks.blocks[i - g]
        // top and bottom faces of stack:
         || bottom_face || top_face
        // vertical boundary: see if 1. the layer above exists, 2. there is no block at the global coords on the layer above
         || match above {
            Some(layer_above) => !layer_above.is_block_on_global_coord(global_coords),
            None => false,
        } || match below {
            Some(layer_below) => !layer_below.is_block_on_global_coord(global_coords),
            None => false,
        });
        out.push(v);
        i = i + 1;
    }
    assert(out@ =~= boundary_3d_layer(
        *gen_output,
        layer as int,
        layer_min as int,
        layer_max as int,
        floating_bottom,
        floating_top,
    ).cells);
    Blocks::new(out, g)
}

/// The blocks of each layer of the stack that are visible from outside the 3D shape that the
/// layers `layer_min..=layer_max` form, one layer of output for each of these layers.
pub fn boundary_3d(
    gen_output: &ZVec<Blocks>,
    layer_min: isize,
    layer_max: isize,
    floating_bottom: bool,
    floating_top: bool,
) -> (out: ZVec<Blocks>)
    requires
        gen_output.wf(),
        forall|l: int| #[trigger] gen_output.in_range(l) ==> wf_blocks(&gen_output.at(l)),
        forall|l: int| layer_min <= l <= layer_max ==> #[trigger] gen_output.in_range(l),
        layer_max < isize::MAX,
        layer_min > isize::MIN,
        layer_max - layer_min < isize::MAX,
    ensures
        out.wf(),
        out.spec_min() == layer_min,
        out.spec_max() == if layer_min <= layer_max {
            layer_max as int
        } else {
            layer_min - 1
        },
        forall|l: int|
            #![trigger out.at(l)]
            layer_min <= l <= layer_max ==> out.at(l)@ == boundary_3d_layer(
                *gen_output,
                l,
                layer_min as int,
                layer_max as int,
                floating_bottom,
                floating_top,
            ) && wf_blocks(&out.at(l)),
{
    let mut out: VecDeque<Blocks> = VecDeque::new();
    let mut layer = layer_min;
    if layer_min <= layer_max {
        loop
            invariant_except_break
                out@.len() == layer - layer_min,
            invariant
                gen_output.wf(),
                forall|l: int| #[trigger] gen_output.in_range(l) ==> wf_blocks(&gen_output.at(l)),
                forall|l: int| layer_min <= l <= layer_max ==> #[trigger] gen_output.in_range(l),
                layer_max < isize::MAX,
                layer_min > isize::MIN,
                layer_max - layer_min < isize::MAX,
                layer_min <= layer <= layer_max,
                out@.len() <= layer - layer_min + 1,
                forall|k: int|
                    #![trigger out@[k]]
                    0 <= k < out@.len() ==> out@[k]@ == boundary_3d_layer(
                        *gen_output,
                        layer_min + k,
                        layer_min as int,
                        layer_max as int,
                        floating_bottom,
                        floating_top,
                    ) && wf_blocks(&out@[k]),
            ensures
                out@.len() == layer_max - layer_min + 1,
                forall|k: int|
                    #![trigger out@[k]]
                    0 <= k < out@.len() ==> out@[k]@ == boundary_3d_layer(
                        *gen_output,
                        layer_min + k,
                        layer_min as int,
                        layer_max as int,
                        floating_bottom,
                        floating_top,
                    ) && wf_blocks(&out@[k]),
            decreases layer_max - layer,
        {
            let b = boundary_3d_of_layer(
                gen_output,
                layer,
                layer_min,
                layer_max,
                floating_bottom,
                floating_top,
            );
            out.push_back(b);
            if layer == layer_max {
                break;
            }
            layer = layer + 1;
        }
    }
    let z = ZVec::new(out, layer_min);
    assert forall|l: int| #![trigger z.at(l)] layer_min <= l <= layer_max implies z.at(l)@
        == boundary_3d_layer(
        *gen_output,
        l,
        layer_min as int,
        layer_max as int,
        floating_bottom,
        floating_top,
    ) && wf_blocks(&z.at(l)) by {
        assert(z.at(l) == z@[l - layer_min]);
    }
    z
}

} // verus!
