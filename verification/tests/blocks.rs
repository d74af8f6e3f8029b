use voxircle::blocks::Blocks;
use voxircle::symmetry_type::SymmetryType;

/// A grid of the given size with blocks at the listed cells.
fn grid(size: usize, cells: &[(usize, usize)]) -> Blocks {
    let mut blocks = vec![false; size * size];
    for &(x, y) in cells {
        blocks[y * size + x] = true;
    }
    Blocks::new(blocks, size)
}

/// The 3x3 square in the middle of a 5x5 grid.
fn square() -> Blocks {
    let mut cells = vec![];
    for x in 1..4 {
        for y in 1..4 {
            cells.push((x, y));
        }
    }
    grid(5, &cells)
}

fn count(b: &Blocks) -> usize {
    b.blocks.iter().filter(|c| **c).count()
}

#[test]
fn square_counts_interior_boundary_complement() {
    let b = square();
    assert_eq!(b.get_nr_blocks(), 9);
    let interior = b.get_interior();
    assert_eq!(count(&interior), 1);
    assert!(interior.blocks[2 * 5 + 2]);
    let boundary = b.get_boundary();
    assert_eq!(count(&boundary), 8);
    assert!(!boundary.blocks[2 * 5 + 2]);
    let complement = b.get_complement();
    assert_eq!(count(&complement), 16);
    assert_eq!(complement.get_complement(), b);
}

#[test]
fn blocks_on_the_grid_edge_are_boundary() {
    let b = grid(3, &[(0, 0), (1, 0), (2, 0), (0, 1), (1, 1), (2, 1), (0, 2), (1, 2), (2, 2)]);
    assert_eq!(count(&b.get_interior()), 1);
    assert_eq!(count(&b.get_boundary()), 8);
}

#[test]
fn square_bounds_and_diameters() {
    let b = square();
    assert_eq!(b.get_bounds(), [[1, 1], [3, 3]]);
    assert_eq!(grid(2, &[(0, 0)]).get_bounds(), [[0, 0], [0, 0]]);
    assert_eq!(grid(6, &[(4, 1), (2, 5)]).get_bounds(), [[2, 1], [4, 5]]);
    assert_eq!(grid(4, &[]).get_bounds(), [[0, 0], [0, 0]]);
    assert_eq!(b.get_diameters(), [3, 3]);
    let c = b.get_center_blocks();
    assert_eq!(count(&c), 1);
    assert!(c.blocks[2 * 5 + 2]);
}

#[test]
fn even_diameters_give_two_center_columns() {
    let b = grid(6, &[(1, 2), (2, 2), (3, 2), (4, 2)]);
    assert_eq!(b.get_diameters(), [4, 1]);
    let c = b.get_center_blocks();
    assert_eq!(count(&c), 2);
    assert!(c.blocks[2 * 6 + 2] && c.blocks[2 * 6 + 3]);
}

#[test]
fn global_coordinates_and_indices() {
    let b = square();
    assert_eq!(b.origin_usize(), 2);
    assert_eq!(b.get_index_from_global_coord_usize([0, 0]), Some(12));
    assert_eq!(b.get_index_from_global_coord_usize([-2, 2]), Some(20));
    assert_eq!(b.get_index_from_global_coord_usize([3, 0]), None);
    assert_eq!(b.get_global_coord_usize_from_index(0), [-2, -2]);
    assert_eq!(b.get_global_coord_usize_from_index(24), [2, 2]);
    assert!(b.is_block_on_global_coord([0, 0]));
    assert!(b.is_block_on_global_coord([1, -1]));
    assert!(!b.is_block_on_global_coord([2, 2]));
    assert!(!b.is_block_on_global_coord([7, 0]));
}

#[test]
fn block_coordinates_in_cell_order() {
    let b = grid(4, &[(1, 1), (3, 1), (2, 3)]);
    assert_eq!(b.get_all_block_coords_usize(), vec![[-1, -1], [1, -1], [0, 1]]);
}

#[test]
fn single_block_has_four_outer_corners() {
    let b = grid(4, &[(1, 1)]);
    let mut corners = b.get_outer_corners_usize();
    corners.sort();
    assert_eq!(corners, vec![[-1, -1], [-1, 0], [0, -1], [0, 0]]);
}

#[test]
fn strips_and_squares() {
    let s = Blocks::strips_at_x_coords(vec![1], 3);
    assert_eq!(s.blocks, vec![false, true, false, false, true, false, false, true, false]);
    let s = Blocks::strips_at_y_coords(vec![0], 2);
    assert_eq!(s.blocks, vec![true, true, false, false]);
    let s = Blocks::squares_at_xy_coords(vec![0, 1], vec![1], 2);
    assert_eq!(s.blocks, vec![false, false, true, true]);
}

#[test]
fn symmetry_types() {
    assert_eq!(square().get_symmetry_type(), SymmetryType::ReflectionsAll);
    // a 3x1 bar: mirror symmetric in both axes
    let bar = grid(5, &[(1, 2), (2, 2), (3, 2)]);
    assert_eq!(bar.get_symmetry_type(), SymmetryType::ReflectionsCardinals);
    // an L: mirror symmetric in one diagonal only
    let l = grid(5, &[(1, 1), (2, 1), (1, 2)]);
    let t = l.get_symmetry_type();
    assert_eq!(t, SymmetryType::ReflectionDiagonalUp);
    assert_eq!(t.to_string(), "Reflection along up 45° diagonal".to_string());
    // a P shape: no symmetry at all
    let p = grid(5, &[(1, 1), (1, 2), (1, 3), (2, 2), (2, 3)]);
    assert_eq!(p.get_symmetry_type(), SymmetryType::NoSymmetry);
}

#[test]
fn combining_layers() {
    let a = grid(2, &[(0, 0), (1, 0)]);
    let b = grid(2, &[(1, 0), (1, 1)]);
    let c = grid(2, &[(1, 0)]);
    let any = Blocks::combine_any(vec![a.clone(), b.clone(), c.clone()]);
    assert_eq!(any.blocks, vec![true, true, false, true]);
    let all = Blocks::combine_all(vec![a.clone(), b.clone(), c.clone()]);
    assert_eq!(all.blocks, vec![false, true, false, false]);
    let two = Blocks::combine_at_least(vec![a, b, c], 2);
    assert_eq!(two.blocks, vec![false, true, false, false]);
}

#[test]
fn combining_layers_of_different_sizes_uses_the_largest() {
    let small = grid(2, &[(0, 0)]);
    let large = grid(4, &[(1, 1)]);
    let any = Blocks::combine_any(vec![small, large]);
    assert_eq!(any.grid_size, 4);
    assert_eq!(any.get_nr_blocks(), 1);
}

#[test]
fn build_sequence_of_a_disc() {
    let size = 9;
    let mut cells = vec![];
    for y in 0..size {
        for x in 0..size {
            let dx = x as isize - 4;
            let dy = y as isize - 4;
            if dx * dx + dy * dy <= 10 {
                cells.push((x, y));
            }
        }
    }
    let b = grid(size, &cells);
    assert_eq!(b.get_build_sequence(), vec![3, 1, 1]);
}

#[test]
fn same_as_compares_blocks() {
    assert!(square().same_as(&square()));
    assert!(!square().same_as(&grid(5, &[(1, 1)])));
}
