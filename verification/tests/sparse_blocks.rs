use voxircle::blocks::Blocks;
use voxircle::sparse_blocks::SparseBlocks;

fn shape(points: &[[isize; 2]]) -> SparseBlocks {
    SparseBlocks::from_coords(points.to_vec())
}

fn sorted(s: &SparseBlocks) -> Vec<[isize; 2]> {
    let mut v = s.get_coords().clone();
    v.sort();
    v
}

#[test]
fn from_coords_drops_repeats() {
    let s = shape(&[[0, 0], [1, 0], [0, 0], [1, 0], [2, 2]]);
    assert_eq!(s.get_coords(), &vec![[0, 0], [1, 0], [2, 2]]);
}

#[test]
fn from_blocks_takes_global_coordinates() {
    let mut cells = vec![false; 16];
    cells[1 * 4 + 1] = true;
    cells[3 * 4 + 2] = true;
    let s = SparseBlocks::from_blocks(&Blocks::new(cells, 4));
    assert_eq!(sorted(&s), vec![[-1, -1], [0, 1]]);
}

#[test]
fn bounds_and_dimensions() {
    let s = shape(&[[3, -2], [3, -1], [3, 0], [4, -1]]);
    assert_eq!(s.get_bounds(), [[3, -2], [4, 0]]);
    assert_eq!(s.get_dimensions(), [2, 3]);
    assert_eq!(s.get_rotated_dimensions(), [3, 2]);
    let empty = shape(&[]);
    assert_eq!(empty.get_bounds(), [[isize::MAX, isize::MAX], [isize::MIN, isize::MIN]]);
}

#[test]
fn overlap_and_connections() {
    let a = shape(&[[0, 0]]);
    let side = shape(&[[1, 0]]);
    let corner = shape(&[[1, 1]]);
    let far = shape(&[[2, 0]]);
    assert!(SparseBlocks::is_overlapping(&a, &shape(&[[5, 5], [0, 0]])));
    assert!(!SparseBlocks::is_overlapping(&a, &side));
    assert!(SparseBlocks::is_strongly_connected(&a, &side));
    assert!(SparseBlocks::is_strongly_connected(&a, &a));
    assert!(!SparseBlocks::is_strongly_connected(&a, &corner));
    assert!(SparseBlocks::is_weakly_connected(&a, &corner));
    assert!(!SparseBlocks::is_weakly_connected(&a, &far));
}

#[test]
fn connections_at_the_limits_of_isize() {
    let a = shape(&[[isize::MAX, 0]]);
    let b = shape(&[[isize::MIN, 0]]);
    assert!(!SparseBlocks::is_strongly_connected(&a, &b));
    assert!(!SparseBlocks::is_weakly_connected(&a, &b));
}

#[test]
fn connected_components_split_by_sides() {
    let s = shape(&[[0, 0], [1, 0], [3, 0], [3, 1], [5, 5], [2, 1]]);
    let comps = s.connected_components();
    let mut parts: Vec<Vec<[isize; 2]>> = comps.iter().map(sorted).collect();
    parts.sort();
    assert_eq!(parts, vec![vec![[0, 0], [1, 0]], vec![[2, 1], [3, 0], [3, 1]], vec![[5, 5]]]);
}

#[test]
fn diagonal_neighbours_are_separate_components() {
    let s = shape(&[[0, 0], [1, 1]]);
    assert_eq!(s.connected_components().len(), 2);
    assert_eq!(shape(&[]).connected_components().len(), 0);
}

#[test]
fn weak_connection_graph_lists_pairs_in_order() {
    let comps = vec![shape(&[[0, 0]]), shape(&[[5, 5]]), shape(&[[1, 1]]), shape(&[[6, 5]])];
    let g = SparseBlocks::weak_connection_graph(&comps);
    assert_eq!(g.get_nr_verts(), 4);
    assert_eq!(g.get_edges(), &vec![[0, 2], [1, 3]]);
}

#[test]
fn translates() {
    let a = shape(&[[0, 0], [1, 0], [1, 1]]);
    let b = shape(&[[6, 5], [5, 5], [6, 6]]);
    let flipped = shape(&[[0, 0], [1, 0], [0, 1]]);
    let bigger = shape(&[[0, 0], [1, 0], [1, 1], [2, 1]]);
    assert!(a.is_translate_of(&b));
    assert!(b.is_translate_of(&a));
    assert!(a.is_translate_of(&a));
    assert!(!a.is_translate_of(&flipped));
    assert!(!a.is_translate_of(&bigger));
    assert!(shape(&[]).is_translate_of(&shape(&[])));
}

#[test]
fn representatives_of_translates() {
    let a = shape(&[[0, 0], [1, 0]]);
    let b = shape(&[[4, 4], [5, 4]]);
    let c = shape(&[[0, 0], [0, 1]]);
    let d = shape(&[[9, 9], [9, 10]]);
    let reps = SparseBlocks::represent_by_translates(vec![&a, &b, &c, &d]);
    assert_eq!(reps.len(), 2);
    assert_eq!(sorted(reps[0]), vec![[0, 0], [1, 0]]);
    assert_eq!(sorted(reps[1]), vec![[0, 0], [0, 1]]);
}

#[test]
fn normal_form_of_an_l() {
    let n = shape(&[[5, 5], [5, 6], [6, 5]]).normal_form();
    assert_eq!(sorted(&n), vec![[0, 0], [0, 1], [1, 0]]);
    let n = shape(&[[0, 0], [1, 0], [1, 1]]).normal_form();
    assert_eq!(sorted(&n), vec![[0, 0], [0, 1], [1, 0]]);
}

#[test]
fn normal_form_takes_the_lowest_scan_number() {
    // 1 + 2 + 8 is lower than 1 + 4 + 8
    let n = shape(&[[0, 0], [2, 0], [3, 0]]).normal_form();
    assert_eq!(sorted(&n), vec![[0, 0], [1, 0], [3, 0]]);
    let m = shape(&[[3, 0], [1, 0], [0, 0]]).normal_form();
    assert_eq!(sorted(&m), vec![[0, 0], [1, 0], [3, 0]]);
}

#[test]
fn normal_form_lays_long_side_along_x() {
    let n = shape(&[[3, -2], [3, -1], [3, 0]]).normal_form();
    assert_eq!(sorted(&n), vec![[0, 0], [1, 0], [2, 0]]);
    let n = shape(&[[0, 1], [1, 1], [2, 1], [2, 0]]).normal_form();
    assert_eq!(sorted(&n), vec![[0, 0], [0, 1], [1, 0], [2, 0]]);
}

#[test]
fn normal_form_ignores_position_and_orientation() {
    let a = shape(&[[0, 0], [1, 0], [2, 0], [2, 1]]).normal_form();
    let b = shape(&[[10, -3], [11, -3], [12, -3], [12, -2]]).normal_form();
    assert_eq!(sorted(&a), sorted(&b));
    // turned by 90 degrees and mirrored
    let c = shape(&[[0, 0], [0, 1], [0, 2], [-1, 2]]).normal_form();
    assert_eq!(sorted(&a), sorted(&c));
}

#[test]
fn normal_form_is_idempotent() {
    let n = shape(&[[0, 2], [0, 1], [1, 0], [2, 2]]).normal_form();
    assert_eq!(sorted(&n), vec![[0, 0], [0, 2], [1, 0], [2, 1]]);
    let m = n.normal_form();
    assert_eq!(sorted(&m), sorted(&n));
}
