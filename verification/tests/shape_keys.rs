use voxircle::sparse_blocks::SparseBlocks;

fn shape(points: &[[isize; 2]]) -> SparseBlocks {
    SparseBlocks::from_coords(points.to_vec())
}

#[test]
fn sorted_coordinates() {
    let s = shape(&[[2, 0], [0, 5], [0, -1], [1, 1]]);
    assert_eq!(s.sorted_coords(), vec![[0, -1], [0, 5], [1, 1], [2, 0]]);
}

#[test]
fn hash_forgets_the_order_of_the_points() {
    let a = shape(&[[0, 0], [1, 0], [2, 0]]);
    let b = shape(&[[2, 0], [0, 0], [1, 0]]);
    assert_eq!(a.shape_hash(), b.shape_hash());
    assert_eq!(a.small_shape_index(), b.small_shape_index());
    assert_ne!(a.shape_hash(), shape(&[[0, 0], [1, 0]]).shape_hash());
}

#[test]
fn labels() {
    assert_eq!(shape(&[[0, 0], [0, 1], [0, 2]]).label(), "3");
    assert_eq!(shape(&[[4, 4]]).label(), "1");
    let l = shape(&[[0, 0], [1, 0], [0, 1]]).label();
    assert_eq!(l.len(), 1);
    assert!(l.chars().all(|c| c.is_ascii_uppercase()));
    // the letter depends on the dimensions only
    assert_eq!(l, shape(&[[5, 5], [6, 6], [5, 6], [6, 5]]).label());
}
