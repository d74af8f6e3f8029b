use std::collections::VecDeque;
use voxircle::blocks::Blocks;
use voxircle::boundary_3d::boundary_3d;
use voxircle::zvec::ZVec;

/// A 5x5 layer with the 3x3 square in the middle.
fn square() -> Blocks {
    let mut cells = vec![false; 25];
    for x in 1..4 {
        for y in 1..4 {
            cells[y * 5 + x] = true;
        }
    }
    Blocks::new(cells, 5)
}

fn count(b: &Blocks) -> usize {
    b.blocks.iter().filter(|c| **c).count()
}

#[test]
fn stacked_squares() {
    let stack = ZVec::new(VecDeque::from(vec![square(), square(), square()]), 0);
    // the middle layer of a closed stack only shows its ring
    let out = boundary_3d(&stack, 1, 1, false, false);
    assert_eq!(out.get_minimum(), 1);
    assert_eq!(count(&out.get(1).unwrap()), 8);
    // without floating faces, nothing is seen through the ends of the stack
    let out = boundary_3d(&stack, 0, 2, false, false);
    assert_eq!(count(&out.get(0).unwrap()), 8);
    assert_eq!(count(&out.get(1).unwrap()), 8);
    assert_eq!(count(&out.get(2).unwrap()), 8);
    // a hole in the layer above shows the block below it
    let mut ring = square();
    ring.blocks[2 * 5 + 2] = false;
    let stack = ZVec::new(VecDeque::from(vec![square(), square(), ring]), 0);
    let out = boundary_3d(&stack, 0, 2, false, false);
    assert_eq!(count(&out.get(0).unwrap()), 8);
    assert_eq!(count(&out.get(1).unwrap()), 9);
    assert_eq!(count(&out.get(2).unwrap()), 8);
    let stack = ZVec::new(VecDeque::from(vec![square(), square(), square()]), 0);
    // a floating bottom shows the whole bottom layer
    let out = boundary_3d(&stack, 1, 1, true, false);
    assert_eq!(count(&out.get(1).unwrap()), 9);
}
