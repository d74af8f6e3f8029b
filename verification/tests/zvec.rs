use std::collections::VecDeque;
use voxircle::zvec::ZVec;

fn z(values: &[i32], minimum: isize) -> ZVec<i32> {
    ZVec::new(values.iter().cloned().collect::<VecDeque<i32>>(), minimum)
}

#[test]
fn indices_start_at_the_minimum() {
    let v = z(&[1, 2, 3], -1);
    assert_eq!(v.get_minimum(), -1);
    assert_eq!(v.get_maximum(), 1);
    assert_eq!(v.get(-1), Some(1));
    assert_eq!(v.get(1), Some(3));
    assert_eq!(v.get(2), None);
    assert_eq!(v.get(-2), None);
    assert_eq!(v.get_ref(0), Some(&2));
}

#[test]
fn set_and_get_mut() {
    let mut v = z(&[1, 2, 3], 10);
    v.set(11, 7);
    assert_eq!(v.get(11), Some(7));
    if let Some(x) = v.get_mut(12) {
        *x = 9;
    }
    assert_eq!(v.get(12), Some(9));
    assert!(v.get_mut(13).is_none());
}

#[test]
fn resizing_keeps_the_overlap() {
    let mut v = z(&[1, 2, 3], 0);
    v.resize(-2, 1, 9);
    assert_eq!(v.get_minimum(), -2);
    assert_eq!(v.get_maximum(), 1);
    assert_eq!(v.data, VecDeque::from(vec![9, 9, 1, 2]));
    v.resize_with_min(0, 5);
    assert_eq!(v.data, VecDeque::from(vec![1, 2]));
    v.resize_with_max(3, 5);
    assert_eq!(v.data, VecDeque::from(vec![1, 2, 5, 5]));
    assert_eq!(v.get(3), Some(5));
}
