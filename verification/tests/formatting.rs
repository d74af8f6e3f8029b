use voxircle::formatting::{format_block_count, format_block_diameter};

#[test]
fn block_counts() {
    assert_eq!(format_block_count(0), "0");
    assert_eq!(format_block_count(7), "7");
    assert_eq!(format_block_count(64), "64");
    assert_eq!(format_block_count(65), "65 = 1s1");
    assert_eq!(format_block_count(100), "100 = 1s36");
    assert_eq!(format_block_count(128), "128 = 2s0");
    assert_eq!(format_block_count(u64::MAX), format!("{} = {}s{}", u64::MAX, u64::MAX / 64, u64::MAX % 64));
}

#[test]
fn block_diameters() {
    assert_eq!(format_block_diameter([3, 3]), "block diameter: 3");
    assert_eq!(format_block_diameter([12, 40]), "block diameters: 12x by 40y");
}
