use k2_tree::bits::{one_positions, ones_in_range, Bits};
use k2_tree::range::{to_4_subranges, within_range};
use k2_tree::tree::K2Tree;

fn bits(values: &[u8]) -> Bits {
    Bits::from_bools(&values.iter().map(|&v| v != 0).collect::<Vec<bool>>())
}

fn bools(values: &[u8]) -> Vec<bool> {
    values.iter().map(|&v| v != 0).collect()
}

#[test]
fn from_matrix_0() {
    let m = vec![
        bits(&[0, 0, 0, 0, 1, 0, 0, 0]),
        bits(&[0; 8]),
        bits(&[0; 8]),
        bits(&[0; 8]),
        bits(&[0, 1, 0, 0, 0, 1, 0, 0]),
        bits(&[1, 0, 0, 0, 1, 0, 0, 0]),
        bits(&[0, 0, 1, 0, 0, 0, 0, 0]),
        bits(&[1, 1, 1, 0, 0, 0, 0, 0]),
    ];
    let tree = K2Tree::from_matrix(m).unwrap();
    assert_eq!(tree.matrix_width(), 8);
    assert_eq!(tree.k(), 2);
    assert_eq!(tree.layer_starts(), &vec![0, 4]);
    assert_eq!(
        tree.stems().to_bools(),
        bools(&[0, 1, 1, 1, 1, 1, 0, 1, 1, 0, 0, 0, 1, 0, 0, 0])
    );
    assert_eq!(tree.stem_to_leaf(), &vec![0, 1, 3, 4, 8]);
    assert_eq!(
        tree.leaves().to_bools(),
        bools(&[0, 1, 1, 0, 0, 1, 0, 1, 1, 1, 0, 0, 1, 0, 0, 0, 0, 1, 1, 0])
    );
    assert_eq!(K2Tree::test_tree(), tree);
}

#[test]
fn one_positions_0() {
    let bv = bits(&[0, 1, 0, 1, 0, 1, 0, 0, 0, 1]);
    assert_eq!(vec![1, 3, 5, 9], one_positions(&bv));
}

#[test]
fn to_4_subranges_0() {
    let ranges = [[[0, 7], [0, 7]], [[4, 7], [0, 3]], [[8, 15], [8, 15]]];
    let subranges = [
        [[[0, 3], [0, 3]], [[4, 7], [0, 3]], [[0, 3], [4, 7]], [[4, 7], [4, 7]]],
        [[[4, 5], [0, 1]], [[6, 7], [0, 1]], [[4, 5], [2, 3]], [[6, 7], [2, 3]]],
        [[[8, 11], [8, 11]], [[12, 15], [8, 11]], [[8, 11], [12, 15]], [[12, 15], [12, 15]]],
    ];
    for i in 0..ranges.len() {
        assert_eq!(to_4_subranges(ranges[i]), subranges[i]);
    }
}

#[test]
fn within_range_0() {
    let coords = [[0, 0], [5, 6], [87, 2], [5, 5]];
    let ranges = [[[0, 3], [0, 3]], [[0, 7], [0, 7]], [[50, 99], [0, 49]], [[5, 9], [5, 9]]];
    for i in 0..coords.len() {
        assert!(within_range(&ranges[i], coords[i][0], coords[i][1]));
    }
}

#[test]
fn ones_in_range_0() {
    let ranges = [
        bits(&[0, 1, 1, 1, 0, 0, 1, 0, 1, 1, 0, 0]),
        bits(&[0, 0, 0, 0, 0, 0, 1]),
        bits(&[0, 1, 1, 1, 1, 1, 1, 0, 1, 0, 0, 1]),
    ];
    let num_ones = [6, 1, 8];
    for i in 0..ranges.len() {
        assert_eq!(ones_in_range(&ranges[i], 0, ranges[i].len()), num_ones[i]);
    }
}

#[test]
fn stem_layer_start_0() {
    let tree = K2Tree::test_tree();
    assert_eq!(tree.layer_start(0), 0);
    assert_eq!(tree.layer_start(1), 4);
}

#[test]
fn stem_layer_len_0() {
    let tree = K2Tree::test_tree();
    assert_eq!(tree.layer_len(0), 4);
    assert_eq!(tree.layer_len(1), 12);
}

#[test]
fn leaf_start_0() {
    let tree = K2Tree::test_tree();
    assert_eq!(tree.leaf_start(4), Ok(0));
    assert_eq!(tree.leaf_start(5), Ok(4));
    assert_eq!(tree.leaf_start(7), Ok(8));
    assert_eq!(tree.leaf_start(8), Ok(12));
    assert_eq!(tree.leaf_start(12), Ok(16));
    assert_eq!(tree.leaf_start(9), Err(()));
}

#[test]
fn child_stem_0() {
    let tree = K2Tree::test_tree();
    assert_eq!(tree.child_stem(0, 0, 0), Err(()));
    assert_eq!(tree.child_stem(0, 0, 1), Ok(4));
    assert_eq!(tree.child_stem(0, 0, 2), Ok(8));
    assert_eq!(tree.child_stem(0, 0, 3), Ok(12));
    assert_eq!(tree.child_stem(1, 4, 0), Err(()));
}

#[test]
fn parent_stem_0() {
    let tree = K2Tree::test_tree();
    assert_eq!(tree.parent_stem(4), 0);
    assert_eq!(tree.parent_stem(8), 0);
    assert_eq!(tree.parent_stem(12), 0);
}

#[test]
fn parent_bit_0() {
    let tree = K2Tree::test_tree();
    assert_eq!(tree.parent_bit(4), 1);
    assert_eq!(tree.parent_bit(8), 2);
    assert_eq!(tree.parent_bit(12), 3);
}

#[test]
fn set_bit_0() {
    let mut tree = K2Tree::test_tree();
    assert_eq!(tree.leaves().to_bools()[18], true);
    let _ = tree.set_bit(4, 5, false);
    assert_eq!(tree.leaves().to_bools()[18], false);
}

#[test]
fn set_bit_1() {
    let mut tree = K2Tree::test_tree();
    assert_eq!(
        tree.stems().to_bools(),
        bools(&[0, 1, 1, 1, 1, 1, 0, 1, 1, 0, 0, 0, 1, 0, 0, 0])
    );
    assert_eq!(
        tree.leaves().to_bools(),
        bools(&[0, 1, 1, 0, 0, 1, 0, 1, 1, 1, 0, 0, 1, 0, 0, 0, 0, 1, 1, 0])
    );
    assert_eq!(tree.stem_to_leaf(), &vec![0, 1, 3, 4, 8]);
    let _ = tree.set_bit(4, 5, false);
    let _ = tree.set_bit(5, 4, false);
    assert_eq!(tree.stems().to_bools(), bools(&[0, 1, 1, 0, 1, 1, 0, 1, 1, 0, 0, 0]));
    assert_eq!(
        tree.leaves().to_bools(),
        bools(&[0, 1, 1, 0, 0, 1, 0, 1, 1, 1, 0, 0, 1, 0, 0, 0])
    );
    assert_eq!(tree.stem_to_leaf(), &vec![0, 1, 3, 4]);
}

#[test]
fn set_bit_2() {
    let mut tree = K2Tree::test_tree();
    assert_eq!(
        tree.stems().to_bools(),
        bools(&[0, 1, 1, 1, 1, 1, 0, 1, 1, 0, 0, 0, 1, 0, 0, 0])
    );
    assert_eq!(
        tree.leaves().to_bools(),
        bools(&[0, 1, 1, 0, 0, 1, 0, 1, 1, 1, 0, 0, 1, 0, 0, 0, 0, 1, 1, 0])
    );
    assert_eq!(tree.stem_to_leaf(), &vec![0, 1, 3, 4, 8]);
    let _ = tree.set_bit(4, 5, false);
    let _ = tree.set_bit(5, 4, false);
    let _ = tree.set_bit(0, 0, true);
    assert_eq!(
        tree.stems().to_bools(),
        bools(&[1, 1, 1, 0, 1, 0, 0, 0, 1, 1, 0, 1, 1, 0, 0, 0])
    );
    assert_eq!(
        tree.leaves().to_bools(),
        bools(&[1, 0, 0, 0, 0, 1, 1, 0, 0, 1, 0, 1, 1, 1, 0, 0, 1, 0, 0, 0])
    );
    assert_eq!(tree.stem_to_leaf(), &vec![0, 4, 5, 7, 8]);
}

#[test]
fn show_me_the_changes() {
    let mut tree = K2Tree::test_tree();
    println!("{:#?}", tree);
    let _ = tree.set_bit(4, 5, false);
    println!("{:#?}", tree);
    let _ = tree.set_bit(5, 4, false);
    println!("{:#?}", tree);
    let _ = tree.set_bit(0, 4, false);
    println!("{:#?}", tree);
    let _ = tree.set_bit(0, 0, true);
    println!("{:#?}", tree);
    let _ = tree.set_bit(0, 1, true);
    println!("{:#?}", tree);
    let _ = tree.set_bit(7, 7, true);
    println!("{:#?}", tree);
    let _ = tree.set_bit(5, 4, true);
    println!("{:#?}", tree);
}
