use k2_tree::bits::{
    block_start, insert_block, one_positions, ones_in_range, remove_block, Bits,
};
use k2_tree::range::{to_4_subranges, within_range};
use k2_tree::tree::{leaf_offset, quadrant_index};

fn from(values: &[u8]) -> Bits {
    Bits::from_bools(&values.iter().map(|&v| v != 0).collect::<Vec<bool>>())
}

fn bools(values: &[u8]) -> Vec<bool> {
    values.iter().map(|&v| v != 0).collect()
}

#[test]
fn bits_round_trip_through_booleans() {
    let values = bools(&[1, 0, 0, 1, 1, 1, 0, 1, 0]);
    let bits = Bits::from_bools(&values);
    assert_eq!(bits.len(), 9);
    assert_eq!(bits.to_bools(), values);
}

#[test]
fn new_bits_are_empty() {
    let bits = Bits::new();
    assert_eq!(bits.len(), 0);
    assert!(bits.to_bools().is_empty());
}

#[test]
fn bits_clone_holds_the_same_bits() {
    let bits = from(&[1, 0, 1, 1]);
    let copy = bits.clone();
    assert_eq!(copy.to_bools(), bools(&[1, 0, 1, 1]));
    assert_eq!(copy, bits);
}

#[test]
fn block_start_rounds_down_to_the_block() {
    assert_eq!(block_start(0, 4), 0);
    assert_eq!(block_start(3, 4), 0);
    assert_eq!(block_start(4, 4), 4);
    assert_eq!(block_start(13, 4), 12);
    assert_eq!(block_start(17, 9), 9);
}

#[test]
fn insert_block_puts_zeros_in() {
    let mut bits = from(&[1, 1, 1, 1, 1, 0, 1, 0]);
    assert_eq!(insert_block(&mut bits, 4, 4), Ok(()));
    assert_eq!(bits.to_bools(), bools(&[1, 1, 1, 1, 0, 0, 0, 0, 1, 0, 1, 0]));
    assert_eq!(insert_block(&mut bits, 12, 4), Ok(()));
    assert_eq!(bits.len(), 16);
    assert_eq!(insert_block(&mut bits, 0, 2), Ok(()));
    assert_eq!(
        bits.to_bools(),
        bools(&[0, 0, 1, 1, 1, 1, 0, 0, 0, 0, 1, 0, 1, 0, 0, 0, 0, 0])
    );
}

#[test]
fn insert_block_refuses_bad_starts() {
    let mut bits = from(&[1, 1, 1, 1]);
    assert_eq!(insert_block(&mut bits, 2, 4), Err(()));
    assert_eq!(insert_block(&mut bits, 8, 4), Err(()));
    assert_eq!(bits.to_bools(), bools(&[1, 1, 1, 1]));
}

#[test]
fn remove_block_takes_bits_out() {
    let mut bits = from(&[1, 1, 1, 1, 0, 1, 1, 0, 1, 0, 1, 0]);
    assert_eq!(remove_block(&mut bits, 4, 4), Ok(()));
    assert_eq!(bits.to_bools(), bools(&[1, 1, 1, 1, 1, 0, 1, 0]));
    assert_eq!(remove_block(&mut bits, 4, 4), Ok(()));
    assert_eq!(bits.to_bools(), bools(&[1, 1, 1, 1]));
}

#[test]
fn remove_block_refuses_bad_starts() {
    let mut bits = from(&[1, 0, 1, 1, 0, 0, 0, 1]);
    assert_eq!(remove_block(&mut bits, 2, 4), Err(()));
    assert_eq!(remove_block(&mut bits, 8, 4), Err(()));
    assert_eq!(remove_block(&mut bits, 12, 4), Err(()));
    assert_eq!(bits.to_bools(), bools(&[1, 0, 1, 1, 0, 0, 0, 1]));
}

#[test]
fn ones_in_range_counts_inside_the_range_only() {
    let bits = from(&[1, 1, 0, 1, 0, 0, 1, 1, 1]);
    assert_eq!(ones_in_range(&bits, 0, 0), 0);
    assert_eq!(ones_in_range(&bits, 2, 3), 0);
    assert_eq!(ones_in_range(&bits, 1, 4), 2);
    assert_eq!(ones_in_range(&bits, 4, 9), 3);
    assert_eq!(ones_in_range(&bits, 0, 9), 6);
}

#[test]
fn one_positions_of_edge_cases() {
    assert_eq!(one_positions(&Bits::new()), Vec::<usize>::new());
    assert_eq!(one_positions(&from(&[0, 0, 0])), Vec::<usize>::new());
    assert_eq!(one_positions(&from(&[1, 1, 1])), vec![0, 1, 2]);
    assert_eq!(one_positions(&from(&[0, 0, 1])), vec![2]);
}

#[test]
fn within_range_is_false_outside() {
    assert!(!within_range(&[[0, 3], [0, 3]], 4, 0));
    assert!(!within_range(&[[0, 3], [0, 3]], 0, 4));
    assert!(!within_range(&[[2, 3], [2, 3]], 1, 2));
    assert!(!within_range(&[[2, 3], [2, 3]], 2, 1));
    assert!(within_range(&[[2, 3], [2, 3]], 3, 3));
}

#[test]
fn subranges_of_a_two_by_two_are_cells() {
    assert_eq!(
        to_4_subranges([[6, 7], [2, 3]]),
        [[[6, 6], [2, 2]], [[7, 7], [2, 2]], [[6, 6], [3, 3]], [[7, 7], [3, 3]]]
    );
}

#[test]
fn quadrant_index_follows_row_major_order() {
    let subranges = to_4_subranges([[0, 7], [0, 7]]);
    assert_eq!(quadrant_index(&subranges, 1, 2), 0);
    assert_eq!(quadrant_index(&subranges, 5, 2), 1);
    assert_eq!(quadrant_index(&subranges, 1, 6), 2);
    assert_eq!(quadrant_index(&subranges, 4, 4), 3);
    assert_eq!(quadrant_index(&subranges, 8, 0), 4);
}

#[test]
fn leaf_offset_follows_row_major_order() {
    let leaf = [[4, 5], [2, 3]];
    assert_eq!(leaf_offset(&leaf, 4, 2), 0);
    assert_eq!(leaf_offset(&leaf, 5, 2), 1);
    assert_eq!(leaf_offset(&leaf, 4, 3), 2);
    assert_eq!(leaf_offset(&leaf, 5, 3), 3);
}
