use k2_tree::bits::Bits;
use k2_tree::tree::{DescendResult, K2Tree};

fn bools(values: &[u8]) -> Vec<bool> {
    values.iter().map(|&v| v != 0).collect()
}

fn zero_matrix(rows: usize, cols: usize) -> Vec<Bits> {
    (0..rows).map(|_| Bits::from_bools(&vec![false; cols])).collect()
}

fn matrix_with(rows: usize, cols: usize, ones: &[(usize, usize)]) -> Vec<Bits> {
    (0..rows)
        .map(|x| {
            let row: Vec<bool> = (0..cols).map(|y| ones.contains(&(x, y))).collect();
            Bits::from_bools(&row)
        })
        .collect()
}

#[test]
fn empty_tree_reads_false_everywhere() {
    let tree = K2Tree::new(2);
    assert!(!tree.get_bit(3, 5));
    for x in 0..8 {
        for y in 0..8 {
            assert!(!tree.get_bit(x, y));
        }
    }
}

#[test]
fn new_two_is_the_canonical_empty_tree() {
    let tree = K2Tree::new(2);
    assert_eq!(tree.matrix_width(), 8);
    assert_eq!(tree.k(), 2);
    assert_eq!(tree.layer_starts(), &vec![0]);
    assert_eq!(tree.stems().to_bools(), bools(&[0, 0, 0, 0]));
    assert!(tree.stem_to_leaf().is_empty());
    assert!(tree.leaves().to_bools().is_empty());
}

#[test]
fn new_three_has_nine_stem_bits_and_width_twenty_seven() {
    let tree = K2Tree::new(3);
    assert_eq!(tree.matrix_width(), 27);
    assert_eq!(tree.k(), 3);
    assert_eq!(tree.layer_starts(), &vec![0]);
    assert_eq!(tree.stems().to_bools(), vec![false; 9]);
    assert!(tree.stem_to_leaf().is_empty());
    assert!(tree.leaves().to_bools().is_empty());
}

#[test]
fn test_tree_has_the_reference_fields() {
    let tree = K2Tree::test_tree();
    assert_eq!(tree.matrix_width(), 8);
    assert_eq!(tree.k(), 2);
    assert_eq!(tree.layer_starts(), &vec![0, 4]);
    assert_eq!(
        tree.stems().to_bools(),
        bools(&[0, 1, 1, 1, 1, 1, 0, 1, 1, 0, 0, 0, 1, 0, 0, 0])
    );
    assert_eq!(tree.stem_to_leaf(), &vec![0, 1, 3, 4, 8]);
    assert_eq!(
        tree.leaves().to_bools(),
        bools(&[0, 1, 1, 0, 0, 1, 0, 1, 1, 1, 0, 0, 1, 0, 0, 0, 0, 1, 1, 0])
    );
}

#[test]
fn test_tree_reads_as_its_matrix() {
    let ones = [(0, 4), (4, 1), (4, 5), (5, 0), (5, 4), (6, 2), (7, 0), (7, 1), (7, 2)];
    let tree = K2Tree::test_tree();
    for x in 0..8 {
        for y in 0..8 {
            assert_eq!(tree.get_bit(x, y), ones.contains(&(x, y)), "cell ({}, {})", x, y);
        }
    }
}

#[test]
fn clearing_one_of_two_cells_of_a_leaf_keeps_the_leaf() {
    let mut tree = K2Tree::test_tree();
    assert_eq!(tree.set_bit(4, 5, false), Ok(()));
    assert_eq!(tree.layer_starts(), &vec![0, 4]);
    assert_eq!(
        tree.stems().to_bools(),
        bools(&[0, 1, 1, 1, 1, 1, 0, 1, 1, 0, 0, 0, 1, 0, 0, 0])
    );
    assert_eq!(tree.stem_to_leaf(), &vec![0, 1, 3, 4, 8]);
    assert_eq!(
        tree.leaves().to_bools(),
        bools(&[0, 1, 1, 0, 0, 1, 0, 1, 1, 1, 0, 0, 1, 0, 0, 0, 0, 1, 0, 0])
    );
}

#[test]
fn clearing_the_last_cell_of_a_leaf_prunes_it() {
    let mut tree = K2Tree::test_tree();
    assert_eq!(tree.set_bit(4, 5, false), Ok(()));
    assert_eq!(tree.set_bit(5, 4, false), Ok(()));
    assert_eq!(tree.layer_starts(), &vec![0, 4]);
    assert_eq!(tree.stems().to_bools(), bools(&[0, 1, 1, 0, 1, 1, 0, 1, 1, 0, 0, 0]));
    assert_eq!(tree.stem_to_leaf(), &vec![0, 1, 3, 4]);
    assert_eq!(
        tree.leaves().to_bools(),
        bools(&[0, 1, 1, 0, 0, 1, 0, 1, 1, 1, 0, 0, 1, 0, 0, 0])
    );
}

#[test]
fn setting_a_cell_in_an_empty_quadrant_grows_a_leaf() {
    let mut tree = K2Tree::test_tree();
    assert_eq!(tree.set_bit(4, 5, false), Ok(()));
    assert_eq!(tree.set_bit(5, 4, false), Ok(()));
    assert_eq!(tree.set_bit(0, 0, true), Ok(()));
    assert_eq!(tree.layer_starts(), &vec![0, 4]);
    assert_eq!(
        tree.stems().to_bools(),
        bools(&[1, 1, 1, 0, 1, 0, 0, 0, 1, 1, 0, 1, 1, 0, 0, 0])
    );
    assert_eq!(tree.stem_to_leaf(), &vec![0, 4, 5, 7, 8]);
    assert_eq!(
        tree.leaves().to_bools(),
        bools(&[1, 0, 0, 0, 0, 1, 1, 0, 0, 1, 0, 1, 1, 1, 0, 0, 1, 0, 0, 0])
    );
}

#[test]
fn pruning_a_middle_block_moves_the_leaf_list() {
    let mut tree = K2Tree::test_tree();
    assert_eq!(tree.set_bit(0, 4, false), Ok(()));
    assert_eq!(tree.layer_starts(), &vec![0, 4]);
    assert_eq!(tree.stems().to_bools(), bools(&[0, 1, 0, 1, 1, 1, 0, 1, 1, 0, 0, 0]));
    assert_eq!(tree.stem_to_leaf(), &vec![0, 1, 3, 4]);
    assert_eq!(
        tree.leaves().to_bools(),
        bools(&[0, 1, 1, 0, 0, 1, 0, 1, 1, 1, 0, 0, 0, 1, 1, 0])
    );
    for x in 0..8 {
        for y in 0..8 {
            let expected = [(4, 1), (4, 5), (5, 0), (5, 4), (6, 2), (7, 0), (7, 1), (7, 2)]
                .contains(&(x, y));
            assert_eq!(tree.get_bit(x, y), expected);
        }
    }
}

#[test]
fn growing_in_front_of_a_block_with_a_set_first_bit() {
    let mut tree = K2Tree::new(2);
    assert_eq!(tree.set_bit(4, 0, true), Ok(()));
    assert_eq!(tree.set_bit(6, 2, true), Ok(()));
    assert_eq!(tree.set_bit(2, 0, true), Ok(()));
    assert_eq!(tree.layer_starts(), &vec![0, 4]);
    assert_eq!(tree.stems().to_bools(), bools(&[1, 1, 0, 0, 0, 1, 0, 0, 1, 0, 0, 1]));
    assert_eq!(tree.stem_to_leaf(), &vec![1, 4, 7]);
    assert_eq!(
        tree.leaves().to_bools(),
        bools(&[1, 0, 0, 0, 1, 0, 0, 0, 1, 0, 0, 0])
    );
}

#[test]
fn two_far_cells_from_empty() {
    let mut tree = K2Tree::new(2);
    assert_eq!(tree.set_bit(7, 7, true), Ok(()));
    assert_eq!(tree.set_bit(0, 0, true), Ok(()));
    let mut ones = 0;
    for x in 0..8 {
        for y in 0..8 {
            let expected = (x, y) == (7, 7) || (x, y) == (0, 0);
            assert_eq!(tree.get_bit(x, y), expected);
            if tree.get_bit(x, y) {
                ones += 1;
            }
        }
    }
    assert_eq!(ones, 2);
    assert_eq!(tree.leaves().to_bools().iter().filter(|&&b| b).count(), 2);
    assert_eq!(tree.layer_starts(), &vec![0, 4]);
    assert_eq!(tree.stems().to_bools(), bools(&[1, 0, 0, 1, 1, 0, 0, 0, 0, 0, 0, 1]));
    assert_eq!(tree.stem_to_leaf(), &vec![0, 7]);
    assert_eq!(tree.leaves().to_bools(), bools(&[1, 0, 0, 0, 0, 0, 0, 1]));
}

#[test]
fn set_bit_outside_the_matrix_fails_and_changes_nothing() {
    let mut tree = K2Tree::test_tree();
    assert_eq!(tree.set_bit(8, 0, true), Err(()));
    assert_eq!(tree.set_bit(0, 8, true), Err(()));
    assert_eq!(tree.set_bit(8, 8, false), Err(()));
    assert_eq!(tree.set_bit(usize::MAX, 3, true), Err(()));
    assert_eq!(tree, K2Tree::test_tree());
}

#[test]
fn get_bit_outside_the_matrix_is_false() {
    let tree = K2Tree::test_tree();
    assert!(!tree.get_bit(8, 0));
    assert!(!tree.get_bit(0, 8));
    assert!(!tree.get_bit(usize::MAX, usize::MAX));
}

#[test]
fn clearing_a_cell_in_an_empty_quadrant_changes_nothing() {
    let mut tree = K2Tree::test_tree();
    assert_eq!(tree.set_bit(0, 0, false), Ok(()));
    assert_eq!(tree.set_bit(3, 3, false), Ok(()));
    assert_eq!(tree, K2Tree::test_tree());
}

#[test]
fn writing_twice_is_writing_once() {
    let mut once = K2Tree::test_tree();
    let mut twice = K2Tree::test_tree();
    for &(x, y, state) in &[(0, 0, true), (4, 5, false), (5, 4, false), (7, 7, true), (0, 4, true)] {
        assert_eq!(once.set_bit(x, y, state), Ok(()));
        assert_eq!(twice.set_bit(x, y, state), Ok(()));
        assert_eq!(twice.set_bit(x, y, state), Ok(()));
        assert_eq!(once, twice);
    }
}

#[test]
fn clearing_every_cell_gives_the_empty_tree() {
    let mut tree = K2Tree::test_tree();
    for &(x, y) in &[(0, 4), (4, 1), (4, 5), (5, 0), (5, 4), (6, 2), (7, 0), (7, 1), (7, 2)] {
        assert_eq!(tree.set_bit(x, y, false), Ok(()));
    }
    assert_eq!(tree, K2Tree::new(2));
    assert_eq!(tree.layer_starts(), &vec![0]);
    assert_eq!(tree.stems().to_bools(), bools(&[0, 0, 0, 0]));
}

#[test]
fn set_then_clear_one_cell_gives_the_empty_tree() {
    let mut tree = K2Tree::new(2);
    assert_eq!(tree.set_bit(3, 6, true), Ok(()));
    assert!(tree.get_bit(3, 6));
    assert_eq!(tree.set_bit(3, 6, false), Ok(()));
    assert_eq!(tree, K2Tree::new(2));
}

#[test]
fn from_matrix_reads_back_every_cell() {
    let ones = [(0, 0), (1, 7), (2, 2), (2, 3), (3, 2), (3, 3), (7, 0), (7, 7), (4, 4)];
    let tree = K2Tree::from_matrix(matrix_with(8, 8, &ones)).unwrap();
    for x in 0..8 {
        for y in 0..8 {
            assert_eq!(tree.get_bit(x, y), ones.contains(&(x, y)));
        }
    }
    assert_eq!(tree.leaves().to_bools().iter().filter(|&&b| b).count(), ones.len());
}

#[test]
fn from_matrix_of_nothing_is_the_empty_tree() {
    assert_eq!(K2Tree::from_matrix(Vec::new()).unwrap(), K2Tree::new(2));
    assert_eq!(K2Tree::from_matrix(zero_matrix(8, 8)).unwrap(), K2Tree::new(2));
    assert_eq!(K2Tree::from_matrix(zero_matrix(3, 5)).unwrap(), K2Tree::new(2));
}

#[test]
fn from_matrix_of_a_small_matrix_is_eight_wide() {
    let tree = K2Tree::from_matrix(matrix_with(3, 3, &[(2, 1)])).unwrap();
    assert_eq!(tree.matrix_width(), 8);
    assert!(tree.get_bit(2, 1));
    assert_eq!(tree.stems().to_bools(), bools(&[1, 0, 0, 0, 0, 1, 0, 0]));
    assert_eq!(tree.stem_to_leaf(), &vec![1]);
    assert_eq!(tree.leaves().to_bools(), bools(&[0, 0, 1, 0]));
}

#[test]
fn from_matrix_widens_to_the_next_power_of_two() {
    assert_eq!(K2Tree::from_matrix(zero_matrix(9, 2)).unwrap().matrix_width(), 16);
    assert_eq!(K2Tree::from_matrix(zero_matrix(16, 16)).unwrap().matrix_width(), 16);
    assert_eq!(K2Tree::from_matrix(zero_matrix(2, 17)).unwrap().matrix_width(), 32);
    assert_eq!(K2Tree::from_matrix(zero_matrix(8, 8)).unwrap().matrix_width(), 8);
    assert_eq!(K2Tree::from_matrix(zero_matrix(1, 33)).unwrap().matrix_width(), 64);
}

#[test]
fn sixteen_wide_tree_has_three_stem_layers() {
    let tree = K2Tree::from_matrix(matrix_with(16, 16, &[(0, 0), (15, 15)])).unwrap();
    assert_eq!(tree.matrix_width(), 16);
    assert_eq!(tree.k(), 2);
    assert_eq!(tree.total_layers(), 4);
    assert_eq!(tree.layer_starts(), &vec![0, 4, 12]);
    assert_eq!(
        tree.stems().to_bools(),
        bools(&[1, 0, 0, 1, 1, 0, 0, 0, 0, 0, 0, 1, 1, 0, 0, 0, 0, 0, 0, 1])
    );
    assert_eq!(tree.stem_to_leaf(), &vec![0, 7]);
    assert_eq!(tree.leaves().to_bools(), bools(&[1, 0, 0, 0, 0, 0, 0, 1]));
    assert_eq!(tree.layer_start(0), 0);
    assert_eq!(tree.layer_start(1), 4);
    assert_eq!(tree.layer_start(2), 12);
    assert_eq!(tree.layer_start(3), 20);
    assert_eq!(tree.layer_len(0), 4);
    assert_eq!(tree.layer_len(1), 8);
    assert_eq!(tree.layer_len(2), 8);
    assert_eq!(tree.parent(4), (0, 0));
    assert_eq!(tree.parent(8), (0, 3));
    assert_eq!(tree.parent(12), (4, 0));
    assert_eq!(tree.parent(16), (8, 3));
    assert_eq!(tree.parent_stem(16), 8);
    assert_eq!(tree.parent_bit(16), 11);
    assert_eq!(tree.child_stem(0, 0, 3), Ok(8));
    assert_eq!(tree.child_stem(1, 8, 3), Ok(16));
    assert_eq!(tree.child_stem(1, 8, 0), Err(()));
    assert_eq!(tree.child_stem(2, 16, 3), Err(()));
    assert_eq!(tree.leaf_start(19), Ok(4));
    assert_eq!(tree.leaf_start(12), Ok(0));
    assert_eq!(tree.leaf_start(13), Err(()));
    assert_eq!(tree.num_stems_before_child(19, 2), 1);
    assert_eq!(tree.num_stems_before_child(11, 1), 1);
    assert_eq!(tree.layer_from_range([[0, 15], [0, 15]]), 0);
    assert_eq!(tree.layer_from_range([[8, 15], [0, 7]]), 1);
    assert_eq!(tree.layer_from_range([[4, 7], [0, 3]]), 2);
}

#[test]
fn sixteen_wide_tree_prunes_through_three_layers() {
    let mut tree = K2Tree::from_matrix(matrix_with(16, 16, &[(0, 0), (15, 15), (5, 9)])).unwrap();
    assert_eq!(tree.layer_starts(), &vec![0, 4, 16]);
    assert_eq!(tree.set_bit(5, 9, false), Ok(()));
    assert_eq!(tree.layer_starts(), &vec![0, 4, 12]);
    assert_eq!(
        tree.stems().to_bools(),
        bools(&[1, 0, 0, 1, 1, 0, 0, 0, 0, 0, 0, 1, 1, 0, 0, 0, 0, 0, 0, 1])
    );
    assert_eq!(tree.stem_to_leaf(), &vec![0, 7]);
    assert_eq!(tree.leaves().to_bools(), bools(&[1, 0, 0, 0, 0, 0, 0, 1]));
    assert_eq!(tree.set_bit(0, 0, false), Ok(()));
    assert_eq!(tree.set_bit(15, 15, false), Ok(()));
    assert_eq!(tree.layer_starts(), &vec![0]);
    assert_eq!(tree.stems().to_bools(), bools(&[0, 0, 0, 0]));
    assert_eq!(tree.matrix_width(), 16);
}

#[test]
fn clone_is_equal_and_independent() {
    let tree = K2Tree::test_tree();
    let mut copy = tree.clone();
    assert_eq!(copy, tree);
    assert_eq!(copy.set_bit(0, 0, true), Ok(()));
    assert!(copy != tree);
    assert!(!tree.get_bit(0, 0));
    assert!(copy.get_bit(0, 0));
}

#[test]
fn descent_ends_in_a_leaf_at_a_cleared_bit_or_nowhere() {
    let tree = K2Tree::test_tree();
    assert_eq!(tree.matrix_bit(4, 5, 8), DescendResult::Leaf(16, [[4, 5], [4, 5]]));
    assert_eq!(tree.matrix_bit(5, 5, 8), DescendResult::Leaf(16, [[4, 5], [4, 5]]));
    assert_eq!(tree.matrix_bit(0, 4, 8), DescendResult::Leaf(12, [[0, 1], [4, 5]]));
    assert_eq!(tree.matrix_bit(0, 0, 8), DescendResult::Stem(0, [[0, 7], [0, 7]]));
    assert_eq!(tree.matrix_bit(2, 6, 8), DescendResult::Stem(8, [[0, 3], [4, 7]]));
    assert_eq!(tree.matrix_bit(8, 0, 8), DescendResult::Nothing);
    assert_eq!(tree.matrix_bit(0, 8, 8), DescendResult::Nothing);
    assert_eq!(K2Tree::new(2).matrix_bit(3, 3, 8), DescendResult::Stem(0, [[0, 7], [0, 7]]));
}
