use k2_tree::bits::Bits;
use k2_tree::tree::K2Tree;

struct Lcg(u64);

fn next(rng: &mut Lcg) -> u64 {
    rng.0 = rng.0.wrapping_mul(6364136223846793005).wrapping_add(1442695040888963407);
    rng.0 >> 33
}

fn empty_of_width(width: usize) -> K2Tree {
    let rows: Vec<Bits> = (0..width).map(|_| Bits::from_bools(&vec![false; width])).collect();
    let tree = K2Tree::from_matrix(rows).unwrap();
    assert_eq!(tree.matrix_width(), width);
    tree
}

fn check_invariants(tree: &K2Tree) {
    let starts = tree.layer_starts();
    let stems = tree.stems().to_bools();
    let leaves = tree.leaves().to_bools();
    let list = tree.stem_to_leaf();
    assert!(!starts.is_empty());
    assert_eq!(starts[0], 0);
    for pair in starts.windows(2) {
        assert!(pair[0] < pair[1]);
    }
    assert!(*starts.last().unwrap() <= stems.len());
    assert_eq!(stems.len() % 4, 0);
    for start in starts {
        assert_eq!(start % 4, 0);
    }
    assert_eq!(leaves.len() % 4, 0);
    assert_eq!(leaves.len() / 4, list.len());
    let deepest = *starts.last().unwrap();
    let deepest_len = stems.len() - deepest;
    for pair in list.windows(2) {
        assert!(pair[0] < pair[1]);
    }
    for &entry in list {
        assert!(entry < deepest_len);
        assert!(stems[deepest + entry]);
    }
    if !list.is_empty() {
        for q in 0..deepest_len {
            if stems[deepest + q] {
                assert_eq!(list.iter().filter(|&&e| e == q).count(), 1);
            }
        }
    }
    for layer in 0..starts.len().saturating_sub(1) {
        let begin = starts[layer];
        let end = starts[layer + 1];
        let next_end = if layer + 2 < starts.len() { starts[layer + 2] } else { stems.len() };
        let ones = stems[begin..end].iter().filter(|&&b| b).count();
        assert_eq!(next_end - end, 4 * ones);
    }
    for block in leaves.chunks(4) {
        assert!(block.iter().any(|&b| b));
    }
    if list.is_empty() {
        assert_eq!(stems, vec![false; 4]);
        assert_eq!(starts, &vec![0]);
    } else {
        for block in stems.chunks(4) {
            assert!(block.iter().any(|&b| b));
        }
    }
}

fn run_random_writes(width: usize, seed: u64, steps: usize) {
    let mut tree = empty_of_width(width);
    let mut dense = vec![vec![false; width]; width];
    let mut rng = Lcg(seed);
    for _ in 0..steps {
        let x = (next(&mut rng) as usize) % width;
        let y = (next(&mut rng) as usize) % width;
        let state = next(&mut rng) % 3 != 0;
        assert_eq!(tree.set_bit(x, y, state), Ok(()));
        dense[x][y] = state;
        check_invariants(&tree);
        let before = tree.clone();
        assert_eq!(tree.set_bit(x, y, state), Ok(()));
        assert_eq!(tree, before);
        for a in 0..width {
            for b in 0..width {
                assert_eq!(tree.get_bit(a, b), dense[a][b]);
            }
        }
        let dense_ones: usize = dense.iter().map(|row| row.iter().filter(|&&b| b).count()).sum();
        let leaf_ones = tree.leaves().to_bools().iter().filter(|&&b| b).count();
        assert_eq!(dense_ones, leaf_ones);
        let rows: Vec<Bits> = dense.iter().map(|row| Bits::from_bools(row)).collect();
        assert_eq!(K2Tree::from_matrix(rows).unwrap(), tree);
    }
    for x in 0..width {
        for y in 0..width {
            assert_eq!(tree.set_bit(x, y, false), Ok(()));
            check_invariants(&tree);
        }
    }
    assert_eq!(tree, empty_of_width(width));
}

#[test]
fn random_writes_on_eight_wide_trees() {
    run_random_writes(8, 1, 150);
    run_random_writes(8, 99, 150);
}

#[test]
fn random_writes_on_sixteen_wide_trees() {
    run_random_writes(16, 7, 120);
}

#[test]
fn random_writes_on_thirty_two_wide_trees() {
    run_random_writes(32, 12345, 60);
}

#[test]
fn the_reference_tree_keeps_its_invariants() {
    check_invariants(&K2Tree::test_tree());
    check_invariants(&K2Tree::new(2));
}

#[test]
fn filling_and_emptying_a_whole_matrix() {
    let mut tree = K2Tree::new(2);
    for x in 0..8 {
        for y in 0..8 {
            assert_eq!(tree.set_bit(x, y, true), Ok(()));
        }
    }
    check_invariants(&tree);
    assert_eq!(tree.stems().to_bools(), vec![true; 20]);
    assert_eq!(tree.leaves().to_bools(), vec![true; 64]);
    assert_eq!(tree.stem_to_leaf(), &(0..16).collect::<Vec<usize>>());
    for x in (0..8).rev() {
        for y in 0..8 {
            assert_eq!(tree.set_bit(x, y, false), Ok(()));
            check_invariants(&tree);
        }
    }
    assert_eq!(tree, K2Tree::new(2));
}
