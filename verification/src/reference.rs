//! A small tree written out bit by bit, and the matrix it stands for.

use crate::counting::{
    block_nonzero, lemma_ones_before_all, lemma_ones_before_step, lists_ones, ones_before,
};
use crate::encoding::{lemma_levels_framed, Encoding};
use crate::levels::{alive, level_fits, node, pos};
use crate::popcount::{cells, law_popcount};
use crate::range::{depth_of, digit, is_pow2, path, square_at};
use vstd::prelude::*;

verus! {

/// The arrays of the reference tree, over a matrix of side eight.
pub open spec fn reference_encoding() -> Encoding {
    Encoding {
        matrix_width: 8,
        k: 2,
        layer_starts: seq![0usize, 4],
        stems: seq![
            false, true, true, true,
            true, true, false, true,
            true, false, false, false,
            true, false, false, false,
        ],
        stem_to_leaf: seq![0usize, 1, 3, 4, 8],
        leaves: seq![
            false, true, true, false,
            false, true, false, true,
            true, true, false, false,
            true, false, false, false,
            false, true, true, false,
        ],
    }
}

/// Whether the cell `(x, y)` is one of the nine set cells of the matrix
/// of the reference tree.
pub open spec fn reference_cell(x: int, y: int) -> bool {
    ||| x == 0 && y == 4
    ||| x == 4 && y == 1
    ||| x == 4 && y == 5
    ||| x == 5 && y == 0
    ||| x == 5 && y == 4
    ||| x == 6 && y == 2
    ||| x == 7 && y == 0
    ||| x == 7 && y == 1
    ||| x == 7 && y == 2
}

/// The counts of set bits in the two stem layers and the leaves of the
/// reference tree, position by position.
proof fn lemma_reference_counts()
    ensures
        ({
            let e = reference_encoding();
            let root = e.level(0);
            let below = e.level(1);
            &&& is_pow2(8)
            &&& depth_of(8) == 3
            &&& e.framed()
            &&& e.levels().len() == 3
            &&& e.levels()[0] == root
            &&& e.levels()[1] == below
            &&& e.levels()[2] == e.leaves
            &&& root == seq![false, true, true, true]
            &&& below == seq![
                true, true, false, true,
                true, false, false, false,
                true, false, false, false,
            ]
            &&& ones_before(root, 1) == 0
            &&& ones_before(root, 2) == 1
            &&& ones_before(root, 3) == 2
            &&& crate::bits::count_ones(root) == 3
            &&& ones_before(below, 0) == 0
            &&& ones_before(below, 1) == 1
            &&& ones_before(below, 3) == 2
            &&& ones_before(below, 4) == 3
            &&& ones_before(below, 8) == 4
            &&& crate::bits::count_ones(below) == 5
            &&& crate::bits::count_ones(e.leaves) == 9
        }),
{
    let e = reference_encoding();
    assert(is_pow2(8)) by {
        reveal_with_fuel(is_pow2, 4);
    }
    assert(depth_of(8) == 3) by {
        reveal_with_fuel(depth_of, 4);
    }
    assert(e.framed());
    lemma_levels_framed(e);
    let root = e.level(0);
    let below = e.level(1);
    assert(root =~= seq![false, true, true, true]);
    assert(below =~= seq![
        true, true, false, true,
        true, false, false, false,
        true, false, false, false,
    ]);
    lemma_ones_before_all(root);
    lemma_ones_before_step(root, 0);
    lemma_ones_before_step(root, 1);
    lemma_ones_before_step(root, 2);
    lemma_ones_before_step(root, 3);
    lemma_ones_before_all(below);
    lemma_ones_before_step(below, 0);
    lemma_ones_before_step(below, 1);
    lemma_ones_before_step(below, 2);
    lemma_ones_before_step(below, 3);
    lemma_ones_before_step(below, 4);
    lemma_ones_before_step(below, 5);
    lemma_ones_before_step(below, 6);
    lemma_ones_before_step(below, 7);
    lemma_ones_before_step(below, 8);
    lemma_ones_before_step(below, 9);
    lemma_ones_before_step(below, 10);
    lemma_ones_before_step(below, 11);
    let leaves = e.leaves;
    lemma_ones_before_all(leaves);
    lemma_ones_before_step(leaves, 0);
    lemma_ones_before_step(leaves, 1);
    lemma_ones_before_step(leaves, 2);
    lemma_ones_before_step(leaves, 3);
    lemma_ones_before_step(leaves, 4);
    lemma_ones_before_step(leaves, 5);
    lemma_ones_before_step(leaves, 6);
    lemma_ones_before_step(leaves, 7);
    lemma_ones_before_step(leaves, 8);
    lemma_ones_before_step(leaves, 9);
    lemma_ones_before_step(leaves, 10);
    lemma_ones_before_step(leaves, 11);
    lemma_ones_before_step(leaves, 12);
    lemma_ones_before_step(leaves, 13);
    lemma_ones_before_step(leaves, 14);
    lemma_ones_before_step(leaves, 15);
    lemma_ones_before_step(leaves, 16);
    lemma_ones_before_step(leaves, 17);
    lemma_ones_before_step(leaves, 18);
    lemma_ones_before_step(leaves, 19);
}

/// The reference tree is well formed.
pub proof fn lemma_reference_wf()
    ensures
        reference_encoding().wf(),
{
    let e = reference_encoding();
    lemma_reference_counts();
    let lv = e.levels();
    let root = e.level(0);
    let below = e.level(1);
    assert(level_fits(lv, 1));
    assert(level_fits(lv, 2));
    assert(lists_ones(e.stem_to_leaf, below));
    assert forall|a: int, j: int|
        0 <= a < lv.len() && 0 <= j && 4 * j + 4 <= lv[a].len() && !(a == -1 && j == 0)
        implies #[trigger] block_nonzero(lv[a], j) by {
        if a == 0 {
            assert(root[1]);
        } else if a == 1 {
            assert(below[0] && below[4] && below[8]);
        } else {
            assert(e.leaves[1] && e.leaves[5] && e.leaves[8] && e.leaves[12] && e.leaves[17]);
        }
    }
}

/// A cell of the reference matrix whose path takes the quadrants `q0`,
/// `q1` and `q2` is set when the bits on that path are.
proof fn lemma_reference_path(x: int, y: int, q0: int, q1: int, q2: int)
    requires
        0 <= x < 8,
        0 <= y < 8,
        0 <= q0 < 4,
        0 <= q1 < 4,
        0 <= q2 < 4,
        q0 == (if x <= 3 { 0int } else { 1int }) + (if y <= 3 { 0int } else { 2int }),
        q1 == (if x % 4 <= 1 { 0int } else { 1int }) + (if y % 4 <= 1 { 0int } else { 2int }),
        q2 == (if x % 2 == 0 { 0int } else { 1int }) + (if y % 2 == 0 { 0int } else { 2int }),
        ({
            let e = reference_encoding();
            let at = 4 * ones_before(e.level(0), q0) + q1;
            &&& e.level(0)[q0]
            &&& 0 <= at < 12
            &&& e.level(1)[at]
            &&& 0 <= 4 * ones_before(e.level(1), at) + q2 < 20
            &&& e.leaves[4 * ones_before(e.level(1), at) + q2]
        }),
    ensures
        reference_encoding().contains(x, y),
{
    let e = reference_encoding();
    lemma_reference_counts();
    let lv = e.levels();
    let d = path(8, x, y);
    reveal_with_fuel(square_at, 4);
    reveal_with_fuel(alive, 4);
    reveal_with_fuel(node, 4);
    assert(d[0] == digit(8, x, y, 0));
    assert(d[1] == digit(8, x, y, 1));
    assert(d[2] == digit(8, x, y, 2));
    assert(d[0] == q0);
    assert(d[1] == q1);
    assert(d[2] == q2);
    assert(node(lv, d, 0) == 0);
    assert(pos(lv, d, 0) == q0);
    assert(lv[0].len() == 4);
    assert(lv[0][q0]);
    assert(alive(lv, d, 0));
    assert(alive(lv, d, 1));
    assert(node(lv, d, 1) == ones_before(lv[0], q0));
    assert(alive(lv, d, 2));
    assert(node(lv, d, 2) == ones_before(lv[1], pos(lv, d, 1)));
    assert(alive(lv, d, 3));
}

/// The reference tree stands for the reference matrix.
pub proof fn lemma_reference_cells()
    ensures
        forall|x: int, y: int| #[trigger]
            reference_encoding().contains(x, y) == reference_cell(x, y),
{
    let e = reference_encoding();
    lemma_reference_counts();
    lemma_reference_wf();
    lemma_reference_path(0, 4, 2, 0, 0);
    lemma_reference_path(4, 1, 1, 0, 2);
    lemma_reference_path(4, 5, 3, 0, 2);
    lemma_reference_path(5, 0, 1, 0, 1);
    lemma_reference_path(5, 4, 3, 0, 1);
    lemma_reference_path(6, 2, 1, 3, 0);
    lemma_reference_path(7, 0, 1, 1, 1);
    lemma_reference_path(7, 1, 1, 1, 3);
    lemma_reference_path(7, 2, 1, 3, 1);
    law_popcount(e);
    let nine = set![
        (0int, 4int),
        (4int, 1int),
        (4int, 5int),
        (5int, 0int),
        (5int, 4int),
        (6int, 2int),
        (7int, 0int),
        (7int, 1int),
        (7int, 2int),
    ];
    assert(nine.len() == 9);
    assert(nine.subset_of(cells(e)));
    vstd::set_lib::lemma_subset_equality(nine, cells(e));
    assert forall|x: int, y: int| #[trigger] e.contains(x, y) == reference_cell(x, y) by {
        assert(cells(e).contains((x, y)) == e.contains(x, y));
        assert(nine.contains((x, y)) == reference_cell(x, y));
    }
}

/// Every well-formed tree of width eight that stands for the reference
/// matrix has the arrays of the reference tree.
pub proof fn law_reference_is_canonical(e: Encoding)
    requires
        e.wf(),
        e.matrix_width == 8,
        forall|x: int, y: int| e.contains(x, y) == reference_cell(x, y),
    ensures
        e == reference_encoding(),
{
    lemma_reference_wf();
    lemma_reference_cells();
    crate::canonical::law_one_tree_per_matrix(e, reference_encoding());
}

} // verus!
