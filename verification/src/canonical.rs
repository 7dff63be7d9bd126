//! A matrix has one tree: two well-formed trees of the same width that
//! hold the same cells have the same arrays.

use crate::counting::{block_nonzero, lemma_same_rank_same_bit, lists_ones};
use crate::encoding::{lemma_layer_bounds, lemma_levels_framed, Encoding};
use crate::laws::law_empty_is_canonical;
use crate::levels::{
    alive, cell_set, digits_ok, lemma_alive_above, lemma_node_valid, lemma_path_prefix,
    lemma_reach, level_fits, node, nonzero_except, pos, shaped,
};
use crate::range::{lemma_path_onto, path};
use vstd::prelude::*;

verus! {

/// A path that reaches a level of a tree without empty blocks can be
/// continued to a set cell.
proof fn lemma_reach_down(lv: Seq<Seq<bool>>, d: Seq<int>, m: nat) -> (c: Seq<int>)
    requires
        shaped(lv),
        nonzero_except(lv, -1, 0),
        digits_ok(d, lv.len() as int),
        m <= lv.len(),
        alive(lv, d, m),
    ensures
        digits_ok(c, lv.len() as int),
        cell_set(lv, c),
        forall|i: int| 0 <= i < m ==> c[i] == d[i],
    decreases lv.len() - m,
{
    if m == lv.len() {
        d
    } else {
        lemma_node_valid(lv, d, m);
        let j = node(lv, d, m);
        let s = lv[m as int];
        assert(block_nonzero(s, j));
        let q = if s[4 * j] {
            0int
        } else if s[4 * j + 1] {
            1int
        } else if s[4 * j + 2] {
            2int
        } else {
            3int
        };
        let d1 = d.update(m as int, q);
        lemma_path_prefix(lv, lv, d, d1, m);
        assert(pos(lv, d1, m) == 4 * j + q);
        assert(alive(lv, d1, m + 1));
        lemma_reach_down(lv, d1, m + 1)
    }
}

/// In two trees without empty blocks that hold the same cells, a path
/// that reaches a level of one reaches that level of the other.
proof fn lemma_alive_both(lv1: Seq<Seq<bool>>, lv2: Seq<Seq<bool>>, d: Seq<int>, m: nat)
    requires
        shaped(lv1),
        shaped(lv2),
        lv1.len() == lv2.len(),
        nonzero_except(lv1, -1, 0),
        forall|c: Seq<int>| digits_ok(c, lv1.len() as int) ==> cell_set(lv1, c) == cell_set(lv2, c),
        digits_ok(d, lv1.len() as int),
        m <= lv1.len(),
        alive(lv1, d, m),
    ensures
        alive(lv2, d, m),
{
    let c = lemma_reach_down(lv1, d, m);
    assert(cell_set(lv2, c));
    lemma_alive_above(lv2, c, lv2.len(), m);
    lemma_path_prefix(lv2, lv2, c, d, m);
}

/// Two trees without empty blocks that hold the same cells have the same
/// levels.
#[verifier::rlimit(50)]
proof fn lemma_same_levels(lv1: Seq<Seq<bool>>, lv2: Seq<Seq<bool>>, m: nat)
    requires
        shaped(lv1),
        shaped(lv2),
        lv1.len() == lv2.len(),
        nonzero_except(lv1, -1, 0),
        nonzero_except(lv2, -1, 0),
        forall|c: Seq<int>| digits_ok(c, lv1.len() as int) ==> cell_set(lv1, c) == cell_set(lv2, c),
        m <= lv1.len(),
    ensures
        forall|k: int| 0 <= k < m ==> lv1[k] == lv2[k],
    decreases m,
{
    if m > 0 {
        let k = (m - 1) as nat;
        lemma_same_levels(lv1, lv2, k);
        let mine = lv1[k as int];
        let theirs = lv2[k as int];
        if k > 0 {
            assert(level_fits(lv1, k as int));
            assert(level_fits(lv2, k as int));
        }
        assert(mine.len() == theirs.len());
        assert forall|p: int| 0 <= p < mine.len() implies mine[p] == theirs[p] by {
            let d0 = lemma_reach(lv1, k, p / 4);
            let d = d0.update(k as int, p % 4);
            lemma_path_prefix(lv1, lv1, d0, d, k);
            lemma_path_prefix(lv1, lv2, d, d, k);
            assert(pos(lv1, d, k) == p);
            assert(pos(lv2, d, k) == p);
            if mine[p] {
                assert(alive(lv1, d, k + 1));
                lemma_alive_both(lv1, lv2, d, k + 1);
            }
            if theirs[p] {
                assert(alive(lv2, d, k + 1));
                lemma_alive_both(lv2, lv1, d, k + 1);
            }
        }
        assert(mine =~= theirs);
    }
}

/// Two lists of the set bits of one sequence are the same list.
proof fn lemma_one_list(r1: Seq<usize>, r2: Seq<usize>, s: Seq<bool>)
    requires
        lists_ones(r1, s),
        lists_ones(r2, s),
    ensures
        r1 == r2,
{
    assert forall|i: int| 0 <= i < r1.len() implies r1[i] == r2[i] by {
        lemma_same_rank_same_bit(s, r1[i] as int, r2[i] as int);
    }
    assert(r1 =~= r2);
}

/// Trees with the same levels and all their layers present begin their
/// layers at the same places.
proof fn lemma_same_starts(e1: Encoding, e2: Encoding, l: int)
    requires
        e1.framed(),
        e2.framed(),
        e1.matrix_width == e2.matrix_width,
        e1.levels() == e2.levels(),
        e1.layer_starts.len() == e1.depth() - 1,
        e2.layer_starts.len() == e2.depth() - 1,
        0 <= l <= e1.depth() - 1,
    ensures
        e1.layer_begin(l) == e2.layer_begin(l),
    decreases l,
{
    lemma_levels_framed(e1);
    lemma_levels_framed(e2);
    if l > 0 {
        lemma_same_starts(e1, e2, l - 1);
        lemma_layer_bounds(e1, l - 1);
        lemma_layer_bounds(e2, l - 1);
        assert(e1.levels()[l - 1] == e1.level(l - 1));
        assert(e2.levels()[l - 1] == e2.level(l - 1));
    }
}

/// Trees with the same levels and all their layers present have the same
/// stem bit at every position, searched for from layer `l` upwards.
proof fn lemma_same_stem_bit(e1: Encoding, e2: Encoding, at: int, l: int)
    requires
        e1.framed(),
        e2.framed(),
        e1.matrix_width == e2.matrix_width,
        e1.levels() == e2.levels(),
        e1.layer_starts.len() == e1.depth() - 1,
        e2.layer_starts.len() == e2.depth() - 1,
        0 <= l < e1.layer_starts.len(),
        0 <= at < e1.layer_begin(l + 1),
    ensures
        e1.stems[at] == e2.stems[at],
    decreases l,
{
    lemma_levels_framed(e1);
    lemma_levels_framed(e2);
    lemma_same_starts(e1, e2, l);
    lemma_same_starts(e1, e2, l + 1);
    lemma_layer_bounds(e1, l);
    lemma_layer_bounds(e2, l);
    if at >= e1.layer_begin(l) {
        assert(e1.levels()[l] == e1.level(l));
        assert(e2.levels()[l] == e2.level(l));
        assert(e1.level(l)[at - e1.layer_begin(l)] == e1.stems[at]);
        assert(e2.level(l)[at - e2.layer_begin(l)] == e2.stems[at]);
    } else {
        lemma_same_stem_bit(e1, e2, at, l - 1);
    }
}

/// The tree of a matrix is unique: well-formed trees of the same width
/// that hold the same cells are equal, array by array.
#[verifier::rlimit(50)]
pub proof fn law_one_tree_per_matrix(e1: Encoding, e2: Encoding)
    requires
        e1.wf(),
        e2.wf(),
        e1.matrix_width == e2.matrix_width,
        forall|x: int, y: int| e1.contains(x, y) == e2.contains(x, y),
    ensures
        e1 == e2,
{
    let w = e1.matrix_width as int;
    if e1.stem_to_leaf.len() == 0 || e2.stem_to_leaf.len() == 0 {
        if e1.stem_to_leaf.len() == 0 {
            crate::steps::lemma_empty_tree(e1);
        } else {
            crate::steps::lemma_empty_tree(e2);
        }
        law_empty_is_canonical(e1);
        law_empty_is_canonical(e2);
        assert(e1.stem_to_leaf =~= e2.stem_to_leaf);
        assert(e1.leaves =~= e2.leaves);
    } else {
        lemma_levels_framed(e1);
        lemma_levels_framed(e2);
        let lv1 = e1.levels();
        let lv2 = e2.levels();
        let top = e1.depth() - 1;
        assert forall|c: Seq<int>| digits_ok(c, lv1.len() as int) implies cell_set(lv1, c)
            == cell_set(lv2, c) by {
            let cell = lemma_path_onto(w, c);
            assert(e1.contains(cell.0, cell.1) == e2.contains(cell.0, cell.1));
        }
        lemma_same_levels(lv1, lv2, lv1.len());
        assert(lv1 =~= lv2);
        assert(lv1[top] == e1.leaves && lv2[top] == e2.leaves);
        assert(lv1[top - 1] == e1.level(top - 1) && lv2[top - 1] == e2.level(top - 1));
        lemma_one_list(e1.stem_to_leaf, e2.stem_to_leaf, e1.level(top - 1));
        assert(e1.stem_to_leaf[0] < e1.level(top - 1).len());
        assert(e2.stem_to_leaf[0] < e2.level(top - 1).len());
        assert(e1.layer_starts.len() == top);
        assert(e2.layer_starts.len() == top);
        assert forall|l: int| 0 <= l < top implies e1.layer_starts[l] == e2.layer_starts[l] by {
            lemma_same_starts(e1, e2, l);
        }
        assert(e1.layer_starts =~= e2.layer_starts);
        lemma_same_starts(e1, e2, top);
        assert forall|at: int| 0 <= at < e1.stems.len() implies e1.stems[at] == e2.stems[at] by {
            lemma_same_stem_bit(e1, e2, at, top - 1);
        }
        assert(e1.stems =~= e2.stems);
    }
}

} // verus!
