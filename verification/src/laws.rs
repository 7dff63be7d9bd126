//! What holds of every well-formed tree and of every write to one.

use crate::bits::zeros;
use crate::counting::{block_nonzero, ones_before};
use crate::encoding::{
    lemma_layer_aligned, lemma_layer_bounds, lemma_levels_framed, lemma_wf_structured, Encoding,
};
use crate::levels::{lemma_alive_above, lemma_list_sorted_complete, level_fits};
use crate::steps::set_bit_outcome;
use vstd::prelude::*;

verus! {

/// The layer starts begin at zero, ascend strictly and stay inside the
/// stems.
pub open spec fn starts_in_order(e: Encoding) -> bool {
    &&& e.layer_starts.len() >= 1
    &&& e.layer_starts[0] == 0
    &&& forall|i: int, j: int|
        0 <= i < j < e.layer_starts.len() ==> e.layer_starts[i] < e.layer_starts[j]
    &&& e.layer_starts[e.layer_starts.len() - 1] <= e.stems.len()
}

/// The stems are made of whole blocks, and every layer begins at a whole
/// number of blocks.
pub open spec fn stems_in_blocks(e: Encoding) -> bool {
    &&& e.stems.len() % 4 == 0
    &&& forall|l: int| 0 <= l < e.layer_starts.len() ==> (#[trigger] e.layer_starts[l]) % 4 == 0
}

/// The leaves are made of whole blocks, one for every entry of the leaf
/// list.
pub open spec fn leaves_in_blocks(e: Encoding) -> bool {
    &&& e.leaves.len() % 4 == 0
    &&& e.leaves.len() / 4 == e.stem_to_leaf.len()
}

/// The entries of the leaf list ascend strictly, and each is the place
/// of a set bit in the deepest stem layer.
pub open spec fn leaf_list_points_at_ones(e: Encoding) -> bool {
    let deepest = e.layer_begin(e.layer_starts.len() - 1);
    &&& forall|i: int|
        0 <= i < e.stem_to_leaf.len() ==> deepest + (#[trigger] e.stem_to_leaf[i])
            < e.stems.len() && e.stems[deepest + e.stem_to_leaf[i]]
    &&& forall|i: int, j: int|
        0 <= i < j < e.stem_to_leaf.len() ==> e.stem_to_leaf[i] < e.stem_to_leaf[j]
}

/// Every set bit of the deepest stem layer has exactly one entry in the
/// leaf list.
pub open spec fn ones_are_listed(e: Encoding) -> bool {
    let deepest = e.layer_begin(e.layer_starts.len() - 1);
    forall|q: int|
        0 <= q && deepest + q < e.stems.len() && #[trigger] e.stems[deepest + q] ==> {
            &&& exists|i: int| 0 <= i < e.stem_to_leaf.len() && #[trigger] e.stem_to_leaf[i] == q
            &&& forall|i: int, j: int|
                0 <= i < e.stem_to_leaf.len() && 0 <= j < e.stem_to_leaf.len()
                    && e.stem_to_leaf[i] == q && e.stem_to_leaf[j] == q ==> i == j
        }
}

/// Every set bit of a layer above the deepest owns a whole block of the
/// next layer, at the place given by the set bits in front of it.
pub open spec fn ones_own_blocks(e: Encoding) -> bool {
    forall|l: int, at: int|
        0 <= l < e.layer_starts.len() - 1 && e.layer_begin(l) <= at < e.layer_begin(l + 1)
            && #[trigger] e.level(l)[at - e.layer_begin(l)] ==> e.layer_begin(l + 1) + 4
            * ones_before(e.level(l), at - e.layer_begin(l)) + 4 <= e.layer_begin(l + 2)
}

/// No block is empty, unless the tree is.
pub open spec fn no_empty_block(e: Encoding) -> bool {
    &&& forall|j: int| 0 <= j && 4 * j + 4 <= e.leaves.len() ==> #[trigger] block_nonzero(e.leaves, j)
    &&& e.stem_to_leaf.len() > 0 ==> forall|j: int|
        0 <= j && 4 * j + 4 <= e.stems.len() ==> #[trigger] block_nonzero(e.stems, j)
}

/// A tree without leaves is the canonical empty tree.
pub open spec fn empty_is_canonical(e: Encoding) -> bool {
    e.stem_to_leaf.len() == 0 ==> e.stems == zeros(4) && e.layer_starts == seq![0usize]
}

/// A well-formed tree keeps its arrays tied together: the layer starts
/// are in order, stems and leaves are made of whole blocks, the leaf list
/// and the set bits of the deepest stem layer match one for one, every
/// set bit above owns a block below, no block is empty, and a tree
/// without leaves is the canonical empty tree.
#[verifier::rlimit(50)]
pub proof fn law_well_formed(e: Encoding)
    requires
        e.wf(),
    ensures
        starts_in_order(e),
        stems_in_blocks(e),
        leaves_in_blocks(e),
        leaf_list_points_at_ones(e),
        ones_are_listed(e),
        ones_own_blocks(e),
        no_empty_block(e),
        empty_is_canonical(e),
{
    lemma_wf_structured(e);
    lemma_levels_framed(e);
    let lv = e.levels();
    let n = e.layer_starts.len() as int;
    let top = e.depth() - 1;
    assert(lv[top] == e.leaves);
    assert(lv[top - 1] == e.level(top - 1));
    assert(level_fits(lv, top));
    lemma_layer_aligned(e, 0);
    assert forall|l: int| 0 <= l < n implies (#[trigger] e.layer_starts[l]) % 4 == 0 by {
        lemma_layer_aligned(e, l);
    }
    lemma_layer_bounds(e, n - 1);
    if e.stem_to_leaf.len() > 0 {
        let s = e.level(top - 1);
        lemma_list_sorted_complete(e.stem_to_leaf, s);
        assert(e.stem_to_leaf[0] < s.len());
        assert(n == top);
        lemma_layer_bounds(e, top - 1);
        assert forall|i: int| 0 <= i < e.stem_to_leaf.len() implies e.layer_begin(n - 1) + (
        #[trigger] e.stem_to_leaf[i]) < e.stems.len() && e.stems[e.layer_begin(n - 1)
            + e.stem_to_leaf[i]] by {
            assert(s[e.stem_to_leaf[i] as int]);
        }
        assert forall|q: int|
            0 <= q && e.layer_begin(n - 1) + q < e.stems.len() && #[trigger] e.stems[e.layer_begin(
                n - 1,
            ) + q] implies {
            &&& exists|i: int| 0 <= i < e.stem_to_leaf.len() && #[trigger] e.stem_to_leaf[i] == q
            &&& forall|i: int, j: int|
                0 <= i < e.stem_to_leaf.len() && 0 <= j < e.stem_to_leaf.len()
                    && e.stem_to_leaf[i] == q && e.stem_to_leaf[j] == q ==> i == j
        } by {
            assert(s[q]);
            assert(e.stem_to_leaf[ones_before(s, q) as int] == q);
        }
        assert forall|j: int| 0 <= j && 4 * j + 4 <= e.stems.len() implies #[trigger] block_nonzero(
            e.stems,
            j,
        ) by {
            lemma_stem_block_nonzero(e, j, n - 1);
        }
    } else {
        assert(e.level(0) =~= zeros(4));
        crate::counting::lemma_count_zeros(4);
        crate::counting::lemma_count_zero_iff(e.level(0));
    }
    assert forall|j: int| 0 <= j && 4 * j + 4 <= e.leaves.len() implies #[trigger] block_nonzero(
        e.leaves,
        j,
    ) by {
        if e.stem_to_leaf.len() > 0 {
            assert(block_nonzero(lv[top], j));
        }
    }
    assert forall|l: int, at: int|
        0 <= l < n - 1 && e.layer_begin(l) <= at < e.layer_begin(l + 1) && #[trigger] e.level(
            l,
        )[at - e.layer_begin(l)] implies e.layer_begin(l + 1) + 4 * ones_before(
        e.level(l),
        at - e.layer_begin(l),
    ) + 4 <= e.layer_begin(l + 2) by {
        lemma_layer_bounds(e, l);
        lemma_layer_bounds(e, l + 1);
        assert(lv[l] == e.level(l));
        assert(lv[l + 1] == e.level(l + 1));
        assert(level_fits(lv, l + 1));
        crate::counting::lemma_ones_before_strict(
            e.level(l),
            at - e.layer_begin(l),
            e.level(l).len() as int,
        );
        crate::counting::lemma_ones_before_all(e.level(l));
    }
}

/// Block `j` of the stems of a tree with leaves holds a set bit: it is a
/// block of one of the layers, searched from layer `l` upwards.
proof fn lemma_stem_block_nonzero(e: Encoding, j: int, l: int)
    requires
        e.tree_except(-1, 0),
        0 <= j,
        4 * j + 4 <= e.stems.len(),
        0 <= l < e.layer_starts.len(),
        4 * j + 4 <= e.layer_begin(l + 1),
    ensures
        block_nonzero(e.stems, j),
    decreases l,
{
    lemma_levels_framed(e);
    lemma_layer_bounds(e, l);
    lemma_layer_aligned(e, l);
    if 4 * j >= e.layer_begin(l) {
        let k = (4 * j - e.layer_begin(l)) / 4;
        let s = e.level(l);
        assert(e.levels()[l] == s);
        assert(block_nonzero(s, k));
        assert(s[4 * k] == e.stems[4 * j]);
        assert(s[4 * k + 1] == e.stems[4 * j + 1]);
        assert(s[4 * k + 2] == e.stems[4 * j + 2]);
        assert(s[4 * k + 3] == e.stems[4 * j + 3]);
    } else {
        lemma_stem_block_nonzero(e, j, l - 1);
    }
}

/// Writing the same state to the same cell twice is the same as writing
/// it once: the second write changes nothing and is done exactly when
/// the first was.
pub proof fn law_set_bit_idempotent(
    e0: Encoding,
    e1: Encoding,
    e2: Encoding,
    x: int,
    y: int,
    state: bool,
    done1: bool,
    done2: bool,
)
    requires
        e0.wf(),
        set_bit_outcome(e0, e1, x, y, state, done1),
        set_bit_outcome(e1, e2, x, y, state, done2),
    ensures
        e2 == e1,
        done2 == done1,
{
    if done1 {
        assert(e1.contains(x, y) == state);
        if state {
            lemma_alive_above(
                e1.levels(),
                crate::range::path(e1.matrix_width as int, x, y),
                e1.depth(),
                (e1.depth() - 1) as nat,
            );
        }
    }
}

/// A write that is done makes the cell read as written and leaves every
/// other cell reading as before.
pub proof fn law_read_after_write(
    e0: Encoding,
    e1: Encoding,
    x: int,
    y: int,
    state: bool,
    a: int,
    c: int,
)
    requires
        e0.wf(),
        set_bit_outcome(e0, e1, x, y, state, true),
    ensures
        e1.contains(x, y) == state,
        (a != x || c != y) ==> e1.contains(a, c) == e0.contains(a, c),
{
    assert(e1.contains(x, y) == state);
    assert(e1.contains(a, c) == (if a == x && c == y {
        state
    } else {
        e0.contains(a, c)
    }));
}

/// A well-formed tree without a set cell is the canonical empty tree.
pub proof fn law_empty_is_canonical(e: Encoding)
    requires
        e.wf(),
        forall|x: int, y: int| !e.contains(x, y),
    ensures
        e.is_empty_tree(),
{
    if e.stem_to_leaf.len() > 0 {
        lemma_levels_framed(e);
        let lv = e.levels();
        let top = e.depth() - 1;
        assert(lv[top] == e.leaves);
        assert(lv[top - 1] == e.level(top - 1));
        assert(level_fits(lv, top));
        let d = crate::levels::lemma_some_cell(lv);
        let c = crate::range::lemma_path_onto(e.matrix_width as int, d);
        assert(e.contains(c.0, c.1));
    }
}

} // verus!
