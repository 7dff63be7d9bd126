//! The steps of a mutation, stated on the arrays: what each does to the
//! levels of the tree, to its cells, and to the conditions that make the
//! arrays a tree.

use crate::bits::{count_ones, max_bits};
use crate::counting::{
    block_nonzero, lemma_count_with_zeros, lemma_ones_before_all, lemma_ones_before_monotone,
    lemma_without_zeros_inverse, ones_before, with_zeros, without,
};
use crate::encoding::{lemma_layer_bounds, lemma_levels_framed, Encoding};
use crate::levels::{
    alive, cell_set, digits_ok, flipped, grown, lemma_flipped, lemma_flipped_nonzero, lemma_grown,
    lemma_grown_enters, lemma_grown_nonzero, lemma_levels_populated, lemma_list_gains,
    lemma_list_loses, lemma_list_with_zeros, lemma_list_without_zeros, lemma_pruned,
    lemma_pruned_nonzero, level_fits, node, pos, pruned, shifted_from,
};
use crate::range::{lemma_digit_range, lemma_path_injective, path};
use vstd::prelude::*;

verus! {

/// The two encodings describe matrices of the same width and branching
/// factor.
pub open spec fn same_matrix(e: Encoding, e2: Encoding) -> bool {
    e2.matrix_width == e.matrix_width && e2.k == e.k
}

/// Layers follow one another inside the stems, however far apart.
pub proof fn lemma_layer_order(e: Encoding, a: int, b: int)
    requires
        e.framed(),
        0 <= a <= b,
    ensures
        0 <= e.layer_begin(a) <= e.layer_begin(b) <= e.stems.len(),
    decreases b - a,
{
    if a < b {
        lemma_layer_order(e, a, b - 1);
        lemma_layer_bounds(e, b - 1);
    } else {
        lemma_layer_bounds(e, a);
    }
}

/// The path of every cell of the matrix has one quadrant number per
/// level.
pub proof fn lemma_path_digits(e: Encoding, x: int, y: int)
    ensures
        digits_ok(path(e.matrix_width as int, x, y), e.depth() as int),
{
    let d = path(e.matrix_width as int, x, y);
    assert forall|i: int| 0 <= i < e.depth() implies 0 <= #[trigger] d[i] < 4 by {
        lemma_digit_range(e.matrix_width as int, x, y, i as nat);
    }
}

/// Writing one stem bit changes that bit of its layer and nothing else.
#[verifier::rlimit(50)]
pub proof fn lemma_stem_bit_levels(e: Encoding, e2: Encoding, l: int, at: int, b: bool)
    requires
        e.framed(),
        0 <= l <= e.depth() - 2,
        e.layer_begin(l) <= at < e.layer_begin(l + 1),
        same_matrix(e, e2),
        e2.stems == e.stems.update(at, b),
        e2.layer_starts == e.layer_starts,
        e2.leaves == e.leaves,
    ensures
        e2.framed(),
        e2.levels() == e.levels().update(l, e.level(l).update(at - e.layer_begin(l), b)),
{
    lemma_levels_framed(e);
    let target = e.levels().update(l, e.level(l).update(at - e.layer_begin(l), b));
    assert forall|a: int| 0 <= a < e.depth() implies #[trigger] e2.levels()[a] == target[a] by {
        if a == e.depth() - 1 {
        } else {
            lemma_layer_bounds(e, a);
            lemma_layer_bounds(e, l);
            if a == l {
                assert(e2.level(a) =~= e.level(l).update(at - e.layer_begin(l), b));
            } else if a < l {
                lemma_layer_order(e, a + 1, l);
                assert(e2.level(a) =~= e.level(a));
            } else {
                lemma_layer_order(e, l + 1, a);
                assert(e2.level(a) =~= e.level(a));
            }
        }
    }
    assert(e2.levels() =~= target);
}

/// How the layer starts move when four bits are put into, or taken out
/// of, layer `l1`: the starts of the layers behind it move by `by`, and
/// with `enter` a layer that was not present begins at `at`.
pub open spec fn starts_moved(
    moved: Seq<usize>,
    s: Seq<usize>,
    l1: int,
    by: int,
    at: int,
) -> bool {
    if l1 < s.len() {
        &&& moved.len() == s.len()
        &&& forall|i: int|
            0 <= i < s.len() ==> (#[trigger] moved[i]) == s[i] + (if i > l1 {
                by
            } else {
                0
            })
    } else {
        moved == s.push(at as usize)
    }
}

/// Putting a block of cleared bits into the stems at `at`, inside or at
/// the end of layer `l1`, puts it into that level and changes no other.
#[verifier::rlimit(50)]
pub proof fn lemma_stem_block_in(e: Encoding, e2: Encoding, l1: int, at: int)
    requires
        e.framed(),
        e.stems.len() + 4 <= max_bits(),
        1 <= l1 <= e.depth() - 2,
        l1 <= e.layer_starts.len(),
        e.layer_begin(l1) <= at <= e.layer_begin(l1 + 1),
        same_matrix(e, e2),
        e2.stems == with_zeros(e.stems, at, 4),
        starts_moved(e2.layer_starts, e.layer_starts, l1, 4, at),
        e2.leaves == e.leaves,
    ensures
        e2.framed(),
        e2.layer_begin(l1) == e.layer_begin(l1),
        e2.layer_starts.len() > l1,
        e2.levels() == e.levels().update(l1, with_zeros(e.level(l1), at - e.layer_begin(l1), 4)),
{
    lemma_levels_framed(e);
    let n = e.layer_starts.len() as int;
    lemma_layer_bounds(e, l1);
    lemma_layer_bounds(e, l1 - 1);
    assert(e2.framed()) by {
        assert forall|i: int, j: int| 0 <= i < j < e2.layer_starts.len() implies e2.layer_starts[i]
            < e2.layer_starts[j] by {
            if j < n {
                assert(e.layer_starts[i] < e.layer_starts[j]);
            } else {
                lemma_layer_order(e, i, n - 1);
            }
        }
    }
    let target = e.levels().update(l1, with_zeros(e.level(l1), at - e.layer_begin(l1), 4));
    assert forall|a: int| 0 <= a < e.depth() implies #[trigger] e2.levels()[a] == target[a] by {
        if a == e.depth() - 1 {
        } else {
            lemma_layer_bounds(e, a);
            if a == l1 {
                assert(e2.layer_begin(a) == e.layer_begin(a));
                assert(e2.layer_begin(a + 1) == e.layer_begin(a + 1) + 4);
                assert(e2.level(a) =~= with_zeros(e.level(l1), at - e.layer_begin(l1), 4));
            } else if a < l1 {
                lemma_layer_order(e, a + 1, l1);
                assert(e2.layer_begin(a) == e.layer_begin(a));
                assert(e2.layer_begin(a + 1) == e.layer_begin(a + 1));
                assert(e2.level(a) =~= e.level(a));
            } else {
                lemma_layer_order(e, l1 + 1, a);
                assert(e2.layer_begin(a) == e.layer_begin(a) + 4);
                assert(e2.layer_begin(a + 1) == e.layer_begin(a + 1) + 4);
                assert(e2.level(a) =~= e.level(a));
            }
        }
    }
    assert(e2.levels() =~= target);
}

/// Taking the block at `at` out of layer `l1` of the stems takes it out
/// of that level and changes no other.
#[verifier::rlimit(50)]
pub proof fn lemma_stem_block_out(e: Encoding, e2: Encoding, l1: int, at: int)
    requires
        e.framed(),
        1 <= l1 < e.layer_starts.len(),
        e.layer_begin(l1) <= at,
        at + 4 <= e.layer_begin(l1 + 1),
        e.layer_begin(l1 + 1) - e.layer_begin(l1) > 4,
        same_matrix(e, e2),
        e2.stems == without(e.stems, at, 4),
        starts_moved(e2.layer_starts, e.layer_starts, l1, -4, 0),
        e2.leaves == e.leaves,
    ensures
        e2.framed(),
        e2.layer_begin(l1) == e.layer_begin(l1),
        e2.levels() == e.levels().update(l1, without(e.level(l1), at - e.layer_begin(l1), 4)),
{
    lemma_levels_framed(e);
    let n = e.layer_starts.len() as int;
    lemma_layer_bounds(e, l1);
    lemma_layer_bounds(e, l1 - 1);
    assert(e2.framed()) by {
        assert forall|i: int, j: int| 0 <= i < j < e2.layer_starts.len() implies e2.layer_starts[i]
            < e2.layer_starts[j] by {
            assert(e.layer_starts[i] < e.layer_starts[j]);
            if i <= l1 && j > l1 {
                lemma_layer_order(e, l1 + 1, j);
                lemma_layer_order(e, i, l1);
            }
        }
        if l1 + 1 <= n - 1 {
            lemma_layer_order(e, l1 + 1, n - 1);
        }
    }
    let target = e.levels().update(l1, without(e.level(l1), at - e.layer_begin(l1), 4));
    assert forall|a: int| 0 <= a < e.depth() implies #[trigger] e2.levels()[a] == target[a] by {
        if a == e.depth() - 1 {
        } else {
            lemma_layer_bounds(e, a);
            if a == l1 {
                assert(e2.layer_begin(a) == e.layer_begin(a));
                assert(e2.layer_begin(a + 1) == e.layer_begin(a + 1) - 4);
                assert(e2.level(a) =~= without(e.level(l1), at - e.layer_begin(l1), 4));
            } else if a < l1 {
                lemma_layer_order(e, a + 1, l1);
                assert(e2.layer_begin(a) == e.layer_begin(a));
                assert(e2.layer_begin(a + 1) == e.layer_begin(a + 1));
                assert(e2.level(a) =~= e.level(a));
            } else {
                lemma_layer_order(e, l1 + 1, a);
                assert(e2.layer_begin(a) == e.layer_begin(a) - 4);
                assert(e2.layer_begin(a + 1) == e.layer_begin(a + 1) - 4);
                assert(e2.level(a) =~= e.level(a));
            }
        }
    }
    assert(e2.levels() =~= target);
}

/// Changing the leaves changes the last level and no other.
pub proof fn lemma_leaves_levels(e: Encoding, e2: Encoding)
    requires
        e.framed(),
        same_matrix(e, e2),
        e2.stems == e.stems,
        e2.layer_starts == e.layer_starts,
        e2.leaves.len() <= max_bits(),
    ensures
        e2.framed(),
        e2.levels() == e.levels().update(e.depth() - 1, e2.leaves),
{
    lemma_levels_framed(e);
    let target = e.levels().update(e.depth() - 1, e2.leaves);
    assert forall|a: int| 0 <= a < e.depth() implies #[trigger] e2.levels()[a] == target[a] by {
        if a < e.depth() - 1 {
            assert(e2.level(a) == e.level(a));
        }
    }
    assert(e2.levels() =~= target);
}

/// Every cell has the same value in both encodings.
pub open spec fn same_cells(e: Encoding, e2: Encoding) -> bool {
    forall|d: Seq<int>|
        digits_ok(d, e.depth() as int) ==> #[trigger] cell_set(e2.levels(), d) == cell_set(
            e.levels(),
            d,
        )
}

/// The matrix of `e2` is the matrix of `e` with the cell `(x, y)` set to
/// `b`.
pub open spec fn cell_written(e: Encoding, e2: Encoding, x: int, y: int, b: bool) -> bool {
    forall|a: int, c: int|
        #[trigger] e2.contains(a, c) == (if a == x && c == y {
            b
        } else {
            e.contains(a, c)
        })
}

/// What writing `state` to the cell `(x, y)` makes of a tree, and whether
/// the write is done.
///
/// The write is done exactly when the cell lies inside the matrix and,
/// where a new leaf is needed, the arrays have room for it. A write that
/// is done changes that cell of the matrix and no other; one that is not
/// done changes nothing, and neither does one that finds the cell as it
/// should be. The arrays grow by no more than the blocks of one path.
pub open spec fn set_bit_outcome(
    before: Encoding,
    after: Encoding,
    x: int,
    y: int,
    state: bool,
    done: bool,
) -> bool {
    &&& after.wf()
    &&& same_matrix(before, after)
    &&& done <==> 0 <= x < before.matrix_width && 0 <= y < before.matrix_width && (state
        && !before.covered(x, y) ==> before.has_room())
    &&& done ==> cell_written(before, after, x, y, state)
    &&& !done ==> after == before
    &&& before.contains(x, y) == state && 0 <= x < before.matrix_width && 0 <= y
        < before.matrix_width ==> after == before
    &&& after.stems.len() <= before.stems.len() + 4 * before.depth()
    &&& after.leaves.len() <= before.leaves.len() + 4
}

/// Encodings with the same cells stand for the same matrix.
pub proof fn lemma_same_cells_contains(e: Encoding, e2: Encoding)
    requires
        same_matrix(e, e2),
        same_cells(e, e2),
    ensures
        forall|a: int, c: int| #[trigger] e2.contains(a, c) == e.contains(a, c),
{
    assert forall|a: int, c: int| #[trigger] e2.contains(a, c) == e.contains(a, c) by {
        lemma_path_digits(e, a, c);
    }
}

/// One step of growth above the deepest stem layer: the cleared bit at
/// `at` in layer `l` is set and a block of cleared bits is put at `child`
/// for it to own. No cell changes, and the new block is the only one that
/// may be empty.
#[verifier::rlimit(50)]
pub proof fn lemma_grow_step(
    e0: Encoding,
    e1: Encoding,
    e2: Encoding,
    l: int,
    at: int,
    child: int,
    d: Seq<int>,
)
    requires
        e0.tree_except(l, (at - e0.layer_begin(l)) / 4),
        0 <= l < e0.depth() - 2,
        l < e0.layer_starts.len(),
        e0.layer_begin(l) <= at < e0.layer_begin(l + 1),
        !e0.stems[at],
        e0.stems.len() + 4 <= max_bits(),
        digits_ok(d, e0.depth() as int),
        alive(e0.levels(), d, l as nat),
        pos(e0.levels(), d, l as nat) == at - e0.layer_begin(l),
        same_matrix(e0, e1),
        e1.stems == e0.stems.update(at, true),
        e1.layer_starts == e0.layer_starts,
        e1.leaves == e0.leaves,
        child == e0.layer_begin(l + 1) + 4 * ones_before(e0.level(l), at - e0.layer_begin(l)),
        same_matrix(e0, e2),
        e2.stems == with_zeros(e1.stems, child, 4),
        starts_moved(e2.layer_starts, e1.layer_starts, l + 1, 4, child),
        e2.leaves == e0.leaves,
        if l + 1 == e0.depth() - 2 {
            shifted_from(e2.stem_to_leaf, e0.stem_to_leaf, child - e0.layer_begin(l + 1), 4)
        } else {
            e2.stem_to_leaf == e0.stem_to_leaf
        },
    ensures
        e2.tree_except(l + 1, ones_before(e0.level(l), at - e0.layer_begin(l)) as int),
        same_cells(e0, e2),
        l + 1 < e2.layer_starts.len(),
        alive(e2.levels(), d, (l + 1) as nat),
        child == e2.layer_begin(l + 1) + 4 * node(e2.levels(), d, (l + 1) as nat),
        forall|i: int| child <= i < child + 4 ==> !e2.stems[i],
        e2.stems.len() == e0.stems.len() + 4,
        e2.layer_begin(l + 1) == e0.layer_begin(l + 1),
        node(e2.levels(), d, (l + 1) as nat) == ones_before(
            e0.level(l),
            at - e0.layer_begin(l),
        ),
{
    let lv = e0.levels();
    let p = at - e0.layer_begin(l);
    let r = ones_before(e0.level(l), p) as int;
    lemma_levels_framed(e0);
    lemma_layer_bounds(e0, l);
    lemma_layer_bounds(e0, l + 1);
    assert(lv[l] == e0.level(l));
    assert(lv[l + 1] == e0.level(l + 1));
    assert(level_fits(lv, l + 1));
    lemma_ones_before_monotone(lv[l], p, lv[l].len() as int);
    lemma_ones_before_all(lv[l]);
    lemma_stem_bit_levels(e0, e1, l, at, true);
    lemma_layer_bounds(e1, l + 1);
    lemma_stem_block_in(e1, e2, l + 1, child);
    lemma_levels_framed(e1);
    assert(e1.levels()[l + 1] == lv[l + 1]);
    assert(e1.level(l + 1) == e0.level(l + 1));
    assert(e2.levels() =~= grown(lv, l, p));
    lemma_grown(lv, l, p);
    lemma_grown_nonzero(lv, l, p);
    lemma_grown_enters(lv, l, p, d);
    lemma_levels_framed(e2);
    let last_stems = e0.depth() - 2;
    assert(e2.levels()[last_stems] == e2.level(last_stems));
    assert(lv[last_stems] == e0.level(last_stems));
    if l + 1 == last_stems {
        lemma_list_with_zeros(e0.stem_to_leaf, e2.stem_to_leaf, e0.level(last_stems), 4 * r);
    }
}

/// The last step of growth: the cleared bit at `at` in the deepest stem
/// layer is set, listed, and given a leaf block in which the bit of the
/// cell `(x, y)` is set. The tree is well formed again and differs from
/// the tree before the growth in that cell alone.
#[verifier::rlimit(50)]
pub proof fn lemma_grow_leaf(e0: Encoding, e2: Encoding, at: int, x: int, y: int)
    requires
        e0.tree_except(e0.depth() - 2, (at - e0.layer_begin(e0.depth() - 2)) / 4),
        e0.layer_starts.len() == e0.depth() - 1,
        0 <= x < e0.matrix_width,
        0 <= y < e0.matrix_width,
        e0.layer_begin(e0.depth() - 2) <= at < e0.stems.len(),
        !e0.stems[at],
        alive(e0.levels(), path(e0.matrix_width as int, x, y), (e0.depth() - 2) as nat),
        pos(e0.levels(), path(e0.matrix_width as int, x, y), (e0.depth() - 2) as nat) == at
            - e0.layer_begin(e0.depth() - 2),
        e0.leaves.len() + 4 <= max_bits(),
        same_matrix(e0, e2),
        e2.stems == e0.stems.update(at, true),
        e2.layer_starts == e0.layer_starts,
        ({
            let p = at - e0.layer_begin(e0.depth() - 2);
            let r = ones_before(e0.level(e0.depth() - 2), p) as int;
            &&& e2.stem_to_leaf == e0.stem_to_leaf.insert(r, p as usize)
            &&& e2.leaves == with_zeros(e0.leaves, 4 * r, 4).update(
                4 * r + path(e0.matrix_width as int, x, y)[e0.depth() - 1],
                true,
            )
        }),
    ensures
        e2.wf(),
        forall|a: int, c: int|
            #[trigger] e2.contains(a, c) == (if a == x && c == y {
                true
            } else {
                e0.contains(a, c)
            }),
        forall|d: Seq<int>|
            digits_ok(d, e0.depth() as int) && d != path(e0.matrix_width as int, x, y)
                ==> #[trigger] cell_set(e2.levels(), d) == cell_set(e0.levels(), d),
{
    let w = e0.matrix_width as int;
    let d = path(w, x, y);
    let l = e0.depth() - 2;
    let lv = e0.levels();
    let p = at - e0.layer_begin(l);
    let r = ones_before(e0.level(l), p) as int;
    lemma_levels_framed(e0);
    lemma_path_digits(e0, x, y);
    lemma_layer_bounds(e0, l);
    assert(lv[l] == e0.level(l));
    assert(lv[l + 1] == e0.leaves);
    assert(level_fits(lv, l + 1));
    lemma_ones_before_monotone(lv[l], p, lv[l].len() as int);
    lemma_ones_before_all(lv[l]);
    let m1 = Encoding { stems: e2.stems, ..e0 };
    lemma_stem_bit_levels(e0, m1, l, at, true);
    let m2 = Encoding {
        leaves: with_zeros(e0.leaves, 4 * r, 4),
        stem_to_leaf: e2.stem_to_leaf,
        ..m1
    };
    lemma_leaves_levels(m1, m2);
    let g = grown(lv, l, p);
    assert(m2.levels() =~= g);
    lemma_grown(lv, l, p);
    lemma_grown_nonzero(lv, l, p);
    lemma_grown_enters(lv, l, p, d);
    let q = 4 * r + d[l + 1];
    assert(0 <= d[l + 1] < 4);
    lemma_leaves_levels(m2, e2);
    let f = flipped(g, q, true);
    assert(e2.levels() =~= f);
    lemma_flipped(g, q, true, d);
    lemma_flipped_nonzero(g, q, true, l + 1, r);
    lemma_list_gains(e0.stem_to_leaf, lv[l], p as usize);
    lemma_levels_framed(e2);
    assert(e2.levels()[l] == e2.level(l));
    assert forall|a: int, c: int|
        #[trigger] e2.contains(a, c) == (if a == x && c == y {
            true
        } else {
            e0.contains(a, c)
        }) by {
        lemma_path_digits(e0, a, c);
        if 0 <= a < w && 0 <= c < w && path(w, a, c) == d {
            lemma_path_injective(w, a, c, x, y);
        }
    }
}

/// Writing the leaf bit of a covered cell changes that cell alone. The
/// block written to is the only one that may be empty afterwards, and
/// when it still holds a set bit the tree is well formed.
#[verifier::rlimit(50)]
pub proof fn lemma_leaf_written(e0: Encoding, e2: Encoding, x: int, y: int, b: bool)
    requires
        e0.tree_except(-1, 0),
        0 <= x < e0.matrix_width,
        0 <= y < e0.matrix_width,
        alive(e0.levels(), path(e0.matrix_width as int, x, y), (e0.depth() - 1) as nat),
        same_matrix(e0, e2),
        e2.stems == e0.stems,
        e2.layer_starts == e0.layer_starts,
        e2.stem_to_leaf == e0.stem_to_leaf,
        e2.leaves == e0.leaves.update(
            pos(e0.levels(), path(e0.matrix_width as int, x, y), (e0.depth() - 1) as nat),
            b,
        ),
    ensures
        ({
            let p = pos(e0.levels(), path(e0.matrix_width as int, x, y), (e0.depth() - 1) as nat);
            &&& 0 <= p < e0.leaves.len()
            &&& e2.tree_except(e0.depth() - 1, p / 4)
            &&& block_nonzero(e2.leaves, p / 4) ==> e2.tree_except(-1, 0)
            &&& e0.contains(x, y) == e0.leaves[p]
        }),
        cell_written(e0, e2, x, y, b),
{
    let w = e0.matrix_width as int;
    let d = path(w, x, y);
    let last = e0.depth() - 1;
    let lv = e0.levels();
    let p = pos(lv, d, last as nat);
    lemma_levels_framed(e0);
    lemma_path_digits(e0, x, y);
    crate::levels::lemma_node_valid(lv, d, last as nat);
    assert(lv[last] == e0.leaves);
    lemma_leaves_levels(e0, e2);
    let f = flipped(lv, p, b);
    assert(e2.levels() =~= f);
    lemma_flipped(lv, p, b, d);
    lemma_flipped_nonzero(lv, p, b, -1, 0);
    lemma_levels_framed(e2);
    assert(e2.levels()[last - 1] == e2.level(last - 1));
    assert(lv[last - 1] == e0.level(last - 1));
    assert(e2.level(last - 1) == e0.level(last - 1));
    if block_nonzero(e2.leaves, p / 4) {
        assert forall|a: int, j: int|
            0 <= a < f.len() && 0 <= j && 4 * j + 4 <= f[a].len() && !(a == -1 && j == 0)
            implies #[trigger] block_nonzero(f[a], j) by {
            if a == last && j == p / 4 {
                assert(f[a] == e2.leaves);
            }
        }
    }
    assert forall|a: int, c: int|
        #[trigger] e2.contains(a, c) == (if a == x && c == y {
            b
        } else {
            e0.contains(a, c)
        }) by {
        lemma_path_digits(e0, a, c);
        if 0 <= a < w && 0 <= c < w && path(w, a, c) == d {
            lemma_path_injective(w, a, c, x, y);
        }
    }
}

/// The first step of pruning: the empty leaf block `idx` is taken out
/// together with its entry in the leaf list, and the bit that owned it
/// is cleared. No cell changes, and the block of that bit is the only
/// one that may be empty.
#[verifier::rlimit(50)]
pub proof fn lemma_prune_leaf(e1: Encoding, e2: Encoding, idx: int)
    requires
        e1.tree_except(e1.depth() - 1, idx),
        0 <= idx < e1.stem_to_leaf.len(),
        e1.stem_to_leaf.len() >= 2,
        !block_nonzero(e1.leaves, idx),
        same_matrix(e1, e2),
        e2.layer_starts == e1.layer_starts,
        e2.stems == e1.stems.update(
            e1.layer_begin(e1.layer_starts.len() - 1) + e1.stem_to_leaf[idx],
            false,
        ),
        e2.stem_to_leaf == e1.stem_to_leaf.remove(idx),
        e2.leaves == without(e1.leaves, 4 * idx, 4),
    ensures
        e1.layer_starts.len() == e1.depth() - 1,
        e2.tree_except(e1.depth() - 2, e1.stem_to_leaf[idx] as int / 4),
        same_cells(e1, e2),
        e2.stem_to_leaf.len() >= 1,
{
    let l = e1.depth() - 2;
    let lv = e1.levels();
    let p = e1.stem_to_leaf[idx] as int;
    lemma_levels_framed(e1);
    lemma_layer_bounds(e1, l);
    assert(lv[l] == e1.level(l));
    assert(lv[l + 1] == e1.leaves);
    assert(level_fits(lv, l + 1));
    assert(e1.stem_to_leaf[idx] < e1.level(l).len());
    assert(e1.layer_starts.len() == e1.depth() - 1);
    let at = e1.layer_begin(l) + p;
    let m1 = Encoding { stems: e2.stems, ..e1 };
    lemma_stem_bit_levels(e1, m1, l, at, false);
    let m2 = Encoding { stem_to_leaf: e2.stem_to_leaf, leaves: e2.leaves, ..m1 };
    lemma_leaves_levels(m1, m2);
    assert(m2 == e2);
    let c = pruned(lv, l, p);
    assert(e2.levels() =~= c);
    lemma_pruned(lv, l, p);
    lemma_pruned_nonzero(lv, l, p);
    lemma_list_loses(e1.stem_to_leaf, lv[l], idx);
    lemma_levels_framed(e2);
    assert(e2.levels()[l] == e2.level(l));
}

/// One step of pruning above the leaves: the empty stem block at `start`
/// in layer `l` is taken out and the bit at `parent` that owned it is
/// cleared. No cell changes, and the block of that bit is the only one
/// that may be empty.
#[verifier::rlimit(50)]
pub proof fn lemma_prune_step(e0: Encoding, e2: Encoding, l: int, start: int, parent: int)
    requires
        e0.tree_except(l, (start - e0.layer_begin(l)) / 4),
        1 <= l <= e0.depth() - 2,
        l < e0.layer_starts.len(),
        e0.stem_to_leaf.len() >= 1,
        e0.layer_begin(l) <= start,
        start + 4 <= e0.layer_begin(l + 1),
        (start - e0.layer_begin(l)) % 4 == 0,
        forall|i: int| start <= i < start + 4 ==> !e0.stems[i],
        e0.layer_begin(l - 1) <= parent < e0.layer_begin(l),
        e0.stems[parent],
        ones_before(e0.level(l - 1), parent - e0.layer_begin(l - 1)) == (start - e0.layer_begin(
            l,
        )) / 4,
        same_matrix(e0, e2),
        e2.stems == without(e0.stems, start, 4).update(parent, false),
        starts_moved(e2.layer_starts, e0.layer_starts, l, -4, 0),
        e2.leaves == e0.leaves,
        if l == e0.depth() - 2 {
            shifted_from(e2.stem_to_leaf, e0.stem_to_leaf, start - e0.layer_begin(l), -4)
        } else {
            e2.stem_to_leaf == e0.stem_to_leaf
        },
    ensures
        e2.tree_except(l - 1, (parent - e0.layer_begin(l - 1)) / 4),
        same_cells(e0, e2),
        e2.stem_to_leaf.len() >= 1,
        e2.layer_begin(l - 1) == e0.layer_begin(l - 1),
        e2.layer_starts.len() == e0.layer_starts.len(),
{
    let lv = e0.levels();
    let j = (start - e0.layer_begin(l)) / 4;
    let pp = parent - e0.layer_begin(l - 1);
    let last_stems = e0.depth() - 2;
    lemma_levels_framed(e0);
    lemma_layer_bounds(e0, l);
    lemma_layer_bounds(e0, l - 1);
    assert(lv[l] == e0.level(l));
    assert(lv[l - 1] == e0.level(l - 1));
    assert(lv[last_stems] == e0.level(last_stems));
    assert(level_fits(lv, l));
    assert(lv[l - 1][pp] == e0.stems[parent]);
    let mine = lv[l];
    assert forall|i: int| 4 * j <= i < 4 * j + 4 implies !mine[i] by {
        assert(mine[i] == e0.stems[e0.layer_begin(l) + i]);
    }
    assert(!block_nonzero(lv[l], j));
    let c = pruned(lv, l - 1, pp);
    lemma_pruned(lv, l - 1, pp);
    lemma_pruned_nonzero(lv, l - 1, pp);
    assert(c[l] == without(lv[l], 4 * j, 4));
    assert(count_ones(c[last_stems]) == e0.stem_to_leaf.len()) by {
        if l == last_stems {
            lemma_without_zeros_inverse(lv[l], 4 * j, 4);
            lemma_count_with_zeros(c[l], 4 * j, 4);
        }
    }
    lemma_levels_populated(c, l - 1);
    let m1 = Encoding {
        stems: without(e0.stems, start, 4),
        layer_starts: e2.layer_starts,
        stem_to_leaf: e2.stem_to_leaf,
        ..e0
    };
    lemma_stem_block_out(e0, m1, l, start);
    lemma_layer_bounds(m1, l - 1);
    lemma_levels_framed(m1);
    lemma_stem_bit_levels(m1, e2, l - 1, parent, false);
    assert(m1.levels()[l - 1] == lv[l - 1]);
    assert(m1.level(l - 1) == e0.level(l - 1));
    assert(e2.levels() =~= c);
    lemma_levels_framed(e2);
    assert(e2.levels()[last_stems] == e2.level(last_stems));
    if l == last_stems {
        lemma_list_without_zeros(e0.stem_to_leaf, e2.stem_to_leaf, lv[l], 4 * j);
    }
}

/// The canonical empty tree is well formed and has no set cell.
pub proof fn lemma_empty_tree(e: Encoding)
    requires
        e.framed(),
        e.is_empty_tree(),
    ensures
        e.wf(),
        forall|a: int, c: int| !(#[trigger] e.contains(a, c)),
{
    lemma_levels_framed(e);
    let lv = e.levels();
    assert(lv[0] == e.level(0));
    assert forall|a: int, c: int| !(#[trigger] e.contains(a, c)) by {
        lemma_path_digits(e, a, c);
        crate::levels::lemma_cleared_level_no_cells(lv, 0, path(e.matrix_width as int, a, c));
    }
}

/// Removing the last leaf leaves the canonical empty tree; neither it nor
/// the tree whose only leaf block is empty has a set cell.
pub proof fn lemma_prune_to_empty(e1: Encoding, e2: Encoding)
    requires
        e1.tree_except(e1.depth() - 1, 0),
        e1.stem_to_leaf.len() == 1,
        !block_nonzero(e1.leaves, 0),
        same_matrix(e1, e2),
        e2.is_empty_tree(),
    ensures
        e2.wf(),
        forall|a: int, c: int| !(#[trigger] e2.contains(a, c)),
        forall|a: int, c: int| !(#[trigger] e1.contains(a, c)),
{
    lemma_levels_framed(e1);
    let last = e1.depth() - 1;
    let lv = e1.levels();
    assert(lv[last] == e1.leaves);
    assert(lv[last - 1] == e1.level(last - 1));
    assert(level_fits(lv, last));
    assert(e2.framed());
    lemma_levels_framed(e2);
    let lv2 = e2.levels();
    assert(lv2[0] == e2.level(0));
    assert forall|a: int, c: int| !(#[trigger] e2.contains(a, c)) by {
        lemma_path_digits(e2, a, c);
        crate::levels::lemma_cleared_level_no_cells(lv2, 0, path(e2.matrix_width as int, a, c));
    }
    assert forall|a: int, c: int| !(#[trigger] e1.contains(a, c)) by {
        lemma_path_digits(e1, a, c);
        crate::levels::lemma_cleared_level_no_cells(lv, last, path(e1.matrix_width as int, a, c));
    }
}

} // verus!
