//! The four arrays of a K²-tree as mathematical sequences, the conditions
//! that make them a tree, and the matrix that such a tree stands for.

use crate::bits::{count_ones, max_bits, zeros};
use crate::counting::{lemma_count_bound, lemma_count_zero_iff, lemma_count_zeros, lists_ones};
use crate::levels::{cell_set, nonzero_except, shaped};
use crate::range::{depth_of, is_pow2, path};
use vstd::prelude::*;

verus! {

/// The fields of a tree: what [`crate::tree::K2Tree`] is a view of.
pub struct Encoding {
    /// Side length of the square matrix.
    pub matrix_width: usize,
    /// Branching factor.
    pub k: usize,
    /// Where each stem layer begins in `stems`, root layer first.
    pub layer_starts: Seq<usize>,
    /// The stem blocks, layer after layer.
    pub stems: Seq<bool>,
    /// For each leaf block, the position in the deepest stem layer of the
    /// bit that owns it.
    pub stem_to_leaf: Seq<usize>,
    /// The leaf blocks.
    pub leaves: Seq<bool>,
}

impl Encoding {
    /// The number of levels over a matrix of this width: the stem layers
    /// of a full tree and the leaf level.
    pub open spec fn depth(self) -> nat {
        depth_of(self.matrix_width as int)
    }

    /// Where stem layer `l` begins; a layer that is not present begins,
    /// and ends, at the end of the stems.
    pub open spec fn layer_begin(self, l: int) -> int {
        if 0 <= l < self.layer_starts.len() {
            self.layer_starts[l] as int
        } else {
            self.stems.len() as int
        }
    }

    /// The bits of level `l`: a stem layer, or the leaves for the last
    /// level.
    pub open spec fn level(self, l: int) -> Seq<bool> {
        if l == self.depth() - 1 {
            self.leaves
        } else {
            self.stems.subrange(self.layer_begin(l), self.layer_begin(l + 1))
        }
    }

    /// All the levels, root first, leaves last.
    pub open spec fn levels(self) -> Seq<Seq<bool>> {
        Seq::new(self.depth(), |l: int| self.level(l))
    }

    /// The layer starts divide the stems into layers: they begin at zero,
    /// ascend strictly and stay inside the stems. The width is a power of
    /// two, the branching factor two, and no more layers are present than
    /// the width allows.
    pub open spec fn framed(self) -> bool {
        &&& self.k == 2
        &&& is_pow2(self.matrix_width as int)
        &&& self.matrix_width >= 4
        &&& 1 <= self.layer_starts.len() <= self.depth() - 1
        &&& self.layer_starts[0] == 0
        &&& forall|i: int, j: int|
            0 <= i < j < self.layer_starts.len() ==> self.layer_starts[i] < self.layer_starts[j]
        &&& self.layer_starts[self.layer_starts.len() - 1] < self.stems.len()
        &&& self.stems.len() <= max_bits()
        &&& self.leaves.len() <= max_bits()
    }

    /// The layers are framed and fit together as the levels of a tree.
    pub open spec fn structured(self) -> bool {
        &&& self.framed()
        &&& shaped(self.levels())
    }

    /// A tree in which every block holds a set bit, except possibly block
    /// `zj` of level `zl`: the state between the steps of a mutation.
    pub open spec fn tree_except(self, zl: int, zj: int) -> bool {
        &&& self.structured()
        &&& lists_ones(self.stem_to_leaf, self.level(self.depth() - 2))
        &&& nonzero_except(self.levels(), zl, zj)
    }

    /// The canonical empty tree: one cleared root block and nothing else.
    pub open spec fn is_empty_tree(self) -> bool {
        &&& self.layer_starts == seq![0usize]
        &&& self.stems == zeros(4)
        &&& self.stem_to_leaf.len() == 0
        &&& self.leaves.len() == 0
    }

    /// The tree is well formed: either the canonical empty tree, or a
    /// tree whose every block holds a set bit.
    pub open spec fn wf(self) -> bool {
        &&& self.framed()
        &&& if self.stem_to_leaf.len() == 0 {
            self.is_empty_tree()
        } else {
            self.tree_except(-1, 0)
        }
    }

    /// Whether the cell `(x, y)` of the matrix is set.
    pub open spec fn contains(self, x: int, y: int) -> bool {
        &&& 0 <= x < self.matrix_width
        &&& 0 <= y < self.matrix_width
        &&& cell_set(self.levels(), path(self.matrix_width as int, x, y))
    }

    /// Whether a leaf block covers the cell `(x, y)`.
    pub open spec fn covered(self, x: int, y: int) -> bool {
        &&& 0 <= x < self.matrix_width
        &&& 0 <= y < self.matrix_width
        &&& crate::levels::alive(
            self.levels(),
            path(self.matrix_width as int, x, y),
            (self.depth() - 1) as nat,
        )
    }

    /// The layer that holds the stem position `at`, searched from layer
    /// `from` on: the last layer that begins at or before the position.
    pub open spec fn layer_from(self, at: int, from: int) -> int
        decreases self.layer_starts.len() - from,
    {
        if 0 <= from && from + 1 < self.layer_starts.len() && self.layer_starts[from + 1] <= at {
            self.layer_from(at, from + 1)
        } else {
            from
        }
    }

    /// The layer that holds the stem position `at`.
    pub open spec fn layer_of(self, at: int) -> int {
        self.layer_from(at, 0)
    }

    /// The set bit at `bit` owns the stem block that starts at
    /// `stem_start` in layer `l`: it lies in the layer above and has as
    /// many set bits of its layer in front of it as layer `l` has blocks
    /// in front of the block.
    pub open spec fn is_parent_bit(self, l: int, stem_start: int, bit: int) -> bool {
        &&& self.layer_begin(l - 1) <= bit < self.layer_begin(l)
        &&& self.stems[bit]
        &&& crate::counting::ones_before(self.level(l - 1), bit - self.layer_begin(l - 1)) == (
        stem_start - self.layer_begin(l)) / 4
    }

    /// Whether the arrays can take the blocks that one new cell may need.
    pub open spec fn has_room(self) -> bool {
        &&& self.stems.len() + 4 * self.depth() <= max_bits()
        &&& self.leaves.len() + 4 <= max_bits()
    }
}

/// The depth of a framed tree is at least two and fits a machine word.
pub proof fn lemma_depth_framed(e: Encoding)
    requires
        is_pow2(e.matrix_width as int),
        e.matrix_width >= 4,
    ensures
        2 <= e.depth() <= 64,
{
    crate::range::lemma_depth_bound(e.matrix_width as int);
    crate::range::lemma_pow2_half(e.matrix_width as int);
    crate::range::lemma_pow2_half(e.matrix_width as int / 2);
}

/// Consecutive layers of a framed tree follow one another inside the
/// stems.
pub proof fn lemma_layer_bounds(e: Encoding, l: int)
    requires
        e.framed(),
        0 <= l,
    ensures
        0 <= e.layer_begin(l) <= e.layer_begin(l + 1) <= e.stems.len(),
        l < e.layer_starts.len() ==> e.layer_begin(l) < e.layer_begin(l + 1),
{
    let n = e.layer_starts.len() as int;
    if l + 1 < n {
        assert(e.layer_starts[l] < e.layer_starts[l + 1]);
    }
    if l < n - 1 {
        assert(e.layer_starts[l] < e.layer_starts[n - 1]);
    }
    if l + 1 < n - 1 {
        assert(e.layer_starts[l + 1] < e.layer_starts[n - 1]);
    }
}

/// The levels of a framed tree, spelled out: their number, the length of
/// each stem layer, and that layers which are not present are empty.
#[verifier::rlimit(50)]
pub proof fn lemma_levels_framed(e: Encoding)
    requires
        e.framed(),
    ensures
        e.levels().len() == e.depth(),
        2 <= e.depth() <= 64,
        forall|l: int| 0 <= l < e.depth() ==> (#[trigger] e.levels()[l]) == e.level(l),
        forall|l: int|
            0 <= l <= e.depth() - 2 ==> (#[trigger] e.level(l)).len() == e.layer_begin(l + 1)
                - e.layer_begin(l),
        e.level(e.depth() - 1) == e.leaves,
{
    lemma_depth_framed(e);
    assert forall|l: int| 0 <= l <= e.depth() - 2 implies (#[trigger] e.level(l)).len()
        == e.layer_begin(l + 1) - e.layer_begin(l) by {
        lemma_layer_bounds(e, l);
    }
}

/// A stem position inside a layer is held by that layer.
pub proof fn lemma_layer_of(e: Encoding, at: int, l: int)
    requires
        e.framed(),
        0 <= l < e.layer_starts.len(),
        e.layer_begin(l) <= at < e.layer_begin(l + 1),
    ensures
        e.layer_of(at) == l,
{
    lemma_layer_from(e, at, l, 0);
}

/// The search for the layer of a position inside layer `l` ends at `l`,
/// wherever at or before `l` it starts.
proof fn lemma_layer_from(e: Encoding, at: int, l: int, from: int)
    requires
        e.framed(),
        0 <= from <= l < e.layer_starts.len(),
        e.layer_begin(l) <= at < e.layer_begin(l + 1),
    ensures
        e.layer_from(at, from) == l,
    decreases l - from,
{
    if from < l {
        assert(e.layer_starts[from + 1] <= e.layer_starts[l]) by {
            if from + 1 < l {
                assert(e.layer_starts[from + 1] < e.layer_starts[l]);
            }
        }
        lemma_layer_from(e, at, l, from + 1);
    }
}

/// Every layer of a structured tree begins at a multiple of four.
pub proof fn lemma_layer_aligned(e: Encoding, l: int)
    requires
        e.structured(),
        0 <= l <= e.depth() - 1,
    ensures
        e.layer_begin(l) % 4 == 0,
        e.stems.len() % 4 == 0,
    decreases l,
{
    lemma_levels_framed(e);
    if l > 0 {
        lemma_layer_aligned(e, l - 1);
        lemma_layer_bounds(e, l - 1);
        assert(e.levels()[l - 1] == e.level(l - 1));
        if l - 1 > 0 {
            assert(e.levels()[l - 2] == e.level(l - 2));
            assert(crate::levels::level_fits(e.levels(), l - 1));
        }
    }
    if l < e.depth() - 1 {
        lemma_layer_aligned_up(e, l);
    }
}

/// Below a layer that begins at a multiple of four, the stems end at
/// one.
proof fn lemma_layer_aligned_up(e: Encoding, l: int)
    requires
        e.structured(),
        0 <= l <= e.depth() - 1,
        e.layer_begin(l) % 4 == 0,
    ensures
        e.stems.len() % 4 == 0,
    decreases e.depth() - l,
{
    lemma_levels_framed(e);
    if l >= e.layer_starts.len() {
    } else {
        lemma_layer_bounds(e, l);
        assert(e.levels()[l] == e.level(l));
        if l > 0 {
            assert(e.levels()[l - 1] == e.level(l - 1));
            assert(crate::levels::level_fits(e.levels(), l));
        }
        if l + 1 <= e.depth() - 1 {
            lemma_layer_aligned_up(e, l + 1);
        }
    }
}

/// A structured tree with a set bit in its last present layer has all the
/// stem layers its width allows.
#[verifier::rlimit(50)]
pub proof fn lemma_full_depth(e: Encoding, p: int)
    requires
        e.structured(),
        e.layer_begin(e.layer_starts.len() - 1) <= p < e.stems.len(),
        e.stems[p],
    ensures
        e.layer_starts.len() == e.depth() - 1,
{
    lemma_levels_framed(e);
    let n = e.layer_starts.len() as int;
    if n < e.depth() - 1 {
        let s = e.level(n - 1);
        assert(e.levels()[n] == e.level(n));
        assert(e.levels()[n - 1] == e.level(n - 1));
        assert(crate::levels::level_fits(e.levels(), n));
        lemma_layer_bounds(e, n);
        lemma_layer_bounds(e, n - 1);
        assert(e.level(n).len() == 0);
        lemma_count_zero_iff(s);
        assert(s[p - e.layer_begin(n - 1)] == e.stems[p]);
    }
}

/// The canonical empty tree is a tree whose only block, the root, is
/// allowed to be empty; none of its cells is set.
#[verifier::rlimit(50)]
pub proof fn lemma_empty_tree_ok(e: Encoding)
    requires
        e.framed(),
        e.is_empty_tree(),
    ensures
        e.tree_except(0, 0),
        count_ones(e.level(e.depth() - 2)) == 0,
{
    lemma_levels_framed(e);
    let lv = e.levels();
    lemma_count_zeros(4);
    assert(e.level(0) =~= zeros(4));
    assert forall|l: int| 1 <= l < lv.len() implies #[trigger] crate::levels::level_fits(lv, l) by {
        assert(lv[l] == e.level(l));
        assert(lv[l - 1] == e.level(l - 1));
        assert(e.level(l).len() == 0);
        if l - 1 > 0 {
            assert(e.level(l - 1).len() == 0);
            lemma_count_bound(e.level(l - 1));
        }
    }
    let last_stems = e.level(e.depth() - 2);
    if e.depth() - 2 > 0 {
        assert(last_stems.len() == 0);
        lemma_count_bound(last_stems);
    }
    assert forall|a: int, j: int|
        0 <= a < lv.len() && 0 <= j && 4 * j + 4 <= lv[a].len() && !(a == 0 && j == 0)
        implies #[trigger] crate::counting::block_nonzero(lv[a], j) by {
        assert(lv[a] == e.level(a));
    }
}

/// In a well-formed tree the layers fit together and the leaf list
/// matches the deepest stem layer.
pub proof fn lemma_wf_structured(e: Encoding)
    requires
        e.wf(),
    ensures
        e.structured(),
        lists_ones(e.stem_to_leaf, e.level(e.depth() - 2)),
        e.tree_except(if e.stem_to_leaf.len() == 0 { 0int } else { -1int }, 0),
{
    if e.stem_to_leaf.len() == 0 {
        lemma_empty_tree_ok(e);
    }
}

} // verus!
