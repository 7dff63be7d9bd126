//! The K²-tree: a sparse square bit matrix kept as stem and leaf blocks.

use crate::bits::{
    block_start, bv_get, bv_len, bv_new, bv_repeat, bv_set, count_ones, insert_block,
    is_one_positions, max_bits, one_positions, ones_in_range,
    remove_block, zeros, Bits,
};
use crate::counting::{
    block_nonzero, lemma_count_bound, lemma_count_zero_iff, lemma_ones_before_all,
    lemma_ones_before_monotone, lemma_ones_before_step, lemma_ones_before_update, lists_ones,
    ones_before, with_zeros, without,
};
use crate::encoding::{
    lemma_depth_framed, lemma_full_depth, lemma_layer_aligned, lemma_layer_bounds,
    lemma_levels_framed, lemma_wf_structured, Encoding,
};
use crate::levels::{
    alive, cell_set, lemma_add_exemption, lemma_alive_above, lemma_levels_populated,
    lemma_list_scan, lemma_list_sorted_complete, lemma_no_exemption, lemma_node_valid, level_fits,
    node, pos, shifted_from,
};
use crate::steps::{
    cell_written, lemma_grow_leaf, lemma_grow_step, lemma_layer_order, lemma_leaf_written,
    lemma_path_digits, lemma_prune_leaf, lemma_prune_step, lemma_prune_to_empty,
    lemma_same_cells_contains, lemma_stem_bit_levels, same_cells, same_matrix, set_bit_outcome,
    starts_moved,
};
use crate::matrix::{
    few_bits, fitting_width, lemma_longest_row, lemma_positions_count, lemma_total_bits_monotone,
    longest_row, matrix_cell, matrix_side, total_bits,
};
use crate::reference::{
    lemma_reference_cells, lemma_reference_wf, reference_cell, reference_encoding,
};
use crate::range::{
    depth_of, digit, is_pow2, lemma_depth_bound, lemma_depth_monotone, lemma_quadrant_holds,
    lemma_quadrant_unique, lemma_square_at, path, square, square_at, to_4_subranges,
    within_range, Range, Square,
};
use vstd::prelude::*;

verus! {

/// A square bit matrix of side `matrix_width`, stored without its empty
/// quadrants.
#[derive(Debug, PartialEq)]
pub struct K2Tree {
    matrix_width: usize,
    k: usize,
    layer_starts: Vec<usize>,
    stems: Bits,
    stem_to_leaf: Vec<usize>,
    leaves: Bits,
}

impl View for K2Tree {
    type V = Encoding;

    /// The arrays of the tree.
    closed spec fn view(&self) -> Encoding {
        Encoding {
            matrix_width: self.matrix_width,
            k: self.k,
            layer_starts: self.layer_starts@,
            stems: self.stems@,
            stem_to_leaf: self.stem_to_leaf@,
            leaves: self.leaves@,
        }
    }
}

impl Clone for K2Tree {
    /// A tree with the same arrays.
    fn clone(&self) -> (copy: Self)
        ensures
            copy@ == self@,
    {
        let copy = K2Tree {
            matrix_width: self.matrix_width,
            k: self.k,
            layer_starts: self.layer_starts.clone(),
            stems: self.stems.clone(),
            stem_to_leaf: self.stem_to_leaf.clone(),
            leaves: self.leaves.clone(),
        };
        proof {
            assert(copy@.layer_starts =~= self@.layer_starts);
            assert(copy@.stem_to_leaf =~= self@.stem_to_leaf);
        }
        copy
    }
}

/// Where a descent towards a cell ended.
#[derive(Debug, Clone, Copy, PartialEq, Eq)]
pub enum DescendResult {
    /// In a leaf block: its first position in the leaves and the two by
    /// two region it covers.
    Leaf(usize, Range),
    /// At a cleared stem bit: the first position of the block holding it
    /// and the region that block covers.
    Stem(usize, Range),
    /// Nowhere: the cell lies outside the matrix.
    Nothing,
}

/// The cell a descent is heading for, and the deepest stem layer present.
pub struct DescendEnv {
    /// The first coordinate of the cell.
    pub x: usize,
    /// The second coordinate of the cell.
    pub y: usize,
    /// The index of the deepest stem layer present.
    pub stem_layer_max: usize,
}

/// A descent towards `(x, y)` has reached the block at `stem_pos` in
/// `layer`, which covers `range`.
pub open spec fn descent_at(
    e: Encoding,
    x: int,
    y: int,
    layer: int,
    stem_pos: int,
    range: Square,
) -> bool {
    let d = path(e.matrix_width as int, x, y);
    &&& 0 <= layer < e.layer_starts.len()
    &&& alive(e.levels(), d, layer as nat)
    &&& stem_pos == e.layer_begin(layer) + 4 * node(e.levels(), d, layer as nat)
    &&& range == square_at(e.matrix_width as int, x, y, layer as nat)
}

/// The descent towards `(x, y)` stops in the block at `stem_start`, which
/// covers `range`, because the bit for the cell's quadrant is cleared.
pub open spec fn stops_at(e: Encoding, x: int, y: int, stem_start: int, range: Square) -> bool {
    let d = path(e.matrix_width as int, x, y);
    let m = e.depth() - depth_of(range.side());
    &&& descent_at(e, x, y, m, stem_start, range)
    &&& !e.stems[stem_start + d[m]]
}

/// The descent towards `(x, y)` ends in the leaf block at `leaf_start`,
/// which covers `range`.
pub open spec fn lands_on(e: Encoding, x: int, y: int, leaf_start: int, range: Square) -> bool {
    let d = path(e.matrix_width as int, x, y);
    let last = (e.depth() - 1) as nat;
    &&& e.layer_starts.len() == e.depth() - 1
    &&& alive(e.levels(), d, last)
    &&& leaf_start == 4 * node(e.levels(), d, last)
    &&& range == square_at(e.matrix_width as int, x, y, last)
}

/// A descent that ends in a leaf block has reached the block that holds
/// the cell: the cell's bit sits at the cell's quadrant number inside the
/// block, and the tree has a leaf.
#[verifier::rlimit(50)]
pub proof fn lemma_landed(e: Encoding, x: int, y: int, leaf_start: int, range: Square)
    requires
        e.wf(),
        0 <= x < e.matrix_width,
        0 <= y < e.matrix_width,
        lands_on(e, x, y, leaf_start, range),
    ensures
        range.contains(x, y),
        range.side() == 2,
        range.y1 - range.y0 == 1,
        0 <= range.quadrant_of(x, y) < 4,
        leaf_start % 4 == 0,
        0 <= leaf_start,
        leaf_start + 4 <= e.leaves.len(),
        leaf_start + range.quadrant_of(x, y) == pos(
            e.levels(),
            path(e.matrix_width as int, x, y),
            (e.depth() - 1) as nat,
        ),
        e.contains(x, y) == e.leaves[leaf_start + range.quadrant_of(x, y)],
        e.covered(x, y),
        e.stem_to_leaf.len() > 0,
        e.tree_except(-1, 0),
{
    let w = e.matrix_width as int;
    let d = path(w, x, y);
    let last = (e.depth() - 1) as nat;
    lemma_wf_structured(e);
    lemma_levels_framed(e);
    lemma_path_digits(e, x, y);
    lemma_square_at(w, x, y, last);
    crate::range::lemma_depth_one(range.side());
    lemma_quadrant_holds(range, x, y);
    lemma_node_valid(e.levels(), d, last);
    assert(d[last as int] == digit(w, x, y, last));
    assert(e.levels()[last as int] == e.leaves);
    assert(e.levels()[last - 1] == e.level(last - 1));
    assert(level_fits(e.levels(), last as int));
    assert(e.levels().len() == last + 1);
}

/// A descent that stops at a cleared stem bit shows that no leaf covers
/// the cell, and that the cell is not set.
#[verifier::rlimit(50)]
pub proof fn lemma_stopped(e: Encoding, x: int, y: int, stem_start: int, range: Square)
    requires
        e.wf(),
        0 <= x < e.matrix_width,
        0 <= y < e.matrix_width,
        stops_at(e, x, y, stem_start, range),
    ensures
        !e.contains(x, y),
        !e.covered(x, y),
{
    let d = path(e.matrix_width as int, x, y);
    let m = (e.depth() - depth_of(range.side())) as nat;
    lemma_wf_structured(e);
    lemma_levels_framed(e);
    lemma_path_digits(e, x, y);
    lemma_node_valid(e.levels(), d, m);
    lemma_layer_bounds(e, m as int);
    assert(e.levels()[m as int] == e.level(m as int));
    assert(e.level(m as int)[pos(e.levels(), d, m)] == e.stems[stem_start + d[m as int]]);
    assert(!alive(e.levels(), d, m + 1));
    if alive(e.levels(), d, (e.depth() - 1) as nat) {
        lemma_alive_above(e.levels(), d, (e.depth() - 1) as nat, m + 1);
    }
    if cell_set(e.levels(), d) {
        lemma_alive_above(e.levels(), d, e.depth(), m + 1);
    }
}

/// The number of halvings that take `w` down to one.
fn halvings(w: usize) -> (n: usize)
    ensures
        n == depth_of(w as int),
        n <= 64,
{
    let mut rest = w;
    let mut n: usize = 0;
    proof {
        if w >= 1 {
            lemma_depth_bound(w as int);
        }
    }
    while rest > 1
        invariant
            n + depth_of(rest as int) == depth_of(w as int),
            depth_of(w as int) <= 64,
        decreases rest,
    {
        rest = rest / 2;
        n += 1;
    }
    n
}

impl K2Tree {
    /// The tree is well formed.
    pub open spec fn wf(&self) -> bool {
        self@.wf()
    }

    /// An empty tree with branching factor `k` over a matrix of side `k³`.
    pub fn new(k: usize) -> (tree: Self)
        requires
            k >= 2,
            k * k * k <= usize::MAX,
        ensures
            tree@.matrix_width == k * k * k,
            tree@.k == k,
            tree@.layer_starts == seq![0usize],
            tree@.stems == zeros((k * k) as nat),
            tree@.stem_to_leaf == Seq::<usize>::empty(),
            tree@.leaves == Seq::<bool>::empty(),
            k == 2 ==> tree.wf(),
            k == 2 ==> forall|x: int, y: int| !(#[trigger] tree@.contains(x, y)),
            k == 2 ==> tree@.has_room(),
    {
        proof {
            assert(k * k <= k * k * k) by (nonlinear_arith)
                requires
                    k >= 2,
            ;
            assert(k * k * 8 <= k * k * k * k * k * k) by (nonlinear_arith)
                requires
                    k >= 2,
            ;
            assert(k * k * k * k * k * k == (k * k * k) * (k * k * k)) by (nonlinear_arith);
            assert(k * k <= max_bits()) by (nonlinear_arith)
                requires
                    k >= 2,
                    k * k * k <= usize::MAX,
            ;
        }
        let width = k * k * k;
        let mut layer_starts: Vec<usize> = Vec::new();
        layer_starts.push(0);
        let tree = K2Tree {
            matrix_width: width,
            k,
            layer_starts,
            stems: bv_repeat(false, k * k),
            stem_to_leaf: Vec::new(),
            leaves: bv_new(),
        };
        proof {
            assert(tree@.layer_starts =~= seq![0usize]);
            assert(tree@.stems =~= zeros((k * k) as nat));
            if k == 2 {
                assert(is_pow2(8)) by {
                    reveal_with_fuel(is_pow2, 4);
                }
                assert(depth_of(8) == 3) by {
                    reveal_with_fuel(depth_of, 4);
                }
                crate::steps::lemma_empty_tree(tree@);
            }
        }
        tree
    }

    /// The reference tree: the tree over an eight by eight matrix whose set
    /// cells are `(0, 4)`, `(4, 1)`, `(4, 5)`, `(5, 0)`, `(5, 4)`,
    /// `(6, 2)`, `(7, 0)`, `(7, 1)` and `(7, 2)`.
    pub fn test_tree() -> (tree: Self)
        ensures
            tree.wf(),
            tree@ == reference_encoding(),
            forall|x: int, y: int| #[trigger] tree@.contains(x, y) == reference_cell(x, y),
            tree@.has_room(),
    {
        let stems = vec![
            false, true, true, true,
            true, true, false, true,
            true, false, false, false,
            true, false, false, false,
        ];
        let leaves = vec![
            false, true, true, false,
            false, true, false, true,
            true, true, false, false,
            true, false, false, false,
            false, true, true, false,
        ];
        let tree = K2Tree {
            matrix_width: 8,
            k: 2,
            layer_starts: vec![0, 4],
            stems: Bits::from_bools(&stems),
            stem_to_leaf: vec![0, 1, 3, 4, 8],
            leaves: Bits::from_bools(&leaves),
        };
        proof {
            let e = tree@;
            let r = reference_encoding();
            assert(e.layer_starts =~= r.layer_starts);
            assert(e.stems =~= r.stems);
            assert(e.stem_to_leaf =~= r.stem_to_leaf);
            assert(e.leaves =~= r.leaves);
            lemma_reference_wf();
            lemma_reference_cells();
            lemma_depth_framed(e);
        }
        tree
    }

    /// Side length of the matrix.
    pub fn matrix_width(&self) -> (w: usize)
        ensures
            w == self@.matrix_width,
    {
        self.matrix_width
    }

    /// Branching factor.
    pub fn k(&self) -> (k: usize)
        ensures
            k == self@.k,
    {
        self.k
    }

    /// Where each stem layer begins.
    pub fn layer_starts(&self) -> (v: &Vec<usize>)
        ensures
            v@ == self@.layer_starts,
    {
        &self.layer_starts
    }

    /// The stem blocks.
    pub fn stems(&self) -> (b: &Bits)
        ensures
            b@ == self@.stems,
    {
        &self.stems
    }

    /// The owner of each leaf block.
    pub fn stem_to_leaf(&self) -> (v: &Vec<usize>)
        ensures
            v@ == self@.stem_to_leaf,
    {
        &self.stem_to_leaf
    }

    /// The leaf blocks.
    pub fn leaves(&self) -> (b: &Bits)
        ensures
            b@ == self@.leaves,
    {
        &self.leaves
    }

    /// The number of levels over the matrix, the leaf level included.
    pub fn total_layers(&self) -> (n: usize)
        ensures
            n == self@.depth(),
            n <= 64,
    {
        halvings(self.matrix_width)
    }

    /// The layer of a stem block that covers the region `r`.
    pub fn layer_from_range(&self, r: Range) -> (layer: usize)
        requires
            r[0][0] <= r[0][1],
            r[0][1] - r[0][0] < self@.matrix_width,
        ensures
            layer == self@.depth() - depth_of(square(r).side()),
    {
        let r_width = r[0][1] - r[0][0] + 1;
        proof {
            lemma_depth_monotone(r_width as int, self.matrix_width as int);
        }
        halvings(self.matrix_width) - halvings(r_width)
    }

    /// Where stem layer `l` begins; for the layer after the last, where
    /// the stems end.
    pub fn layer_start(&self, l: usize) -> (start: usize)
        requires
            l <= self@.layer_starts.len(),
        ensures
            start == self@.layer_begin(l as int),
    {
        if l == self.layer_starts.len() {
            bv_len(&self.stems)
        } else {
            self.layer_starts[l]
        }
    }

    /// The number of bits in stem layer `l`.
    pub fn layer_len(&self, l: usize) -> (len: usize)
        requires
            self@.framed(),
            l < self@.layer_starts.len(),
        ensures
            len == self@.layer_begin(l + 1) - self@.layer_begin(l as int),
    {
        proof {
            lemma_layer_bounds(self@, l as int);
        }
        if l == self.layer_starts.len() - 1 {
            return bv_len(&self.stems) - self.layer_starts[l];
        }
        self.layer_starts[l + 1] - self.layer_starts[l]
    }

    /// The number of set bits of `layer` in front of the stem position
    /// `bit_pos`: how many blocks of the next layer come before the
    /// block owned by that bit.
    pub fn num_stems_before_child(&self, bit_pos: usize, layer: usize) -> (n: usize)
        requires
            layer <= self@.layer_starts.len(),
            self@.layer_begin(layer as int) <= bit_pos <= self@.stems.len(),
        ensures
            n == count_ones(self@.stems.subrange(self@.layer_begin(layer as int), bit_pos as int)),
            n <= bit_pos - self@.layer_begin(layer as int),
    {
        let layer_start = self.layer_start(layer);
        ones_in_range(&self.stems, layer_start, bit_pos)
    }

    /// The first leaf position of the leaf block owned by the set bit at
    /// `stem_bitpos` in the deepest stem layer; fails for a cleared bit.
    #[verifier::loop_isolation(false)]
    #[verifier::rlimit(50)]
    pub fn leaf_start(&self, stem_bitpos: usize) -> (res: Result<usize, ()>)
        requires
            self.wf(),
            self@.layer_begin(self@.layer_starts.len() - 1) <= stem_bitpos < self@.stems.len(),
        ensures
            res is Ok <==> self@.stems[stem_bitpos as int],
            res matches Ok(start) ==> {
                let p = stem_bitpos - self@.layer_begin(self@.layer_starts.len() - 1);
                &&& start % 4 == 0
                &&& start + 4 <= self@.leaves.len()
                &&& self@.stem_to_leaf[start as int / 4] == p
                &&& start == 4 * ones_before(self@.level(self@.depth() - 2), p)
            },
    {
        if !bv_get(&self.stems, stem_bitpos) {
            return Err(());
        }
        let last = self.layer_starts.len() - 1;
        let target = stem_bitpos - self.layer_starts[last];
        proof {
            let e = self@;
            lemma_wf_structured(e);
            lemma_levels_framed(e);
            lemma_full_depth(e, stem_bitpos as int);
            let s = e.level(e.depth() - 2);
            lemma_list_sorted_complete(e.stem_to_leaf, s);
            assert(s[target as int]);
            assert(e.levels()[e.depth() - 1] == e.leaves);
            assert(e.levels()[e.depth() - 2] == s);
            assert(crate::levels::level_fits(e.levels(), e.depth() - 1));
        }
        let mut i: usize = 0;
        while i < self.stem_to_leaf.len()
            invariant
                i <= self.stem_to_leaf@.len(),
                4 * self.stem_to_leaf@.len() == self@.leaves.len() <= max_bits(),
                forall|k: int| 0 <= k < i ==> self.stem_to_leaf@[k] != target,
            decreases self.stem_to_leaf@.len() - i,
        {
            if self.stem_to_leaf[i] == target {
                return Ok(i * 4);
            }
            i += 1;
        }
        Err(())
    }

    /// The first stem position of the block owned by bit `nth_child` of
    /// the block at `stem_start` in `layer`; fails for a cleared bit and
    /// for the deepest stem layer, whose bits own leaves.
    #[verifier::rlimit(50)]
    pub fn child_stem(&self, layer: usize, stem_start: usize, nth_child: usize) -> (res: Result<
        usize,
        (),
    >)
        requires
            self@.framed(),
            layer < self@.layer_starts.len(),
            self@.layer_begin(layer as int) <= stem_start + nth_child < self@.layer_begin(
                layer + 1,
            ),
        ensures
            res is Ok <==> self@.stems[stem_start + nth_child] && layer != self@.depth() - 2,
            res matches Ok(child) ==> child == self@.layer_begin(layer + 1) + 4 * ones_before(
                self@.level(layer as int),
                stem_start + nth_child - self@.layer_begin(layer as int),
            ),
    {
        proof {
            lemma_layer_bounds(self@, layer as int);
            lemma_levels_framed(self@);
        }
        if !bv_get(&self.stems, stem_start + nth_child) || layer == self.total_layers() - 2 {
            return Err(());
        }
        let before = self.num_stems_before_child(stem_start + nth_child, layer);
        proof {
            let e = self@;
            let lb = e.layer_begin(layer as int);
            assert(e.level(layer as int).take(stem_start + nth_child - lb) =~= e.stems.subrange(
                lb,
                stem_start + nth_child,
            ));
        }
        Ok(self.layer_start(layer + 1) + before * 4)
    }

    /// Follows the path of the cell named by `env` from the block at
    /// `stem_pos` in `layer`, which covers `range`, down to a leaf block or
    /// to the first cleared stem bit.
    #[verifier::loop_isolation(false)]
    #[verifier::rlimit(50)]
    pub fn descend(&self, env: &DescendEnv, layer: usize, stem_pos: usize, range: Range) -> (res:
        DescendResult)
        requires
            self.wf(),
            env.stem_layer_max == self@.layer_starts.len() - 1,
            square(range) == square_at(
                self@.matrix_width as int,
                env.x as int,
                env.y as int,
                layer as nat,
            ),
            layer == 0 && stem_pos == 0 || (env.x < self@.matrix_width && env.y
                < self@.matrix_width),
            env.x < self@.matrix_width && env.y < self@.matrix_width ==> descent_at(
                self@,
                env.x as int,
                env.y as int,
                layer as int,
                stem_pos as int,
                square(range),
            ),
        ensures
            match res {
                DescendResult::Leaf(leaf_start, leaf_range) => lands_on(
                    self@,
                    env.x as int,
                    env.y as int,
                    leaf_start as int,
                    square(leaf_range),
                ),
                DescendResult::Stem(stem_start, stem_range) => stops_at(
                    self@,
                    env.x as int,
                    env.y as int,
                    stem_start as int,
                    square(stem_range),
                ),
                DescendResult::Nothing => true,
            },
            res is Nothing <==> !(env.x < self@.matrix_width && env.y < self@.matrix_width),
        decreases self@.layer_starts.len() - layer,
    {
        let ghost e = self@;
        let ghost w = e.matrix_width as int;
        let ghost x = env.x as int;
        let ghost y = env.y as int;
        let ghost d = path(w, x, y);
        let ghost lv = e.levels();
        let ghost inside = env.x < self.matrix_width && env.y < self.matrix_width;
        proof {
            lemma_wf_structured(e);
            lemma_levels_framed(e);
            if inside {
                lemma_square_at(w, x, y, layer as nat);
                lemma_node_valid(lv, d, layer as nat);
                lemma_layer_bounds(e, layer as int);
                assert(lv[layer as int] == e.level(layer as int));
            }
        }
        let subranges = to_4_subranges(range);
        let mut child_pos: usize = 0;
        while child_pos < 4
            invariant
                child_pos <= 4,
                forall|c: int|
                    0 <= c < child_pos ==> !(#[trigger] square(subranges[c])).contains(x, y),
                forall|q: int|
                    0 <= q < 4 ==> square(#[trigger] subranges[q]) == square(range).quadrant(q),
                e == self@,
                x == env.x,
                y == env.y,
            decreases 4 - child_pos,
        {
            if within_range(&subranges[child_pos], env.x, env.y) {
                proof {
                    lemma_quadrant_unique(square(range), child_pos as int, x, y);
                    assert(inside);
                    assert(d[layer as int] == digit(w, x, y, layer as nat));
                    assert(child_pos == d[layer as int]);
                    assert(e.level(layer as int)[pos(lv, d, layer as nat)] == e.stems[stem_pos
                        + child_pos]);
                    lemma_square_at(w, x, y, (layer + 1) as nat);
                    lemma_depth_bound(square(range).side());
                }
                if !bv_get(&self.stems, stem_pos + child_pos) {
                    return DescendResult::Stem(stem_pos, range);
                } else if layer == env.stem_layer_max {
                    proof {
                        lemma_full_depth(e, stem_pos + child_pos);
                    }
                    let leaf_start = self.leaf_start(stem_pos + child_pos).unwrap();
                    return DescendResult::Leaf(leaf_start, subranges[child_pos]);
                } else {
                    let child = self.child_stem(layer, stem_pos, child_pos).unwrap();
                    return self.descend(env, layer + 1, child, subranges[child_pos]);
                }
            }
            child_pos += 1;
        }
        proof {
            if inside {
                lemma_quadrant_holds(square(range), x, y);
                let q = square(range).quadrant_of(x, y);
                assert(square(subranges[q]).contains(x, y));
            }
        }
        DescendResult::Nothing
    }

    /// Descends from the root towards the cell `(x, y)`.
    pub fn matrix_bit(&self, x: usize, y: usize, m_width: usize) -> (res: DescendResult)
        requires
            self.wf(),
            m_width == self@.matrix_width,
        ensures
            match res {
                DescendResult::Leaf(leaf_start, leaf_range) => lands_on(
                    self@,
                    x as int,
                    y as int,
                    leaf_start as int,
                    square(leaf_range),
                ),
                DescendResult::Stem(stem_start, stem_range) => stops_at(
                    self@,
                    x as int,
                    y as int,
                    stem_start as int,
                    square(stem_range),
                ),
                DescendResult::Nothing => true,
            },
            res is Nothing <==> !(x < self@.matrix_width && y < self@.matrix_width),
    {
        let env = DescendEnv { x, y, stem_layer_max: self.layer_starts.len() - 1 };
        self.descend(&env, 0, 0, [[0, m_width - 1], [0, m_width - 1]])
    }

    /// Whether the cell `(x, y)` is set. Cells outside the matrix are not.
    pub fn get_bit(&self, x: usize, y: usize) -> (bit: bool)
        requires
            self.wf(),
        ensures
            bit == self@.contains(x as int, y as int),
    {
        match self.matrix_bit(x, y, self.matrix_width) {
            DescendResult::Leaf(leaf_start, leaf_range) => {
                let offset = leaf_offset(&leaf_range, x, y);
                proof {
                    lemma_landed(self@, x as int, y as int, leaf_start as int, square(leaf_range));
                }
                bv_get(&self.leaves, leaf_start + offset)
            },
            DescendResult::Stem(stem_start, stem_range) => {
                proof {
                    lemma_stopped(self@, x as int, y as int, stem_start as int, square(stem_range));
                }
                false
            },
            DescendResult::Nothing => false,
        }
    }
}

impl K2Tree {
    /// The block and the bit inside it that own the stem block starting
    /// at `stem_start`, which must lie below the root layer.
    #[verifier::loop_isolation(false)]
    #[verifier::rlimit(50)]
    pub fn parent(&self, stem_start: usize) -> (res: (usize, usize))
        requires
            self@.structured(),
            self@.layer_starts.len() >= 2,
            self@.layer_starts[1] <= stem_start < self@.stems.len(),
        ensures
            self@.is_parent_bit(self@.layer_of(stem_start as int), stem_start as int, res.0 + res.1),
            res.1 < 4,
            self@.layer_begin(self@.layer_of(stem_start as int) - 1) <= res.0,
            (res.0 - self@.layer_begin(self@.layer_of(stem_start as int) - 1)) % 4 == 0,
            1 <= self@.layer_of(stem_start as int) < self@.layer_starts.len(),
            self@.layer_begin(self@.layer_of(stem_start as int)) <= stem_start < self@.layer_begin(
                self@.layer_of(stem_start as int) + 1,
            ),
    {
        let ghost e = self@;
        let n = self.layer_starts.len();
        let mut layer: usize = 1;
        while layer + 1 < n && self.layer_starts[layer + 1] <= stem_start
            invariant
                1 <= layer < n,
                self.layer_starts@[layer as int] <= stem_start,
            decreases n - layer,
        {
            layer += 1;
        }
        let parent_layer_start = self.layer_starts[layer - 1];
        let curr_layer_start = self.layer_starts[layer];
        let nth = (stem_start - curr_layer_start) / 4;
        let ghost above = e.level(layer - 1);
        proof {
            lemma_levels_framed(e);
            lemma_layer_bounds(e, layer as int);
            lemma_layer_bounds(e, layer - 1);
            crate::encoding::lemma_layer_of(e, stem_start as int, layer as int);
            assert(e.levels()[layer as int] == e.level(layer as int));
            assert(e.levels()[layer - 1] == above);
            assert(level_fits(e.levels(), layer as int));
            assert(nth < count_ones(above));
            lemma_ones_before_all(above);
        }
        let mut bit_pos: usize = 0;
        let mut seen: usize = 0;
        let mut found = false;
        while !found
            invariant
                parent_layer_start + bit_pos < curr_layer_start,
                seen == ones_before(above, bit_pos as int),
                seen <= nth,
                found ==> above[bit_pos as int] && seen == nth,
            decreases curr_layer_start - bit_pos + (if found { 0int } else { 1int }),
        {
            proof {
                lemma_ones_before_step(above, bit_pos as int);
                lemma_ones_before_monotone(above, bit_pos + 1, above.len() as int);
                assert(above[bit_pos as int] == e.stems[parent_layer_start + bit_pos]);
            }
            if bv_get(&self.stems, parent_layer_start + bit_pos) {
                if seen == nth {
                    found = true;
                } else {
                    seen += 1;
                    bit_pos += 1;
                }
            } else {
                bit_pos += 1;
            }
        }
        proof {
            lemma_layer_aligned(e, layer as int);
            lemma_layer_aligned(e, layer - 1);
            assert(above[bit_pos as int] == e.stems[parent_layer_start + bit_pos]);
        }
        ((bit_pos / 4) * 4 + parent_layer_start, bit_pos % 4)
    }

    /// The first position of the block that holds the bit owning the stem
    /// block at `stem_start`.
    pub fn parent_stem(&self, stem_start: usize) -> (start: usize)
        requires
            self@.structured(),
            self@.layer_starts.len() >= 2,
            self@.layer_starts[1] <= stem_start < self@.stems.len(),
        ensures
            exists|bit: int|
                {
                    &&& #[trigger] self@.is_parent_bit(
                        self@.layer_of(stem_start as int),
                        stem_start as int,
                        bit,
                    )
                    &&& start == self@.layer_begin(self@.layer_of(stem_start as int) - 1) + (bit
                        - self@.layer_begin(self@.layer_of(stem_start as int) - 1)) / 4 * 4
                },
    {
        let res = self.parent(stem_start);
        proof {
            let l = self@.layer_of(stem_start as int);
            assert(self@.is_parent_bit(l, stem_start as int, res.0 + res.1));
        }
        res.0
    }

    /// The stem position of the bit owning the stem block at `stem_start`.
    pub fn parent_bit(&self, stem_start: usize) -> (bit: usize)
        requires
            self@.structured(),
            self@.layer_starts.len() >= 2,
            self@.layer_starts[1] <= stem_start < self@.stems.len(),
        ensures
            self@.is_parent_bit(self@.layer_of(stem_start as int), stem_start as int, bit as int),
    {
        let (stem_start_of_parent, bit_offset) = self.parent(stem_start);
        proof {
            lemma_layer_bounds(self@, self@.layer_of(stem_start as int) - 1);
        }
        stem_start_of_parent + bit_offset
    }
}

/// The growth towards `(x, y)` has reached the block at `stem_start` in
/// `layer`: the block covers `range`, is the only one that may be empty,
/// and its bit for the cell's quadrant is cleared.
pub open spec fn growing_at(
    e: Encoding,
    x: int,
    y: int,
    layer: int,
    stem_start: int,
    range: Square,
) -> bool {
    &&& e.tree_except(layer, (stem_start - e.layer_begin(layer)) / 4)
    &&& 0 <= x < e.matrix_width
    &&& 0 <= y < e.matrix_width
    &&& descent_at(e, x, y, layer, stem_start, range)
    &&& !e.stems[stem_start + path(e.matrix_width as int, x, y)[layer]]
    &&& layer <= e.depth() - 2
}

impl K2Tree {
    /// One step of growth above the deepest stem layer: sets the bit of
    /// the cell's quadrant in the block at `stem_start` and gives it an
    /// empty block in the next layer. Returns where that block starts and
    /// the region it covers.
    #[verifier::rlimit(60)]
    fn grow_layer(&mut self, layer: usize, stem_start: usize, stem_range: Range, x: usize, y: usize)
        -> (res: (usize, Range))
        requires
            growing_at(
                old(self)@,
                x as int,
                y as int,
                layer as int,
                stem_start as int,
                square(stem_range),
            ),
            layer < old(self)@.depth() - 2,
            old(self)@.stems.len() + 4 <= max_bits(),
        ensures
            growing_at(
                final(self)@,
                x as int,
                y as int,
                layer + 1,
                res.0 as int,
                square(res.1),
            ),
            same_matrix(old(self)@, final(self)@),
            same_cells(old(self)@, final(self)@),
            final(self)@.stems.len() == old(self)@.stems.len() + 4,
            final(self)@.leaves == old(self)@.leaves,
    {
        let ghost e0 = self@;
        let ghost w = e0.matrix_width as int;
        let ghost d = path(w, x as int, y as int);
        let ghost lv = e0.levels();
        proof {
            lemma_levels_framed(e0);
            lemma_path_digits(e0, x as int, y as int);
            lemma_square_at(w, x as int, y as int, layer as nat);
            lemma_square_at(w, x as int, y as int, (layer + 1) as nat);
            lemma_node_valid(lv, d, layer as nat);
            lemma_layer_bounds(e0, layer as int);
            lemma_layer_bounds(e0, layer + 1);
            lemma_layer_aligned(e0, layer + 1);
            lemma_quadrant_holds(square(stem_range), x as int, y as int);
            lemma_depth_bound(square(stem_range).side());
            assert(d[layer as int] == digit(w, x as int, y as int, layer as nat));
            assert(lv[layer as int] == e0.level(layer as int));
            assert(lv[layer + 1] == e0.level(layer + 1));
            assert(level_fits(lv, layer + 1));
        }
        let subranges = to_4_subranges(stem_range);
        let child_pos = quadrant_index(&subranges, x, y);
        proof {
            let q = square(stem_range).quadrant_of(x as int, y as int);
            assert(square(subranges[q]).contains(x as int, y as int));
            lemma_quadrant_unique(square(stem_range), child_pos as int, x as int, y as int);
        }
        let ghost at = stem_start + child_pos;
        let ghost p = at - e0.layer_begin(layer as int);
        bv_set(&mut self.stems, stem_start + child_pos, true);
        let ghost e1 = self@;
        proof {
            lemma_stem_bit_levels(e0, e1, layer as int, at, true);
            lemma_levels_framed(e1);
            lemma_layer_bounds(e1, layer as int);
            lemma_ones_before_update(e0.level(layer as int), p, true, p);
            lemma_ones_before_monotone(e0.level(layer as int), p, e0.level(layer as int).len() as int);
            lemma_ones_before_all(e0.level(layer as int));
            assert(e1.levels()[layer as int] == e1.level(layer as int));
        }
        let child = self.place_child(layer, stem_start, child_pos);
        if layer + 1 == self.total_layers() - 2 {
            let layer_start = self.layer_starts[layer + 1];
            shift_from_value(&mut self.stem_to_leaf, child - layer_start, true);
        }
        proof {
            lemma_grow_step(e0, e1, self@, layer as int, at, child as int, d);
            assert(d[layer + 1] == digit(w, x as int, y as int, (layer + 1) as nat));
        }
        (child, subranges[child_pos])
    }

    /// Puts an empty block into layer `layer + 1` for the set bit
    /// `nth_child` of the block at `stem_start` to own, starting the layer
    /// when it is not present yet, and moves the starts of the layers
    /// behind it. Returns where the new block starts.
    #[verifier::rlimit(50)]
    fn place_child(&mut self, layer: usize, stem_start: usize, nth_child: usize) -> (child: usize)
        requires
            old(self)@.framed(),
            layer < old(self)@.layer_starts.len(),
            layer < old(self)@.depth() - 2,
            old(self)@.layer_begin(layer as int) <= stem_start + nth_child < old(
                self,
            )@.layer_begin(layer + 1),
            old(self)@.stems[stem_start + nth_child],
            old(self)@.stems.len() + 4 <= max_bits(),
            old(self)@.layer_begin(layer + 1) % 4 == 0,
            old(self)@.layer_begin(layer + 1) + 4 * ones_before(
                old(self)@.level(layer as int),
                stem_start + nth_child - old(self)@.layer_begin(layer as int),
            ) <= old(self)@.layer_begin(layer + 2),
            layer == old(self)@.layer_starts.len() - 1 ==> ones_before(
                old(self)@.level(layer as int),
                stem_start + nth_child - old(self)@.layer_begin(layer as int),
            ) == 0,
        ensures
            child == old(self)@.layer_begin(layer + 1) + 4 * ones_before(
                old(self)@.level(layer as int),
                stem_start + nth_child - old(self)@.layer_begin(layer as int),
            ),
            same_matrix(old(self)@, final(self)@),
            final(self)@.stems == with_zeros(old(self)@.stems, child as int, 4),
            starts_moved(
                final(self)@.layer_starts,
                old(self)@.layer_starts,
                layer + 1,
                4,
                child as int,
            ),
            final(self)@.leaves == old(self)@.leaves,
            final(self)@.stem_to_leaf == old(self)@.stem_to_leaf,
            layer + 1 < final(self)@.layer_starts.len(),
            final(self)@.layer_starts[layer + 1] <= child,
    {
        let ghost e1 = self@;
        proof {
            lemma_levels_framed(e1);
            lemma_layer_bounds(e1, layer as int);
            lemma_layer_bounds(e1, layer + 1);
            let s = e1.level(layer as int);
            let p = stem_start + nth_child - e1.layer_begin(layer as int);
            lemma_ones_before_monotone(s, p, s.len() as int);
            lemma_count_bound(s.take(p));
            assert forall|i: int| layer + 2 <= i < e1.layer_starts.len() implies (
            #[trigger] e1.layer_starts[i]) + 4 <= usize::MAX by {
                lemma_layer_order(e1, i, i);
            }
        }
        let child: usize;
        if layer == self.layer_starts.len() - 1 {
            child = bv_len(&self.stems);
            self.layer_starts.push(child);
            insert_block(&mut self.stems, child, 4).unwrap();
        } else {
            child = self.child_stem(layer, stem_start, nth_child).unwrap();
            insert_block(&mut self.stems, child, 4).unwrap();
            shift_tail(&mut self.layer_starts, layer + 2, true);
        }
        child
    }

    /// The last step of growth: sets the bit of the cell's quadrant in the
    /// block at `stem_start` of the deepest stem layer, lists it, gives it
    /// a leaf block and sets the cell's bit there.
    #[verifier::rlimit(60)]
    fn grow_leaf(&mut self, stem_start: usize, stem_range: Range, x: usize, y: usize)
        requires
            growing_at(
                old(self)@,
                x as int,
                y as int,
                old(self)@.depth() - 2,
                stem_start as int,
                square(stem_range),
            ),
            old(self)@.leaves.len() + 4 <= max_bits(),
        ensures
            final(self).wf(),
            same_matrix(old(self)@, final(self)@),
            cell_written(old(self)@, final(self)@, x as int, y as int, true),
            final(self)@.stems.len() == old(self)@.stems.len(),
            final(self)@.leaves.len() == old(self)@.leaves.len() + 4,
    {
        let ghost e0 = self@;
        let ghost w = e0.matrix_width as int;
        let ghost d = path(w, x as int, y as int);
        let ghost lv = e0.levels();
        let ghost layer = e0.depth() - 2;
        proof {
            lemma_levels_framed(e0);
            lemma_path_digits(e0, x as int, y as int);
            lemma_square_at(w, x as int, y as int, layer as nat);
            lemma_square_at(w, x as int, y as int, (layer + 1) as nat);
            lemma_node_valid(lv, d, layer as nat);
            lemma_layer_bounds(e0, layer);
            lemma_quadrant_holds(square(stem_range), x as int, y as int);
            lemma_depth_bound(square(stem_range).side());
            assert(d[layer] == digit(w, x as int, y as int, layer as nat));
            assert(d[layer + 1] == digit(w, x as int, y as int, (layer + 1) as nat));
            assert(lv[layer] == e0.level(layer));
            assert(lv[layer + 1] == e0.leaves);
            assert(level_fits(lv, layer + 1));
        }
        let subranges = to_4_subranges(stem_range);
        let child_pos = quadrant_index(&subranges, x, y);
        proof {
            let q = square(stem_range).quadrant_of(x as int, y as int);
            assert(square(subranges[q]).contains(x as int, y as int));
            lemma_quadrant_unique(square(stem_range), child_pos as int, x as int, y as int);
        }
        bv_set(&mut self.stems, stem_start + child_pos, true);
        let last = self.layer_starts.len() - 1;
        let layer_bit_pos = (stem_start + child_pos) - self.layer_starts[last];
        let mut stem_to_leaf_pos: usize = 0;
        while stem_to_leaf_pos < self.stem_to_leaf.len() && self.stem_to_leaf[stem_to_leaf_pos]
            < layer_bit_pos
            invariant
                stem_to_leaf_pos <= self.stem_to_leaf@.len(),
                self.stem_to_leaf@ == e0.stem_to_leaf,
                forall|k: int| 0 <= k < stem_to_leaf_pos ==> self.stem_to_leaf@[k] < layer_bit_pos,
            decreases self.stem_to_leaf@.len() - stem_to_leaf_pos,
        {
            stem_to_leaf_pos += 1;
        }
        proof {
            lemma_list_scan(
                e0.stem_to_leaf,
                e0.level(layer),
                layer_bit_pos as int,
                stem_to_leaf_pos as int,
            );
            lemma_ones_before_monotone(
                e0.level(layer),
                layer_bit_pos as int,
                e0.level(layer).len() as int,
            );
            lemma_ones_before_all(e0.level(layer));
        }
        self.stem_to_leaf.insert(stem_to_leaf_pos, layer_bit_pos);
        let leaf_start = stem_to_leaf_pos * 4;
        insert_block(&mut self.leaves, leaf_start, 4).unwrap();
        let offset = leaf_offset(&subranges[child_pos], x, y);
        proof {
            crate::range::lemma_depth_one(square(subranges[child_pos as int]).side());
        }
        bv_set(&mut self.leaves, leaf_start + offset, true);
        proof {
            lemma_grow_leaf(e0, self@, stem_start + child_pos, x as int, y as int);
        }
    }

    /// Extends the tree from the block at `stem_start`, where the descent
    /// towards the cell `(x, y)` stopped, down to a new leaf block, and
    /// sets the cell's bit there.
    #[verifier::rlimit(50)]
    fn grow(&mut self, stem_start: usize, stem_range: Range, x: usize, y: usize)
        requires
            old(self).wf(),
            x < old(self)@.matrix_width,
            y < old(self)@.matrix_width,
            stops_at(old(self)@, x as int, y as int, stem_start as int, square(stem_range)),
            old(self)@.has_room(),
        ensures
            final(self).wf(),
            same_matrix(old(self)@, final(self)@),
            cell_written(old(self)@, final(self)@, x as int, y as int, true),
            final(self)@.stems.len() <= old(self)@.stems.len() + 4 * old(self)@.depth(),
            final(self)@.leaves.len() <= old(self)@.leaves.len() + 4,
    {
        let ghost e_in = self@;
        let ghost w = e_in.matrix_width as int;
        let ghost d = path(w, x as int, y as int);
        proof {
            lemma_wf_structured(e_in);
            lemma_levels_framed(e_in);
            lemma_path_digits(e_in, x as int, y as int);
            let m = e_in.depth() - depth_of(square(stem_range).side());
            lemma_square_at(w, x as int, y as int, m as nat);
            lemma_node_valid(e_in.levels(), d, m as nat);
            lemma_layer_bounds(e_in, m);
            lemma_add_exemption(
                e_in.levels(),
                if e_in.stem_to_leaf.len() == 0 { 0int } else { -1int },
                0,
                m,
                node(e_in.levels(), d, m as nat),
            );
        }
        let mut layer = self.layer_from_range(stem_range);
        let layer_max = self.total_layers() - 2;
        let mut stem_start = stem_start;
        let mut stem_range = stem_range;
        while layer < layer_max
            invariant
                growing_at(self@, x as int, y as int, layer as int, stem_start as int, square(
                    stem_range,
                )),
                same_matrix(e_in, self@),
                same_cells(e_in, self@),
                layer <= layer_max == e_in.depth() - 2,
                self@.stems.len() + 4 * (layer_max - layer) + 4 <= max_bits(),
                self@.stems.len() + 4 * (layer_max - layer) <= e_in.stems.len() + 4 * e_in.depth(),
                self@.leaves == e_in.leaves,
                self@.leaves.len() + 4 <= max_bits(),
            decreases layer_max - layer,
        {
            let (child, subrange) = self.grow_layer(layer, stem_start, stem_range, x, y);
            stem_start = child;
            stem_range = subrange;
            layer += 1;
        }
        let ghost e0 = self@;
        self.grow_leaf(stem_start, stem_range, x, y);
        proof {
            lemma_same_cells_contains(e_in, e0);
        }
    }

    /// The first step of pruning: takes out the leaf block at
    /// `leaf_start`, which holds no set bit, with its entry in the leaf
    /// list, and clears the stem bit that owned it. Returns where the
    /// block of that bit starts, or nothing when the tree was left empty.
    #[verifier::rlimit(60)]
    fn remove_leaf(&mut self, leaf_start: usize) -> (res: Option<usize>)
        requires
            old(self)@.tree_except(old(self)@.depth() - 1, leaf_start as int / 4),
            leaf_start % 4 == 0,
            leaf_start + 4 <= old(self)@.leaves.len(),
            !block_nonzero(old(self)@.leaves, leaf_start as int / 4),
        ensures
            same_matrix(old(self)@, final(self)@),
            forall|a: int, c: int| #[trigger] final(self)@.contains(a, c) == old(self)@.contains(a, c),
            final(self)@.stems.len() <= old(self)@.stems.len(),
            final(self)@.leaves.len() <= old(self)@.leaves.len(),
            match res {
                Some(stem_start) => pruning_at(
                    final(self)@,
                    final(self)@.depth() - 2,
                    stem_start as int,
                ),
                None => final(self).wf(),
            },
    {
        let ghost e1 = self@;
        proof {
            lemma_levels_framed(e1);
            let lv = e1.levels();
            assert(lv[e1.depth() - 1] == e1.leaves);
            assert(lv[e1.depth() - 2] == e1.level(e1.depth() - 2));
            assert(level_fits(lv, e1.depth() - 1));
            lemma_layer_bounds(e1, 0);
            assert(lv[0] == e1.level(0));
        }
        remove_block(&mut self.leaves, leaf_start, 4).unwrap();
        let idx = leaf_start / 4;
        let stem_bit_pos = self.stem_to_leaf[idx];
        self.stem_to_leaf.remove(idx);
        if self.stem_to_leaf.len() == 0 {
            self.stems = bv_repeat(false, 4);
            let mut starts: Vec<usize> = Vec::new();
            starts.push(0);
            self.layer_starts = starts;
            proof {
                assert(self@.layer_starts =~= seq![0usize]);
                assert(self@.stems =~= zeros(4));
                lemma_prune_to_empty(e1, self@);
            }
            return None;
        }
        let last = self.layer_starts.len() - 1;
        let layer_start = self.layer_starts[last];
        proof {
            lemma_layer_bounds(e1, e1.depth() - 2);
        }
        bv_set(&mut self.stems, layer_start + stem_bit_pos, false);
        proof {
            lemma_prune_leaf(e1, self@, idx as int);
            lemma_layer_bounds(self@, last as int);
            lemma_layer_aligned(self@, last as int);
            lemma_layer_aligned(self@, last + 1);
            lemma_same_cells_contains(e1, self@);
        }
        Some(layer_start + block_start(stem_bit_pos, 4))
    }

    /// One step of pruning above the leaves: takes out the stem block at
    /// `stem_start` in `curr_layer`, which holds no set bit, and clears
    /// the bit that owned it. Returns where the block of that bit starts.
    #[verifier::rlimit(60)]
    fn remove_stem(&mut self, curr_layer: usize, stem_start: usize) -> (parent_start: usize)
        requires
            pruning_at(old(self)@, curr_layer as int, stem_start as int),
            curr_layer >= 1,
            count_ones(old(self)@.stems.subrange(stem_start as int, stem_start + 4)) == 0,
        ensures
            pruning_at(final(self)@, curr_layer - 1, parent_start as int),
            same_matrix(old(self)@, final(self)@),
            same_cells(old(self)@, final(self)@),
            final(self)@.stems.len() <= old(self)@.stems.len(),
            final(self)@.leaves == old(self)@.leaves,
    {
        let ghost e0 = self@;
        proof {
            lemma_levels_framed(e0);
            lemma_count_zero_iff(e0.stems.subrange(stem_start as int, stem_start + 4));
            assert forall|i: int| stem_start <= i < stem_start + 4 implies !e0.stems[i] by {
                assert(e0.stems.subrange(stem_start as int, stem_start + 4)[i - stem_start]
                    == e0.stems[i]);
            }
            lemma_layer_order(e0, 1, curr_layer as int);
            lemma_layer_bounds(e0, curr_layer as int);
            lemma_layer_bounds(e0, curr_layer - 1);
            crate::encoding::lemma_layer_of(e0, stem_start as int, curr_layer as int);
            lemma_layer_aligned(e0, curr_layer as int);
            lemma_layer_aligned(e0, curr_layer - 1);
            assert forall|i: int| curr_layer + 1 <= i < e0.layer_starts.len() implies (
            #[trigger] e0.layer_starts[i]) >= 4 by {
                lemma_layer_order(e0, curr_layer + 1, i);
            }
        }
        let (parent_start, bit_offset) = self.parent(stem_start);
        let in_layer = stem_start - self.layer_starts[curr_layer];
        shift_tail(&mut self.layer_starts, curr_layer + 1, false);
        remove_block(&mut self.stems, stem_start, 4).unwrap();
        if curr_layer == self.layer_starts.len() - 1 {
            proof {
                let s = e0.level(curr_layer as int);
                assert forall|i: int|
                    0 <= i < e0.stem_to_leaf.len() && e0.stem_to_leaf[i] >= in_layer implies (
                #[trigger] e0.stem_to_leaf[i]) >= 4 by {
                    let v = e0.stem_to_leaf[i] as int;
                    assert(s[v]);
                    assert(s[v] == e0.stems[e0.layer_begin(curr_layer as int) + v]);
                }
            }
            shift_from_value(&mut self.stem_to_leaf, in_layer, false);
        }
        bv_set(&mut self.stems, parent_start + bit_offset, false);
        proof {
            lemma_prune_step(
                e0,
                self@,
                curr_layer as int,
                stem_start as int,
                parent_start + bit_offset,
            );
            lemma_layer_bounds(self@, curr_layer - 1);
            lemma_layer_order(self@, curr_layer as int, self@.layer_starts.len() as int);
        }
        parent_start
    }

    /// Takes out the leaf block at `leaf_start`, which holds no set bit,
    /// and every stem block that is left without a set bit by it.
    #[verifier::rlimit(50)]
    fn prune(&mut self, leaf_start: usize)
        requires
            old(self)@.tree_except(old(self)@.depth() - 1, leaf_start as int / 4),
            leaf_start % 4 == 0,
            leaf_start + 4 <= old(self)@.leaves.len(),
            !block_nonzero(old(self)@.leaves, leaf_start as int / 4),
        ensures
            final(self).wf(),
            same_matrix(old(self)@, final(self)@),
            forall|a: int, c: int| #[trigger] final(self)@.contains(a, c) == old(self)@.contains(a, c),
            final(self)@.stems.len() <= old(self)@.stems.len(),
            final(self)@.leaves.len() <= old(self)@.leaves.len(),
    {
        let ghost e_in = self@;
        match self.remove_leaf(leaf_start) {
            None => {},
            Some(start) => {
                let ghost e1 = self@;
                let mut stem_start = start;
                let mut curr_layer = self.layer_starts.len() - 1;
                while curr_layer > 0 && ones_in_range(&self.stems, stem_start, stem_start + 4) == 0
                    invariant
                        pruning_at(self@, curr_layer as int, stem_start as int),
                        same_matrix(e1, self@),
                        same_cells(e1, self@),
                        self@.stems.len() <= e1.stems.len(),
                        self@.leaves == e1.leaves,
                        stem_start + 4 <= self@.stems.len(),
                    decreases curr_layer,
                {
                    stem_start = self.remove_stem(curr_layer, stem_start);
                    curr_layer -= 1;
                }
                proof {
                    lemma_pruning_done(self@, curr_layer as int, stem_start as int);
                    lemma_same_cells_contains(e1, self@);
                }
            },
        }
    }

    /// Writes the bit of the cell `(x, y)` in the leaf block at
    /// `leaf_start`, which covers `leaf_range`, and prunes the block when
    /// that leaves it without a set bit.
    #[verifier::rlimit(60)]
    fn write_leaf(&mut self, leaf_start: usize, leaf_range: Range, x: usize, y: usize, state: bool)
        requires
            old(self).wf(),
            x < old(self)@.matrix_width,
            y < old(self)@.matrix_width,
            lands_on(old(self)@, x as int, y as int, leaf_start as int, square(leaf_range)),
        ensures
            final(self).wf(),
            same_matrix(old(self)@, final(self)@),
            cell_written(old(self)@, final(self)@, x as int, y as int, state),
            old(self)@.contains(x as int, y as int) == state ==> final(self)@ == old(self)@,
            final(self)@.stems.len() <= old(self)@.stems.len(),
            final(self)@.leaves.len() <= old(self)@.leaves.len(),
    {
        let ghost e = self@;
        let offset = leaf_offset(&leaf_range, x, y);
        proof {
            lemma_landed(e, x as int, y as int, leaf_start as int, square(leaf_range));
            lemma_levels_framed(e);
        }
        bv_set(&mut self.leaves, leaf_start + offset, state);
        let ghost e2 = self@;
        proof {
            lemma_leaf_written(e, e2, x as int, y as int, state);
            let blk = e2.leaves.subrange(leaf_start as int, leaf_start + 4);
            lemma_count_zero_iff(blk);
            assert(blk[0] == e2.leaves[leaf_start as int]);
            assert(blk[1] == e2.leaves[leaf_start + 1]);
            assert(blk[2] == e2.leaves[leaf_start + 2]);
            assert(blk[3] == e2.leaves[leaf_start + 3]);
            if e.contains(x as int, y as int) == state {
                assert(e2.leaves =~= e.leaves);
                assert(block_nonzero(e.levels()[e.depth() - 1], leaf_start as int / 4));
            }
        }
        if ones_in_range(&self.leaves, leaf_start, leaf_start + 4) == 0 {
            self.prune(leaf_start);
        }
    }

    /// Writes the cell `(x, y)`.
    ///
    /// Setting a cell in an empty quadrant grows the tree down to a new
    /// leaf; clearing the last set cell of a leaf prunes the leaf and the
    /// stem blocks left empty by it. Fails, changing nothing, for a cell
    /// outside the matrix, and when the tree has to grow but the arrays
    /// have no room for the new blocks.
    #[verifier::rlimit(50)]
    pub fn set_bit(&mut self, x: usize, y: usize, state: bool) -> (res: Result<(), ()>)
        requires
            old(self).wf(),
        ensures
            set_bit_outcome(old(self)@, final(self)@, x as int, y as int, state, res is Ok),
    {
        let ghost e = self@;
        match self.matrix_bit(x, y, self.matrix_width) {
            DescendResult::Leaf(leaf_start, leaf_range) => {
                proof {
                    lemma_landed(e, x as int, y as int, leaf_start as int, square(leaf_range));
                }
                self.write_leaf(leaf_start, leaf_range, x, y, state);
                Ok(())
            },
            DescendResult::Stem(stem_start, stem_range) => {
                proof {
                    lemma_stopped(e, x as int, y as int, stem_start as int, square(stem_range));
                    lemma_depth_framed(e);
                }
                if state {
                    let cap = usize::MAX / 8;
                    let depth = self.total_layers();
                    if bv_len(&self.stems) > cap - 4 * depth || bv_len(&self.leaves) > cap - 4 {
                        return Err(());
                    }
                    self.grow(stem_start, stem_range, x, y);
                    Ok(())
                } else {
                    Ok(())
                }
            },
            DescendResult::Nothing => Err(()),
        }
    }
}

/// The side of the smallest square that holds the matrix.
fn side_of(m: &Vec<Bits>) -> (side: usize)
    ensures
        side == matrix_side(m@),
{
    let mut longest: usize = 0;
    let mut i: usize = 0;
    while i < m.len()
        invariant
            i <= m.len(),
            longest == longest_row(m@, i as int),
        decreases m.len() - i,
    {
        let len = bv_len(&m[i]);
        if len > longest {
            longest = len;
        }
        i += 1;
    }
    if m.len() >= longest {
        m.len()
    } else {
        longest
    }
}

/// The width of the tree for a matrix of the given side, when a machine
/// word can hold it.
fn width_for(side: usize) -> (res: Option<usize>)
    ensures
        res matches Some(w) ==> fitting_width(w as int, side as int),
        res is None ==> !exists|w: usize| fitting_width(w as int, side as int),
{
    let mut w: usize = 8;
    proof {
        assert(is_pow2(8)) by {
            reveal_with_fuel(is_pow2, 4);
        }
    }
    while w < side
        invariant
            is_pow2(w as int),
            w >= 8,
            w > 8 ==> w / 2 < side,
        decreases (if w < side { side - w } else { 0 }),
    {
        if w > usize::MAX / 2 {
            proof {
                assert forall|v: usize| !fitting_width(v as int, side as int) by {
                    if fitting_width(v as int, side as int) {
                        crate::range::lemma_pow2_gap(w as int, v as int);
                    }
                }
            }
            return None;
        }
        proof {
            crate::range::lemma_pow2_double(w as int);
        }
        w = w * 2;
    }
    Some(w)
}

impl K2Tree {
    /// The empty tree over a matrix of side `width`.
    fn with_width(width: usize) -> (tree: Self)
        requires
            is_pow2(width as int),
            width >= 4,
        ensures
            tree.wf(),
            tree@.is_empty_tree(),
            tree@.matrix_width == width,
            tree@.k == 2,
            forall|a: int, c: int| !(#[trigger] tree@.contains(a, c)),
    {
        let tree = K2Tree {
            matrix_width: width,
            k: 2,
            layer_starts: vec![0],
            stems: bv_repeat(false, 4),
            stem_to_leaf: Vec::new(),
            leaves: bv_new(),
        };
        proof {
            assert(tree@.layer_starts =~= seq![0usize]);
            assert(tree@.stems =~= zeros(4));
            lemma_depth_framed(tree@);
            crate::steps::lemma_empty_tree(tree@);
        }
        tree
    }

    /// Sets the cells of row `x` of the matrix `m`, whose set bits stand
    /// at `positions`.
    #[verifier::loop_isolation(false)]
    #[verifier::rlimit(50)]
    fn fill_row(&mut self, m: &Vec<Bits>, x: usize, positions: &Vec<usize>) -> (res: Result<(), ()>)
        requires
            old(self).wf(),
            x < m.len(),
            matrix_side(m@) <= old(self)@.matrix_width,
            is_one_positions(positions@, m[x as int]@),
            forall|a: int, c: int| #[trigger]
                old(self)@.contains(a, c) == (a < x && matrix_cell(m@, a, c)),
            old(self)@.stems.len() <= 4 + 256 * total_bits(m@, x as int),
            old(self)@.leaves.len() <= 4 * total_bits(m@, x as int),
        ensures
            final(self).wf(),
            same_matrix(old(self)@, final(self)@),
            res is Ok ==> {
                &&& forall|a: int, c: int| #[trigger]
                    final(self)@.contains(a, c) == (a < x + 1 && matrix_cell(m@, a, c))
                &&& final(self)@.stems.len() <= 4 + 256 * total_bits(m@, x + 1)
                &&& final(self)@.leaves.len() <= 4 * total_bits(m@, x + 1)
            },
            few_bits(m@) ==> res is Ok,
    {
        let ghost e_in = self@;
        let ghost row = m[x as int]@;
        proof {
            lemma_positions_count(positions@, row);
            lemma_longest_row(m@, m@.len() as int, x as int);
            lemma_total_bits_monotone(m@, x + 1, m@.len() as int);
            lemma_total_bits_monotone(m@, x as int, x as int);
            lemma_wf_structured(e_in);
            lemma_levels_framed(e_in);
        }
        let mut i: usize = 0;
        while i < positions.len()
            invariant
                i <= positions@.len() <= row.len(),
                row == m[x as int]@,
                x < m.len(),
                self.wf(),
                same_matrix(e_in, self@),
                e_in.depth() <= 64,
                matrix_side(m@) <= e_in.matrix_width,
                row.len() <= matrix_side(m@),
                m@.len() <= matrix_side(m@),
                is_one_positions(positions@, row),
                forall|a: int, c: int| #[trigger]
                    self@.contains(a, c) == ((a < x && matrix_cell(m@, a, c)) || (a == x
                        && exists|k: int| 0 <= k < i && #[trigger] positions@[k] == c)),
                self@.stems.len() <= 4 + 256 * (total_bits(m@, x as int) + i),
                self@.leaves.len() <= 4 * (total_bits(m@, x as int) + i),
                0 <= total_bits(m@, x as int),
                total_bits(m@, x as int) + row.len() <= total_bits(m@, m@.len() as int),
            decreases positions@.len() - i,
        {
            let y = positions[i];
            let ghost before = self@;
            let outcome = self.set_bit(x, y, true);
            if outcome.is_err() {
                return Err(());
            }
            proof {
                let after = self@;
                assert forall|a: int, c: int| #[trigger]
                    after.contains(a, c) == ((a < x && matrix_cell(m@, a, c)) || (a == x
                        && exists|k: int| 0 <= k < i + 1 && #[trigger] positions@[k] == c)) by {
                    if a == x && c == y {
                        assert(positions@[i as int] == c);
                    } else {
                        assert(after.contains(a, c) == before.contains(a, c));
                        if a == x {
                            if exists|k: int| 0 <= k < i + 1 && #[trigger] positions@[k] == c {
                                let k = choose|k: int| 0 <= k < i + 1 && #[trigger] positions@[k] == c;
                                assert(k < i);
                            }
                        }
                    }
                }
            }
            i += 1;
        }
        proof {
            let after = self@;
            assert forall|a: int, c: int| #[trigger]
                after.contains(a, c) == (a < x + 1 && matrix_cell(m@, a, c)) by {
                if a == x {
                    if matrix_cell(m@, a, c) {
                        let k = choose|k: int| 0 <= k < positions@.len() && #[trigger] positions@[k] == c;
                        assert(positions@[k] == c);
                    }
                    if exists|k: int| 0 <= k < i && #[trigger] positions@[k] == c {
                        let k = choose|k: int| 0 <= k < i && #[trigger] positions@[k] == c;
                        assert(positions@[k] < row.len() && row[positions@[k] as int]);
                    }
                }
            }
        }
        Ok(())
    }

    /// The tree of the dense matrix `m`: cell `(x, y)` is set exactly
    /// when row `x` of `m` has a set bit at position `y`.
    ///
    /// The tree is as wide as the smallest power of two that is at least
    /// eight and holds every row and every position. Fails when no
    /// machine word holds such a width, or when the arrays run out of
    /// room, which they do not for a matrix of few enough bits.
    #[verifier::rlimit(50)]
    pub fn from_matrix(m: Vec<Bits>) -> (res: Result<Self, ()>)
        ensures
            res matches Ok(tree) ==> {
                &&& tree.wf()
                &&& tree@.k == 2
                &&& fitting_width(tree@.matrix_width as int, matrix_side(m@))
                &&& forall|x: int, y: int| #[trigger] tree@.contains(x, y) == matrix_cell(m@, x, y)
            },
            (exists|w: usize| fitting_width(w as int, matrix_side(m@))) && few_bits(m@) ==> res is Ok,
            !(exists|w: usize| fitting_width(w as int, matrix_side(m@))) ==> res is Err,
    {
        let side = side_of(&m);
        let width = match width_for(side) {
            Some(w) => w,
            None => {
                return Err(());
            },
        };
        let mut tree = K2Tree::with_width(width);
        let mut x: usize = 0;
        while x < m.len()
            invariant
                x <= m.len(),
                tree.wf(),
                tree@.k == 2,
                tree@.matrix_width == width,
                fitting_width(width as int, matrix_side(m@)),
                forall|a: int, c: int| #[trigger]
                    tree@.contains(a, c) == (a < x && matrix_cell(m@, a, c)),
                tree@.stems.len() <= 4 + 256 * total_bits(m@, x as int),
                tree@.leaves.len() <= 4 * total_bits(m@, x as int),
            decreases m.len() - x,
        {
            let positions = one_positions(&m[x]);
            match tree.fill_row(&m, x, &positions) {
                Ok(()) => {},
                Err(()) => {
                    return Err(());
                },
            }
            x += 1;
        }
        Ok(tree)
    }
}

/// The pruning has reached the block at `stem_start` in `layer`: it is the
/// only block that may be empty, and the tree still has a leaf.
pub open spec fn pruning_at(e: Encoding, layer: int, stem_start: int) -> bool {
    &&& e.tree_except(layer, (stem_start - e.layer_begin(layer)) / 4)
    &&& e.stem_to_leaf.len() >= 1
    &&& 0 <= layer < e.layer_starts.len()
    &&& e.layer_starts.len() == e.depth() - 1
    &&& e.layer_begin(layer) <= stem_start
    &&& stem_start + 4 <= e.layer_begin(layer + 1)
    &&& stem_start + 4 <= e.stems.len()
    &&& (stem_start - e.layer_begin(layer)) % 4 == 0
}

/// Pruning ends at a block that holds a set bit, or at the root, which
/// holds one as long as the tree has a leaf: the tree is well formed.
#[verifier::rlimit(50)]
pub proof fn lemma_pruning_done(e: Encoding, layer: int, stem_start: int)
    requires
        pruning_at(e, layer, stem_start),
        layer == 0 || count_ones(e.stems.subrange(stem_start, stem_start + 4)) != 0,
    ensures
        e.wf(),
{
    let lv = e.levels();
    let j = (stem_start - e.layer_begin(layer)) / 4;
    lemma_levels_framed(e);
    lemma_layer_bounds(e, layer);
    let mine = lv[layer];
    assert(mine == e.level(layer));
    assert(lv[e.depth() - 2] == e.level(e.depth() - 2));
    if layer == 0 {
        lemma_levels_populated(lv, 0);
        lemma_count_zero_iff(mine);
        assert(block_nonzero(mine, 0));
    } else {
        let blk = e.stems.subrange(stem_start, stem_start + 4);
        lemma_count_zero_iff(blk);
        let i = choose|i: int| 0 <= i < blk.len() && blk[i];
        assert(mine[4 * j + i] == blk[i]);
        assert(block_nonzero(mine, j));
    }
    lemma_no_exemption(lv, layer, j);
}

/// Moves every entry of `v` from index `from` on by four, up or down.
fn shift_tail(v: &mut Vec<usize>, from: usize, up: bool)
    requires
        forall|i: int|
            from <= i < old(v)@.len() ==> (if up {
                old(v)@[i] + 4 <= usize::MAX
            } else {
                old(v)@[i] >= 4
            }),
    ensures
        final(v)@.len() == old(v)@.len(),
        forall|i: int|
            0 <= i < old(v)@.len() ==> (#[trigger] final(v)@[i]) == old(v)@[i] + (if i >= from {
                if up {
                    4int
                } else {
                    -4int
                }
            } else {
                0int
            }),
{
    let ghost before = v@;
    let mut i: usize = from;
    while i < v.len()
        invariant
            from <= i,
            v@.len() == before.len(),
            forall|k: int|
                from <= k < before.len() ==> (if up {
                    before[k] + 4 <= usize::MAX
                } else {
                    before[k] >= 4
                }),
            forall|k: int|
                0 <= k < before.len() ==> (#[trigger] v@[k]) == before[k] + (if from <= k < i {
                    if up {
                        4int
                    } else {
                        -4int
                    }
                } else {
                    0int
                }),
        decreases v@.len() - i,
    {
        let moved = if up {
            v[i] + 4
        } else {
            v[i] - 4
        };
        v.set(i, moved);
        i += 1;
    }
}

/// Moves every entry of `v` that is at least `at` by four, up or down.
fn shift_from_value(v: &mut Vec<usize>, at: usize, up: bool)
    requires
        forall|i: int|
            0 <= i < old(v)@.len() && old(v)@[i] >= at ==> (if up {
                old(v)@[i] + 4 <= usize::MAX
            } else {
                old(v)@[i] >= 4
            }),
    ensures
        shifted_from(final(v)@, old(v)@, at as int, if up { 4int } else { -4int }),
{
    let ghost before = v@;
    let mut i: usize = 0;
    while i < v.len()
        invariant
            v@.len() == before.len(),
            forall|k: int|
                0 <= k < before.len() && before[k] >= at ==> (if up {
                    before[k] + 4 <= usize::MAX
                } else {
                    before[k] >= 4
                }),
            forall|k: int|
                0 <= k < before.len() ==> (#[trigger] v@[k]) == before[k] + (if k < i && before[k]
                    >= at {
                    if up {
                        4int
                    } else {
                        -4int
                    }
                } else {
                    0int
                }),
        decreases v@.len() - i,
    {
        if v[i] >= at {
            let moved = if up {
                v[i] + 4
            } else {
                v[i] - 4
            };
            v.set(i, moved);
        }
        i += 1;
    }
}

/// The quadrant of a split region that holds the cell `(x, y)`; four when
/// none does.
pub fn quadrant_index(subranges: &[Range; 4], x: usize, y: usize) -> (q: usize)
    ensures
        q <= 4,
        q < 4 ==> square(subranges[q as int]).contains(x as int, y as int),
        forall|c: int| 0 <= c < q ==> !(#[trigger] square(subranges[c])).contains(x as int, y as int),
{
    let mut child_pos: usize = 0;
    while child_pos < 4
        invariant
            child_pos <= 4,
            forall|c: int|
                0 <= c < child_pos ==> !(#[trigger] square(subranges[c])).contains(
                    x as int,
                    y as int,
                ),
        decreases 4 - child_pos,
    {
        if within_range(&subranges[child_pos], x, y) {
            return child_pos;
        }
        child_pos += 1;
    }
    4
}

/// The position inside its leaf block of the cell `(x, y)`, where the
/// block covers the two by two region `leaf_range`: zero and one for the
/// row of the region's first `y`, two and three for the other, and in
/// each row the region's first `x` first.
pub fn leaf_offset(leaf_range: &Range, x: usize, y: usize) -> (offset: usize)
    ensures
        offset == (if x == leaf_range[0][0] { 0int } else { 1int }) + (if y == leaf_range[1][0] {
            0int
        } else {
            2int
        }),
{
    if x == leaf_range[0][0] {
        if y == leaf_range[1][0] {
            0
        } else {
            2
        }
    } else {
        if y == leaf_range[1][0] {
            1
        } else {
            3
        }
    }
}

} // verus!
