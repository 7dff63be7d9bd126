//! The tree as a list of levels, each a bit sequence made of four-bit
//! blocks, and the cells it holds.
//!
//! Level 0 is the single root block. Every set bit of a level owns one
//! block of the next level: the bit with `n` set bits in front of it owns
//! block `n`. The last level is made of the leaf blocks. A cell is reached
//! by following its path, one quadrant number per level, from the root;
//! it is set when every bit met on the way is set.

use crate::bits::count_ones;
use crate::counting::{
    block_nonzero, lemma_count_update, lemma_count_with_zeros, lemma_nth_one_exists,
    lemma_ones_before_all, lemma_ones_before_monotone, lemma_ones_before_strict,
    lemma_ones_before_update, lemma_ones_before_with_zeros, lemma_same_rank_same_bit,
    lemma_without_zeros_inverse, lists_ones, ones_before, with_zeros, without,
};
use vstd::prelude::*;

verus! {

/// `d` holds one quadrant number for each of `n` levels.
pub open spec fn digits_ok(d: Seq<int>, n: int) -> bool {
    &&& d.len() == n
    &&& forall|i: int| 0 <= i < n ==> 0 <= #[trigger] d[i] < 4
}

/// The levels fit together: one root block, and four bits in each level
/// for every set bit of the level above.
pub open spec fn shaped(lv: Seq<Seq<bool>>) -> bool {
    &&& lv.len() >= 2
    &&& lv[0].len() == 4
    &&& forall|l: int| 1 <= l < lv.len() ==> #[trigger] level_fits(lv, l)
}

/// Level `l` has four bits for every set bit of the level above it.
pub open spec fn level_fits(lv: Seq<Seq<bool>>, l: int) -> bool {
    lv[l].len() == 4 * count_ones(lv[l - 1])
}

/// The block of level `m` that the path `d` leads to.
pub open spec fn node(lv: Seq<Seq<bool>>, d: Seq<int>, m: nat) -> int
    decreases m,
{
    if m == 0 {
        0
    } else {
        ones_before(lv[m - 1], 4 * node(lv, d, (m - 1) as nat) + d[m - 1]) as int
    }
}

/// The position in level `m` of the bit that the path `d` selects there.
pub open spec fn pos(lv: Seq<Seq<bool>>, d: Seq<int>, m: nat) -> int {
    4 * node(lv, d, m) + d[m as int]
}

/// Whether every bit that the path `d` selects in the levels above `m` is
/// set, so that the path reaches level `m`.
pub open spec fn alive(lv: Seq<Seq<bool>>, d: Seq<int>, m: nat) -> bool
    decreases m,
{
    if m == 0 {
        true
    } else {
        &&& alive(lv, d, (m - 1) as nat)
        &&& pos(lv, d, (m - 1) as nat) < lv[m - 1].len()
        &&& lv[m - 1][pos(lv, d, (m - 1) as nat)]
    }
}

/// Whether the cell with path `d` is set.
pub open spec fn cell_set(lv: Seq<Seq<bool>>, d: Seq<int>) -> bool {
    alive(lv, d, lv.len())
}

/// Every block holds a set bit, except possibly block `zj` of level `zl`.
pub open spec fn nonzero_except(lv: Seq<Seq<bool>>, zl: int, zj: int) -> bool {
    forall|a: int, j: int|
        0 <= a < lv.len() && 0 <= j && 4 * j + 4 <= lv[a].len() && !(a == zl && j == zj)
            ==> #[trigger] block_nonzero(lv[a], j)
}

/// The levels after the cleared bit `p` of level `l` is set and a block of
/// cleared bits is put into level `l + 1` for it to own.
pub open spec fn grown(lv: Seq<Seq<bool>>, l: int, p: int) -> Seq<Seq<bool>> {
    lv.update(l, lv[l].update(p, true)).update(
        l + 1,
        with_zeros(lv[l + 1], 4 * (ones_before(lv[l], p) as int), 4),
    )
}

/// The levels after the set bit `p` of level `l` is cleared and the block
/// it owned is taken out of level `l + 1`.
pub open spec fn pruned(lv: Seq<Seq<bool>>, l: int, p: int) -> Seq<Seq<bool>> {
    lv.update(l, lv[l].update(p, false)).update(
        l + 1,
        without(lv[l + 1], 4 * (ones_before(lv[l], p) as int), 4),
    )
}

/// The levels after bit `p` of the last level is written.
pub open spec fn flipped(lv: Seq<Seq<bool>>, p: int, b: bool) -> Seq<Seq<bool>> {
    lv.update(lv.len() - 1, lv[lv.len() - 1].update(p, b))
}

/// A path that has reached a level stands on a block of that level.
pub proof fn lemma_node_valid(lv: Seq<Seq<bool>>, d: Seq<int>, m: nat)
    requires
        shaped(lv),
        digits_ok(d, lv.len() as int),
        m < lv.len(),
        alive(lv, d, m),
    ensures
        0 <= node(lv, d, m),
        4 * node(lv, d, m) + 4 <= lv[m as int].len(),
        0 <= pos(lv, d, m) < lv[m as int].len(),
    decreases m,
{
    if m > 0 {
        let k = (m - 1) as nat;
        lemma_node_valid(lv, d, k);
        lemma_ones_before_strict(lv[k as int], pos(lv, d, k), lv[k as int].len() as int);
        lemma_ones_before_all(lv[k as int]);
        assert(level_fits(lv, m as int));
    }
}

/// A path that reaches a level reaches every level above it.
pub proof fn lemma_alive_above(lv: Seq<Seq<bool>>, d: Seq<int>, m: nat, k: nat)
    requires
        k <= m,
        alive(lv, d, m),
    ensures
        alive(lv, d, k),
    decreases m,
{
    if k < m {
        lemma_alive_above(lv, d, (m - 1) as nat, k);
    }
}

/// How far a path gets, and where it stands, depends only on the digits
/// and levels above.
pub proof fn lemma_path_prefix(
    lv: Seq<Seq<bool>>,
    lw: Seq<Seq<bool>>,
    d: Seq<int>,
    e: Seq<int>,
    m: nat,
)
    requires
        forall|i: int| 0 <= i < m ==> d[i] == e[i],
        forall|i: int| 0 <= i < m ==> lv[i] == lw[i],
    ensures
        node(lv, d, m) == node(lw, e, m),
        alive(lv, d, m) == alive(lw, e, m),
    decreases m,
{
    if m > 0 {
        lemma_path_prefix(lv, lw, d, e, (m - 1) as nat);
    }
}

/// Two paths that reach the same block took the same turns.
pub proof fn lemma_same_node_same_digits(lv: Seq<Seq<bool>>, d: Seq<int>, e: Seq<int>, m: nat)
    requires
        shaped(lv),
        digits_ok(d, lv.len() as int),
        digits_ok(e, lv.len() as int),
        m < lv.len(),
        alive(lv, d, m),
        alive(lv, e, m),
        node(lv, d, m) == node(lv, e, m),
    ensures
        forall|i: int| 0 <= i < m ==> d[i] == e[i],
    decreases m,
{
    if m > 0 {
        let k = (m - 1) as nat;
        lemma_node_valid(lv, d, k);
        lemma_node_valid(lv, e, k);
        lemma_same_rank_same_bit(lv[k as int], pos(lv, d, k), pos(lv, e, k));
        assert(0 <= d[k as int] < 4 && 0 <= e[k as int] < 4);
        lemma_same_node_same_digits(lv, d, e, k);
    }
}

/// Every block is reached by some path.
pub proof fn lemma_reach(lv: Seq<Seq<bool>>, m: nat, j: int) -> (d: Seq<int>)
    requires
        shaped(lv),
        m < lv.len(),
        0 <= j,
        4 * j + 4 <= lv[m as int].len(),
    ensures
        digits_ok(d, lv.len() as int),
        alive(lv, d, m),
        node(lv, d, m) == j,
    decreases m,
{
    if m == 0 {
        Seq::new(lv.len(), |i: int| 0int)
    } else {
        let above = lv[m - 1];
        assert(level_fits(lv, m as int));
        if m - 1 > 0 {
            assert(level_fits(lv, m - 1));
        }
        let p = lemma_nth_one_exists(above, j);
        let d0 = lemma_reach(lv, (m - 1) as nat, p / 4);
        let d = d0.update(m - 1, p % 4);
        lemma_path_prefix(lv, lv, d0, d, (m - 1) as nat);
        assert(pos(lv, d, (m - 1) as nat) == p);
        d
    }
}

/// A tree whose blocks all hold a set bit, and which has a leaf block,
/// has a set cell.
pub proof fn lemma_some_cell(lv: Seq<Seq<bool>>) -> (d: Seq<int>)
    requires
        shaped(lv),
        nonzero_except(lv, -1, 0),
        lv[lv.len() - 1].len() >= 4,
    ensures
        digits_ok(d, lv.len() as int),
        cell_set(lv, d),
{
    let last = (lv.len() - 1) as nat;
    let d0 = lemma_reach(lv, last, 0);
    let leaves = lv[last as int];
    assert(block_nonzero(leaves, 0));
    let q = if leaves[0] {
        0int
    } else if leaves[1] {
        1int
    } else if leaves[2] {
        2int
    } else {
        3int
    };
    let d = d0.update(last as int, q);
    lemma_path_prefix(lv, lv, d0, d, last);
    assert(pos(lv, d, last) == q);
    assert(alive(lv, d, last + 1));
    d
}

/// Where a path stands in the grown levels, level by level.
#[verifier::rlimit(50)]
proof fn lemma_grown_path(lv: Seq<Seq<bool>>, l: int, p: int, d: Seq<int>, m: nat)
    requires
        shaped(lv),
        0 <= l < lv.len() - 1,
        0 <= p < lv[l].len(),
        !lv[l][p],
        digits_ok(d, lv.len() as int),
        m <= lv.len(),
    ensures
        ({
            let g = grown(lv, l, p);
            let r = ones_before(lv[l], p) as int;
            &&& m <= l ==> alive(g, d, m) == alive(lv, d, m) && node(g, d, m) == node(lv, d, m)
            &&& m == l + 1 ==> {
                &&& alive(lv, d, m) ==> alive(g, d, m) && node(g, d, m) == node(lv, d, m) + (if node(
                    lv,
                    d,
                    m,
                ) >= r {
                    1int
                } else {
                    0int
                })
                &&& !alive(lv, d, m) && alive(g, d, m) ==> node(g, d, m) == r
            }
            &&& m >= l + 2 ==> alive(g, d, m) == alive(lv, d, m) && (alive(lv, d, m) ==> node(
                g,
                d,
                m,
            ) == node(lv, d, m))
        }),
    decreases m,
{
    let g = grown(lv, l, p);
    let r = ones_before(lv[l], p) as int;
    if m > 0 {
        let k = (m - 1) as nat;
        lemma_grown_path(lv, l, p, d, k);
        lemma_ones_before_monotone(lv[l], p, lv[l].len() as int);
        lemma_ones_before_all(lv[l]);
        assert(level_fits(lv, l + 1));
        assert(0 <= d[k as int] < 4);
        if k < l {
            assert(g[k as int] == lv[k as int]);
        } else if k == l {
            assert(g[l] == lv[l].update(p, true));
            if alive(lv, d, k) {
                lemma_node_valid(lv, d, k);
                let q = pos(lv, d, k);
                lemma_ones_before_update(lv[l], p, true, q);
                if q < p && lv[l][q] {
                    lemma_ones_before_strict(lv[l], q, p);
                } else if q > p {
                    lemma_ones_before_monotone(lv[l], p, q);
                }
            }
        } else if k == l + 1 {
            let s = lv[l + 1];
            assert(g[l + 1] == with_zeros(s, 4 * r, 4));
            if alive(lv, d, k) {
                lemma_node_valid(lv, d, k);
                let q = pos(lv, d, k);
                lemma_ones_before_with_zeros(s, 4 * r, 4, q);
                if node(lv, d, k) >= r {
                    assert(g[l + 1][q + 4] == s[q]);
                } else {
                    assert(g[l + 1][q] == s[q]);
                }
            } else if alive(g, d, k) {
                assert(!g[l + 1][4 * r + d[k as int]]);
            }
        } else {
            assert(g[k as int] == lv[k as int]);
        }
    }
}

/// Growing keeps the levels fitted together and changes no cell: the new
/// block holds no set bit, so no path gets through it.
#[verifier::rlimit(50)]
pub proof fn lemma_grown(lv: Seq<Seq<bool>>, l: int, p: int)
    requires
        shaped(lv),
        0 <= l < lv.len() - 1,
        0 <= p < lv[l].len(),
        !lv[l][p],
    ensures
        shaped(grown(lv, l, p)),
        forall|d: Seq<int>|
            digits_ok(d, lv.len() as int) ==> #[trigger] cell_set(grown(lv, l, p), d) == cell_set(
                lv,
                d,
            ),
{
    let g = grown(lv, l, p);
    let r = ones_before(lv[l], p) as int;
    lemma_ones_before_monotone(lv[l], p, lv[l].len() as int);
    lemma_ones_before_all(lv[l]);
    assert(level_fits(lv, l + 1));
    assert forall|a: int| 1 <= a < g.len() implies #[trigger] level_fits(g, a) by {
        assert(level_fits(lv, a));
        lemma_count_update(lv[l], p, true);
        lemma_count_with_zeros(lv[l + 1], 4 * r, 4);
    }
    assert forall|d: Seq<int>| digits_ok(d, lv.len() as int) implies #[trigger] cell_set(g, d)
        == cell_set(lv, d) by {
        lemma_grown_path(lv, l, p, d, lv.len());
    }
}

/// After growing, the block that got the set bit holds one, and the only
/// block that may be empty is the new one.
#[verifier::rlimit(50)]
pub proof fn lemma_grown_nonzero(lv: Seq<Seq<bool>>, l: int, p: int)
    requires
        shaped(lv),
        0 <= l < lv.len() - 1,
        0 <= p < lv[l].len(),
        !lv[l][p],
        nonzero_except(lv, l, p / 4),
    ensures
        nonzero_except(grown(lv, l, p), l + 1, ones_before(lv[l], p) as int),
{
    let g = grown(lv, l, p);
    let r = ones_before(lv[l], p) as int;
    lemma_ones_before_monotone(lv[l], p, lv[l].len() as int);
    lemma_ones_before_all(lv[l]);
    assert(level_fits(lv, l + 1));
    assert forall|a: int, j: int|
        0 <= a < g.len() && 0 <= j && 4 * j + 4 <= g[a].len() && !(a == l + 1 && j == r)
        implies #[trigger] block_nonzero(g[a], j) by {
        if a == l {
            if j == p / 4 {
                assert(g[l][p]);
            } else {
                assert(block_nonzero(lv[a], j));
            }
        } else if a == l + 1 {
            if j < r {
                assert(block_nonzero(lv[a], j));
            } else {
                assert(block_nonzero(lv[a], j - 1));
                assert(g[a][4 * j] == lv[a][4 * (j - 1)]);
                assert(g[a][4 * j + 1] == lv[a][4 * (j - 1) + 1]);
                assert(g[a][4 * j + 2] == lv[a][4 * (j - 1) + 2]);
                assert(g[a][4 * j + 3] == lv[a][4 * (j - 1) + 3]);
            }
        } else {
            assert(block_nonzero(lv[a], j));
        }
    }
}

/// Pruning an empty block undoes growing it: the levels stay fitted
/// together and no cell changes.
#[verifier::rlimit(50)]
pub proof fn lemma_pruned(lv: Seq<Seq<bool>>, l: int, p: int)
    requires
        shaped(lv),
        0 <= l < lv.len() - 1,
        0 <= p < lv[l].len(),
        lv[l][p],
        !block_nonzero(lv[l + 1], ones_before(lv[l], p) as int),
    ensures
        shaped(pruned(lv, l, p)),
        grown(pruned(lv, l, p), l, p) == lv,
        forall|d: Seq<int>|
            digits_ok(d, lv.len() as int) ==> #[trigger] cell_set(pruned(lv, l, p), d)
                == cell_set(lv, d),
{
    let c = pruned(lv, l, p);
    let r = ones_before(lv[l], p) as int;
    lemma_ones_before_strict(lv[l], p, lv[l].len() as int);
    lemma_ones_before_all(lv[l]);
    assert(level_fits(lv, l + 1));
    lemma_ones_before_update(lv[l], p, false, p);
    let below = lv[l + 1];
    assert forall|i: int| 4 * r <= i < 4 * r + 4 implies !below[i] by {}
    lemma_without_zeros_inverse(lv[l + 1], 4 * r, 4);
    assert(c[l].update(p, true) =~= lv[l]);
    assert(grown(c, l, p) =~= lv);
    assert forall|a: int| 1 <= a < c.len() implies #[trigger] level_fits(c, a) by {
        assert(level_fits(lv, a));
        lemma_count_update(lv[l], p, false);
        lemma_count_with_zeros(c[l + 1], 4 * r, 4);
    }
    lemma_grown(c, l, p);
}

/// After pruning, the only block that may be empty is the one whose bit
/// was cleared.
#[verifier::rlimit(50)]
pub proof fn lemma_pruned_nonzero(lv: Seq<Seq<bool>>, l: int, p: int)
    requires
        shaped(lv),
        0 <= l < lv.len() - 1,
        0 <= p < lv[l].len(),
        lv[l][p],
        nonzero_except(lv, l + 1, ones_before(lv[l], p) as int),
    ensures
        nonzero_except(pruned(lv, l, p), l, p / 4),
{
    let c = pruned(lv, l, p);
    let r = ones_before(lv[l], p) as int;
    lemma_ones_before_strict(lv[l], p, lv[l].len() as int);
    lemma_ones_before_all(lv[l]);
    assert(level_fits(lv, l + 1));
    assert forall|a: int, j: int|
        0 <= a < c.len() && 0 <= j && 4 * j + 4 <= c[a].len() && !(a == l && j == p / 4)
        implies #[trigger] block_nonzero(c[a], j) by {
        if a == l {
            assert(block_nonzero(lv[a], j));
        } else if a == l + 1 {
            if j < r {
                assert(block_nonzero(lv[a], j));
            } else {
                assert(block_nonzero(lv[a], j + 1));
                assert(c[a][4 * j] == lv[a][4 * (j + 1)]);
                assert(c[a][4 * j + 1] == lv[a][4 * (j + 1) + 1]);
                assert(c[a][4 * j + 2] == lv[a][4 * (j + 1) + 2]);
                assert(c[a][4 * j + 3] == lv[a][4 * (j + 1) + 3]);
            }
        } else {
            assert(block_nonzero(lv[a], j));
        }
    }
}

/// Writing a bit of the last level changes the cell whose path selects
/// that bit, and no other.
#[verifier::rlimit(50)]
pub proof fn lemma_flipped(lv: Seq<Seq<bool>>, p: int, b: bool, target: Seq<int>)
    requires
        shaped(lv),
        0 <= p < lv[lv.len() - 1].len(),
        digits_ok(target, lv.len() as int),
        alive(lv, target, (lv.len() - 1) as nat),
        pos(lv, target, (lv.len() - 1) as nat) == p,
    ensures
        shaped(flipped(lv, p, b)),
        forall|d: Seq<int>|
            digits_ok(d, lv.len() as int) ==> #[trigger] cell_set(flipped(lv, p, b), d) == (if d
                == target {
                b
            } else {
                cell_set(lv, d)
            }),
{
    let f = flipped(lv, p, b);
    let last = (lv.len() - 1) as nat;
    assert forall|a: int| 1 <= a < f.len() implies #[trigger] level_fits(f, a) by {
        assert(level_fits(lv, a));
    }
    assert forall|d: Seq<int>| digits_ok(d, lv.len() as int) implies #[trigger] cell_set(f, d)
        == (if d == target {
        b
    } else {
        cell_set(lv, d)
    }) by {
        lemma_path_prefix(lv, f, d, d, last);
        if alive(lv, d, last) && pos(lv, d, last) == p {
            lemma_node_valid(lv, d, last);
            lemma_node_valid(lv, target, last);
            assert(0 <= d[last as int] < 4 && 0 <= target[last as int] < 4);
            lemma_same_node_same_digits(lv, d, target, last);
            assert(d =~= target);
        }
    }
}

/// The path through the bit that was set enters the new block.
pub proof fn lemma_grown_enters(lv: Seq<Seq<bool>>, l: int, p: int, d: Seq<int>)
    requires
        shaped(lv),
        0 <= l < lv.len() - 1,
        0 <= p < lv[l].len(),
        !lv[l][p],
        digits_ok(d, lv.len() as int),
        alive(lv, d, l as nat),
        pos(lv, d, l as nat) == p,
    ensures
        alive(grown(lv, l, p), d, (l + 1) as nat),
        node(grown(lv, l, p), d, (l + 1) as nat) == ones_before(lv[l], p),
        alive(grown(lv, l, p), d, l as nat),
        node(grown(lv, l, p), d, l as nat) == node(lv, d, l as nat),
{
    lemma_grown_path(lv, l, p, d, l as nat);
    lemma_grown_path(lv, l, p, d, (l + 1) as nat);
}

/// After a bit of the last level is written, the only block that may be
/// empty is the one written to; after a bit is set, none is.
pub proof fn lemma_flipped_nonzero(lv: Seq<Seq<bool>>, p: int, b: bool, zl: int, zj: int)
    requires
        lv.len() >= 1,
        0 <= p < lv[lv.len() - 1].len(),
        nonzero_except(lv, zl, zj),
        zl == -1 || (zl == lv.len() - 1 && zj == p / 4),
    ensures
        nonzero_except(flipped(lv, p, b), lv.len() - 1, p / 4),
        b ==> nonzero_except(flipped(lv, p, b), -1, 0),
{
    let f = flipped(lv, p, b);
    let last = lv.len() - 1;
    assert forall|a: int, j: int|
        0 <= a < f.len() && 0 <= j && 4 * j + 4 <= f[a].len() && !(a == last && j == p / 4)
        implies #[trigger] block_nonzero(f[a], j) by {
        assert(block_nonzero(lv[a], j));
    }
    if b {
        assert forall|a: int, j: int|
            0 <= a < f.len() && 0 <= j && 4 * j + 4 <= f[a].len() && !(a == -1 && j == 0)
            implies #[trigger] block_nonzero(f[a], j) by {
            if a == last && j == p / 4 {
                assert(f[a][p]);
            } else {
                assert(block_nonzero(lv[a], j));
            }
        }
    }
}

/// When the block that may be empty holds a set bit, every block does.
pub proof fn lemma_no_exemption(lv: Seq<Seq<bool>>, zl: int, zj: int)
    requires
        nonzero_except(lv, zl, zj),
        0 <= zl < lv.len() ==> block_nonzero(lv[zl], zj),
    ensures
        nonzero_except(lv, -1, 0),
{
    assert forall|a: int, j: int|
        0 <= a < lv.len() && 0 <= j && 4 * j + 4 <= lv[a].len() && !(a == -1 && j == 0)
        implies #[trigger] block_nonzero(lv[a], j) by {
        if !(a == zl && j == zj) {
            assert(block_nonzero(lv[a], j));
        }
    }
}

/// A tree in which every block holds a set bit is also one in which some
/// block is allowed to be empty.
pub proof fn lemma_add_exemption(lv: Seq<Seq<bool>>, zl: int, zj: int, l: int, j: int)
    requires
        nonzero_except(lv, zl, zj),
        zl == -1 || (zl == l && zj == j),
    ensures
        nonzero_except(lv, l, j),
{
    assert forall|a: int, b: int|
        0 <= a < lv.len() && 0 <= b && 4 * b + 4 <= lv[a].len() && !(a == l && b == j)
        implies #[trigger] block_nonzero(lv[a], b) by {
        assert(block_nonzero(lv[a], b));
    }
}

/// When no bit of some level is set, no cell is set.
pub proof fn lemma_cleared_level_no_cells(lv: Seq<Seq<bool>>, l: int, d: Seq<int>)
    requires
        0 <= l < lv.len(),
        digits_ok(d, lv.len() as int),
        forall|i: int| 0 <= i < lv[l].len() ==> !lv[l][i],
    ensures
        !cell_set(lv, d),
{
    if cell_set(lv, d) {
        lemma_alive_above(lv, d, lv.len(), (l + 1) as nat);
        let k = l as nat;
        assert(alive(lv, d, k + 1));
        assert(0 <= d[l] < 4);
        assert(node(lv, d, k) >= 0);
        assert(pos(lv, d, k) < lv[l].len() && lv[l][pos(lv, d, k)]);
    }
}

/// With a set bit in the last level but one, every level above the last
/// holds a set bit, so no level is empty.
pub proof fn lemma_levels_populated(lv: Seq<Seq<bool>>, l: int)
    requires
        shaped(lv),
        count_ones(lv[lv.len() - 2]) > 0,
        0 <= l <= lv.len() - 2,
    ensures
        count_ones(lv[l]) > 0,
        lv[l + 1].len() > 0,
    decreases lv.len() - l,
{
    if l < lv.len() - 2 {
        lemma_levels_populated(lv, l + 1);
        assert(level_fits(lv, l + 1));
        crate::counting::lemma_count_bound(lv[l + 1]);
    }
    assert(level_fits(lv, l + 1));
}

/// Setting a cleared bit adds its position to the list of set bits, at
/// the index given by the count of set bits in front of it.
#[verifier::rlimit(50)]
pub proof fn lemma_list_gains(r: Seq<usize>, s: Seq<bool>, p: usize)
    requires
        lists_ones(r, s),
        p < s.len(),
        !s[p as int],
    ensures
        ones_before(s, p as int) <= r.len(),
        lists_ones(r.insert(ones_before(s, p as int) as int, p), s.update(p as int, true)),
{
    let at = ones_before(s, p as int) as int;
    let u = s.update(p as int, true);
    lemma_ones_before_monotone(s, p as int, s.len() as int);
    lemma_ones_before_all(s);
    lemma_count_update(s, p as int, true);
    let r2 = r.insert(at, p);
    assert forall|i: int| 0 <= i < r2.len() implies (#[trigger] r2[i]) < u.len() && u[r2[i] as int]
        && ones_before(u, r2[i] as int) == i by {
        if i < at {
            assert(r2[i] == r[i]);
            if r[i] >= p {
                lemma_ones_before_monotone(s, p as int, r[i] as int);
            }
            lemma_ones_before_update(s, p as int, true, r[i] as int);
        } else if i == at {
            lemma_ones_before_update(s, p as int, true, p as int);
        } else {
            assert(r2[i] == r[i - 1]);
            if r[i - 1] < p {
                lemma_ones_before_strict(s, r[i - 1] as int, p as int);
            }
            lemma_ones_before_update(s, p as int, true, r[i - 1] as int);
        }
    }
}

/// Clearing the set bit listed at index `i` drops that entry from the
/// list of set bits.
#[verifier::rlimit(50)]
pub proof fn lemma_list_loses(r: Seq<usize>, s: Seq<bool>, i: int)
    requires
        lists_ones(r, s),
        0 <= i < r.len(),
    ensures
        lists_ones(r.remove(i), s.update(r[i] as int, false)),
{
    let p = r[i] as int;
    let u = s.update(p, false);
    lemma_count_update(s, p, false);
    let r2 = r.remove(i);
    assert forall|k: int| 0 <= k < r2.len() implies (#[trigger] r2[k]) < u.len() && u[r2[k] as int]
        && ones_before(u, r2[k] as int) == k by {
        if k < i {
            assert(r2[k] == r[k]);
            if r[k] >= p {
                lemma_ones_before_monotone(s, p, r[k] as int);
            }
            lemma_ones_before_update(s, p, false, r[k] as int);
        } else {
            assert(r2[k] == r[k + 1]);
            if r[k + 1] <= p {
                if r[k + 1] < p {
                    lemma_ones_before_strict(s, r[k + 1] as int, p);
                }
            }
            lemma_ones_before_update(s, p, false, r[k + 1] as int);
        }
    }
}

/// The index at which a position belongs in the list of set bits, found
/// by passing the entries in front of it, is the count of set bits in
/// front of that position.
pub proof fn lemma_list_scan(r: Seq<usize>, s: Seq<bool>, p: int, at: int)
    requires
        lists_ones(r, s),
        0 <= p < s.len(),
        0 <= at <= r.len(),
        forall|k: int| 0 <= k < at ==> r[k] < p,
        at < r.len() ==> r[at] >= p,
    ensures
        at == ones_before(s, p),
{
    lemma_ones_before_monotone(s, p, s.len() as int);
    lemma_ones_before_all(s);
    if at > 0 {
        let before = r[at - 1] as int;
        assert(before < p);
        lemma_ones_before_strict(s, before, p);
    }
    if at < r.len() {
        lemma_ones_before_monotone(s, p, r[at] as int);
    }
}

/// Whether `r2` is `r` with every entry at or past `at` moved by `by`.
pub open spec fn shifted_from(r2: Seq<usize>, r: Seq<usize>, at: int, by: int) -> bool {
    &&& r2.len() == r.len()
    &&& forall|i: int|
        0 <= i < r.len() ==> (#[trigger] r2[i]) == (if r[i] >= at {
            r[i] + by
        } else {
            r[i] as int
        })
}

/// A block of cleared bits put in at `at` moves the listed positions at
/// or past `at` four places right.
#[verifier::rlimit(50)]
pub proof fn lemma_list_with_zeros(r: Seq<usize>, r2: Seq<usize>, s: Seq<bool>, at: int)
    requires
        lists_ones(r, s),
        0 <= at <= s.len(),
        shifted_from(r2, r, at, 4),
    ensures
        lists_ones(r2, with_zeros(s, at, 4)),
{
    let w = with_zeros(s, at, 4);
    lemma_count_with_zeros(s, at, 4);
    assert forall|i: int| 0 <= i < r2.len() implies (#[trigger] r2[i]) < w.len() && w[r2[i] as int]
        && ones_before(w, r2[i] as int) == i by {
        assert(r[i] < s.len() && s[r[i] as int] && ones_before(s, r[i] as int) == i);
        lemma_ones_before_with_zeros(s, at, 4, r[i] as int);
        if r[i] >= at {
            assert(w[r[i] + 4] == s[r[i] as int]);
        } else {
            assert(w[r[i] as int] == s[r[i] as int]);
        }
    }
}

/// A block of cleared bits taken out at `at` moves the listed positions
/// past it four places left.
#[verifier::rlimit(50)]
pub proof fn lemma_list_without_zeros(r: Seq<usize>, r2: Seq<usize>, s: Seq<bool>, at: int)
    requires
        lists_ones(r, s),
        0 <= at,
        at + 4 <= s.len(),
        forall|i: int| at <= i < at + 4 ==> !s[i],
        shifted_from(r2, r, at, -4),
    ensures
        lists_ones(r2, without(s, at, 4)),
{
    let t = without(s, at, 4);
    lemma_without_zeros_inverse(s, at, 4);
    lemma_count_with_zeros(t, at, 4);
    assert(r2.len() == count_ones(t));
    assert forall|i: int| 0 <= i < r2.len() implies (#[trigger] r2[i]) < t.len() && t[r2[i] as int]
        && ones_before(t, r2[i] as int) == i by {
        let v = r[i] as int;
        assert(v < s.len() && s[v] && ones_before(s, v) == i);
        if v >= at {
            assert(v >= at + 4);
            assert(r2[i] == v - 4);
            lemma_ones_before_with_zeros(t, at, 4, v - 4);
            assert(t[v - 4] == s[v]);
        } else {
            assert(r2[i] == v);
            lemma_ones_before_with_zeros(t, at, 4, v);
            assert(t[v] == s[v]);
        }
    }
}

/// The listed positions ascend, and every set bit is listed at the index
/// given by the count of set bits in front of it.
pub proof fn lemma_list_sorted_complete(r: Seq<usize>, s: Seq<bool>)
    requires
        lists_ones(r, s),
    ensures
        forall|i: int, j: int| 0 <= i < j < r.len() ==> r[i] < r[j],
        forall|p: int|
            0 <= p < s.len() && #[trigger] s[p] ==> ones_before(s, p) < r.len() && r[ones_before(
                s,
                p,
            ) as int] == p,
{
    assert forall|i: int, j: int| 0 <= i < j < r.len() implies r[i] < r[j] by {
        if r[i] >= r[j] {
            lemma_ones_before_monotone(s, r[j] as int, r[i] as int);
        }
    }
    assert forall|p: int| 0 <= p < s.len() && #[trigger] s[p] implies ones_before(s, p)
        < r.len() && r[ones_before(s, p) as int] == p by {
        lemma_ones_before_strict(s, p, s.len() as int);
        lemma_ones_before_all(s);
        let i = ones_before(s, p) as int;
        lemma_same_rank_same_bit(s, p, r[i] as int);
    }
}

} // verus!
