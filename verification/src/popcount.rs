//! The set cells of the matrix and the set bits of the leaves are equally
//! many.

use crate::bits::count_ones;
use crate::encoding::{lemma_levels_framed, lemma_wf_structured, Encoding};
use crate::levels::{
    alive, lemma_node_valid, lemma_path_prefix, lemma_reach, lemma_same_node_same_digits,
    level_fits, pos,
};
use crate::range::{lemma_path_injective, lemma_path_onto, path};
use crate::steps::lemma_path_digits;
use vstd::prelude::*;

verus! {

/// The set cells of the matrix that a tree stands for.
pub open spec fn cells(e: Encoding) -> Set<(int, int)> {
    Set::new(|c: (int, int)| e.contains(c.0, c.1))
}

/// The positions of the set bits of `s`.
pub open spec fn ones_set(s: Seq<bool>) -> Set<int> {
    Set::new(|p: int| 0 <= p < s.len() && s[p])
}

/// The path of the cell `c` ends at position `p` of the leaves.
pub open spec fn lands_at(e: Encoding, p: int, c: (int, int)) -> bool {
    &&& 0 <= c.0 < e.matrix_width
    &&& 0 <= c.1 < e.matrix_width
    &&& alive(e.levels(), path(e.matrix_width as int, c.0, c.1), (e.depth() - 1) as nat)
    &&& pos(e.levels(), path(e.matrix_width as int, c.0, c.1), (e.depth() - 1) as nat) == p
}

/// The cell whose path ends at position `p` of the leaves.
pub open spec fn cell_at(e: Encoding, p: int) -> (int, int) {
    choose|c: (int, int)| lands_at(e, p, c)
}

/// The set bits of a sequence are as many as it counts.
pub proof fn lemma_ones_set(s: Seq<bool>)
    ensures
        ones_set(s).finite(),
        ones_set(s).len() == count_ones(s),
    decreases s.len(),
{
    if s.len() == 0 {
        assert(ones_set(s) =~= Set::<int>::empty());
    } else {
        let t = s.drop_last();
        lemma_ones_set(t);
        if s.last() {
            assert(ones_set(s) =~= ones_set(t).insert(s.len() - 1));
        } else {
            assert(ones_set(s) =~= ones_set(t));
        }
    }
}

/// Every position of the leaves of a well-formed tree is where the path
/// of some cell ends.
pub proof fn lemma_cell_at(e: Encoding, p: int)
    requires
        e.wf(),
        0 <= p < e.leaves.len(),
    ensures
        lands_at(e, p, cell_at(e, p)),
{
    lemma_wf_structured(e);
    lemma_levels_framed(e);
    let lv = e.levels();
    let top = (e.depth() - 1) as nat;
    assert(lv[top as int] == e.leaves);
    assert(level_fits(lv, top as int));
    let d0 = lemma_reach(lv, top, p / 4);
    let d = d0.update(top as int, p % 4);
    lemma_path_prefix(lv, lv, d0, d, top);
    let c = lemma_path_onto(e.matrix_width as int, d);
    assert(lands_at(e, p, c));
}

/// A well-formed tree has as many set bits in its leaves as its matrix
/// has set cells.
#[verifier::rlimit(50)]
pub proof fn law_popcount(e: Encoding)
    requires
        e.wf(),
    ensures
        cells(e).finite(),
        cells(e).len() == count_ones(e.leaves),
{
    lemma_wf_structured(e);
    lemma_levels_framed(e);
    let w = e.matrix_width as int;
    let lv = e.levels();
    let top = (e.depth() - 1) as nat;
    assert(lv[top as int] == e.leaves);
    let ones = ones_set(e.leaves);
    let f = |p: int| cell_at(e, p);
    lemma_ones_set(e.leaves);
    assert forall|a: int, b: int|
        ones.contains(a) && ones.contains(b) && #[trigger] f(a) == #[trigger] f(b) implies a
        == b by {
        lemma_cell_at(e, a);
        lemma_cell_at(e, b);
    }
    assert forall|c: (int, int)| cells(e).contains(c) == ones.map(f).contains(c) by {
        if cells(e).contains(c) {
            let d = path(w, c.0, c.1);
            lemma_path_digits(e, c.0, c.1);
            let p = pos(lv, d, top);
            assert(alive(lv, d, top + 1));
            lemma_node_valid(lv, d, top);
            assert(ones.contains(p));
            lemma_cell_at(e, p);
            let c2 = cell_at(e, p);
            let d2 = path(w, c2.0, c2.1);
            lemma_path_digits(e, c2.0, c2.1);
            lemma_node_valid(lv, d2, top);
            assert(0 <= d[top as int] < 4 && 0 <= d2[top as int] < 4);
            lemma_same_node_same_digits(lv, d, d2, top);
            assert(d =~= d2);
            lemma_path_injective(w, c.0, c.1, c2.0, c2.1);
            assert(c == f(p));
        }
        if ones.map(f).contains(c) {
            let p = choose|p: int| ones.contains(p) && c == f(p);
            lemma_cell_at(e, p);
            let d = path(w, c.0, c.1);
            assert(alive(lv, d, top + 1));
        }
    }
    assert(ones.map(f) =~= cells(e));
    vstd::set_lib::lemma_map_size(ones, cells(e), f);
}

} // verus!
