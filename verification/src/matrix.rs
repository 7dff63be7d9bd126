//! Dense matrices given row by row, and what it takes for a tree to hold
//! one.

use crate::bits::{is_one_positions, max_bits, Bits};
use crate::range::is_pow2;
use vstd::prelude::*;

verus! {

/// Whether the dense matrix `m` has a set bit at position `y` of row `x`.
pub open spec fn matrix_cell(m: Seq<Bits>, x: int, y: int) -> bool {
    0 <= x < m.len() && 0 <= y < m[x]@.len() && m[x]@[y]
}

/// The length of the longest of the first `n` rows.
pub open spec fn longest_row(m: Seq<Bits>, n: int) -> int
    decreases n,
{
    if n <= 0 {
        0
    } else if longest_row(m, n - 1) >= m[n - 1]@.len() {
        longest_row(m, n - 1)
    } else {
        m[n - 1]@.len() as int
    }
}

/// The side of the smallest square that holds the matrix: the larger of
/// its number of rows and the length of its longest row.
pub open spec fn matrix_side(m: Seq<Bits>) -> int {
    if m.len() >= longest_row(m, m.len() as int) {
        m.len() as int
    } else {
        longest_row(m, m.len() as int)
    }
}

/// The number of bits in the first `n` rows together.
pub open spec fn total_bits(m: Seq<Bits>, n: int) -> int
    decreases n,
{
    if n <= 0 {
        0
    } else {
        total_bits(m, n - 1) + m[n - 1]@.len()
    }
}

/// `w` is the width of the tree built for a matrix of the given side: the
/// smallest power of two that is at least eight and at least the side.
pub open spec fn fitting_width(w: int, side: int) -> bool {
    &&& is_pow2(w)
    &&& w >= 8
    &&& side <= w
    &&& w > 8 ==> w / 2 < side
}

/// The matrix is small enough for the arrays of its tree to never run out
/// of room.
pub open spec fn few_bits(m: Seq<Bits>) -> bool {
    256 * total_bits(m, m.len() as int) + 512 <= max_bits()
}

/// No row among the first `n` is longer than the longest of them.
pub proof fn lemma_longest_row(m: Seq<Bits>, n: int, x: int)
    requires
        0 <= x < n <= m.len(),
    ensures
        m[x]@.len() <= longest_row(m, n),
    decreases n,
{
    if x < n - 1 {
        lemma_longest_row(m, n - 1, x);
    }
}

/// The bits of more rows are no fewer.
pub proof fn lemma_total_bits_monotone(m: Seq<Bits>, a: int, b: int)
    requires
        0 <= a <= b,
    ensures
        0 <= total_bits(m, a) <= total_bits(m, b),
    decreases b,
{
    if a < b {
        lemma_total_bits_monotone(m, a, b - 1);
    } else if a > 0 {
        lemma_total_bits_monotone(m, a - 1, a - 1);
    }
}

/// A row has at most as many set bits as it has bits.
pub proof fn lemma_positions_count(r: Seq<usize>, s: Seq<bool>)
    requires
        is_one_positions(r, s),
    ensures
        r.len() <= s.len(),
{
    if r.len() > 0 {
        lemma_positions_climb(r, r.len() - 1);
        assert(r[r.len() - 1] < s.len());
    }
}

/// Entry `i` of a strictly ascending list is at least `i`.
proof fn lemma_positions_climb(r: Seq<usize>, i: int)
    requires
        forall|a: int, b: int| 0 <= a < b < r.len() ==> r[a] < r[b],
        0 <= i < r.len(),
    ensures
        r[i] >= i,
    decreases i,
{
    if i > 0 {
        lemma_positions_climb(r, i - 1);
        assert(r[i - 1] < r[i]);
    }
}

} // verus!
