//! Square regions of the matrix and their split into four quadrants.
//!
//! Quadrants are numbered row-major: 0 top-left, 1 top-right, 2 bottom-left,
//! 3 bottom-right. The same numbering identifies a bit inside a stem or
//! leaf block, so the path of a cell through the tree is the sequence of
//! quadrant numbers met while halving the matrix around it.

use vstd::prelude::*;

verus! {

/// An axis-aligned region as two inclusive intervals, `[[x0, x1], [y0, y1]]`.
pub type Range = [[usize; 2]; 2];

/// The mathematical region a [`Range`] stands for; bounds are inclusive.
pub struct Square {
    /// The least first coordinate.
    pub x0: int,
    /// The greatest first coordinate.
    pub x1: int,
    /// The least second coordinate.
    pub y0: int,
    /// The greatest second coordinate.
    pub y1: int,
}

/// The region described by `r`.
pub open spec fn square(r: Range) -> Square {
    Square { x0: r[0][0] as int, x1: r[0][1] as int, y0: r[1][0] as int, y1: r[1][1] as int }
}

/// The whole matrix of side `w`.
pub open spec fn full_square(w: int) -> Square {
    Square { x0: 0, x1: w - 1, y0: 0, y1: w - 1 }
}

impl Square {
    /// Whether the cell `(x, y)` lies in the region.
    pub open spec fn contains(self, x: int, y: int) -> bool {
        self.x0 <= x <= self.x1 && self.y0 <= y <= self.y1
    }

    /// The number of columns of the region.
    pub open spec fn side(self) -> int {
        self.x1 - self.x0 + 1
    }

    /// Quadrant `q` of the region.
    pub open spec fn quadrant(self, q: int) -> Square {
        let hx = (self.x1 - self.x0) / 2;
        let hy = (self.y1 - self.y0) / 2;
        Square {
            x0: if q % 2 == 0 { self.x0 } else { self.x0 + hx + 1 },
            x1: if q % 2 == 0 { self.x0 + hx } else { self.x1 },
            y0: if q / 2 == 0 { self.y0 } else { self.y0 + hy + 1 },
            y1: if q / 2 == 0 { self.y0 + hy } else { self.y1 },
        }
    }

    /// The number of the quadrant that the cell `(x, y)` falls in.
    pub open spec fn quadrant_of(self, x: int, y: int) -> int {
        (if x <= self.x0 + (self.x1 - self.x0) / 2 { 0int } else { 1int }) + (if y <= self.y0 + (
            self.y1 - self.y0) / 2 { 0int } else { 2int })
    }
}

/// Whether `w` is a power of two.
pub open spec fn is_pow2(w: int) -> bool
    decreases w,
{
    w == 1 || (w > 1 && w % 2 == 0 && is_pow2(w / 2))
}

/// How many times `w` can be halved before reaching one: the number of
/// levels of a tree over a matrix of side `w`, leaves included.
pub open spec fn depth_of(w: int) -> nat
    decreases w,
{
    if w <= 1 {
        0
    } else {
        1 + depth_of(w / 2)
    }
}

/// The region reached from the whole matrix of side `w` after `level`
/// halvings around the cell `(x, y)`.
pub open spec fn square_at(w: int, x: int, y: int, level: nat) -> Square
    decreases level,
{
    if level == 0 {
        full_square(w)
    } else {
        let up = square_at(w, x, y, (level - 1) as nat);
        up.quadrant(up.quadrant_of(x, y))
    }
}

/// The quadrant number chosen at `level` on the way to the cell `(x, y)`.
pub open spec fn digit(w: int, x: int, y: int, level: nat) -> int {
    square_at(w, x, y, level).quadrant_of(x, y)
}

/// The quadrant numbers from the root down to the cell `(x, y)`.
pub open spec fn path(w: int, x: int, y: int) -> Seq<int> {
    Seq::new(depth_of(w), |l: int| digit(w, x, y, l as nat))
}

/// Halving a power of two greater than one gives a power of two one level
/// shallower.
pub proof fn lemma_pow2_half(w: int)
    requires
        is_pow2(w),
        w > 1,
    ensures
        is_pow2(w / 2),
        w == 2 * (w / 2),
        depth_of(w) == depth_of(w / 2) + 1,
        w / 2 >= 1,
{
}

/// The only power of two of depth one is two.
pub proof fn lemma_depth_one(w: int)
    requires
        is_pow2(w),
        depth_of(w) == 1,
    ensures
        w == 2,
{
    reveal_with_fuel(is_pow2, 3);
    reveal_with_fuel(depth_of, 3);
}

/// Between a power of two and its double lies no other power of two.
pub proof fn lemma_pow2_gap(a: int, b: int)
    requires
        is_pow2(a),
        is_pow2(b),
        a < b,
    ensures
        2 * a <= b,
    decreases b,
{
    if a > 1 {
        lemma_pow2_gap(a / 2, b / 2);
    }
}

/// The double of a power of two is a power of two.
pub proof fn lemma_pow2_double(a: int)
    requires
        is_pow2(a),
    ensures
        is_pow2(2 * a),
{
    assert((2 * a) / 2 == a);
}

/// The depth does not shrink when the side grows.
pub proof fn lemma_depth_monotone(a: int, b: int)
    requires
        a <= b,
    ensures
        depth_of(a) <= depth_of(b),
    decreases b,
{
    if a > 1 {
        lemma_depth_monotone(a / 2, b / 2);
    }
}

/// A side of depth `d` is at least `2^d`; stated for the bounds used here.
pub proof fn lemma_depth_bound(w: int)
    requires
        1 <= w,
    ensures
        depth_of(w) < w,
        w <= usize::MAX ==> depth_of(w) <= 64,
    decreases w,
{
    if w > 1 {
        lemma_depth_bound(w / 2);
        if w <= usize::MAX {
            vstd::arithmetic::power2::lemma2_to64();
            assert(usize::MAX < 0x1_0000_0000_0000_0000);
            lemma_depth_usize(w, 64);
        }
    }
}

/// A side below `2^n` has depth at most `n`.
proof fn lemma_depth_usize(w: int, n: nat)
    requires
        1 <= w,
        w < vstd::arithmetic::power2::pow2(n),
    ensures
        depth_of(w) <= n,
    decreases n,
{
    vstd::arithmetic::power2::lemma2_to64();
    if n == 0 {
    } else if w > 1 {
        assert(vstd::arithmetic::power2::pow2(n) == 2 * vstd::arithmetic::power2::pow2(
            (n - 1) as nat,
        )) by {
            vstd::arithmetic::power2::lemma_pow2_unfold(n);
        }
        lemma_depth_usize(w / 2, (n - 1) as nat);
    }
}

/// What the halvings around an in-range cell look like at every level up
/// to the depth of the matrix: a square with power-of-two side that still
/// holds the cell and lies inside the matrix.
pub proof fn lemma_square_at(w: int, x: int, y: int, level: nat)
    requires
        is_pow2(w),
        0 <= x < w,
        0 <= y < w,
        level <= depth_of(w),
    ensures
        ({
            let sq = square_at(w, x, y, level);
            &&& sq.contains(x, y)
            &&& 0 <= sq.x0 && sq.x1 < w && 0 <= sq.y0 && sq.y1 < w
            &&& sq.side() == sq.y1 - sq.y0 + 1
            &&& is_pow2(sq.side())
            &&& depth_of(sq.side()) + level == depth_of(w)
        }),
    decreases level,
{
    if level > 0 {
        lemma_square_at(w, x, y, (level - 1) as nat);
        let up = square_at(w, x, y, (level - 1) as nat);
        lemma_pow2_half(up.side());
    }
}

/// Every digit of a path is a quadrant number.
pub proof fn lemma_digit_range(w: int, x: int, y: int, level: nat)
    ensures
        0 <= digit(w, x, y, level) < 4,
{
}

/// Two in-range cells with the same path are the same cell.
pub proof fn lemma_path_injective(w: int, x: int, y: int, a: int, b: int)
    requires
        is_pow2(w),
        0 <= x < w,
        0 <= y < w,
        0 <= a < w,
        0 <= b < w,
        path(w, x, y) == path(w, a, b),
    ensures
        x == a && y == b,
{
    let d = depth_of(w);
    lemma_same_squares(w, x, y, a, b, d);
    lemma_square_at(w, x, y, d);
    lemma_square_at(w, a, b, d);
}

/// Cells with the same path are halved around in the same regions.
proof fn lemma_same_squares(w: int, x: int, y: int, a: int, b: int, level: nat)
    requires
        level <= depth_of(w),
        path(w, x, y) == path(w, a, b),
    ensures
        square_at(w, x, y, level) == square_at(w, a, b, level),
    decreases level,
{
    if level > 0 {
        lemma_same_squares(w, x, y, a, b, (level - 1) as nat);
        assert(path(w, x, y)[level - 1] == digit(w, x, y, (level - 1) as nat));
        assert(path(w, a, b)[level - 1] == digit(w, a, b, (level - 1) as nat));
    }
}

/// A cell inside a region lies in the quadrant named by its quadrant
/// number.
pub proof fn lemma_quadrant_holds(sq: Square, x: int, y: int)
    requires
        sq.contains(x, y),
    ensures
        0 <= sq.quadrant_of(x, y) < 4,
        sq.quadrant(sq.quadrant_of(x, y)).contains(x, y),
{
}

/// A cell inside a quadrant of a region lies in the region, and the
/// quadrant is the one named by the cell's quadrant number.
pub proof fn lemma_quadrant_unique(sq: Square, q: int, x: int, y: int)
    requires
        0 <= q < 4,
        sq.x0 <= sq.x1,
        sq.y0 <= sq.y1,
        sq.quadrant(q).contains(x, y),
    ensures
        sq.contains(x, y),
        q == sq.quadrant_of(x, y),
{
}

/// The region reached from the whole matrix of side `w` by taking the
/// quadrants numbered by the first `level` digits of `d`.
pub open spec fn square_along(w: int, d: Seq<int>, level: nat) -> Square
    decreases level,
{
    if level == 0 {
        full_square(w)
    } else {
        square_along(w, d, (level - 1) as nat).quadrant(d[level - 1])
    }
}

/// The regions along a sequence of quadrant numbers are squares with
/// power-of-two sides inside the matrix, each inside the one before.
proof fn lemma_square_along(w: int, d: Seq<int>, level: nat)
    requires
        is_pow2(w),
        level <= depth_of(w),
        forall|i: int| 0 <= i < level ==> 0 <= #[trigger] d[i] < 4,
    ensures
        ({
            let sq = square_along(w, d, level);
            &&& 0 <= sq.x0 <= sq.x1 < w
            &&& 0 <= sq.y0 <= sq.y1 < w
            &&& sq.side() == sq.y1 - sq.y0 + 1
            &&& is_pow2(sq.side())
            &&& depth_of(sq.side()) + level == depth_of(w)
            &&& level > 0 ==> {
                let up = square_along(w, d, (level - 1) as nat);
                up.x0 <= sq.x0 && sq.x1 <= up.x1 && up.y0 <= sq.y0 && sq.y1 <= up.y1
            }
        }),
    decreases level,
{
    if level > 0 {
        lemma_square_along(w, d, (level - 1) as nat);
        let up = square_along(w, d, (level - 1) as nat);
        lemma_pow2_half(up.side());
        assert(0 <= d[level - 1] < 4);
    }
}

/// The region at the end of a full sequence of quadrant numbers lies in
/// every region along the sequence.
proof fn lemma_square_nested(w: int, d: Seq<int>, level: nat)
    requires
        is_pow2(w),
        level <= depth_of(w),
        forall|i: int| 0 <= i < depth_of(w) ==> 0 <= #[trigger] d[i] < 4,
    ensures
        ({
            let sq = square_along(w, d, level);
            let end = square_along(w, d, depth_of(w));
            sq.x0 <= end.x0 && end.x1 <= sq.x1 && sq.y0 <= end.y0 && end.y1 <= sq.y1
        }),
    decreases depth_of(w) - level,
{
    if level < depth_of(w) {
        lemma_square_nested(w, d, level + 1);
        lemma_square_along(w, d, level + 1);
    }
}

/// Every full sequence of quadrant numbers is the path of a cell of the
/// matrix.
pub proof fn lemma_path_onto(w: int, d: Seq<int>) -> (c: (int, int))
    requires
        is_pow2(w),
        d.len() == depth_of(w),
        forall|i: int| 0 <= i < d.len() ==> 0 <= #[trigger] d[i] < 4,
    ensures
        0 <= c.0 < w,
        0 <= c.1 < w,
        path(w, c.0, c.1) == d,
{
    let end = square_along(w, d, depth_of(w));
    lemma_square_along(w, d, depth_of(w));
    let c = (end.x0, end.y0);
    assert forall|l: int| 0 <= l < d.len() implies digit(w, c.0, c.1, l as nat) == d[l] by {
        lemma_follows(w, d, c.0, c.1, l as nat);
        lemma_square_along(w, d, l as nat);
        lemma_square_nested(w, d, (l + 1) as nat);
        lemma_quadrant_unique(square_along(w, d, l as nat), d[l], c.0, c.1);
    }
    assert(path(w, c.0, c.1) =~= d);
    c
}

/// The halvings around a cell that lies in the region at the end of a
/// sequence of quadrant numbers go along that sequence.
proof fn lemma_follows(w: int, d: Seq<int>, x: int, y: int, level: nat)
    requires
        is_pow2(w),
        level <= depth_of(w),
        d.len() == depth_of(w),
        forall|i: int| 0 <= i < d.len() ==> 0 <= #[trigger] d[i] < 4,
        square_along(w, d, depth_of(w)).contains(x, y),
    ensures
        square_at(w, x, y, level) == square_along(w, d, level),
    decreases level,
{
    if level > 0 {
        lemma_follows(w, d, x, y, (level - 1) as nat);
        lemma_square_along(w, d, (level - 1) as nat);
        lemma_square_nested(w, d, level);
        lemma_quadrant_unique(square_along(w, d, (level - 1) as nat), d[level - 1], x, y);
    }
}

/// Splits a region into its four quadrants, in row-major order.
pub fn to_4_subranges(r: Range) -> (s: [Range; 4])
    requires
        r[0][0] <= r[0][1] < usize::MAX,
        r[1][0] <= r[1][1] < usize::MAX,
    ensures
        forall|q: int| 0 <= q < 4 ==> square(#[trigger] s[q]) == square(r).quadrant(q),
{
    let hx = (r[0][1] - r[0][0]) / 2;
    let hy = (r[1][1] - r[1][0]) / 2;
    [
        [[r[0][0], r[0][0] + hx], [r[1][0], r[1][0] + hy]],
        [[r[0][0] + hx + 1, r[0][1]], [r[1][0], r[1][0] + hy]],
        [[r[0][0], r[0][0] + hx], [r[1][0] + hy + 1, r[1][1]]],
        [[r[0][0] + hx + 1, r[0][1]], [r[1][0] + hy + 1, r[1][1]]],
    ]
}

/// Whether the cell `(x, y)` lies in the region `r`, bounds included.
pub fn within_range(r: &Range, x: usize, y: usize) -> (inside: bool)
    ensures
        inside == square(*r).contains(x as int, y as int),
{
    x >= r[0][0] && x <= r[0][1] && y >= r[1][0] && y <= r[1][1]
}

} // verus!
