//! Counting set bits: how the count of a bit sequence, and the count in
//! front of a position, change when the sequence is edited.

use crate::bits::{count_ones, zeros};
use vstd::prelude::*;

verus! {

/// The number of set bits of `s` in front of position `i`.
pub open spec fn ones_before(s: Seq<bool>, i: int) -> nat {
    count_ones(s.take(i))
}

/// One for a set bit, zero for a cleared one.
pub open spec fn bit_value(b: bool) -> nat {
    if b {
        1
    } else {
        0
    }
}

/// Whether the four bits of block `j` of `s` include a set one.
pub open spec fn block_nonzero(s: Seq<bool>, j: int) -> bool {
    s[4 * j] || s[4 * j + 1] || s[4 * j + 2] || s[4 * j + 3]
}

/// `r` holds, in order, the positions of the set bits of `s`: entry `i` is
/// the set bit with exactly `i` set bits in front of it.
pub open spec fn lists_ones(r: Seq<usize>, s: Seq<bool>) -> bool {
    &&& r.len() == count_ones(s)
    &&& forall|i: int|
        0 <= i < r.len() ==> (#[trigger] r[i]) < s.len() && s[r[i] as int] && ones_before(
            s,
            r[i] as int,
        ) == i
}

/// The count of two sequences joined is the sum of their counts.
pub proof fn lemma_count_concat(a: Seq<bool>, b: Seq<bool>)
    ensures
        count_ones(a + b) == count_ones(a) + count_ones(b),
    decreases b.len(),
{
    if b.len() == 0 {
        assert(a + b =~= a);
    } else {
        lemma_count_concat(a, b.drop_last());
        assert((a + b).drop_last() =~= a + b.drop_last());
    }
}

/// A sequence counts no more set bits than it has bits.
pub proof fn lemma_count_bound(s: Seq<bool>)
    ensures
        count_ones(s) <= s.len(),
    decreases s.len(),
{
    if s.len() > 0 {
        lemma_count_bound(s.drop_last());
    }
}

/// Cleared bits count zero.
pub proof fn lemma_count_zeros(n: nat)
    ensures
        count_ones(zeros(n)) == 0,
    decreases n,
{
    if n > 0 {
        lemma_count_zeros((n - 1) as nat);
        assert(zeros(n).drop_last() =~= zeros((n - 1) as nat));
    }
}

/// A sequence counts zero exactly when none of its bits is set.
pub proof fn lemma_count_zero_iff(s: Seq<bool>)
    ensures
        count_ones(s) == 0 <==> (forall|i: int| 0 <= i < s.len() ==> !s[i]),
    decreases s.len(),
{
    if s.len() > 0 {
        lemma_count_zero_iff(s.drop_last());
        if count_ones(s) == 0 {
            assert forall|i: int| 0 <= i < s.len() implies !s[i] by {
                if i < s.len() - 1 {
                    assert(s.drop_last()[i] == s[i]);
                }
            }
        }
        if forall|i: int| 0 <= i < s.len() ==> !s[i] {
            assert forall|i: int| 0 <= i < s.drop_last().len() implies !s.drop_last()[i] by {
                assert(s.drop_last()[i] == s[i]);
            }
        }
    }
}

/// Splitting at `i` splits the count.
pub proof fn lemma_count_split(s: Seq<bool>, i: int)
    requires
        0 <= i <= s.len(),
    ensures
        count_ones(s) == ones_before(s, i) + count_ones(s.skip(i)),
{
    lemma_count_concat(s.take(i), s.skip(i));
    assert(s.take(i) + s.skip(i) =~= s);
}

/// Moving one position to the right adds the bit that was passed.
pub proof fn lemma_ones_before_step(s: Seq<bool>, i: int)
    requires
        0 <= i < s.len(),
    ensures
        ones_before(s, i + 1) == ones_before(s, i) + bit_value(s[i]),
{
    assert(s.take(i + 1).drop_last() =~= s.take(i));
}

/// In front of the first position stands nothing; in front of the end,
/// everything.
pub proof fn lemma_ones_before_all(s: Seq<bool>)
    ensures
        ones_before(s, s.len() as int) == count_ones(s),
        ones_before(s, 0) == 0,
{
    assert(s.take(s.len() as int) =~= s);
}

/// The count in front of a position does not shrink as the position
/// moves right, and never exceeds the total.
pub proof fn lemma_ones_before_monotone(s: Seq<bool>, i: int, j: int)
    requires
        0 <= i <= j <= s.len(),
    ensures
        ones_before(s, i) <= ones_before(s, j) <= count_ones(s),
        ones_before(s, j) <= ones_before(s, i) + (j - i),
{
    lemma_count_split(s.take(j), i);
    assert(s.take(j).take(i) =~= s.take(i));
    lemma_count_split(s, j);
    lemma_count_bound(s.take(j).skip(i));
}

/// A set bit at `i` separates the counts in front of `i` and behind it.
pub proof fn lemma_ones_before_strict(s: Seq<bool>, i: int, j: int)
    requires
        0 <= i < j <= s.len(),
        s[i],
    ensures
        ones_before(s, i) < ones_before(s, j),
        ones_before(s, i) < count_ones(s),
{
    lemma_ones_before_step(s, i);
    lemma_ones_before_monotone(s, i + 1, j);
}

/// Two set bits with the same count in front of them are the same bit.
pub proof fn lemma_same_rank_same_bit(s: Seq<bool>, i: int, j: int)
    requires
        0 <= i < s.len(),
        0 <= j < s.len(),
        s[i],
        s[j],
        ones_before(s, i) == ones_before(s, j),
    ensures
        i == j,
{
    if i < j {
        lemma_ones_before_strict(s, i, j);
    } else if j < i {
        lemma_ones_before_strict(s, j, i);
    }
}

/// For every count below the total there is a set bit with that many set
/// bits in front of it.
pub proof fn lemma_nth_one_exists(s: Seq<bool>, n: int) -> (p: int)
    requires
        0 <= n < count_ones(s),
    ensures
        0 <= p < s.len(),
        s[p],
        ones_before(s, p) == n,
    decreases s.len(),
{
    let t = s.drop_last();
    if n < count_ones(t) {
        let p = lemma_nth_one_exists(t, n);
        assert(s.take(p) =~= t.take(p));
        p
    } else {
        assert(s.last());
        assert(s.take(s.len() - 1) =~= t);
        s.len() - 1
    }
}

/// Writing one bit changes the count in front of later positions by the
/// difference of the new and the old bit, and no other count.
pub proof fn lemma_ones_before_update(s: Seq<bool>, p: int, b: bool, i: int)
    requires
        0 <= p < s.len(),
        0 <= i <= s.len(),
    ensures
        i <= p ==> ones_before(s.update(p, b), i) == ones_before(s, i),
        i > p ==> ones_before(s.update(p, b), i) + bit_value(s[p]) == ones_before(s, i)
            + bit_value(b),
{
    let u = s.update(p, b);
    if i <= p {
        assert(u.take(i) =~= s.take(i));
    } else {
        lemma_count_split(u.take(i), p + 1);
        lemma_count_split(s.take(i), p + 1);
        assert(u.take(i).take(p + 1) =~= u.take(p + 1));
        assert(s.take(i).take(p + 1) =~= s.take(p + 1));
        assert(u.take(i).skip(p + 1) =~= s.take(i).skip(p + 1));
        lemma_ones_before_step(u, p);
        lemma_ones_before_step(s, p);
        assert(u.take(p) =~= s.take(p));
    }
}

/// Writing one bit changes the count by the difference of the new and
/// the old bit.
pub proof fn lemma_count_update(s: Seq<bool>, p: int, b: bool)
    requires
        0 <= p < s.len(),
    ensures
        count_ones(s.update(p, b)) + bit_value(s[p]) == count_ones(s) + bit_value(b),
{
    lemma_ones_before_update(s, p, b, s.len() as int);
    lemma_ones_before_all(s);
    lemma_ones_before_all(s.update(p, b));
}

/// `s` with `n` cleared bits put in at position `at`.
pub open spec fn with_zeros(s: Seq<bool>, at: int, n: nat) -> Seq<bool> {
    s.take(at) + zeros(n) + s.skip(at)
}

/// `s` without the `n` bits starting at position `at`.
pub open spec fn without(s: Seq<bool>, at: int, n: nat) -> Seq<bool> {
    s.take(at) + s.skip(at + n)
}

/// Cleared bits put into a sequence leave the counts in front of the old
/// positions as they were.
pub proof fn lemma_ones_before_with_zeros(s: Seq<bool>, at: int, n: nat, i: int)
    requires
        0 <= at <= s.len(),
        0 <= i <= s.len(),
    ensures
        i <= at ==> ones_before(with_zeros(s, at, n), i) == ones_before(s, i),
        i >= at ==> ones_before(with_zeros(s, at, n), i + n) == ones_before(s, i),
{
    let w = with_zeros(s, at, n);
    if i <= at {
        assert(w.take(i) =~= s.take(i));
    }
    if i >= at {
        assert(w.take(i + n) =~= s.take(at) + zeros(n) + s.subrange(at, i));
        lemma_count_concat(s.take(at) + zeros(n), s.subrange(at, i));
        lemma_count_concat(s.take(at), zeros(n));
        lemma_count_zeros(n);
        lemma_count_concat(s.take(at), s.subrange(at, i));
        assert(s.take(at) + s.subrange(at, i) =~= s.take(i));
    }
}

/// Cleared bits put into a sequence leave its count as it was.
pub proof fn lemma_count_with_zeros(s: Seq<bool>, at: int, n: nat)
    requires
        0 <= at <= s.len(),
    ensures
        count_ones(with_zeros(s, at, n)) == count_ones(s),
{
    lemma_ones_before_with_zeros(s, at, n, s.len() as int);
    lemma_ones_before_all(s);
    lemma_ones_before_all(with_zeros(s, at, n));
}

/// Taking cleared bits out is undone by putting cleared bits back.
pub proof fn lemma_without_zeros_inverse(s: Seq<bool>, at: int, n: nat)
    requires
        0 <= at,
        at + n <= s.len(),
        forall|i: int| at <= i < at + n ==> !s[i],
    ensures
        with_zeros(without(s, at, n), at, n) == s,
{
    let t = without(s, at, n);
    assert(t.take(at) =~= s.take(at));
    assert(t.skip(at) =~= s.skip(at + n));
    assert(with_zeros(t, at, n) =~= s);
}

} // verus!
