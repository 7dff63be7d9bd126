//! Dense bit sequences: the `bitvec` vector behind a sequence-of-booleans
//! model, and the block operations the tree encoding is built from.

use bitvec::order::Lsb0;
use bitvec::vec::BitVec;
use vstd::prelude::*;

verus! {

/// A growable sequence of bits, stored by `bitvec::vec::BitVec`.
///
/// The storage is opaque to the verifier: everything known about a value
/// is what the operations below say about [`bits_of`].
#[verifier::external_body]
#[derive(Debug, PartialEq, Eq)]
pub struct Bits {
    inner: BitVec<usize, Lsb0>,
}

/// The bits a vector holds, first to last.
pub uninterp spec fn bits_of(v: Bits) -> Seq<bool>;

impl View for Bits {
    type V = Seq<bool>;

    /// The bits held, first to last.
    open spec fn view(&self) -> Seq<bool> {
        bits_of(*self)
    }
}

impl Clone for Bits {
    /// `BitVec::clone`: a vector holding the same bits.
    #[verifier::external_body]
    fn clone(&self) -> (copy: Self)
        ensures
            bits_of(copy) == bits_of(*self),
    {
        Bits { inner: self.inner.clone() }
    }
}

/// The largest number of bits a vector can hold.
pub open spec fn max_bits() -> int {
    usize::MAX as int / 8
}

/// `BitVec::new`: a vector holding no bits.
#[verifier::external_body]
pub(crate) fn bv_new() -> (v: Bits)
    ensures
        bits_of(v) == Seq::<bool>::empty(),
{
    Bits { inner: BitVec::new() }
}

/// `BitVec::repeat`: `len` copies of `bit`. The call panics when `len`
/// exceeds the largest encodable length, so such lengths are excluded.
#[verifier::external_body]
pub(crate) fn bv_repeat(bit: bool, len: usize) -> (v: Bits)
    requires
        len <= max_bits(),
    ensures
        bits_of(v) == Seq::new(len as nat, |i: int| bit),
{
    Bits { inner: BitVec::repeat(bit, len) }
}

/// `BitVec::len`: the number of bits held, which the vector's length
/// encoding keeps at or below `usize::MAX >> 3`.
#[verifier::external_body]
pub(crate) fn bv_len(v: &Bits) -> (n: usize)
    ensures
        n == bits_of(*v).len(),
        n <= max_bits(),
{
    v.inner.len()
}

/// Indexing a `BitVec` by position: the bit stored there. Out-of-bounds
/// positions panic and are excluded.
#[verifier::external_body]
pub(crate) fn bv_get(v: &Bits, index: usize) -> (bit: bool)
    requires
        index < bits_of(*v).len(),
    ensures
        bit == bits_of(*v)[index as int],
{
    v.inner[index]
}

/// `BitSlice::set`: overwrites one bit and leaves the others alone.
/// Out-of-bounds positions panic and are excluded.
#[verifier::external_body]
pub(crate) fn bv_set(v: &mut Bits, index: usize, value: bool)
    requires
        index < bits_of(*old(v)).len(),
    ensures
        bits_of(*final(v)) == bits_of(*old(v)).update(index as int, value),
{
    v.inner.set(index, value);
}

/// `BitVec::insert`: places a bit at `index`, shifting the later bits one
/// place right. Panics past the end or at full capacity are excluded.
#[verifier::external_body]
pub(crate) fn bv_insert(v: &mut Bits, index: usize, value: bool)
    requires
        index <= bits_of(*old(v)).len(),
        bits_of(*old(v)).len() < max_bits(),
    ensures
        bits_of(*final(v)) == bits_of(*old(v)).insert(index as int, value),
{
    v.inner.insert(index, value);
}

/// `BitVec::remove`: takes the bit at `index` out, shifting the later bits
/// one place left, and returns it. Out-of-bounds positions are excluded.
#[verifier::external_body]
pub(crate) fn bv_remove(v: &mut Bits, index: usize) -> (bit: bool)
    requires
        index < bits_of(*old(v)).len(),
    ensures
        bits_of(*final(v)) == bits_of(*old(v)).remove(index as int),
        bit == bits_of(*old(v))[index as int],
{
    v.inner.remove(index)
}

/// `BitVec::push`: appends one bit. The panic at full capacity is excluded.
#[verifier::external_body]
pub(crate) fn bv_push(v: &mut Bits, value: bool)
    requires
        bits_of(*old(v)).len() < max_bits(),
    ensures
        bits_of(*final(v)) == bits_of(*old(v)).push(value),
{
    v.inner.push(value);
}

/// How many of the bits of `s` are set.
pub open spec fn count_ones(s: Seq<bool>) -> nat
    decreases s.len(),
{
    if s.len() == 0 {
        0
    } else {
        count_ones(s.drop_last()) + if s.last() { 1nat } else { 0nat }
    }
}

/// `n` cleared bits.
pub open spec fn zeros(n: nat) -> Seq<bool> {
    Seq::new(n, |i: int| false)
}

/// `r` lists exactly the positions of the set bits of `s`, in ascending
/// order.
pub open spec fn is_one_positions(r: Seq<usize>, s: Seq<bool>) -> bool {
    &&& forall|i: int| 0 <= i < r.len() ==> (#[trigger] r[i]) < s.len() && s[r[i] as int]
    &&& forall|i: int, j: int| 0 <= i < j < r.len() ==> r[i] < r[j]
    &&& forall|p: int| 0 <= p < s.len() && s[p] ==> exists|i: int| 0 <= i < r.len() && #[trigger] r[i] == p
}

impl Bits {
    /// An empty bit sequence.
    pub fn new() -> (v: Bits)
        ensures
            v@ == Seq::<bool>::empty(),
    {
        bv_new()
    }

    /// The bit sequence holding the booleans of `v`, in order.
    pub fn from_bools(v: &Vec<bool>) -> (b: Bits)
        requires
            v.len() <= max_bits(),
        ensures
            b@ == v@,
    {
        let mut b = bv_new();
        let mut i: usize = 0;
        while i < v.len()
            invariant
                i <= v.len() <= max_bits(),
                b@ == v@.take(i as int),
            decreases v.len() - i,
        {
            bv_push(&mut b, v[i]);
            assert(v@.take(i as int).push(v@[i as int]) =~= v@.take(i + 1));
            i += 1;
        }
        assert(v@.take(v.len() as int) =~= v@);
        b
    }

    /// The bits as a vector of booleans, in order.
    pub fn to_bools(&self) -> (v: Vec<bool>)
        ensures
            v@ == self@,
    {
        let n = bv_len(self);
        let mut v: Vec<bool> = Vec::new();
        let mut i: usize = 0;
        while i < n
            invariant
                i <= n == self@.len(),
                v@ == self@.take(i as int),
            decreases n - i,
        {
            v.push(bv_get(self, i));
            assert(self@.take(i as int).push(self@[i as int]) =~= self@.take(i + 1));
            i += 1;
        }
        assert(self@.take(n as int) =~= self@);
        v
    }

    /// The number of bits held.
    pub fn len(&self) -> (n: usize)
        ensures
            n == self@.len(),
            n <= max_bits(),
    {
        bv_len(self)
    }
}

/// The start of the block of `block_len` positions that holds `bit_pos`.
pub fn block_start(bit_pos: usize, block_len: usize) -> (start: usize)
    requires
        block_len > 0,
    ensures
        start == (bit_pos as int / block_len as int) * block_len,
        start <= bit_pos < start + block_len,
        start % block_len == 0,
{
    proof {
        vstd::arithmetic::div_mod::lemma_fundamental_div_mod(bit_pos as int, block_len as int);
        vstd::arithmetic::div_mod::lemma_mod_bound(bit_pos as int, block_len as int);
        vstd::arithmetic::div_mod::lemma_mod_multiples_basic(
            bit_pos as int / block_len as int,
            block_len as int,
        );
        assert((bit_pos as int / block_len as int) * block_len == block_len * (bit_pos as int
            / block_len as int)) by (nonlinear_arith);
    }
    (bit_pos / block_len) * block_len
}

/// Takes the `block_len` bits starting at `block_start` out of `bit_vec`.
///
/// Fails, leaving the bits alone, when the start lies at or past the end
/// or is not a multiple of `block_len`.
pub fn remove_block(bit_vec: &mut Bits, block_start: usize, block_len: usize) -> (res: Result<
    (),
    (),
>)
    requires
        block_len > 0,
        block_start < old(bit_vec)@.len() && block_start % block_len == 0 ==> block_start
            + block_len <= old(bit_vec)@.len(),
    ensures
        res is Ok <==> block_start < old(bit_vec)@.len() && block_start % block_len == 0,
        res is Ok ==> final(bit_vec)@ == old(bit_vec)@.take(block_start as int) + old(
            bit_vec,
        )@.skip(block_start + block_len),
        res is Err ==> final(bit_vec)@ == old(bit_vec)@,
{
    if block_start >= bv_len(bit_vec) || block_start % block_len != 0 {
        Err(())
    } else {
        let ghost before = bit_vec@;
        let mut i: usize = 0;
        while i < block_len
            invariant
                i <= block_len,
                block_start + block_len <= before.len(),
                bit_vec@ == before.take(block_start as int) + before.skip(block_start + i),
            decreases block_len - i,
        {
            bv_remove(bit_vec, block_start);
            assert(bit_vec@ =~= before.take(block_start as int) + before.skip(
                block_start + i + 1,
            ));
            i += 1;
        }
        Ok(())
    }
}

/// Puts `block_len` cleared bits into `bit_vec` at `block_start`.
///
/// Fails, leaving the bits alone, when the start lies past the end or is
/// not a multiple of `block_len`.
pub fn insert_block(bit_vec: &mut Bits, block_start: usize, block_len: usize) -> (res: Result<
    (),
    (),
>)
    requires
        block_len > 0,
        old(bit_vec)@.len() + block_len <= max_bits(),
    ensures
        res is Ok <==> block_start <= old(bit_vec)@.len() && block_start % block_len == 0,
        res is Ok ==> final(bit_vec)@ == old(bit_vec)@.take(block_start as int) + zeros(
            block_len as nat,
        ) + old(bit_vec)@.skip(block_start as int),
        res is Err ==> final(bit_vec)@ == old(bit_vec)@,
{
    if block_start > bv_len(bit_vec) || block_start % block_len != 0 {
        Err(())
    } else {
        let ghost before = bit_vec@;
        let mut i: usize = 0;
        while i < block_len
            invariant
                i <= block_len,
                block_start <= before.len(),
                before.len() + block_len <= max_bits(),
                bit_vec@ == before.take(block_start as int) + zeros(i as nat) + before.skip(
                    block_start as int,
                ),
            decreases block_len - i,
        {
            bv_insert(bit_vec, block_start, false);
            assert(bit_vec@ =~= before.take(block_start as int) + zeros((i + 1) as nat)
                + before.skip(block_start as int));
            i += 1;
        }
        Ok(())
    }
}

/// Counts the set bits at positions `begin` up to, not including, `end`.
pub fn ones_in_range(bits: &Bits, begin: usize, end: usize) -> (n: usize)
    requires
        begin <= end <= bits@.len(),
    ensures
        n == count_ones(bits@.subrange(begin as int, end as int)),
        n <= end - begin,
{
    let mut n: usize = 0;
    let mut i: usize = begin;
    while i < end
        invariant
            begin <= i <= end <= bits@.len(),
            n == count_ones(bits@.subrange(begin as int, i as int)),
            n <= i - begin,
        decreases end - i,
    {
        proof {
            let t = bits@.subrange(begin as int, i + 1);
            assert(t.drop_last() =~= bits@.subrange(begin as int, i as int));
            assert(t.last() == bits@[i as int]);
        }
        if bv_get(bits, i) {
            n += 1;
        }
        i += 1;
    }
    n
}

/// The positions of the set bits of `bit_vec`, in ascending order.
pub fn one_positions(bit_vec: &Bits) -> (r: Vec<usize>)
    ensures
        is_one_positions(r@, bit_vec@),
{
    let n = bv_len(bit_vec);
    let mut r: Vec<usize> = Vec::new();
    let mut i: usize = 0;
    while i < n
        invariant
            i <= n == bit_vec@.len(),
            is_one_positions(r@, bit_vec@.take(i as int)),
        decreases n - i,
    {
        let ghost before = r@;
        if bv_get(bit_vec, i) {
            r.push(i);
        }
        proof {
            let seen = bit_vec@.take(i as int);
            let wider = bit_vec@.take(i + 1);
            assert forall|p: int| 0 <= p < wider.len() && wider[p] implies exists|k: int|
                0 <= k < r@.len() && #[trigger] r@[k] == p by {
                if p < i {
                    assert(seen[p]);
                    let k = choose|k: int| 0 <= k < before.len() && #[trigger] before[k] == p;
                    assert(r@[k] == p);
                } else {
                    assert(r@[r@.len() - 1] == p);
                }
            }
            assert forall|k: int| 0 <= k < r@.len() implies (#[trigger] r@[k]) < wider.len()
                && wider[r@[k] as int] by {
                if k < before.len() {
                    assert(before[k] < seen.len() && seen[before[k] as int]);
                }
            }
            assert forall|a: int, b: int| 0 <= a < b < r@.len() implies r@[a] < r@[b] by {
                assert(b < before.len() ==> before[b] < seen.len());
                assert(before[a] < seen.len());
            }
        }
        i += 1;
    }
    assert(bit_vec@.take(n as int) =~= bit_vec@);
    r
}

} // verus!
