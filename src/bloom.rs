//! A bloom filter over transaction ids: a fixed array of bits, `NUM_HASHES`
//! of which are set for each id added.
use crate::codec::{digits, push_digits};
use bitvec::order::Msb0;
use bitvec::vec::BitVec;
use std::collections::hash_map::DefaultHasher;
use std::hash::Hasher;
use vstd::prelude::*;
use vstd::std_specs::hash::DefaultHasherAdditionalSpecFns;

verus! {

/// Number of bits: about 10^-7 false positives at 10^7 ids.
pub const BF_SIZE: usize = 56_166_771;

/// Number of bits set per id.
pub const NUM_HASHES: usize = 10;

/// A vector of bits of the `bitvec` crate, in a private field: its
/// parameters are bound by that crate's traits, so the type is not declared
/// itself. Its bits are read through `bits_of`.
#[verifier::external_body]
pub struct BitArray {
    inner: BitVec<u8, Msb0>,
}

/// The bits held by a bit vector, in index order.
pub uninterp spec fn bits_of(v: BitArray) -> Seq<bool>;

/// The 64-bit FxHash of an id.
pub uninterp spec fn fx_hash(tid: u128) -> u64;

/// Relies on `BitVec::repeat`: `len` bits, all clear.
#[verifier::external_body]
fn bits_new(len: usize) -> (r: BitArray)
    requires
        len <= BF_SIZE,
    ensures
        bits_of(r) == Seq::new(len as nat, |i: int| false),
{
    BitArray { inner: BitVec::repeat(false, len) }
}

/// Relies on indexing a `BitSlice`: the bit at `index`.
#[verifier::external_body]
fn bits_get(v: &BitArray, index: usize) -> (r: bool)
    requires
        index < bits_of(*v).len(),
    ensures
        r == bits_of(*v)[index as int],
{
    v.inner[index]
}

/// Relies on `BitSlice::set`: writes the bit at `index`.
#[verifier::external_body]
fn bits_set(v: &mut BitArray, index: usize, value: bool)
    requires
        index < bits_of(*old(v)).len(),
    ensures
        bits_of(*final(v)) == bits_of(*old(v)).update(index as int, value),
{
    v.inner.set(index, value)
}

/// Relies on `fxhash::hash64`: the FxHash of the id, a function of the id alone.
#[verifier::external_body]
fn fx_hash64(tid: u128) -> (r: u64)
    ensures
        r == fx_hash(tid),
{
    fxhash::hash64(&tid)
}

/// The second hash of an id: std's default hasher over the id's digits.
pub open spec fn second_hash(tid: u128) -> u64 {
    DefaultHasher::spec_finish(seq![digits(tid as nat, 32)])
}

/// The bit that the `i`-th hash of an id selects: `(h1 + i*i*h2) mod 2^64 mod m`.
pub open spec fn bloom_index(tid: u128, i: nat) -> int {
    let h1 = fx_hash(tid) as nat;
    let h2 = second_hash(tid) as nat;
    (((h1 + (i * i * h2) % 0x1_0000_0000_0000_0000) % 0x1_0000_0000_0000_0000) % (
    BF_SIZE as nat)) as int
}

/// The bits after setting those of the first `k` hashes of `tid`.
pub open spec fn add_upto(bits: Seq<bool>, tid: u128, k: nat) -> Seq<bool>
    decreases k,
{
    if k == 0 {
        bits
    } else {
        add_upto(bits, tid, (k - 1) as nat).update(bloom_index(tid, (k - 1) as nat), true)
    }
}

/// The bits after adding `tid`.
pub open spec fn bloom_add(bits: Seq<bool>, tid: u128) -> Seq<bool> {
    add_upto(bits, tid, NUM_HASHES as nat)
}

/// All the bits of `tid` are set.
pub open spec fn bloom_has(bits: Seq<bool>, tid: u128) -> bool {
    forall|i: nat| i < NUM_HASHES ==> bits[#[trigger] bloom_index(tid, i)]
}

pub proof fn lemma_index_in_range(tid: u128, i: nat)
    ensures
        0 <= bloom_index(tid, i) < BF_SIZE,
{
}

proof fn lemma_add_upto(bits: Seq<bool>, tid: u128, k: nat)
    requires
        bits.len() == BF_SIZE,
    ensures
        add_upto(bits, tid, k).len() == BF_SIZE,
        forall|i: nat| i < k ==> add_upto(bits, tid, k)[#[trigger] bloom_index(tid, i)],
        forall|j: int| 0 <= j < BF_SIZE && bits[j] ==> add_upto(bits, tid, k)[j],
    decreases k,
{
    if k > 0 {
        lemma_add_upto(bits, tid, (k - 1) as nat);
        lemma_index_in_range(tid, (k - 1) as nat);
        assert forall|i: nat| i < k implies add_upto(bits, tid, k)[#[trigger] bloom_index(
            tid,
            i,
        )] by {
            lemma_index_in_range(tid, i);
        }
    }
}

/// An id just added is reported present.
pub proof fn lemma_added_is_present(bits: Seq<bool>, tid: u128)
    requires
        bits.len() == BF_SIZE,
    ensures
        bloom_has(bloom_add(bits, tid), tid),
        bloom_add(bits, tid).len() == BF_SIZE,
{
    lemma_add_upto(bits, tid, NUM_HASHES as nat);
}

/// Adding an id never hides one that was present.
pub proof fn lemma_add_keeps_present(bits: Seq<bool>, tid: u128, other: u128)
    requires
        bits.len() == BF_SIZE,
        bloom_has(bits, other),
    ensures
        bloom_has(bloom_add(bits, tid), other),
        bloom_add(bits, tid).len() == BF_SIZE,
{
    lemma_add_upto(bits, tid, NUM_HASHES as nat);
    assert forall|i: nat| i < NUM_HASHES implies bloom_add(bits, tid)[#[trigger] bloom_index(
        other,
        i,
    )] by {
        lemma_index_in_range(other, i);
    }
}

/// The bloom filter: `contains` never answers `false` for an id that was added.
pub struct BloomFilter {
    bits: BitArray,
}

impl View for BloomFilter {
    type V = Seq<bool>;

    closed spec fn view(&self) -> Seq<bool> {
        bits_of(self.bits)
    }
}

impl BloomFilter {
    pub open spec fn wf(&self) -> bool {
        self@.len() == BF_SIZE
    }

    /// An empty filter.
    pub fn new() -> (r: BloomFilter)
        ensures
            r.wf(),
            r@ == Seq::new(BF_SIZE as nat, |i: int| false),
    {
        BloomFilter { bits: bits_new(BF_SIZE) }
    }

    /// The bit indices of an id.
    fn hash(tid: u128) -> (r: Vec<usize>)
        ensures
            r@.len() == NUM_HASHES,
            forall|i: int| 0 <= i < NUM_HASHES ==> r@[i] == bloom_index(tid, i as nat),
    {
        let h1: u64 = fx_hash64(tid);
        let mut d: Vec<u8> = Vec::new();
        push_digits(&mut d, tid, 32);
        assert(d@ =~= digits(tid as nat, 32));
        let mut hasher = DefaultHasher::new();
        hasher.write(d.as_slice());
        let h2: u64 = hasher.finish();
        assert(h2 == second_hash(tid));
        let mut out: Vec<usize> = Vec::new();
        let mut i: usize = 0;
        while i < NUM_HASHES
            invariant
                i <= NUM_HASHES,
                h1 == fx_hash(tid),
                h2 == second_hash(tid),
                out@.len() == i,
                forall|j: int| 0 <= j < i ==> out@[j] == bloom_index(tid, j as nat),
            decreases NUM_HASHES - i,
        {
            assert(i * i <= 100) by (nonlinear_arith)
                requires
                    i < 10,
            ;
            let sq: u128 = (i * i) as u128;
            assert(sq * (h2 as u128) <= 100 * 0xffff_ffff_ffff_ffff) by (nonlinear_arith)
                requires
                    sq <= 100,
                    h2 <= 0xffff_ffff_ffff_ffff,
            ;
            let m: u128 = (sq * h2 as u128) % 0x1_0000_0000_0000_0000;
            let w: u128 = (h1 as u128 + m) % 0x1_0000_0000_0000_0000;
            let idx: usize = (w % (BF_SIZE as u128)) as usize;
            assert(sq * h2 == i * i * h2);
            out.push(idx);
            i = i + 1;
        }
        out
    }

    /// Sets the bits of `tid`.
    pub fn add(&mut self, tid: u128)
        requires
            old(self).wf(),
        ensures
            final(self).wf(),
            final(self)@ == bloom_add(old(self)@, tid),
    {
        let idx = Self::hash(tid);
        let mut i: usize = 0;
        proof {
            lemma_add_upto(old(self)@, tid, NUM_HASHES as nat);
        }
        while i < NUM_HASHES
            invariant
                i <= NUM_HASHES,
                idx@.len() == NUM_HASHES,
                forall|j: int| 0 <= j < NUM_HASHES ==> idx@[j] == bloom_index(tid, j as nat),
                old(self).wf(),
                self@ == add_upto(old(self)@, tid, i as nat),
            decreases NUM_HASHES - i,
        {
            proof {
                lemma_add_upto(old(self)@, tid, i as nat);
                lemma_index_in_range(tid, i as nat);
            }
            bits_set(&mut self.bits, idx[i], true);
            i = i + 1;
        }
    }

    /// Whether all the bits of `tid` are set.
    pub fn contains(&self, tid: u128) -> (r: bool)
        requires
            self.wf(),
        ensures
            r == bloom_has(self@, tid),
    {
        let idx = Self::hash(tid);
        let mut i: usize = 0;
        while i < NUM_HASHES
            invariant
                i <= NUM_HASHES,
                self.wf(),
                idx@.len() == NUM_HASHES,
                forall|j: int| 0 <= j < NUM_HASHES ==> idx@[j] == bloom_index(tid, j as nat),
                forall|j: nat| j < i ==> self@[#[trigger] bloom_index(tid, j)],
            decreases NUM_HASHES - i,
        {
            proof {
                lemma_index_in_range(tid, i as nat);
            }
            if !bits_get(&self.bits, idx[i]) {
                assert(!self@[bloom_index(tid, i as nat)]);
                return false;
            }
            i = i + 1;
        }
        true
    }
}

} // verus!
