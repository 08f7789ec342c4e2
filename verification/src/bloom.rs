use vstd::prelude::*;
use crate::Bitmap;
use crate::HashFunction;
use crate::StreamProcessor;
use crate::folds_to;
use crate::runs_through;
use crate::hashing::KeyedHash;
use crate::hashing::key_for;

verus! {

/// The bit the `j`-th hash function maps an element to.
pub open spec fn bloom_index<const B: usize>(j: int, v: u64) -> int {
    (KeyedHash { key: key_for(j as u64) }.hash_spec(v) as int) % (B * 8)
}

/// Probabilistic set membership: each processed element sets one bit per
/// hash function, and a query reports whether all of an element's bits are
/// set.  No false negatives; false positives at a rate that grows with the
/// load factor.
pub struct BloomFilter<const B: usize, const H: usize> {
    pub hashers: Vec<KeyedHash>,
    pub bitmap: Bitmap<B>,
    pub seen: Ghost<Set<u64>>,
    pub obs: Ghost<nat>,
}

impl<const B: usize, const H: usize> StreamProcessor<u64> for BloomFilter<B, H> {
    type Args = u64;

    type Result = bool;

    open spec fn config_ok() -> bool {
        &&& 1 <= B <= 0x0fff_ffff
        &&& 1 <= H <= 0xffff
    }

    open spec fn wf(&self) -> bool {
        &&& self.bitmap.wf()
        &&& 1 <= B <= 0x0fff_ffff
        &&& 1 <= H <= 0xffff
        &&& self.hashers@.len() == H
        &&& forall|j: int| 0 <= j < H ==> (#[trigger] self.hashers@[j]).key == key_for(j as u64)
        &&& forall|x: u64, j: int|
            self.seen@.contains(x) && 0 <= j < H ==> self.bitmap.bits()[bloom_index::<B>(j, x)]
    }

    open spec fn is_fresh(&self) -> bool {
        &&& forall|j: int| 0 <= j < B ==> self.bitmap.bytes@[j] == 0u8
        &&& self.seen@ == Set::<u64>::empty()
        &&& self.obs@ == 0
    }

    open spec fn observed(&self) -> nat {
        self.obs@
    }

    open spec fn process_post(pre: Self, v: u64, post: Self) -> bool {
        &&& post.seen@ == pre.seen@.insert(v)
        &&& post.obs@ == pre.obs@ + 1
        &&& post.hashers@ == pre.hashers@
        &&& forall|i: int|
            0 <= i < B * 8 ==> post.bitmap.bits()[i] == (pre.bitmap.bits()[i] || exists|t: int|
                #![trigger bloom_index::<B>(t, v)]
                0 <= t < H && i == bloom_index::<B>(t, v))
    }

    open spec fn query_post(&self, args: u64, r: bool) -> bool {
        r == forall|j: int| 0 <= j < H ==> self.bitmap.bits()[bloom_index::<B>(j, args)]
    }

    fn new() -> (s: Self) {
        let mut hashers: Vec<KeyedHash> = Vec::new();
        let mut j: usize = 0;
        while j < H
            invariant
                j <= H,
                hashers@.len() == j,
                forall|t: int| 0 <= t < j ==> (#[trigger] hashers@[t]).key == key_for(t as u64),
            decreases H - j,
        {
            hashers.push(KeyedHash::for_index(j as u64));
            j = j + 1;
        }
        BloomFilter { hashers, bitmap: Bitmap::new(), seen: Ghost(Set::empty()), obs: Ghost(0) }
    }

    fn process(&mut self, v: u64) {
        let bits_total: usize = B * 8;
        let mut j: usize = 0;
        while j < H
            invariant
                self.bitmap.wf(),
                1 <= B <= 0x0fff_ffff,
                1 <= H <= 0xffff,
                bits_total == B * 8,
                j <= H,
                self.hashers@ == old(self).hashers@,
                self.seen@ == old(self).seen@,
                self.obs@ == old(self).obs@,
                old(self).wf(),
                forall|i: int|
                    0 <= i < B * 8 ==> self.bitmap.bits()[i] == (old(self).bitmap.bits()[i]
                        || exists|t: int|
                        #![trigger bloom_index::<B>(t, v)]
                        0 <= t < j && i == bloom_index::<B>(t, v)),
            decreases H - j,
        {
            let mut h = self.hashers[j];
            let hv = h.hash(v);
            let idx = (hv % (bits_total as u64)) as usize;
            proof {
                assert(self.hashers@[j as int] == (KeyedHash { key: key_for(j as u64) }));
                assert(idx as int == bloom_index::<B>(j as int, v));
            }
            let ghost bits0 = self.bitmap.bits();
            self.bitmap.set(idx);
            proof {
                assert forall|i: int|
                    0 <= i < B * 8 implies self.bitmap.bits()[i] == (old(
                    self,
                ).bitmap.bits()[i] || exists|t: int|
                    #![trigger bloom_index::<B>(t, v)]
                    0 <= t < j + 1 && i == bloom_index::<B>(t, v)) by {
                    if i == idx {
                        assert(0 <= (j as int) < j + 1 && i == bloom_index::<B>(j as int, v));
                        assert(self.bitmap.bits()[i]);
                    } else {
                        assert(self.bitmap.bits()[i] == bits0[i]);
                        if exists|t: int|
                            #![trigger bloom_index::<B>(t, v)]
                            0 <= t < j + 1 && i == bloom_index::<B>(t, v) {
                            let t = choose|t: int|
                                #![trigger bloom_index::<B>(t, v)]
                                0 <= t < j + 1 && i == bloom_index::<B>(t, v);
                            assert(t != j);
                            assert(0 <= t < j && i == bloom_index::<B>(t, v));
                        }
                        if exists|t: int|
                            #![trigger bloom_index::<B>(t, v)]
                            0 <= t < j && i == bloom_index::<B>(t, v) {
                            let t = choose|t: int|
                                #![trigger bloom_index::<B>(t, v)]
                                0 <= t < j && i == bloom_index::<B>(t, v);
                            assert(0 <= t < j + 1 && i == bloom_index::<B>(t, v));
                        }
                    }
                }
            }
            j = j + 1;
        }
        proof {
            self.seen@ = self.seen@.insert(v);
            self.obs@ = self.obs@ + 1;
            assert forall|x: u64, j2: int|
                self.seen@.contains(x) && 0 <= j2 < H implies self.bitmap.bits()[bloom_index::<
                B,
            >(j2, x)] by {
                if x == v {
                    assert(0 <= j2 < H && bloom_index::<B>(j2, x) == bloom_index::<B>(j2, v));
                } else {
                    assert(old(self).seen@.contains(x));
                    assert(old(self).bitmap.bits()[bloom_index::<B>(j2, x)]);
                }
            }
        }
    }

    fn query(&self, args: &u64) -> (r: bool) {
        let bits_total: usize = B * 8;
        let mut j: usize = 0;
        while j < H
            invariant
                self.wf(),
                bits_total == B * 8,
                j <= H,
                forall|t: int| 0 <= t < j ==> self.bitmap.bits()[bloom_index::<B>(t, *args)],
            decreases H - j,
        {
            let mut h = self.hashers[j];
            let hv = h.hash(*args);
            let idx = (hv % (bits_total as u64)) as usize;
            proof {
                assert(self.hashers@[j as int] == (KeyedHash { key: key_for(j as u64) }));
                assert(idx as int == bloom_index::<B>(j as int, *args));
            }
            if !self.bitmap.get(idx) {
                proof {
                    assert(!(forall|t: int|
                        0 <= t < H ==> self.bitmap.bits()[bloom_index::<B>(t, *args)]));
                }
                return false;
            }
            j = j + 1;
        }
        true
    }
}

/// The empty filter reports no members: a fresh filter answers false for
/// every element.
pub proof fn lemma_bloom_fresh_reports_nothing<const B: usize, const H: usize>(
    s: BloomFilter<B, H>,
    x: u64,
    r: bool,
)
    requires
        s.wf(),
        s.is_fresh(),
        s.query_post(x, r),
    ensures
        r == false,
{
    let i = bloom_index::<B>(0, x);
    assert(0 <= i < B * 8);
    assert(!s.bitmap.bits()[i]) by {
        let m = (i % 8) as u8;
        assert((0u8 >> m) & 1u8 == 0u8) by (bit_vector);
        assert(s.bitmap.bytes@[i / 8] == 0u8);
    }
    assert(!(forall|j: int| 0 <= j < H ==> s.bitmap.bits()[bloom_index::<B>(j, x)]));
}

/// Along any run, the set of elements recorded so far is exactly the set of
/// elements processed.
proof fn lemma_bloom_chain<const B: usize, const H: usize>(
    elems: Seq<u64>,
    states: Seq<BloomFilter<B, H>>,
    j: int,
)
    requires
        runs_through::<u64, BloomFilter<B, H>>(elems, states),
        0 <= j < states.len(),
    ensures
        states[j].seen@ == elems.take(j).to_set(),
    decreases j,
{
    if j == 0 {
        assert(elems.take(0).to_set() =~= Set::<u64>::empty());
    } else {
        lemma_bloom_chain::<B, H>(elems, states, j - 1);
        assert(<BloomFilter<B, H> as StreamProcessor<u64>>::process_post(
            states[j - 1],
            elems[j - 1],
            states[j - 1 + 1],
        ));
        assert(states[j - 1 + 1] == states[j]);
        assert(elems.take(j).drop_last() =~= elems.take(j - 1));
        broadcast use vstd::seq_lib::group_seq_properties;
        assert(elems.take(j).to_set() =~= elems.take(j - 1).to_set().insert(elems[j - 1]));
    }
}

/// No false negatives: after processing any sequence, a query for any
/// element of that sequence answers true.
pub proof fn lemma_bloom_no_false_negative<const B: usize, const H: usize>(
    elems: Seq<u64>,
    s: BloomFilter<B, H>,
    x: u64,
    r: bool,
)
    requires
        folds_to::<u64, BloomFilter<B, H>>(elems, s),
        elems.contains(x),
        s.query_post(x, r),
    ensures
        r == true,
{
    let states = choose|states: Seq<BloomFilter<B, H>>|
        #[trigger] runs_through::<u64, BloomFilter<B, H>>(elems, states) && states.last() == s;
    lemma_bloom_chain::<B, H>(elems, states, states.len() - 1);
    assert(elems.take(elems.len() as int) =~= elems);
    assert(s.wf());
    assert(s.seen@.contains(x)) by {
        assert(elems.to_set().contains(x));
    }
    assert(forall|j: int| 0 <= j < H ==> s.bitmap.bits()[bloom_index::<B>(j, x)]);
}

} // verus!
