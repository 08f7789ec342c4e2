use vstd::prelude::*;

pub mod adapters;
pub mod bloom;
pub mod compactor;
pub mod count;
pub mod distinct;
pub mod hashing;
pub mod high_freq;
pub mod quantile;
pub mod random;

verus! {

/// A hash function maps elements of a set to 64-bit values.
///
/// The single method must behave as a pure function of the hasher's state and
/// the element, so that sketches built on it can reason about repeated
/// observations of the same element.
pub trait HashFunction<T>: Sized {
    /// The value `hash` returns, as a function of the hasher and the element.
    spec fn hash_spec(&self, v: T) -> u64;

    fn hash(&mut self, v: T) -> (r: u64)
        ensures
            *final(self) == *old(self),
            r == old(self).hash_spec(v),
    ;
}

/// A stream processor ingests one element at a time through `process` and
/// answers a statistical query about the stream through `query`, which never
/// mutates state.
pub trait StreamProcessor<T>: Sized {
    type Args;

    type Result;

    /// Whether the compile-time size parameters of this processor are
    /// acceptable.  Invalid configurations are rejected at construction.
    spec fn config_ok() -> bool;

    /// Well-formedness of the processor's state; established by `new` and
    /// preserved by `process`.
    spec fn wf(&self) -> bool;

    /// Holds of exactly the states that `new` may return.
    spec fn is_fresh(&self) -> bool;

    /// The number of stream elements incorporated so far.
    spec fn observed(&self) -> nat;

    /// Relates the state before one `process` call to the state after it.
    spec fn process_post(pre: Self, v: T, post: Self) -> bool;

    /// Which values `query` may return on this state and these arguments.
    /// Deterministic processors pin the result exactly.
    spec fn query_post(&self, args: Self::Args, r: Self::Result) -> bool;

    fn new() -> (s: Self)
        requires
            Self::config_ok(),
        ensures
            s.wf(),
            s.is_fresh(),
            s.observed() == 0,
    ;

    fn process(&mut self, v: T)
        requires
            old(self).wf(),
            old(self).observed() < u64::MAX,
        ensures
            final(self).wf(),
            final(self).observed() == old(self).observed() + 1,
            Self::process_post(*old(self), v, *final(self)),
    ;

    fn query(&self, args: &Self::Args) -> (r: Self::Result)
        requires
            self.wf(),
        ensures
            self.query_post(*args, r),
    ;

}

/// Folds `process` over a whole sequence starting from a fresh state, then
/// queries once.
pub fn apply<T: Copy, S: StreamProcessor<T>>(elems: Vec<T>, args: &S::Args) -> (r: S::Result)
    requires
        S::config_ok(),
        elems@.len() < u64::MAX,
    ensures
        exists|s: S| #[trigger] folds_to::<T, S>(elems@, s) && s.query_post(*args, r),
{
    let mut s = S::new();
    let ghost mut states: Seq<S> = seq![s];
    let n = elems.len();
    let mut i: usize = 0;
    while i < n
        invariant
            i <= n,
            n == elems@.len(),
            elems@.len() < u64::MAX,
            s.wf(),
            s.observed() == i,
            states.len() == i + 1,
            states.last() == s,
            runs_through::<T, S>(elems@.take(i as int), states),
        decreases n - i,
    {
        let v = elems[i];
        let ghost pre = s;
        s.process(v);
        proof {
            let prev = states;
            states = states.push(s);
            assert(elems@.take((i + 1) as int).len() == i + 1);
            assert forall|j: int| 0 <= j < i + 1 implies #[trigger] S::process_post(
                states[j],
                elems@.take((i + 1) as int)[j],
                states[j + 1],
            ) && states[j + 1].wf() by {
                if j < i {
                    assert(S::process_post(prev[j], elems@.take(i as int)[j], prev[j + 1]));
                    assert(states[j] == prev[j] && states[j + 1] == prev[j + 1]);
                }
            }
        }
        i += 1;
    }
    proof {
        assert(elems@.take(n as int) =~= elems@);
        assert(runs_through::<T, S>(elems@, states) && states.last() == s);
        assert(folds_to::<T, S>(elems@, s));
    }
    s.query(args)
}

/// The chain of states a processor moves through while it ingests `elems`:
/// one more state than elements, starting fresh, each step one `process`
/// call.
pub open spec fn runs_through<T, S: StreamProcessor<T>>(elems: Seq<T>, states: Seq<S>) -> bool {
    &&& states.len() == elems.len() + 1
    &&& states[0].wf()
    &&& states.last().wf()
    &&& states[0].is_fresh()
    &&& states[0].observed() == 0
    &&& forall|i: int|
        0 <= i < elems.len() ==> #[trigger] S::process_post(states[i], elems[i], states[i + 1])
            && states[i + 1].wf()
}

/// Holds when processing the elements of `elems` in order, starting from a
/// fresh state, can leave the processor in state `s`.
pub open spec fn folds_to<T, S: StreamProcessor<T>>(elems: Seq<T>, s: S) -> bool {
    exists|states: Seq<S>| #[trigger] runs_through::<T, S>(elems, states) && states.last() == s
}

/// A fixed-capacity bit vector of `B * 8` bits, sized at construction and
/// never resized.
#[derive(Clone, Debug)]
pub struct Bitmap<const B: usize> {
    pub bytes: Vec<u8>,
}

impl<const B: usize> Bitmap<B> {
    pub open spec fn wf(&self) -> bool {
        self.bytes@.len() == B
    }

    /// Bit `i` of the bitmap, lowest-order bit of each byte first.
    pub open spec fn bit(&self, i: int) -> bool {
        (self.bytes@[i / 8] >> ((i % 8) as u8)) & 1u8 == 1u8
    }

    /// The whole bitmap as a sequence of `B * 8` bits.
    pub open spec fn bits(&self) -> Seq<bool> {
        Seq::new((B * 8) as nat, |i: int| self.bit(i))
    }

    pub fn new() -> (r: Self)
        ensures
            r.wf(),
            r.bits() =~= Seq::new((B * 8) as nat, |i: int| false),
            forall|j: int| 0 <= j < B ==> r.bytes@[j] == 0u8,
    {
        let mut bytes: Vec<u8> = Vec::new();
        let mut i: usize = 0;
        while i < B
            invariant
                i <= B,
                bytes@.len() == i,
                forall|j: int| 0 <= j < i ==> bytes@[j] == 0u8,
            decreases B - i,
        {
            bytes.push(0u8);
            i += 1;
        }
        let r = Bitmap { bytes };
        proof {
            assert forall|k: int| 0 <= k < B * 8 implies !r.bit(k) by {
                let m = (k % 8) as u8;
                assert((0u8 >> m) & 1u8 == 0u8) by (bit_vector);
            }
        }
        r
    }

    pub fn set(&mut self, i: usize)
        requires
            old(self).wf(),
            i < B * 8,
        ensures
            final(self).wf(),
            final(self).bits() =~= old(self).bits().update(i as int, true),
    {
        let bucket = i / 8;
        let idx = (i % 8) as u8;
        let b = self.bytes[bucket];
        let nb = b | (1u8 << idx);
        self.bytes.set(bucket, nb);
        proof {
            lemma_u8_bit_or(b, idx);
            assert forall|k: int| 0 <= k < B * 8 implies self.bit(k) == (if k == i {
                true
            } else {
                old(self).bit(k)
            }) by {
                if k / 8 == i / 8 && k != i {
                    assert((k % 8) as u8 != idx);
                }
            }
        }
    }

    /// Sets bit `i` when it is in range; otherwise saturates by setting the
    /// highest-order bit as a sentinel.
    pub fn set_or_max(&mut self, i: usize)
        requires
            old(self).wf(),
            B >= 1,
        ensures
            final(self).wf(),
            final(self).bits() =~= old(self).bits().update(
                if i < B * 8 {
                    i as int
                } else {
                    B * 8 - 1
                },
                true,
            ),
    {
        let bucket = i / 8;
        if bucket < B {
            let idx = (i % 8) as u8;
            let b = self.bytes[bucket];
            let nb = b | (1u8 << idx);
            self.bytes.set(bucket, nb);
            proof {
                lemma_u8_bit_or(b, idx);
                assert(i < B * 8);
                assert forall|k: int| 0 <= k < B * 8 implies self.bit(k) == (if k == i {
                    true
                } else {
                    old(self).bit(k)
                }) by {
                    if k / 8 == i / 8 && k != i {
                        assert((k % 8) as u8 != idx);
                    }
                }
            }
        } else {
            let b = self.bytes[B - 1];
            let nb = b | (1u8 << 7u8);
            self.bytes.set(B - 1, nb);
            proof {
                lemma_u8_bit_or(b, 7u8);
                assert(i >= B * 8);
                assert((B * 8 - 1) / 8 == B - 1);
                assert((B * 8 - 1) % 8 == 7);
                assert forall|k: int| 0 <= k < B * 8 implies self.bit(k) == (if k == B * 8 - 1 {
                    true
                } else {
                    old(self).bit(k)
                }) by {
                    if k / 8 == B - 1 && k != B * 8 - 1 {
                        assert((k % 8) as u8 != 7u8);
                    }
                }
            }
        }
    }

    pub fn get(&self, i: usize) -> (r: bool)
        requires
            self.wf(),
            i < B * 8,
        ensures
            r == self.bits()[i as int],
    {
        let bucket = i / 8;
        let idx = (i % 8) as u8;
        (self.bytes[bucket] >> idx) & 1u8 == 1u8
    }
}

/// Effect of setting one bit of a byte: bit `m` becomes 1 and every other
/// bit keeps its value.
proof fn lemma_u8_bit_or(b: u8, m: u8)
    requires
        m < 8,
    ensures
        ((b | (1u8 << m)) >> m) & 1u8 == 1u8,
        forall|k: u8| k < 8 && k != m ==> ((b | (1u8 << m)) >> k) & 1u8 == (b >> k) & 1u8,
{
    assert(((b | (1u8 << m)) >> m) & 1u8 == 1u8) by (bit_vector)
        requires
            m < 8,
    ;
    assert forall|k: u8| k < 8 && k != m implies ((b | (1u8 << m)) >> k) & 1u8 == (b >> k)
        & 1u8 by {
        assert(((b | (1u8 << m)) >> k) & 1u8 == (b >> k) & 1u8) by (bit_vector)
            requires
                m < 8,
                k < 8,
                k != m,
        ;
    }
}

} // verus!
