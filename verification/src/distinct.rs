use vstd::prelude::*;
use crate::Bitmap;
use crate::HashFunction;
use crate::StreamProcessor;
use crate::folds_to;
use crate::runs_through;
use crate::hashing::KeyedHash;
use crate::hashing::key_for;

verus! {

/// Position of the first unsaturated bit run: for the first byte that is not
/// fully set, eight bits per skipped byte plus that byte's trailing ones.
/// A fully saturated bitmap yields eight bits per byte.
pub open spec fn fm_z(bytes: Seq<u8>) -> nat
    decreases bytes.len(),
{
    if bytes.len() == 0 {
        0
    } else if bytes.first() != 0xffu8 {
        vstd::std_specs::bits::u8_trailing_ones(bytes.first()) as nat
    } else {
        (8 + fm_z(bytes.drop_first())) as nat
    }
}

/// The cardinality estimate for first-unsaturated position `z`:
/// `2^z / 0.77351 - 1`, rounded to the nearest integer, with the standard
/// bias correction, saturated to the result type's range.  Rounding
/// `2^z * 100000 / 77351` is division by `154702` after doubling and adding
/// half the divisor.
pub open spec fn fm_estimate(z: nat) -> u64 {
    if z < 64 {
        ((vstd::arithmetic::power2::pow2(z) * 200000 + 77351) / 154702 - 1) as u64
    } else {
        u64::MAX
    }
}

/// Estimates the number of distinct elements of a stream: each element's
/// hash sets the bit at its count of trailing zeros, and the estimate reads
/// the first unsaturated position.
pub struct FlajoletMartin<const B: usize> {
    pub hasher: KeyedHash,
    pub bitmap: Bitmap<B>,
    pub obs: Ghost<nat>,
}

/// The bit an element saturates: its hash's trailing-zero count, clamped to
/// the bitmap's final bit.
pub open spec fn fm_bit_index<const B: usize>(pre: FlajoletMartin<B>, v: u64) -> int {
    let z = vstd::std_specs::bits::u64_trailing_zeros(pre.hasher.hash_spec(v)) as int;
    if z < B * 8 {
        z
    } else {
        B * 8 - 1
    }
}

impl<const B: usize> StreamProcessor<u64> for FlajoletMartin<B> {
    type Args = ();

    type Result = u64;

    open spec fn config_ok() -> bool {
        1 <= B <= 0x0fff_ffff
    }

    open spec fn wf(&self) -> bool {
        &&& self.bitmap.wf()
        &&& self.hasher.key == key_for(0)
        &&& 1 <= B <= 0x0fff_ffff
    }

    open spec fn is_fresh(&self) -> bool {
        &&& forall|j: int| 0 <= j < B ==> self.bitmap.bytes@[j] == 0u8
        &&& self.obs@ == 0
    }

    open spec fn observed(&self) -> nat {
        self.obs@
    }

    open spec fn process_post(pre: Self, v: u64, post: Self) -> bool {
        &&& post.bitmap.bits() == pre.bitmap.bits().update(fm_bit_index(pre, v), true)
        &&& post.hasher == pre.hasher
        &&& post.obs@ == pre.obs@ + 1
    }

    open spec fn query_post(&self, args: (), r: u64) -> bool {
        r == fm_estimate(fm_z(self.bitmap.bytes@))
    }

    fn new() -> (s: Self) {
        FlajoletMartin { hasher: KeyedHash::for_index(0), bitmap: Bitmap::new(), obs: Ghost(0) }
    }

    fn process(&mut self, v: u64) {
        let mut h = self.hasher;
        let hv = h.hash(v);
        let z = hv.trailing_zeros() as usize;
        self.bitmap.set_or_max(z);
        proof {
            self.obs@ = self.obs@ + 1;
        }
    }

    fn query(&self, args: &()) -> (r: u64) {
        let mut i: usize = 0;
        while i < B
            invariant
                self.wf(),
                i <= B,
                forall|j: int| 0 <= j < i ==> self.bitmap.bytes@[j] == 0xffu8,
            decreases B - i,
        {
            let b = self.bitmap.bytes[i];
            if b != 0xffu8 {
                let t = b.trailing_ones() as usize;
                proof {
                    lemma_fm_z_skip(self.bitmap.bytes@, i as int);
                    vstd::std_specs::bits::axiom_u8_trailing_ones(b);
                    assert(self.bitmap.bytes@.skip(i as int).first() == b);
                }
                return fm_estimate_exec(8 * i + t);
            }
            i = i + 1;
        }
        proof {
            lemma_fm_z_skip(self.bitmap.bytes@, B as int);
            assert(self.bitmap.bytes@.skip(B as int).len() == 0);
        }
        fm_estimate_exec(8 * B)
    }
}

/// Skipping fully saturated bytes adds eight to the position per byte.
proof fn lemma_fm_z_skip(s: Seq<u8>, i: int)
    requires
        0 <= i <= s.len(),
        forall|j: int| 0 <= j < i ==> s[j] == 0xffu8,
    ensures
        fm_z(s) == 8 * i + fm_z(s.skip(i)),
    decreases i,
{
    if i == 0 {
        assert(s.skip(0) =~= s);
    } else {
        assert(s.first() == 0xffu8);
        lemma_fm_z_skip(s.drop_first(), i - 1);
        assert(s.drop_first().skip(i - 1) =~= s.skip(i));
    }
}

/// Computes `fm_estimate` for a given position.
fn fm_estimate_exec(z: usize) -> (r: u64)
    ensures
        r == fm_estimate(z as nat),
{
    proof {
        vstd::arithmetic::power2::lemma2_to64();
        vstd::arithmetic::power2::lemma2_to64_rest();
    }
    if z >= 64 {
        return u64::MAX;
    }
    let p: u64 = 1u64 << (z as u64);
    proof {
        vstd::bits::lemma_u64_shl_is_mul(1u64, z as u64);
        assert(p == vstd::arithmetic::power2::pow2(z as nat));
    }
    let wide: u128 = ((p as u128) * 200000u128 + 77351u128) / 154702u128;
    proof {
        vstd::arithmetic::div_mod::lemma_div_is_ordered(
            (p as int) * 200000 + 77351,
            (0x8000_0000_0000_0000 * 200000 + 77351) as int,
            154702,
        );
    }
    (wide - 1) as u64
}

/// On the empty stream the distinct-count estimate is zero.
pub proof fn lemma_fm_empty<const B: usize>(s: FlajoletMartin<B>, r: u64)
    requires
        folds_to::<u64, FlajoletMartin<B>>(Seq::empty(), s),
        s.query_post((), r),
    ensures
        r == 0,
{
    let states = choose|states: Seq<FlajoletMartin<B>>|
        #[trigger] runs_through::<u64, FlajoletMartin<B>>(Seq::empty(), states) && states.last()
            == s;
    assert(states[0].is_fresh());
    assert(s == states[0]);
    assert(s.bitmap.bytes@.len() == B);
    assert(s.bitmap.bytes@.first() == 0u8);
    assert(vstd::std_specs::bits::u8_trailing_ones(0u8) == 0) by {
        vstd::std_specs::bits::axiom_u8_trailing_ones(0u8);
        assert((0u8 >> 0u8) & 1u8 == 0u8) by (bit_vector);
    }
    assert(fm_z(s.bitmap.bytes@) == 0);
    assert(vstd::arithmetic::power2::pow2(0) == 1) by {
        vstd::arithmetic::power2::lemma2_to64();
    }
    assert(fm_estimate(0) == 0);
}

/// The estimate rounds to the nearest integer: at the first unsaturated
/// position 1 the raw value `2 / 0.77351` is about 2.5856, so the estimate
/// is 2, not the truncated 1.
pub proof fn lemma_fm_estimate_rounds()
    ensures
        fm_estimate(1) == 2,
{
    vstd::arithmetic::power2::lemma2_to64();
}

} // verus!
