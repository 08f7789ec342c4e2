use vstd::prelude::*;
use crate::HashFunction;

verus! {

/// A 64-bit finalizer that scrambles all bits of its input: two rounds of
/// xor-shift and odd multiplication.  A pure function, so the same value
/// always hashes the same way.
pub open spec fn mix64(z: u64) -> u64 {
    let a = vstd::wrapping::u64_specs::wrapping_mul(z ^ (z >> 30u64), 0xbf58_476d_1ce4_e5b9);
    let b = vstd::wrapping::u64_specs::wrapping_mul(a ^ (a >> 27u64), 0x94d0_49bb_1331_11eb);
    b ^ (b >> 31u64)
}

/// The key of the `j`-th member of the hash family.
pub open spec fn key_for(j: u64) -> u64 {
    vstd::wrapping::u64_specs::wrapping_mul(
        vstd::wrapping::u64_specs::wrapping_add(j, 1),
        0x9e37_79b9_7f4a_7c15,
    )
}

/// A keyed 64-bit hash function: adds the key, then applies `mix64`.
/// Different keys give independent-looking members of one family.
#[derive(Clone, Copy, Debug, PartialEq, Eq, Structural)]
pub struct KeyedHash {
    pub key: u64,
}

impl KeyedHash {
    /// The `j`-th member of the family.
    pub fn for_index(j: u64) -> (r: Self)
        ensures
            r.key == key_for(j),
    {
        KeyedHash { key: j.wrapping_add(1).wrapping_mul(0x9e37_79b9_7f4a_7c15) }
    }
}

impl HashFunction<u64> for KeyedHash {
    open spec fn hash_spec(&self, v: u64) -> u64 {
        mix64(vstd::wrapping::u64_specs::wrapping_add(v, self.key))
    }

    fn hash(&mut self, v: u64) -> (r: u64) {
        let z = v.wrapping_add(self.key);
        let a = (z ^ (z >> 30u64)).wrapping_mul(0xbf58_476d_1ce4_e5b9);
        let b = (a ^ (a >> 27u64)).wrapping_mul(0x94d0_49bb_1331_11eb);
        b ^ (b >> 31u64)
    }
}

} // verus!
