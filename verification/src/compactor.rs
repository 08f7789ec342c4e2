use vstd::prelude::*;
use vstd::multiset::Multiset;
use crate::random::RandomSource;
use crate::random::RAND_DENOM;

verus! {

/// The ordering the compactors sort by.
pub open spec fn leq() -> spec_fn(u64, u64) -> bool {
    |x: u64, y: u64| x <= y
}

/// Ascending order under `leq`.
pub open spec fn sorted(s: Seq<u64>) -> bool {
    vstd::relations::sorted_by(s, leq())
}

pub proof fn lemma_leq_total()
    ensures
        vstd::relations::total_ordering(leq()),
{
    assert(vstd::relations::reflexive(leq())) by {
        assert(forall|x: u64| #[trigger] leq()(x, x));
    }
    assert(vstd::relations::antisymmetric(leq())) by {
        assert(forall|x: u64, y: u64| #[trigger] leq()(x, y) && #[trigger] leq()(y, x) ==> x == y);
    }
    assert(vstd::relations::transitive(leq())) by {
        assert(forall|x: u64, y: u64, z: u64|
            #[trigger] leq()(x, y) && #[trigger] leq()(y, z) ==> leq()(x, z));
    }
    assert(vstd::relations::strongly_connected(leq())) by {
        assert(forall|x: u64, y: u64| #[trigger] leq()(x, y) || #[trigger] leq()(y, x));
    }
}

proof fn lemma_sorted_push(s: Seq<u64>, x: u64)
    requires
        sorted(s),
        forall|i: int| 0 <= i < s.len() ==> s[i] <= x,
    ensures
        sorted(s.push(x)),
{
    let t = s.push(x);
    assert forall|i: int, j: int| 0 <= i < j < t.len() implies #[trigger] leq()(t[i], t[j]) by {
        if j < s.len() {
            assert(leq()(s[i], s[j]));
        } else {
            assert(t[j] == x);
        }
    }
}

/// Sorts a vector of integers ascending, by repeated extraction of the
/// least remaining element.
pub fn sort_vec(v: &mut Vec<u64>)
    ensures
        sorted(final(v)@),
        final(v)@.to_multiset() == old(v)@.to_multiset(),
        final(v)@.len() == old(v)@.len(),
        final(v)@ == old(v)@.sort_by(leq()),
{
    let mut out: Vec<u64> = Vec::new();
    proof {
        broadcast use vstd::seq_lib::group_to_multiset_ensures;
        broadcast use vstd::multiset::group_multiset_axioms;

        assert(out@.to_multiset().add(v@.to_multiset()) =~= old(v)@.to_multiset());
    }
    while v.len() > 0
        invariant
            sorted(out@),
            out@.to_multiset().add(v@.to_multiset()) == old(v)@.to_multiset(),
            out@.len() + v@.len() == old(v)@.len(),
            forall|i: int, j: int|
                0 <= i < out@.len() && 0 <= j < v@.len() ==> out@[i] <= v@[j],
        decreases v@.len(),
    {
        let mut m: usize = 0;
        let mut k: usize = 1;
        while k < v.len()
            invariant
                0 <= m < k <= v@.len(),
                forall|j: int| 0 <= j < k ==> v@[m as int] <= v@[j],
            decreases v@.len() - k,
        {
            if v[k] < v[m] {
                m = k;
            }
            k = k + 1;
        }
        let x = v.remove(m);
        proof {
            broadcast use vstd::seq_lib::group_to_multiset_ensures;
            broadcast use vstd::multiset::group_multiset_axioms;

            lemma_sorted_push(out@, x);
            assert(out@.push(x).to_multiset().add(v@.to_multiset())
                =~= old(v)@.to_multiset());
        }
        out.push(x);
    }
    proof {
        broadcast use vstd::seq_lib::group_to_multiset_ensures;
        broadcast use vstd::multiset::group_multiset_axioms;

        assert(v@.to_multiset() =~= Multiset::<u64>::empty());
        assert(out@.to_multiset() =~= old(v)@.to_multiset());
    }
    *v = out;
    proof {
        lemma_leq_total();
        old(v)@.lemma_sort_by_ensures(leq());
        vstd::seq_lib::lemma_sorted_unique(v@, old(v)@.sort_by(leq()), leq());
    }
}

/// Returns the number of items in a sorted slice that are less than `v`.
pub fn rank(outputs: &[u64], v: u64) -> (r: usize)
    requires
        sorted(outputs@),
    ensures
        r <= outputs@.len(),
        forall|i: int| 0 <= i < r ==> outputs@[i] < v,
        forall|i: int| r <= i < outputs@.len() ==> outputs@[i] >= v,
{
    let mut lo: usize = 0;
    let mut hi: usize = outputs.len();
    while lo < hi
        invariant
            lo <= hi <= outputs@.len(),
            sorted(outputs@),
            forall|i: int| 0 <= i < lo ==> outputs@[i] < v,
            forall|i: int| hi <= i < outputs@.len() ==> outputs@[i] >= v,
        decreases hi - lo,
    {
        let mid = lo + (hi - lo) / 2;
        if outputs[mid] < v {
            proof {
                assert forall|i: int| 0 <= i <= mid implies outputs@[i] < v by {
                    if i < mid {
                        assert(leq()(outputs@[i], outputs@[mid as int]));
                    }
                }
            }
            lo = mid + 1;
        } else {
            proof {
                assert forall|i: int| mid <= i < outputs@.len() implies outputs@[i] >= v by {
                    if i > mid {
                        assert(leq()(outputs@[mid as int], outputs@[i]));
                    }
                }
            }
            hi = mid;
        }
    }
    lo
}

/// Whether `n` is an exact power of two.
pub open spec fn pow2_exact(n: int) -> bool {
    exists|k: nat| vstd::arithmetic::power2::pow2(k) == n
}

/// Keeps the elements of `s` whose index has parity `p`.
pub open spec fn every_other(s: Seq<u64>, p: int) -> Seq<u64> {
    Seq::new(((s.len() - p + 1) / 2) as nat, |j: int| s[2 * j + p])
}


/// Largest integer whose square does not exceed `m`.
pub fn isqrt(m: usize) -> (r: usize)
    requires
        1 <= m <= 0x0fff_ffff,
    ensures
        1 <= r,
        r * r <= m,
        (r + 1) * (r + 1) > m,
{
    let mut r: usize = 1;
    while r + 1 <= m / (r + 1)
        invariant
            1 <= r <= m,
            r * r <= m,
            m <= 0x0fff_ffff,
        decreases m - r,
    {
        proof {
            vstd::arithmetic::div_mod::lemma_fundamental_div_mod(m as int, (r + 1) as int);
            assert((r + 1) * (r + 1) <= m) by (nonlinear_arith)
                requires
                    r + 1 <= m as int / (r + 1),
                    m as int == (r + 1) * (m as int / (r + 1)) + m as int % (r + 1),
                    m as int % (r + 1) >= 0,
                    r >= 1,
            ;
        }
        r = r + 1;
    }
    proof {
        vstd::arithmetic::div_mod::lemma_fundamental_div_mod(m as int, (r + 1) as int);
        assert((r + 1) * (r + 1) > m) by (nonlinear_arith)
            requires
                r + 1 > m as int / (r + 1),
                m as int == (r + 1) * (m as int / (r + 1)) + m as int % (r + 1),
                m as int % (r + 1) < r + 1,
                r >= 1,
        ;
    }
    r
}

/// Total number of elements the chunk pass discards when every chunk is
/// full: chunk `n` loses `min(n, c)` elements.
pub open spec fn lin_removed(q: nat, c: nat) -> nat
    decreases q,
{
    if q == 0 {
        0
    } else {
        (lin_removed((q - 1) as nat, c) + if ((q - 1) as nat) < c {
            (q - 1) as nat
        } else {
            c
        }) as nat
    }
}

/// The concatenation of per-chunk survivor runs, in chunk order.
pub open spec fn concat_parts(parts: Seq<Seq<u64>>) -> Seq<u64>
    decreases parts.len(),
{
    if parts.len() == 0 {
        Seq::empty()
    } else {
        concat_parts(parts.drop_last()) + parts.last()
    }
}

/// Number of entries of `rm` whose value lies below `bound`.
pub open spec fn count_lt(rm: Seq<usize>, bound: int) -> nat
    decreases rm.len(),
{
    if rm.len() == 0 {
        0
    } else {
        (count_lt(rm.drop_last(), bound) + if rm.last() < bound {
            1nat
        } else {
            0nat
        }) as nat
    }
}

pub open spec fn distinct_idx(rm: Seq<usize>) -> bool {
    forall|j1: int, j2: int| 0 <= j1 < j2 < rm.len() ==> rm[j1] != rm[j2]
}

/// Raising the bound by one counts exactly the occurrences of the old
/// bound: one for a distinct sequence that holds it, none otherwise.
proof fn lemma_count_lt_step(rm: Seq<usize>, i: usize)
    requires
        distinct_idx(rm),
    ensures
        count_lt(rm, i + 1) == count_lt(rm, i as int) + if rm.contains(i) {
            1nat
        } else {
            0nat
        },
    decreases rm.len(),
{
    if rm.len() > 0 {
        assert(distinct_idx(rm.drop_last())) by {
            assert forall|j1: int, j2: int|
                0 <= j1 < j2 < rm.drop_last().len() implies rm.drop_last()[j1]
                != rm.drop_last()[j2] by {
                assert(rm[j1] != rm[j2]);
            }
        }
        lemma_count_lt_step(rm.drop_last(), i);
        if rm.last() == i {
            assert(rm.contains(i));
            if rm.drop_last().contains(i) {
                let t = choose|t: int| 0 <= t < rm.drop_last().len() && rm.drop_last()[t] == i;
                assert(rm[t] == rm[rm.len() - 1]);
                assert(false);
            }
        } else {
            if rm.contains(i) {
                let t = choose|t: int| 0 <= t < rm.len() && rm[t] == i;
                assert(rm.drop_last()[t] == i);
            }
            if rm.drop_last().contains(i) {
                let t = choose|t: int| 0 <= t < rm.drop_last().len() && rm.drop_last()[t] == i;
                assert(rm[t] == i);
            }
        }
    }
}

/// No entry lies below zero.
proof fn lemma_count_lt_zero(rm: Seq<usize>)
    ensures
        count_lt(rm, 0) == 0,
    decreases rm.len(),
{
    if rm.len() > 0 {
        lemma_count_lt_zero(rm.drop_last());
    }
}

/// A bound above every entry counts them all.
proof fn lemma_count_lt_all(rm: Seq<usize>, bound: int)
    requires
        forall|j: int| 0 <= j < rm.len() ==> rm[j] < bound,
    ensures
        count_lt(rm, bound) == rm.len(),
    decreases rm.len(),
{
    if rm.len() > 0 {
        lemma_count_lt_all(rm.drop_last(), bound);
    }
}

/// Whether a vector of indices holds `x`.
fn contains_idx(v: &Vec<usize>, x: usize) -> (r: bool)
    ensures
        r == v@.contains(x),
{
    let mut i: usize = 0;
    while i < v.len()
        invariant
            i <= v@.len(),
            forall|j: int| 0 <= j < i ==> v@[j] != x,
        decreases v@.len() - i,
    {
        if v[i] == x {
            return true;
        }
        i = i + 1;
    }
    false
}

/// Stepping a residue by `s` is the same as adding `s` before reducing.
proof fn lemma_mod_step(start: int, k: int, s: int, c: int)
    requires
        c >= 1,
        s >= 0,
        k >= 0,
        start >= 0,
    ensures
        ((start + k * s) % c + s) % c == (start + (k + 1) * s) % c,
{
    assert(start + k * s >= 0) by (nonlinear_arith)
        requires
            start >= 0,
            k >= 0,
            s >= 0,
    ;
    vstd::arithmetic::div_mod::lemma_add_mod_noop(start + k * s, s, c);
    vstd::arithmetic::div_mod::lemma_add_mod_noop((start + k * s) % c, s, c);
    vstd::arithmetic::div_mod::lemma_small_mod(((start + k * s) % c) as nat, c as nat);
    assert(start + k * s + s == start + (k + 1) * s) by (nonlinear_arith);
}

/// Two distinct multiples of the stride, both short of a full wrap, land on
/// distinct residues.
proof fn lemma_stride_distinct(start: int, s: int, c: int, j1: int, j2: int)
    requires
        0 <= start,
        c >= 1,
        s >= 1,
        0 <= j1 < j2,
        j2 * s < c,
    ensures
        (start + j1 * s) % c != (start + j2 * s) % c,
{
    assert((start + j2 * s) - (start + j1 * s) == (j2 - j1) * s) by (nonlinear_arith);
    assert((j2 - j1) * s >= s) by (nonlinear_arith)
        requires
            j2 - j1 >= 1,
            s >= 1,
    ;
    assert((j2 - j1) * s <= j2 * s) by (nonlinear_arith)
        requires
            j1 >= 0,
            j2 - j1 <= j2,
            s >= 1,
    ;
    if (start + j1 * s) % c == (start + j2 * s) % c {
        vstd::arithmetic::div_mod::lemma_fundamental_div_mod(start + j1 * s, c);
        vstd::arithmetic::div_mod::lemma_fundamental_div_mod(start + j2 * s, c);
        assert((start + j2 * s) - (start + j1 * s) == c * ((start + j2 * s) / c - (start + j1
            * s) / c)) by (nonlinear_arith)
            requires
                start + j1 * s == c * ((start + j1 * s) / c) + (start + j1 * s) % c,
                start + j2 * s == c * ((start + j2 * s) / c) + (start + j2 * s) % c,
                (start + j1 * s) % c == (start + j2 * s) % c,
        ;
        assert(forall|d: int| d >= 1 ==> #[trigger] (c * d) >= c) by (nonlinear_arith)
            requires
                c >= 1,
        ;
        assert(forall|d: int| d <= 0 ==> #[trigger] (c * d) <= 0) by (nonlinear_arith)
            requires
                c >= 1,
        ;
        assert(false);
    }
}

/// The rounded position a relative compaction draws within slice `i`,
/// determined by the generator's starting seed: draw `i`, scaled to the
/// slice's size `2^i` and rounded to the nearest integer.  The slice's
/// element at this position is retained; a position of `2^i` (rounding up
/// past the end) retains nothing.
pub open spec fn slice_draw(seed0: u64, i: nat) -> int {
    (crate::random::draw_of(crate::random::seed_after(seed0, i)) * vstd::arithmetic::power2::pow2(
        i,
    ) + RAND_DENOM / 2) / (RAND_DENOM as int)
}

/// The survivors a relative compaction produces, slice by slice: for each
/// slice `i` of size `2^i` (starting at position `2^i - 1`), either nothing,
/// or the single element at the drawn offset within that slice.
pub open spec fn slice_picks(b: Seq<u64>, keep: Seq<bool>, offs: Seq<int>) -> Seq<u64>
    decreases keep.len(),
{
    if keep.len() == 0 {
        Seq::empty()
    } else {
        slice_picks(b, keep.drop_last(), offs.drop_last()) + if keep.last() {
            seq![b[vstd::arithmetic::power2::pow2((keep.len() - 1) as nat) - 1 + offs.last()]]
        } else {
            Seq::empty()
        }
    }
}

/// A bounded buffer compacted by randomized discarding: it takes in a
/// stream of elements and, on each compaction, keeps a sample of its
/// content while bounding the rank error the discarding introduces.
#[derive(Clone, Debug)]
pub struct Compactor {
    pub buffer: Vec<u64>,
    pub max_len: usize,
    pub num_chunks: usize,
    pub chunk_size: usize,
    pub rng: RandomSource,
}

impl Compactor {
    pub open spec fn wf(&self) -> bool {
        &&& 1 <= self.max_len <= 0x0fff_ffff
        &&& 1 <= self.num_chunks <= self.max_len
        &&& self.chunk_size == self.max_len / self.num_chunks
        &&& 1 <= self.chunk_size
        &&& self.num_chunks * self.chunk_size <= self.max_len
    }

    /// How many elements the chunk pass of `linear_relative_compact`
    /// covers: all of its chunks.  Elements beyond it are drained as a kept
    /// tail.
    pub open spec fn lin_cap(&self) -> int {
        self.num_chunks * self.chunk_size
    }

    /// Creates a new compactor of a given capacity.
    pub fn new(max_len: usize) -> (r: Self)
        requires
            1 <= max_len <= 0x0fff_ffff,
        ensures
            r.wf(),
            r.max_len == max_len,
            r.buffer@.len() == 0,
            r.num_chunks * r.num_chunks <= max_len,
            (r.num_chunks + 1) * (r.num_chunks + 1) > max_len,
            r.chunk_size == max_len / r.num_chunks,
            r.rng.seed == crate::random::RAND_SEED,
    {
        let num_chunks = isqrt(max_len);
        let chunk_size = max_len / num_chunks;
        proof {
            vstd::arithmetic::div_mod::lemma_fundamental_div_mod(max_len as int, num_chunks as int);
            assert(num_chunks <= max_len) by (nonlinear_arith)
                requires
                    num_chunks >= 1,
                    num_chunks * num_chunks <= max_len,
            ;
            assert(chunk_size >= 1) by (nonlinear_arith)
                requires
                    chunk_size == max_len / num_chunks,
                    max_len == num_chunks * chunk_size + max_len % num_chunks,
                    max_len % num_chunks < num_chunks,
                    num_chunks * num_chunks <= max_len,
                    num_chunks >= 1,
            ;
            assert(num_chunks * chunk_size <= max_len);
        }
        Compactor { buffer: Vec::new(), max_len, num_chunks, chunk_size, rng: RandomSource::new() }
    }

    /// Adds an item, and returns true exactly when the buffer has just
    /// reached capacity and must be compacted before further additions.
    pub fn add(&mut self, t: u64) -> (r: bool)
        ensures
            final(self).buffer@ == old(self).buffer@.push(t),
            final(self).max_len == old(self).max_len,
            final(self).num_chunks == old(self).num_chunks,
            final(self).chunk_size == old(self).chunk_size,
            final(self).rng == old(self).rng,
            r == (final(self).buffer@.len() == final(self).max_len),
    {
        self.buffer.push(t);
        self.buffer.len() == self.max_len
    }

    pub fn len(&self) -> (r: usize)
        ensures
            r == self.buffer@.len(),
    {
        self.buffer.len()
    }

    pub fn is_empty(&self) -> (r: bool)
        ensures
            r == (self.buffer@.len() == 0),
    {
        self.buffer.len() == 0
    }

    /// Sorts the buffer, draws one parity bit, and drains the buffer
    /// entirely, returning exactly the elements at positions of that
    /// parity: half the content for an even count, so the additive rank
    /// error per compaction stays bounded by a constant.
    pub fn additive_compact(&mut self) -> (out: Vec<u64>)
        requires
            old(self).wf(),
            old(self).max_len % 2 == 0,
        ensures
            final(self).wf(),
            final(self).max_len == old(self).max_len,
            final(self).num_chunks == old(self).num_chunks,
            final(self).chunk_size == old(self).chunk_size,
            final(self).rng.seed == crate::random::next_seed(old(self).rng.seed),
            final(self).buffer@.len() == 0,
            exists|p: int|
                0 <= p < 2 && p == crate::random::draw_of(old(self).rng.seed) % 2 && out@
                    == #[trigger] every_other(old(self).buffer@.sort_by(leq()), p),
            old(self).buffer@.len() % 2 == 0 ==> out@.len() == old(self).buffer@.len() / 2,
    {
        sort_vec(&mut self.buffer);
        let p = self.rng.next_parity();
        let ghost sorted_s = old(self).buffer@.sort_by(leq());
        let mut out: Vec<u64> = Vec::new();
        let n = self.buffer.len();
        let mut i: usize = 0;
        while i < n
            invariant
                self.buffer@ == sorted_s,
                n == sorted_s.len(),
                p < 2,
                i <= n,
                out@.len() == (i + 1 - p) / 2,
                forall|j: int| 0 <= j < out@.len() ==> out@[j] == sorted_s[2 * j + p],
            decreases n - i,
        {
            if i % 2 == p {
                out.push(self.buffer[i]);
            }
            i = i + 1;
        }
        self.buffer = Vec::new();
        proof {
            assert(out@ =~= every_other(sorted_s, p as int));
            assert(out@ == every_other(old(self).buffer@.sort_by(leq()), p as int));
        }
        out
    }

    /// Sorts the buffer and drains it entirely, chunk by chunk, discarding
    /// about `n` randomly placed elements from the `n`-th chunk, so the
    /// discard rate grows linearly with the chunk index and the relative
    /// rank error of the survivors stays bounded.  Any elements beyond the
    /// chunk layout are kept whole.  Survivors are appended to `buf` in
    /// ascending order; when the buffer held at least `lin_cap()` elements
    /// the survivor count is exact: chunk `n` keeps `chunk_size - min(n,
    /// chunk_size)` elements.
    pub fn linear_relative_compact(&mut self, buf: &mut Vec<u64>)
        requires
            old(self).wf(),
            old(self).buffer@.len() <= old(self).max_len,
        ensures
            final(self).wf(),
            final(self).max_len == old(self).max_len,
            final(self).num_chunks == old(self).num_chunks,
            final(self).chunk_size == old(self).chunk_size,
            final(self).buffer@.len() == 0,
            exists|picked: Seq<u64>|
                #![trigger sorted(picked)]
                final(buf)@ == old(buf)@ + picked && sorted(picked)
                    && picked.to_multiset().subset_of(old(self).buffer@.to_multiset())
                    && picked.len() <= old(self).buffer@.len() && (old(self).buffer@.len() >= 1
                    ==> picked.len() >= 1) && (old(self).buffer@.len() >= old(self).lin_cap()
                    ==> picked.len() + lin_removed(
                    old(self).num_chunks as nat,
                    old(self).chunk_size as nat,
                ) == old(self).buffer@.len()),
            old(self).buffer@.len() >= old(self).lin_cap() ==> exists|parts: Seq<Seq<u64>>|
                #![trigger concat_parts(parts)]
                parts.len() == old(self).num_chunks + 1 && final(buf)@ == old(buf)@
                    + concat_parts(parts) && (forall|t: int|
                    0 <= t < old(self).num_chunks ==> (#[trigger] parts[t]).len() + (
                    if t < old(self).chunk_size {
                        t
                    } else {
                        old(self).chunk_size as int
                    }) == old(self).chunk_size) && (forall|t: int|
                    0 <= t < old(self).num_chunks ==> (#[trigger] parts[t]).to_multiset().subset_of(
                        old(self).buffer@.sort_by(leq()).subrange(
                            t * old(self).chunk_size,
                            t * old(self).chunk_size + old(self).chunk_size,
                        ).to_multiset(),
                    )) && parts[old(self).num_chunks as int] == old(self).buffer@.sort_by(
                    leq(),
                ).skip(old(self).lin_cap()),
            old(buf)@.is_prefix_of(final(buf)@),
            final(buf)@.skip(old(buf)@.len() as int).to_multiset().subset_of(
                old(self).buffer@.to_multiset(),
            ),
            old(self).buffer@.len() == 0 ==> final(buf)@ == old(buf)@,
            old(self).buffer@.len() >= 1 ==> final(buf)@.len() > old(buf)@.len(),
    {
        sort_vec(&mut self.buffer);
        let ghost sorted_s = self.buffer@;
        let ghost old_buffer = old(self).buffer@;
        let num_chunks = self.num_chunks;
        let chunk_size = self.chunk_size;
        let total = self.buffer.len();
        let ghost mut picked: Seq<u64> = Seq::empty();
        let ghost mut parts: Seq<Seq<u64>> = Seq::empty();
        let mut pos: usize = 0;
        let mut n: usize = 0;
        proof {
            assert(buf@ =~= old(buf)@ + picked);
            assert(sorted_s.take(0) =~= Seq::<u64>::empty());
            broadcast use vstd::seq_lib::group_to_multiset_ensures;
            broadcast use vstd::multiset::group_multiset_axioms;

        }
        while n < num_chunks && pos < total
            invariant
                self.wf(),
                self.max_len == old(self).max_len,
                self.num_chunks == old(self).num_chunks,
                self.chunk_size == old(self).chunk_size,
                self.buffer@ == sorted_s,
                sorted(sorted_s),
                sorted_s.len() == total,
                total == old_buffer.len(),
                sorted_s.to_multiset() == old_buffer.to_multiset(),
                num_chunks == self.num_chunks,
                chunk_size == self.chunk_size,
                n <= num_chunks,
                pos == if n * chunk_size <= total {
                    (n * chunk_size) as int
                } else {
                    total as int
                },
                buf@ == old(buf)@ + picked,
                sorted(picked),
                picked.len() <= pos,
                picked.to_multiset().subset_of(sorted_s.take(pos as int).to_multiset()),
                total >= 1 && n >= 1 ==> picked.len() >= 1,
                total >= self.lin_cap() ==> picked.len() + lin_removed(
                    n as nat,
                    chunk_size as nat,
                ) == pos,
                parts.len() == n,
                picked == concat_parts(parts),
                total >= self.lin_cap() ==> forall|t: int|
                    0 <= t < n ==> (#[trigger] parts[t]).len() + (if t < chunk_size {
                        t
                    } else {
                        chunk_size as int
                    }) == chunk_size,
                total >= self.lin_cap() ==> forall|t: int|
                    0 <= t < n ==> (#[trigger] parts[t]).to_multiset().subset_of(
                        sorted_s.subrange(
                            t * chunk_size,
                            t * chunk_size + chunk_size,
                        ).to_multiset(),
                    ),
                forall|j: int, t: int|
                    0 <= j < picked.len() && pos <= t < total ==> picked[j] <= sorted_s[t],
            decreases num_chunks - n,
        {
            let remaining = total - pos;
            let take = if chunk_size < remaining {
                chunk_size
            } else {
                remaining
            };
            let num_to_remove = if n < chunk_size {
                n
            } else {
                chunk_size
            };
            let mut rm_buf: Vec<usize> = Vec::new();
            if num_to_remove >= chunk_size {
                let mut q: usize = 0;
                while q < chunk_size
                    invariant
                        rm_buf@.len() == q,
                        q <= chunk_size,
                        forall|j: int| 0 <= j < q ==> rm_buf@[j] == j,
                    decreases chunk_size - q,
                {
                    rm_buf.push(q);
                    q = q + 1;
                }
            } else if num_to_remove > 0 {
                let stride = chunk_size / num_to_remove;
                proof {
                    assert(stride >= 1) by (nonlinear_arith)
                        requires
                            stride == chunk_size / num_to_remove,
                            1 <= num_to_remove <= chunk_size,
                    ;
                }
                let start = self.rng.next_below(chunk_size as u64) as usize;
                let mut curr = start;
                proof {
                    vstd::arithmetic::div_mod::lemma_small_mod(start as nat, chunk_size as nat);
                }
                while rm_buf.len() < num_to_remove
                    invariant
                        chunk_size <= 0x0fff_ffff,
                        1 <= num_to_remove < chunk_size,
                        stride == chunk_size / num_to_remove,
                        stride >= 1,
                        start < chunk_size,
                        rm_buf@.len() <= num_to_remove,
                        curr == (start + rm_buf@.len() * stride) % (chunk_size as int),
                        0 <= curr < chunk_size,
                        forall|j: int|
                            0 <= j < rm_buf@.len() ==> rm_buf@[j] == (start + j * stride) % (
                            chunk_size as int),
                        forall|j: int| 0 <= j < rm_buf@.len() ==> rm_buf@[j] < chunk_size,
                        distinct_idx(rm_buf@),
                    decreases num_to_remove - rm_buf@.len(),
                {
                    proof {
                        let c = chunk_size as int;
                        let st = stride as int;
                        let k2 = rm_buf@.len() as int;
                        assert(k2 * st < c) by (nonlinear_arith)
                            requires
                                0 <= k2 < num_to_remove,
                                st == c / (num_to_remove as int),
                                1 <= num_to_remove < c,
                                st >= 1,
                        ;
                        assert forall|j: int| 0 <= j < rm_buf@.len() implies rm_buf@[j] != curr by {
                            assert(j * st < c) by (nonlinear_arith)
                                requires
                                    0 <= j < k2,
                                    k2 * st < c,
                                    st >= 1,
                            ;
                            lemma_stride_distinct(start as int, st, c, j, k2);
                        }
                        assert(!rm_buf@.contains(curr as usize));
                    }
                    rm_buf.push(curr);
                    proof {
                        lemma_mod_step(
                            start as int,
                            (rm_buf@.len() - 1) as int,
                            stride as int,
                            chunk_size as int,
                        );
                    }
                    curr = (curr + stride) % chunk_size;
                }
            }
            proof {
                assert(rm_buf@.len() == if n < chunk_size {
                    n as int
                } else {
                    chunk_size as int
                });
            }
            let ghost picked0 = picked;
            let ghost mut part: Seq<u64> = Seq::empty();
            proof {
                lemma_count_lt_zero(rm_buf@);
                assert(picked =~= picked0 + part);
                assert(sorted_s.subrange(pos as int, pos as int) =~= Seq::<u64>::empty());
            }
            let mut i: usize = 0;
            while i < take
                invariant
                    self.wf(),
                    self.buffer@ == sorted_s,
                    sorted(sorted_s),
                    sorted_s.len() == total,
                    i <= take,
                    pos + take <= total,
                    buf@ == old(buf)@ + picked,
                    sorted(picked),
                    picked0.len() <= pos,
                    picked0.len() <= picked.len(),
                    picked.len() + count_lt(rm_buf@, i as int) == picked0.len() + i,
                    picked == picked0 + part,
                    part.to_multiset().subset_of(
                        sorted_s.subrange(pos as int, (pos + i) as int).to_multiset(),
                    ),
                    picked.to_multiset().subset_of(sorted_s.take((pos + i) as int).to_multiset()),
                    distinct_idx(rm_buf@),
                    forall|j: int| 0 <= j < rm_buf@.len() ==> rm_buf@[j] < chunk_size,
                    rm_buf@.len() == if n < chunk_size {
                        n as int
                    } else {
                        chunk_size as int
                    },
                    forall|j: int, t: int|
                        0 <= j < picked.len() && pos + i <= t < total ==> picked[j]
                            <= sorted_s[t],
                decreases take - i,
            {
                proof {
                    lemma_count_lt_step(rm_buf@, i);
                    broadcast use vstd::seq_lib::group_to_multiset_ensures;
                    broadcast use vstd::multiset::group_multiset_axioms;

                    assert(sorted_s.take((pos + i + 1) as int) =~= sorted_s.take(
                        (pos + i) as int,
                    ).push(sorted_s[(pos + i) as int]));
                    assert(sorted_s.subrange(pos as int, (pos + i + 1) as int) =~= sorted_s.subrange(
                        pos as int,
                        (pos + i) as int,
                    ).push(sorted_s[(pos + i) as int]));
                }
                if !contains_idx(&rm_buf, i) {
                    let x = self.buffer[pos + i];
                    proof {
                        lemma_sorted_push(picked, x);
                        assert forall|j: int, t: int|
                            0 <= j < picked.push(x).len() && pos + i + 1 <= t
                                < total implies picked.push(x)[j] <= sorted_s[t] by {
                            assert(leq()(sorted_s[pos + i], sorted_s[t]));
                        }
                        assert((picked0 + part).push(x) =~= picked0 + part.push(x));
                        picked = picked.push(x);
                        part = part.push(x);
                    }
                    buf.push(x);
                }
                i = i + 1;
            }
            proof {
                let parts2 = parts.push(part);
                assert(parts2.drop_last() =~= parts);
                assert(concat_parts(parts2) == concat_parts(parts) + part);
                parts = parts2;
            }
            pos = pos + take;
            n = n + 1;
            proof {
                assert(n * chunk_size == (n - 1) * chunk_size + chunk_size) by (nonlinear_arith);
                if n == 1 && total >= 1 {
                    lemma_count_lt_zero(rm_buf@);
                    assert(count_lt(rm_buf@, take as int) == rm_buf@.len() || rm_buf@.len() == 0);
                    assert(picked.len() >= 1);
                }
                if total >= self.lin_cap() {
                    assert((n - 1) * chunk_size + chunk_size <= num_chunks * chunk_size)
                        by (nonlinear_arith)
                        requires
                            n <= num_chunks,
                            chunk_size >= 0,
                    ;
                    assert(take == chunk_size);
                    lemma_count_lt_all(rm_buf@, take as int);
                    assert(lin_removed(n as nat, chunk_size as nat) == lin_removed(
                        (n - 1) as nat,
                        chunk_size as nat,
                    ) + if ((n - 1) as nat) < (chunk_size as nat) {
                        (n - 1) as nat
                    } else {
                        chunk_size as nat
                    });
                    assert(parts[n - 1] == part);
                    assert(part.len() + (if n - 1 < chunk_size {
                        (n - 1) as int
                    } else {
                        chunk_size as int
                    }) == chunk_size);
                    assert(part.to_multiset().subset_of(
                        sorted_s.subrange(
                            (n - 1) * chunk_size,
                            (n - 1) * chunk_size + chunk_size,
                        ).to_multiset(),
                    ));
                }
            }
        }
        proof {
            if total >= 1 {
                assert(n >= 1);
                assert(picked.len() >= 1);
            }
            if total >= self.lin_cap() {
                if n < num_chunks {
                    assert(n * chunk_size < num_chunks * chunk_size) by (nonlinear_arith)
                        requires
                            n < num_chunks,
                            chunk_size >= 1,
                    ;
                    assert(pos < total);
                    assert(false);
                }
            }
        }
        let ghost picked_tail0 = picked;
        let ghost mut tail_part: Seq<u64> = Seq::empty();
        proof {
            assert(picked =~= picked_tail0 + tail_part);
            assert(sorted_s.subrange(pos as int, pos as int) =~= Seq::<u64>::empty());
        }
        let mut t: usize = pos;
        while t < total
            invariant
                self.wf(),
                self.max_len == old(self).max_len,
                self.num_chunks == old(self).num_chunks,
                self.chunk_size == old(self).chunk_size,
                num_chunks == self.num_chunks,
                chunk_size == self.chunk_size,
                self.buffer@ == sorted_s,
                sorted(sorted_s),
                sorted_s.len() == total,
                pos <= t <= total,
                buf@ == old(buf)@ + picked,
                sorted(picked),
                picked.len() <= t,
                total >= 1 ==> picked.len() >= 1,
                picked == picked_tail0 + tail_part,
                picked_tail0 == concat_parts(parts),
                tail_part == sorted_s.subrange(pos as int, t as int),
                picked.to_multiset().subset_of(sorted_s.take(t as int).to_multiset()),
                total >= self.lin_cap() ==> picked.len() + lin_removed(
                    num_chunks as nat,
                    chunk_size as nat,
                ) == t,
                forall|j: int, tt: int|
                    0 <= j < picked.len() && t <= tt < total ==> picked[j] <= sorted_s[tt],
            decreases total - t,
        {
            let x = self.buffer[t];
            proof {
                broadcast use vstd::seq_lib::group_to_multiset_ensures;
                broadcast use vstd::multiset::group_multiset_axioms;

                assert(sorted_s.take((t + 1) as int) =~= sorted_s.take(t as int).push(
                    sorted_s[t as int],
                ));
                lemma_sorted_push(picked, x);
                assert forall|j: int, tt: int|
                    0 <= j < picked.push(x).len() && t + 1 <= tt < total implies picked.push(
                    x,
                )[j] <= sorted_s[tt] by {
                    assert(leq()(sorted_s[t as int], sorted_s[tt]));
                }
                assert(sorted_s.subrange(pos as int, (t + 1) as int) =~= sorted_s.subrange(
                    pos as int,
                    t as int,
                ).push(sorted_s[t as int]));
                assert((picked_tail0 + tail_part).push(x) =~= picked_tail0 + tail_part.push(x));
                picked = picked.push(x);
                tail_part = tail_part.push(x);
            }
            buf.push(x);
            t = t + 1;
        }
        self.buffer = Vec::new();
        proof {
            assert(sorted_s.take(total as int) =~= sorted_s);
            assert(picked.to_multiset().subset_of(old_buffer.to_multiset()));
            if total >= 1 {
                assert(picked.len() >= 1);
            }
            assert(buf@ == old(buf)@ + picked && sorted(picked));
            if total >= self.lin_cap() {
                let parts2 = parts.push(tail_part);
                assert(parts2.drop_last() =~= parts);
                assert(concat_parts(parts2) == concat_parts(parts) + tail_part);
                assert(picked == concat_parts(parts2));
                assert(pos == self.lin_cap());
                assert(tail_part =~= sorted_s.skip(self.lin_cap()));
                assert(parts2[num_chunks as int] == tail_part);
                assert(parts2.len() == num_chunks + 1 && buf@ == old(buf)@ + concat_parts(parts2)
                    && (forall|t2: int|
                    0 <= t2 < num_chunks ==> (#[trigger] parts2[t2]).len() + (if t2 < chunk_size {
                        t2
                    } else {
                        chunk_size as int
                    }) == chunk_size) && (forall|t2: int|
                    0 <= t2 < num_chunks ==> (#[trigger] parts2[t2]).to_multiset().subset_of(
                        sorted_s.subrange(
                            t2 * chunk_size,
                            t2 * chunk_size + chunk_size,
                        ).to_multiset(),
                    )) && parts2[num_chunks as int] == sorted_s.skip(self.lin_cap()));
            }
            assert(old(buf)@.is_prefix_of(buf@)) by {
                assert(old(buf)@ =~= buf@.take(old(buf)@.len() as int));
            }
            assert(buf@.skip(old(buf)@.len() as int) =~= picked);
            if total == 0 {
                assert(picked.len() == 0);
                assert(buf@ =~= old(buf)@);
            }
        }
    }

    /// Drains slices of geometrically doubling size from the front of the
    /// buffer, keeping at most one randomly placed element of each slice, so
    /// older elements are discarded more aggressively and the relative rank
    /// error of the survivors stays bounded.
    pub fn relative_compact(&mut self, buf: &mut Vec<u64>)
        requires
            old(self).wf(),
            pow2_exact(old(self).max_len + 1),
            old(self).buffer@.len() >= old(self).max_len,
        ensures
            final(self).wf(),
            final(self).max_len == old(self).max_len,
            final(self).num_chunks == old(self).num_chunks,
            final(self).chunk_size == old(self).chunk_size,
            final(self).buffer@.len() == old(self).buffer@.len() - old(self).max_len,
            final(self).buffer@ == old(self).buffer@.skip(old(self).max_len as int),
            exists|picked: Seq<u64>|
                #![trigger picked.len()]
                final(buf)@ == old(buf)@ + picked && vstd::arithmetic::power2::pow2(
                    picked.len(),
                ) <= old(self).max_len + 1 && (forall|j: int|
                    0 <= j < picked.len() ==> old(self).buffer@.contains(picked[j])),
            exists|keep: Seq<bool>, offs: Seq<int>|
                #![trigger slice_picks(old(self).buffer@, keep, offs)]
                keep.len() == offs.len() && vstd::arithmetic::power2::pow2(keep.len())
                    == old(self).max_len + 1 && (forall|i: int|
                    0 <= i < offs.len() ==> 0 <= #[trigger] offs[i]
                        < vstd::arithmetic::power2::pow2(i as nat)) && (forall|i: int|
                    0 <= i < keep.len() ==> #[trigger] keep[i] == (slice_draw(
                        old(self).rng.seed,
                        i as nat,
                    ) < vstd::arithmetic::power2::pow2(i as nat))) && (forall|i: int|
                    0 <= i < offs.len() ==> #[trigger] offs[i] == if slice_draw(
                        old(self).rng.seed,
                        i as nat,
                    ) < vstd::arithmetic::power2::pow2(i as nat) {
                        slice_draw(old(self).rng.seed, i as nat)
                    } else {
                        0
                    }) && final(self).rng.seed == crate::random::seed_after(
                    old(self).rng.seed,
                    keep.len(),
                ) && final(buf)@ == old(buf)@ + slice_picks(old(self).buffer@, keep, offs),
    {
        let ghost k_w = choose|kk: nat|
            vstd::arithmetic::power2::pow2(kk) == old(self).max_len + 1;
        let k = checked_log(self.max_len + 1);
        proof {
            vstd::arithmetic::power2::lemma2_to64();
            assert(vstd::arithmetic::power2::pow2(k_w) == old(self).max_len + 1);
            if (k as nat) < k_w {
                vstd::arithmetic::power2::lemma_pow2_strictly_increases(k as nat, k_w);
                assert(false);
            }
            if k_w < k as nat {
                assert(k >= 1);
                if k_w < (k - 1) as nat {
                    vstd::arithmetic::power2::lemma_pow2_strictly_increases(k_w, (k - 1) as nat);
                }
                assert(false);
            }
            assert(vstd::arithmetic::power2::pow2(k as nat) == self.max_len + 1);
        }
        let total = self.buffer.len();
        let ghost mut picked: Seq<u64> = Seq::empty();
        let ghost mut keep: Seq<bool> = Seq::empty();
        let ghost mut offs: Seq<int> = Seq::empty();
        let mut pos: usize = 0;
        let mut slice: usize = 1;
        let mut i: usize = 0;
        proof {
            assert(buf@ =~= old(buf)@ + picked);
        }
        while i < k
            invariant
                self.wf(),
                self.max_len == old(self).max_len,
                self.num_chunks == old(self).num_chunks,
                self.chunk_size == old(self).chunk_size,
                self.buffer@ == old(self).buffer@,
                total == self.buffer@.len(),
                total >= self.max_len,
                i <= k,
                vstd::arithmetic::power2::pow2(k as nat) == self.max_len + 1,
                slice == vstd::arithmetic::power2::pow2(i as nat),
                pos == vstd::arithmetic::power2::pow2(i as nat) - 1,
                slice <= self.max_len + 1,
                buf@ == old(buf)@ + picked,
                picked.len() <= i,
                forall|j: int| 0 <= j < picked.len() ==> old(self).buffer@.contains(picked[j]),
                keep.len() == i,
                offs.len() == i,
                self.rng.seed == crate::random::seed_after(old(self).rng.seed, i as nat),
                forall|t: int|
                    0 <= t < i ==> 0 <= #[trigger] offs[t] < vstd::arithmetic::power2::pow2(
                        t as nat,
                    ),
                forall|t: int|
                    0 <= t < i ==> #[trigger] keep[t] == (slice_draw(old(self).rng.seed, t as nat)
                        < vstd::arithmetic::power2::pow2(t as nat)),
                forall|t: int|
                    0 <= t < i ==> #[trigger] offs[t] == if slice_draw(old(self).rng.seed, t as nat)
                        < vstd::arithmetic::power2::pow2(t as nat) {
                        slice_draw(old(self).rng.seed, t as nat)
                    } else {
                        0
                    },
                picked == slice_picks(old(self).buffer@, keep, offs),
            decreases k - i,
        {
            proof {
                vstd::arithmetic::power2::lemma_pow2_strictly_increases(i as nat, k as nat);
            }
            proof {
                vstd::arithmetic::power2::lemma_pow2_adds(i as nat, 1);
                vstd::arithmetic::power2::lemma2_to64();
                if i + 1 < k {
                    vstd::arithmetic::power2::lemma_pow2_strictly_increases((i + 1) as nat, k as nat);
                }
                assert(pos + slice <= self.max_len);
            }
            let draw = self.rng.next();
            proof {
                assert(draw * (slice as u64) <= 0x1_0000_0000 * 0x1000_0000) by (nonlinear_arith)
                    requires
                        draw < 0x1_0000_0000u64,
                        slice <= 0x1000_0000usize,
                ;
            }
            let retained = (draw * (slice as u64) + RAND_DENOM / 2) / RAND_DENOM;
            proof {
                assert(retained as int == slice_draw(old(self).rng.seed, i as nat));
            }
            if retained < slice as u64 {
                let r_idx = retained as usize;
                let x = self.buffer[pos + r_idx];
                proof {
                    let keep2 = keep.push(true);
                    let offs2 = offs.push(retained as int);
                    assert(keep2.drop_last() =~= keep);
                    assert(offs2.drop_last() =~= offs);
                    assert(slice_picks(old(self).buffer@, keep2, offs2) =~= picked.push(x));
                    keep = keep2;
                    offs = offs2;
                    picked = picked.push(x);
                }
                buf.push(x);
            } else {
                proof {
                    let keep2 = keep.push(false);
                    let offs2 = offs.push(0);
                    assert(keep2.drop_last() =~= keep);
                    assert(offs2.drop_last() =~= offs);
                    assert(slice_picks(old(self).buffer@, keep2, offs2) =~= picked);
                    keep = keep2;
                    offs = offs2;
                }
            }
            proof {
                vstd::arithmetic::power2::lemma_pow2_adds(i as nat, 1);
                vstd::arithmetic::power2::lemma2_to64();
                assert(vstd::arithmetic::power2::pow2((i + 1) as nat) == 2
                    * vstd::arithmetic::power2::pow2(i as nat));
                if i + 1 < k {
                    vstd::arithmetic::power2::lemma_pow2_strictly_increases((i + 1) as nat, k as nat);
                }
            }
            pos = pos + slice;
            slice = slice * 2;
            i = i + 1;
        }
        let mut rest: Vec<u64> = Vec::new();
        let mut t: usize = pos;
        while t < total
            invariant
                self.buffer@ == old(self).buffer@,
                total == self.buffer@.len(),
                pos <= t <= total,
                rest@ == old(self).buffer@.subrange(pos as int, t as int),
            decreases total - t,
        {
            proof {
                assert(old(self).buffer@.subrange(pos as int, (t + 1) as int)
                    =~= old(self).buffer@.subrange(pos as int, t as int).push(
                    old(self).buffer@[t as int],
                ));
            }
            rest.push(self.buffer[t]);
            t = t + 1;
        }
        self.buffer = rest;
        proof {
            assert(pos == self.max_len);
            assert(self.buffer@ =~= old(self).buffer@.skip(old(self).max_len as int));
            if picked.len() < k as nat {
                vstd::arithmetic::power2::lemma_pow2_strictly_increases(picked.len(), k as nat);
            }
            assert(vstd::arithmetic::power2::pow2(picked.len())
                <= vstd::arithmetic::power2::pow2(k as nat));
            assert(buf@ == old(buf)@ + picked && vstd::arithmetic::power2::pow2(picked.len())
                <= old(self).max_len + 1);
            assert(keep.len() == offs.len() && vstd::arithmetic::power2::pow2(keep.len())
                == old(self).max_len + 1 && buf@ == old(buf)@ + slice_picks(
                old(self).buffer@,
                keep,
                offs,
            ));
        }
    }
}


/// The smallest exponent whose power of two reaches `val`.
pub fn checked_log(val: usize) -> (r: usize)
    requires
        val <= 0x1000_0000,
    ensures
        vstd::arithmetic::power2::pow2(r as nat) >= val,
        r > 0 ==> vstd::arithmetic::power2::pow2((r - 1) as nat) < val,
{
    proof {
        vstd::arithmetic::power2::lemma2_to64();
    }
    if val <= 1 {
        return 0;
    }
    let mut r: usize = 0;
    let mut p: usize = 1;
    while p < val
        invariant
            p == vstd::arithmetic::power2::pow2(r as nat),
            r > 0 ==> vstd::arithmetic::power2::pow2((r - 1) as nat) < val,
            r <= 29,
            val <= 0x1000_0000,
            p < 2 * val,
        decreases 2 * val - p,
    {
        proof {
            vstd::arithmetic::power2::lemma2_to64();
            if r >= 28 {
                if r > 28 {
                    vstd::arithmetic::power2::lemma_pow2_strictly_increases(28, r as nat);
                }
                assert(p >= 0x1000_0000);
                assert(false);
            }
            vstd::arithmetic::power2::lemma_pow2_adds(r as nat, 1);
        }
        p = p * 2;
        r = r + 1;
    }
    r
}

/// A series of sequential compactor stages: stage 0 receives raw input, and
/// each compaction feeds its survivors into the next stage, so levels fill
/// exponentially less often and the whole chain keeps a bounded-error rank
/// sketch in logarithmic space.
#[derive(Clone, Debug)]
pub struct ChainedCompactors {
    pub stages: Vec<Compactor>,
}

impl ChainedCompactors {
    /// Well-formedness, with stage `hot` allowed to sit at capacity: every
    /// stage is a well-formed compactor within capacity, and every stage but
    /// the first and `hot` is strictly below capacity.
    pub open spec fn stages_ok(&self, hot: int) -> bool {
        &&& self.stages@.len() >= 1
        &&& forall|i: int|
            0 <= i < self.stages@.len() ==> (#[trigger] self.stages@[i]).wf()
                && self.stages@[i].buffer@.len() <= self.stages@[i].max_len
        &&& forall|i: int|
            1 <= i < self.stages@.len() && i != hot ==> (#[trigger] self.stages@[i]).buffer@.len()
                < self.stages@[i].max_len
    }

    pub open spec fn wf(&self) -> bool {
        self.stages_ok(0)
    }

    /// Total number of buffered elements across the stages.
    pub open spec fn total_len(s: Seq<Compactor>) -> int
        decreases s.len(),
    {
        if s.len() == 0 {
            0
        } else {
            Self::total_len(s.drop_last()) + s.last().buffer@.len()
        }
    }

    pub fn new(stages: Vec<Compactor>) -> (r: Self)
        requires
            stages@.len() >= 1,
            forall|i: int| 0 <= i < stages@.len() ==> (#[trigger] stages@[i]).wf(),
            forall|i: int| 0 <= i < stages@.len() ==> (#[trigger] stages@[i]).buffer@.len() == 0,
        ensures
            r.wf(),
            r.stages@ == stages@,
    {
        ChainedCompactors { stages }
    }

    pub fn is_empty(&self) -> (r: bool)
        ensures
            r == (forall|i: int|
                0 <= i < self.stages@.len() ==> (#[trigger] self.stages@[i]).buffer@.len() == 0),
    {
        let mut i: usize = 0;
        while i < self.stages.len()
            invariant
                i <= self.stages@.len(),
                forall|j: int| 0 <= j < i ==> (#[trigger] self.stages@[j]).buffer@.len() == 0,
            decreases self.stages@.len() - i,
        {
            if !self.stages[i].is_empty() {
                return false;
            }
            i = i + 1;
        }
        true
    }

    pub fn len(&self) -> (r: usize)
        requires
            Self::total_len(self.stages@) <= usize::MAX,
        ensures
            r == Self::total_len(self.stages@),
    {
        let mut i: usize = 0;
        let mut acc: usize = 0;
        proof {
            lemma_total_len_prefix(self.stages@, 0);
        }
        while i < self.stages.len()
            invariant
                i <= self.stages@.len(),
                acc == Self::total_len(self.stages@.take(i as int)),
                Self::total_len(self.stages@) <= usize::MAX,
                forall|j: int|
                    0 <= j <= self.stages@.len() ==> Self::total_len(self.stages@.take(j))
                        <= Self::total_len(self.stages@),
            decreases self.stages@.len() - i,
        {
            proof {
                assert(self.stages@.take((i + 1) as int).drop_last() =~= self.stages@.take(i as int));
                assert(self.stages@.take((i + 1) as int).last() == self.stages@[i as int]);
            }
            acc = acc + self.stages[i].len();
            i = i + 1;
        }
        proof {
            assert(self.stages@.take(self.stages@.len() as int) =~= self.stages@);
        }
        acc
    }

    /// Adds an item to the first stage, returning whether the chain is due
    /// for compaction.
    pub fn add(&mut self, t: u64) -> (r: bool)
        requires
            old(self).wf(),
            old(self).stages@[0].buffer@.len() < old(self).stages@[0].max_len,
        ensures
            final(self).wf(),
            final(self).stages@.len() == old(self).stages@.len(),
            final(self).stages@[0].buffer@ == old(self).stages@[0].buffer@.push(t),
            forall|i: int|
                1 <= i < old(self).stages@.len() ==> final(self).stages@[i] == old(
                    self,
                ).stages@[i],
            r == (final(self).stages@[0].buffer@.len() == final(self).stages@[0].max_len),
    {
        let mut c = self.stages.remove(0);
        let r = c.add(t);
        let ghost cg = c;
        self.stages.insert(0, c);
        proof {
            assert(self.stages@ =~= old(self).stages@.update(0, cg));
        }
        r
    }

    /// Compacts the given stage and cascades its survivors upward: each
    /// survivor is added to the next stage, which is recursively compacted
    /// the moment it reaches capacity; survivors of the last stage go to
    /// `into`.  The compacted stage is left empty; a nonempty stage's
    /// survivors end up buffered upward or appended to `into`.
    fn linear_rel_compact_idx(&mut self, idx: usize, into: &mut Vec<u64>)
        requires
            old(self).stages_ok(idx as int),
            idx < old(self).stages@.len(),
        ensures
            final(self).wf(),
            final(self).stages@.len() == old(self).stages@.len(),
            forall|j: int| 0 <= j < idx ==> final(self).stages@[j] == old(self).stages@[j],
            forall|j: int|
                0 <= j < old(self).stages@.len() ==> (#[trigger] final(self).stages@[j]).max_len
                    == old(self).stages@[j].max_len && final(self).stages@[j].num_chunks == old(
                    self,
                ).stages@[j].num_chunks && final(self).stages@[j].chunk_size == old(
                    self,
                ).stages@[j].chunk_size,
            final(self).stages@[idx as int].buffer@.len() == 0,
            old(into)@.is_prefix_of(final(into)@),
            old(self).stages@[idx as int].buffer@.len() == 0 ==> (forall|j: int|
                0 <= j < old(self).stages@.len() && j != idx ==> final(self).stages@[j] == old(
                    self,
                ).stages@[j]) && final(into)@ == old(into)@,
            old(self).stages@[idx as int].buffer@.len() > 0 ==> Self::total_len(
                final(self).stages@.skip(idx + 1),
            ) > 0 || final(into)@.len() > old(into)@.len(),
            chain_ms(final(self).stages@).add(
                final(into)@.skip(old(into)@.len() as int).to_multiset(),
            ).subset_of(chain_ms(old(self).stages@)),
            Self::total_len(final(self).stages@) + final(into)@.len() <= Self::total_len(
                old(self).stages@,
            ) + old(into)@.len(),
        decreases old(self).stages@.len() - idx,
    {
        let n = self.stages.len();
        let mut buf: Vec<u64> = Vec::new();
        let mut c = self.stages.remove(idx);
        c.linear_relative_compact(&mut buf);
        let ghost cg = c;
        self.stages.insert(idx, c);
        proof {
            assert(self.stages@ =~= old(self).stages@.update(idx as int, cg));
            assert(old(into)@.is_prefix_of(into@)) by {
                assert(old(into)@ =~= into@.take(old(into)@.len() as int));
            }
            broadcast use vstd::multiset::group_multiset_axioms;
            broadcast use vstd::seq_lib::group_to_multiset_ensures;

            lemma_chain_ms_update(old(self).stages@, idx as int, cg);
            assert(forall|x: u64| #[trigger] cg.buffer@.to_multiset().count(x) == 0) by {
                assert(cg.buffer@.to_multiset().len() == 0);
            }
            assert(buf@.skip(0) =~= buf@);
            assert(forall|x: u64|
                #[trigger] buf@.to_multiset().count(x) <= old(
                    self,
                ).stages@[idx as int].buffer@.to_multiset().count(x));
            assert(forall|x: u64|
                #[trigger] chain_ms(self.stages@).count(x) + buf@.to_multiset().count(x)
                    <= chain_ms(old(self).stages@).count(x));
        }
        if idx == n - 1 {
            let mut j: usize = 0;
            while j < buf.len()
                invariant
                    j <= buf@.len(),
                    into@ == old(into)@ + buf@.take(j as int),
                decreases buf@.len() - j,
            {
                proof {
                    assert(buf@.take((j + 1) as int) =~= buf@.take(j as int).push(buf@[j as int]));
                }
                into.push(buf[j]);
                j = j + 1;
            }
            proof {
                assert(old(into)@.is_prefix_of(into@)) by {
                    assert(old(into)@ =~= into@.take(old(into)@.len() as int));
                }
                if old(self).stages@[idx as int].buffer@.len() == 0 {
                    assert(buf@.len() == 0);
                    assert(into@ =~= old(into)@);
                    assert(self.stages@[idx as int].buffer@ =~= old(
                        self,
                    ).stages@[idx as int].buffer@);
                }
                if old(self).stages@[idx as int].buffer@.len() > 0 {
                    assert(buf@.len() >= 1);
                    assert(into@.len() > old(into)@.len());
                }
                broadcast use vstd::multiset::group_multiset_axioms;

                assert(buf@.take(buf@.len() as int) =~= buf@);
                assert(into@.skip(old(into)@.len() as int) =~= buf@);
                assert(chain_ms(self.stages@).add(
                    into@.skip(old(into)@.len() as int).to_multiset(),
                ).subset_of(chain_ms(old(self).stages@)));
                lemma_conservation_len(
                    self.stages@,
                    old(self).stages@,
                    into@.skip(old(into)@.len() as int),
                );
            }
            return ;
        }
        let mut j: usize = 0;
        while j < buf.len()
            invariant
                idx + 1 < n,
                n == self.stages@.len(),
                n == old(self).stages@.len(),
                j <= buf@.len(),
                self.wf(),
                self.stages@[idx as int].buffer@.len() == 0,
                forall|t: int| 0 <= t < idx ==> self.stages@[t] == old(self).stages@[t],
                forall|t: int|
                    0 <= t < n ==> (#[trigger] self.stages@[t]).max_len == old(
                        self,
                    ).stages@[t].max_len && self.stages@[t].num_chunks == old(
                        self,
                    ).stages@[t].num_chunks && self.stages@[t].chunk_size == old(
                        self,
                    ).stages@[t].chunk_size,
                old(into)@.is_prefix_of(into@),
                j == 0 ==> into@ == old(into)@,
                j == 0 ==> self.stages@ == old(self).stages@.update(idx as int, cg),
                j > 0 ==> Self::total_len(self.stages@.skip(idx + 1)) > 0 || into@.len() > old(
                    into,
                )@.len(),
                forall|x: u64|
                    #[trigger] chain_ms(self.stages@).count(x) + buf@.skip(
                        j as int,
                    ).to_multiset().count(x) + into@.skip(
                        old(into)@.len() as int,
                    ).to_multiset().count(x) <= chain_ms(old(self).stages@).count(x),
            decreases buf@.len() - j,
        {
            let v = buf[j];
            let ghost pre_stages = self.stages@;
            let mut c2 = self.stages.remove(idx + 1);
            let full = c2.add(v);
            let ghost c2g = c2;
            self.stages.insert(idx + 1, c2);
            proof {
                assert(self.stages@ =~= pre_stages.update((idx + 1) as int, c2g));
                broadcast use vstd::multiset::group_multiset_axioms;
                broadcast use vstd::seq_lib::group_to_multiset_ensures;

                lemma_chain_ms_update(pre_stages, (idx + 1) as int, c2g);
                lemma_skip_head_ms(buf@, j as int);
                assert(c2g.buffer@ == pre_stages[(idx + 1) as int].buffer@.push(v));
                assert(forall|x: u64|
                    #[trigger] c2g.buffer@.to_multiset().count(x)
                        == pre_stages[(idx + 1) as int].buffer@.to_multiset().count(x) + if v
                        == x {
                        1nat
                    } else {
                        0nat
                    });
                assert(forall|x: u64|
                    #[trigger] chain_ms(self.stages@).count(x) + buf@.skip(
                        (j + 1) as int,
                    ).to_multiset().count(x) + into@.skip(
                        old(into)@.len() as int,
                    ).to_multiset().count(x) <= chain_ms(old(self).stages@).count(x));
            }
            if full {
                proof {
                    assert(self.stages_ok((idx + 1) as int));
                }
                let ghost pre_into = into@;
                let ghost pre_rec = self.stages@;
                let ghost pre_buf_rest = buf@.skip((j + 1) as int);
                self.linear_rel_compact_idx(idx + 1, into);
                proof {
                    lemma_prefix_transitive(old(into)@, pre_into, into@);
                    broadcast use vstd::multiset::group_multiset_axioms;
                    broadcast use vstd::seq_lib::group_to_multiset_ensures;

                    lemma_appended_split(pre_into, into@, old(into)@.len() as int);
                    vstd::seq_lib::lemma_multiset_commutative(
                        pre_into.skip(old(into)@.len() as int),
                        into@.skip(pre_into.len() as int),
                    );
                    assert(forall|x: u64|
                        #[trigger] chain_ms(self.stages@).count(x) + into@.skip(
                            pre_into.len() as int,
                        ).to_multiset().count(x) <= chain_ms(pre_rec).count(x));
                    assert(forall|x: u64|
                        #[trigger] chain_ms(self.stages@).count(x) + pre_buf_rest.to_multiset().count(
                            x,
                        ) + into@.skip(old(into)@.len() as int).to_multiset().count(x) <= chain_ms(
                            old(self).stages@,
                        ).count(x));
                    if Self::total_len(self.stages@.skip(idx + 1 + 1)) > 0 {
                        lemma_total_len_skip_unfold(self.stages@, idx + 1);
                        lemma_total_len_nonneg(self.stages@.skip(idx + 1 + 1));
                        assert(Self::total_len(self.stages@.skip(idx + 1)) > 0);
                    } else {
                        assert(into@.len() > pre_into.len());
                        assert(pre_into.len() >= old(into)@.len());
                    }
                }
            } else {
                proof {
                    lemma_total_len_skip_unfold(self.stages@, idx + 1);
                    lemma_total_len_nonneg(self.stages@.skip(idx + 1 + 1));
                    assert(self.stages@[(idx + 1) as int].buffer@.len() >= 1);
                    assert(Self::total_len(self.stages@.skip(idx + 1)) > 0);
                }
            }
            j = j + 1;
        }
        proof {
            if old(self).stages@[idx as int].buffer@.len() == 0 {
                assert(buf@.len() == 0);
                assert forall|j2: int|
                    0 <= j2 < old(self).stages@.len() && j2 != idx implies self.stages@[j2] == old(
                    self,
                ).stages@[j2] by {
                    assert(self.stages@ == old(self).stages@.update(idx as int, cg));
                }
            }
            if old(self).stages@[idx as int].buffer@.len() > 0 {
                assert(buf@.len() >= 1);
            }
            broadcast use vstd::multiset::group_multiset_axioms;
            broadcast use vstd::seq_lib::group_to_multiset_ensures;

            assert(forall|x: u64| #[trigger] buf@.skip(buf@.len() as int).to_multiset().count(x)
                == 0) by {
                assert(buf@.skip(buf@.len() as int).to_multiset().len() == 0);
            }
            assert(chain_ms(self.stages@).add(
                into@.skip(old(into)@.len() as int).to_multiset(),
            ).subset_of(chain_ms(old(self).stages@)));
            lemma_conservation_len(
                self.stages@,
                old(self).stages@,
                into@.skip(old(into)@.len() as int),
            );
        }
    }

    /// Compacts stage 0 and cascades upward: stage 0 is left empty, every
    /// stage keeps its configuration, and a nonempty stage 0's survivors end
    /// up buffered in later stages or appended to `into`.
    pub fn linear_relative_compact(&mut self, into: &mut Vec<u64>)
        requires
            old(self).wf(),
        ensures
            final(self).wf(),
            final(self).stages@.len() == old(self).stages@.len(),
            final(self).stages@[0].buffer@.len() == 0,
            forall|j: int|
                0 <= j < old(self).stages@.len() ==> (#[trigger] final(self).stages@[j]).max_len
                    == old(self).stages@[j].max_len && final(self).stages@[j].num_chunks == old(
                    self,
                ).stages@[j].num_chunks && final(self).stages@[j].chunk_size == old(
                    self,
                ).stages@[j].chunk_size,
            old(into)@.is_prefix_of(final(into)@),
            old(self).stages@[0].buffer@.len() > 0 ==> Self::total_len(
                final(self).stages@.skip(1),
            ) > 0 || final(into)@.len() > old(into)@.len(),
            chain_ms(final(self).stages@).add(
                final(into)@.skip(old(into)@.len() as int).to_multiset(),
            ).subset_of(chain_ms(old(self).stages@)),
            Self::total_len(final(self).stages@) + final(into)@.len() <= Self::total_len(
                old(self).stages@,
            ) + old(into)@.len(),
    {
        self.linear_rel_compact_idx(0, into);
    }

    /// Unconditionally compacts every stage once, in order, for a full
    /// flush: afterwards every stage is empty, and if anything was buffered
    /// at least one survivor has been appended to `into`.
    pub fn linear_relative_compact_all(&mut self, into: &mut Vec<u64>)
        requires
            old(self).wf(),
        ensures
            final(self).wf(),
            final(self).stages@.len() == old(self).stages@.len(),
            forall|i: int|
                0 <= i < old(self).stages@.len() ==> (#[trigger] final(self).stages@[i]).buffer@.len()
                    == 0,
            forall|j: int|
                0 <= j < old(self).stages@.len() ==> (#[trigger] final(self).stages@[j]).max_len
                    == old(self).stages@[j].max_len && final(self).stages@[j].num_chunks == old(
                    self,
                ).stages@[j].num_chunks && final(self).stages@[j].chunk_size == old(
                    self,
                ).stages@[j].chunk_size,
            old(into)@.is_prefix_of(final(into)@),
            Self::total_len(old(self).stages@) > 0 ==> final(into)@.len() > old(into)@.len(),
            chain_ms(final(self).stages@).add(
                final(into)@.skip(old(into)@.len() as int).to_multiset(),
            ).subset_of(chain_ms(old(self).stages@)),
            Self::total_len(final(self).stages@) + final(into)@.len() <= Self::total_len(
                old(self).stages@,
            ) + old(into)@.len(),
    {
        let n = self.stages.len();
        let mut i: usize = 0;
        proof {
            assert(self.stages@.skip(0) =~= self.stages@);
            broadcast use vstd::multiset::group_multiset_axioms;
            broadcast use vstd::seq_lib::group_to_multiset_ensures;

            assert(forall|x: u64|
                #[trigger] into@.skip(old(into)@.len() as int).to_multiset().count(x) == 0) by {
                assert(into@.skip(old(into)@.len() as int).to_multiset().len() == 0);
            }
        }
        while i < n
            invariant
                i <= n,
                n == self.stages@.len(),
                n == old(self).stages@.len(),
                self.wf(),
                forall|t: int|
                    0 <= t < n ==> (#[trigger] self.stages@[t]).max_len == old(
                        self,
                    ).stages@[t].max_len && self.stages@[t].num_chunks == old(
                        self,
                    ).stages@[t].num_chunks && self.stages@[t].chunk_size == old(
                        self,
                    ).stages@[t].chunk_size,
                forall|t: int| 0 <= t < i ==> (#[trigger] self.stages@[t]).buffer@.len() == 0,
                old(into)@.is_prefix_of(into@),
                Self::total_len(old(self).stages@) > 0 ==> into@.len() > old(into)@.len()
                    || Self::total_len(self.stages@.skip(i as int)) > 0,
                forall|x: u64|
                    #[trigger] chain_ms(self.stages@).count(x) + into@.skip(
                        old(into)@.len() as int,
                    ).to_multiset().count(x) <= chain_ms(old(self).stages@).count(x),
            decreases n - i,
        {
            let ghost pre_into = into@;
            let ghost pre_stages = self.stages@;
            self.linear_rel_compact_idx(i, into);
            proof {
                lemma_prefix_transitive(old(into)@, pre_into, into@);
                broadcast use vstd::multiset::group_multiset_axioms;
                broadcast use vstd::seq_lib::group_to_multiset_ensures;

                lemma_appended_split(pre_into, into@, old(into)@.len() as int);
                vstd::seq_lib::lemma_multiset_commutative(
                    pre_into.skip(old(into)@.len() as int),
                    into@.skip(pre_into.len() as int),
                );
                assert(forall|x: u64|
                    #[trigger] chain_ms(self.stages@).count(x) + into@.skip(
                        pre_into.len() as int,
                    ).to_multiset().count(x) <= chain_ms(pre_stages).count(x));
                assert(forall|x: u64|
                    #[trigger] chain_ms(self.stages@).count(x) + into@.skip(
                        old(into)@.len() as int,
                    ).to_multiset().count(x) <= chain_ms(old(self).stages@).count(x));
                if Self::total_len(old(self).stages@) > 0 && into@.len() <= old(into)@.len() {
                    assert(pre_into.len() >= old(into)@.len());
                    assert(into@.len() >= pre_into.len());
                    assert(Self::total_len(pre_stages.skip(i as int)) > 0);
                    lemma_total_len_skip_unfold(pre_stages, i as int);
                    if pre_stages[i as int].buffer@.len() > 0 {
                        assert(Self::total_len(self.stages@.skip(i + 1)) > 0 || into@.len()
                            > pre_into.len());
                    } else {
                        lemma_total_len_nonneg(pre_stages.skip(i + 1));
                        assert(Self::total_len(pre_stages.skip(i + 1)) > 0);
                        assert(self.stages@.skip(i + 1) =~= pre_stages.skip(i + 1));
                    }
                }
            }
            i = i + 1;
        }
        proof {
            if Self::total_len(old(self).stages@) > 0 && into@.len() <= old(into)@.len() {
                assert(self.stages@.skip(n as int) =~= Seq::<Compactor>::empty());
                assert(false);
            }
            broadcast use vstd::multiset::group_multiset_axioms;

            assert(chain_ms(self.stages@).add(
                into@.skip(old(into)@.len() as int).to_multiset(),
            ).subset_of(chain_ms(old(self).stages@)));
            lemma_conservation_len(
                self.stages@,
                old(self).stages@,
                into@.skip(old(into)@.len() as int),
            );
        }
    }
}

/// Splitting what grew beyond a base: the part past position `n` is the
/// mid-point's part plus what came after the mid-point.
proof fn lemma_appended_split(mid: Seq<u64>, end: Seq<u64>, n: int)
    requires
        mid.is_prefix_of(end),
        0 <= n <= mid.len(),
    ensures
        end.skip(n) =~= mid.skip(n) + end.skip(mid.len() as int),
{
    assert forall|t: int| 0 <= t < mid.len() - n implies end.skip(n)[t] == (mid.skip(n)
        + end.skip(mid.len() as int))[t] by {
        assert(mid[n + t] == end.take(mid.len() as int)[n + t]);
    }
}

/// Peeling the head element off a suffix.
proof fn lemma_skip_head_ms(s: Seq<u64>, j: int)
    requires
        0 <= j < s.len(),
    ensures
        forall|x: u64|
            #[trigger] s.skip(j).to_multiset().count(x) == s.skip(j + 1).to_multiset().count(x)
                + if s[j] == x {
                1nat
            } else {
                0nat
            },
{
    broadcast use vstd::multiset::group_multiset_axioms;
    broadcast use vstd::seq_lib::group_to_multiset_ensures;

    assert(s.skip(j) =~= seq![s[j]] + s.skip(j + 1));
    vstd::seq_lib::lemma_multiset_commutative(seq![s[j]], s.skip(j + 1));
    assert(seq![s[j]] =~= Seq::<u64>::empty().push(s[j]));
    assert(seq![s[j]].to_multiset() =~= Multiset::<u64>::empty().insert(s[j]));
}

/// All elements buffered across a stage list, as one multiset.
pub open spec fn chain_ms(s: Seq<Compactor>) -> Multiset<u64>
    decreases s.len(),
{
    if s.len() == 0 {
        Multiset::empty()
    } else {
        chain_ms(s.drop_last()).add(s.last().buffer@.to_multiset())
    }
}

/// Replacing one stage exchanges exactly its buffered elements.
proof fn lemma_chain_ms_update(s: Seq<Compactor>, i: int, c: Compactor)
    requires
        0 <= i < s.len(),
    ensures
        forall|x: u64|
            #[trigger] chain_ms(s.update(i, c)).count(x) + s[i].buffer@.to_multiset().count(x)
                == chain_ms(s).count(x) + c.buffer@.to_multiset().count(x),
    decreases s.len(),
{
    broadcast use vstd::multiset::group_multiset_axioms;

    let t = s.update(i, c);
    assert(t.len() == s.len());
    if i == s.len() - 1 {
        assert(t.drop_last() =~= s.drop_last());
        assert(t.last() == c);
        assert(chain_ms(t) == chain_ms(s.drop_last()).add(c.buffer@.to_multiset()));
        assert(chain_ms(s) == chain_ms(s.drop_last()).add(s[i].buffer@.to_multiset()));
    } else {
        assert(t.last() == s.last());
        assert(t.drop_last() =~= s.drop_last().update(i, c));
        assert(s.drop_last()[i] == s[i]);
        lemma_chain_ms_update(s.drop_last(), i, c);
        assert(chain_ms(t) == chain_ms(s.drop_last().update(i, c)).add(
            s.last().buffer@.to_multiset(),
        ));
        assert(chain_ms(s) == chain_ms(s.drop_last()).add(s.last().buffer@.to_multiset()));
    }
}

/// The buffered multiset counts exactly the buffered elements.
proof fn lemma_chain_ms_len(s: Seq<Compactor>)
    ensures
        chain_ms(s).len() == ChainedCompactors::total_len(s),
    decreases s.len(),
{
    broadcast use vstd::multiset::group_multiset_axioms;
    broadcast use vstd::seq_lib::group_to_multiset_ensures;

    if s.len() > 0 {
        lemma_chain_ms_len(s.drop_last());
    }
}

/// A sub-multiset is no longer than what it sits inside.
proof fn lemma_subset_len(small: Multiset<u64>, big: Multiset<u64>)
    requires
        small.subset_of(big),
    ensures
        small.len() <= big.len(),
{
    broadcast use vstd::multiset::group_multiset_axioms;

    assert(big.sub(small).len() == big.len() - small.len());
}

/// The arithmetic shadow of conservation: buffered plus appended never
/// exceeds what was buffered.
proof fn lemma_conservation_len(post: Seq<Compactor>, pre: Seq<Compactor>, appended: Seq<u64>)
    requires
        chain_ms(post).add(appended.to_multiset()).subset_of(chain_ms(pre)),
    ensures
        ChainedCompactors::total_len(post) + appended.len() <= ChainedCompactors::total_len(pre),
{
    broadcast use vstd::multiset::group_multiset_axioms;
    broadcast use vstd::seq_lib::group_to_multiset_ensures;

    lemma_chain_ms_len(post);
    lemma_chain_ms_len(pre);
    lemma_subset_len(chain_ms(post).add(appended.to_multiset()), chain_ms(pre));
}

/// Prefix-of is transitive.
proof fn lemma_prefix_transitive(a: Seq<u64>, b: Seq<u64>, c: Seq<u64>)
    requires
        a.is_prefix_of(b),
        b.is_prefix_of(c),
    ensures
        a.is_prefix_of(c),
{
    assert(a =~= c.take(a.len() as int));
}

/// Buffered totals are nonnegative.
proof fn lemma_total_len_nonneg(s: Seq<Compactor>)
    ensures
        ChainedCompactors::total_len(s) >= 0,
    decreases s.len(),
{
    if s.len() > 0 {
        lemma_total_len_nonneg(s.drop_last());
    }
}

/// The buffered total from stage `i` on is stage `i`'s share plus the rest.
proof fn lemma_total_len_skip_unfold(s: Seq<Compactor>, i: int)
    requires
        0 <= i < s.len(),
    ensures
        ChainedCompactors::total_len(s.skip(i)) == s[i].buffer@.len() + ChainedCompactors::total_len(
            s.skip(i + 1),
        ),
    decreases s.len(),
{
    if i == s.len() - 1 {
        assert(s.skip(i + 1) =~= Seq::<Compactor>::empty());
        assert(s.skip(i).drop_last() =~= Seq::<Compactor>::empty());
        assert(s.skip(i).last() == s[i]);
    } else {
        lemma_total_len_skip_unfold(s.drop_last(), i);
        assert(s.skip(i).drop_last() =~= s.drop_last().skip(i));
        assert(s.skip(i + 1).drop_last() =~= s.drop_last().skip(i + 1));
        assert(s.skip(i).last() == s.last());
        assert(s.skip(i + 1).last() == s.last());
        assert(s.drop_last()[i] == s[i]);
    }
}

/// Prefixes of a stage list carry no more buffered elements than the whole.
proof fn lemma_total_len_prefix(s: Seq<Compactor>, j: int)
    requires
        0 <= j <= s.len(),
    ensures
        forall|t: int|
            0 <= t <= s.len() ==> ChainedCompactors::total_len(s.take(t))
                <= ChainedCompactors::total_len(s),
{
    assert forall|t: int| 0 <= t <= s.len() implies ChainedCompactors::total_len(s.take(t))
        <= ChainedCompactors::total_len(s) by {
        lemma_total_len_prefix_one(s, t);
    }
}

proof fn lemma_total_len_prefix_one(s: Seq<Compactor>, t: int)
    requires
        0 <= t <= s.len(),
    ensures
        ChainedCompactors::total_len(s.take(t)) <= ChainedCompactors::total_len(s),
    decreases s.len(),
{
    if t == s.len() {
        assert(s.take(t) =~= s);
    } else {
        lemma_total_len_prefix_one(s.drop_last(), t);
        assert(s.drop_last().take(t) =~= s.take(t));
    }
}

} // verus!
