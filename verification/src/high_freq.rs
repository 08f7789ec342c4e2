use vstd::prelude::*;
use crate::HashFunction;
use crate::StreamProcessor;
use crate::folds_to;
use crate::runs_through;
use crate::hashing::KeyedHash;
use crate::hashing::key_for;

verus! {

/// Number of occurrences of `x` in a stream history.
pub open spec fn seq_freq(h: Seq<u64>, x: u64) -> nat
    decreases h.len(),
{
    if h.len() == 0 {
        0
    } else {
        (seq_freq(h.drop_last(), x) + if h.last() == x {
            1nat
        } else {
            0nat
        }) as nat
    }
}

/// The counter tracked for key `x`, or zero if `x` is not tracked.
pub open spec fn mg_count(s: Seq<(u64, u64)>, x: u64) -> nat
    decreases s.len(),
{
    if s.len() == 0 {
        0
    } else if s.last().0 == x {
        s.last().1 as nat
    } else {
        mg_count(s.drop_last(), x)
    }
}

/// Sum of all tracked counters.
pub open spec fn mg_sum(s: Seq<(u64, u64)>) -> nat
    decreases s.len(),
{
    if s.len() == 0 {
        0
    } else {
        (mg_sum(s.drop_last()) + s.last().1) as nat
    }
}

pub open spec fn mg_keys_unique(s: Seq<(u64, u64)>) -> bool {
    forall|i: int, j: int| 0 <= i < j < s.len() ==> s[i].0 != s[j].0
}

pub open spec fn mg_has_key(s: Seq<(u64, u64)>, x: u64) -> bool {
    exists|i: int| 0 <= i < s.len() && s[i].0 == x
}

proof fn lemma_seq_freq_push(h: Seq<u64>, v: u64, x: u64)
    ensures
        seq_freq(h.push(v), x) == seq_freq(h, x) + if x == v {
            1nat
        } else {
            0nat
        },
{
    assert(h.push(v).drop_last() =~= h);
}

proof fn lemma_mg_count_absent(s: Seq<(u64, u64)>, x: u64)
    requires
        forall|j: int| 0 <= j < s.len() ==> s[j].0 != x,
    ensures
        mg_count(s, x) == 0,
    decreases s.len(),
{
    if s.len() > 0 {
        lemma_mg_count_absent(s.drop_last(), x);
    }
}

proof fn lemma_mg_count_pos(s: Seq<(u64, u64)>, x: u64)
    requires
        forall|i: int| 0 <= i < s.len() ==> (#[trigger] s[i]).1 >= 1,
    ensures
        mg_has_key(s, x) <==> mg_count(s, x) >= 1,
    decreases s.len(),
{
    if s.len() > 0 {
        lemma_mg_count_pos(s.drop_last(), x);
        if s.last().0 == x {
            assert(mg_has_key(s, x));
        } else {
            if mg_has_key(s.drop_last(), x) {
                let i = choose|i: int| 0 <= i < s.drop_last().len() && s.drop_last()[i].0 == x;
                assert(s[i].0 == x);
            }
            if mg_has_key(s, x) {
                let i = choose|i: int| 0 <= i < s.len() && s[i].0 == x;
                assert(i < s.len() - 1);
                assert(s.drop_last()[i].0 == x);
            }
        }
    }
}

proof fn lemma_mg_count_update(s: Seq<(u64, u64)>, i: int, c: u64, x: u64)
    requires
        mg_keys_unique(s),
        0 <= i < s.len(),
    ensures
        mg_count(s.update(i, (s[i].0, c)), x) == if x == s[i].0 {
            c as nat
        } else {
            mg_count(s, x)
        },
    decreases s.len(),
{
    let t = s.update(i, (s[i].0, c));
    if i == s.len() - 1 {
        assert(t.drop_last() =~= s.drop_last());
        if x != s[i].0 {
            if s.len() >= 1 {
            }
        }
    } else {
        assert(t.last() == s.last());
        assert(t.drop_last() =~= s.drop_last().update(i, (s[i].0, c)));
        assert(s.drop_last()[i] == s[i]);
        lemma_mg_count_update(s.drop_last(), i, c, x);
        if s.last().0 == x {
            assert(x != s[i].0);
        }
    }
}

proof fn lemma_mg_sum_update(s: Seq<(u64, u64)>, i: int, c: u64)
    requires
        0 <= i < s.len(),
    ensures
        mg_sum(s.update(i, (s[i].0, c))) + s[i].1 == mg_sum(s) + c,
    decreases s.len(),
{
    let t = s.update(i, (s[i].0, c));
    if i == s.len() - 1 {
        assert(t.drop_last() =~= s.drop_last());
    } else {
        assert(t.last() == s.last());
        assert(t.drop_last() =~= s.drop_last().update(i, (s[i].0, c)));
        assert(s.drop_last()[i] == s[i]);
        lemma_mg_sum_update(s.drop_last(), i, c);
    }
}

/// The table after one decrement round: every counter drops by one and
/// entries reaching zero are evicted.
pub open spec fn mg_decremented(s: Seq<(u64, u64)>) -> Seq<(u64, u64)>
    decreases s.len(),
{
    if s.len() == 0 {
        Seq::empty()
    } else {
        mg_decremented(s.drop_last()) + if s.last().1 >= 2 {
            seq![(s.last().0, (s.last().1 - 1) as u64)]
        } else {
            Seq::empty()
        }
    }
}

/// A stream processor which returns the highest-frequency item when it has
/// a majority.
pub type Majority = MisraGries<1>;

/// Tracks up to `K` candidate heavy hitters with counters.  A tracked
/// element's occurrence increments its counter; an untracked element either
/// takes a free slot or decrements every counter, evicting those that reach
/// zero.  Any element with frequency above `total/(K+1)` is guaranteed to be
/// tracked.
pub struct MisraGries<const K: usize> {
    pub entries: Vec<(u64, u64)>,
    pub hist: Ghost<Seq<u64>>,
    pub decs: Ghost<nat>,
}

impl<const K: usize> StreamProcessor<u64> for MisraGries<K> {
    type Args = ();

    type Result = Vec<u64>;

    open spec fn config_ok() -> bool {
        K >= 1
    }

    open spec fn wf(&self) -> bool {
        &&& K >= 1
        &&& mg_keys_unique(self.entries@)
        &&& self.entries@.len() <= K
        &&& forall|i: int| 0 <= i < self.entries@.len() ==> (#[trigger] self.entries@[i]).1 >= 1
        &&& forall|i: int|
            0 <= i < self.entries@.len() ==> (#[trigger] self.entries@[i]).1 <= self.hist@.len()
        &&& self.hist@.len() == mg_sum(self.entries@) + self.decs@ * (K + 1)
        &&& forall|x: u64| seq_freq(self.hist@, x) <= mg_count(self.entries@, x) + self.decs@
    }

    open spec fn is_fresh(&self) -> bool {
        &&& self.entries@.len() == 0
        &&& self.hist@.len() == 0
        &&& self.decs@ == 0
    }

    open spec fn observed(&self) -> nat {
        self.hist@.len()
    }

    open spec fn process_post(pre: Self, v: u64, post: Self) -> bool {
        &&& post.hist@ == pre.hist@.push(v)
        &&& if mg_has_key(pre.entries@, v) {
            &&& post.decs@ == pre.decs@
            &&& exists|i: int|
                #![trigger pre.entries@[i]]
                0 <= i < pre.entries@.len() && pre.entries@[i].0 == v && post.entries@
                    == pre.entries@.update(i, (v, (pre.entries@[i].1 + 1) as u64))
        } else if pre.entries@.len() < K {
            &&& post.decs@ == pre.decs@
            &&& post.entries@ == pre.entries@.push((v, 1u64))
        } else {
            &&& post.decs@ == pre.decs@ + 1
            &&& post.entries@ == mg_decremented(pre.entries@)
        }
    }

    open spec fn query_post(&self, args: (), r: Vec<u64>) -> bool {
        r@ == self.entries@.map_values(|e: (u64, u64)| e.0)
    }

    fn new() -> (s: Self) {
        MisraGries { entries: Vec::new(), hist: Ghost(Seq::empty()), decs: Ghost(0) }
    }

    fn process(&mut self, v: u64) {
        let ghost pre = *self;
        let n = self.entries.len();
        let found = find_key(&self.entries, v);
        if found < n {
            let (kk, c) = self.entries[found];
            self.entries.set(found, (kk, c + 1));
            proof {
                self.hist@ = self.hist@.push(v);
                assert(pre.entries@[found as int].0 == v && self.entries@ == pre.entries@.update(
                    found as int,
                    (v, (pre.entries@[found as int].1 + 1) as u64),
                ));
                assert(mg_has_key(pre.entries@, v));
                lemma_mg_sum_update(pre.entries@, found as int, (c + 1) as u64);
                assert forall|x: u64|
                    seq_freq(self.hist@, x) <= mg_count(self.entries@, x) + self.decs@ by {
                    lemma_seq_freq_push(pre.hist@, v, x);
                    lemma_mg_count_update(pre.entries@, found as int, (c + 1) as u64, x);
                    assert(seq_freq(pre.hist@, x) <= mg_count(pre.entries@, x) + pre.decs@);
                    if x == v {
                        assert(mg_count(pre.entries@, x) == c) by {
                            lemma_mg_count_at(pre.entries@, found as int);
                        }
                    }
                }
            }
        } else if n < K {
            self.entries.push((v, 1));
            proof {
                self.hist@ = self.hist@.push(v);
                if mg_has_key(pre.entries@, v) {
                    let t = choose|t: int| 0 <= t < pre.entries@.len() && pre.entries@[t].0 == v;
                    assert(false);
                }
                assert(self.entries@.drop_last() =~= pre.entries@);
                assert(self.entries@ == pre.entries@.push((v, 1u64)));
                lemma_mg_sum_push(pre.entries@, (v, 1u64));
                assert forall|x: u64|
                    seq_freq(self.hist@, x) <= mg_count(self.entries@, x) + self.decs@ by {
                    lemma_seq_freq_push(pre.hist@, v, x);
                    lemma_mg_count_push(pre.entries@, (v, 1u64), x);
                    assert(seq_freq(pre.hist@, x) <= mg_count(pre.entries@, x) + pre.decs@);
                    if x == v {
                        lemma_mg_count_absent(pre.entries@, v);
                    }
                }
            }
        } else {
            let mut out: Vec<(u64, u64)> = Vec::new();
            let mut i: usize = 0;
            while i < n
                invariant
                    i <= n,
                    n == self.entries@.len(),
                    *self == pre,
                    pre.wf(),
                    out@.len() <= i,
                    mg_keys_unique(out@),
                    forall|j: int| 0 <= j < out@.len() ==> (#[trigger] out@[j]).1 >= 1,
                    forall|j: int|
                        0 <= j < out@.len() ==> (#[trigger] out@[j]).1 <= pre.hist@.len(),
                    forall|j: int|
                        0 <= j < out@.len() ==> mg_has_key(
                            pre.entries@.take(i as int),
                            (#[trigger] out@[j]).0,
                        ),
                    forall|x: u64|
                        mg_count(out@, x) == if mg_count(pre.entries@.take(i as int), x) >= 1 {
                            (mg_count(pre.entries@.take(i as int), x) - 1) as nat
                        } else {
                            0nat
                        },
                    mg_sum(out@) + i == mg_sum(pre.entries@.take(i as int)),
                    out@ == mg_decremented(pre.entries@.take(i as int)),
                decreases n - i,
            {
                let (kk, c) = self.entries[i];
                proof {
                    assert(pre.entries@.take((i + 1) as int) =~= pre.entries@.take(i as int).push(
                        pre.entries@[i as int],
                    ));
                    assert forall|x: u64|
                        mg_count(pre.entries@.take((i + 1) as int), x) == if x == kk {
                            c as nat
                        } else {
                            mg_count(pre.entries@.take(i as int), x)
                        } by {
                        assert(pre.entries@.take((i + 1) as int).drop_last() =~= pre.entries@.take(
                            i as int,
                        ));
                        if x == kk {
                            lemma_mg_count_absent_prefix(pre.entries@, i as int);
                        }
                    }
                    if mg_has_key(pre.entries@.take(i as int), kk) {
                        let t = choose|t: int|
                            0 <= t < pre.entries@.take(i as int).len() && pre.entries@.take(
                                i as int,
                            )[t].0 == kk;
                        assert(pre.entries@[t].0 == kk);
                        assert(false);
                    }
                }
                if c > 1 {
                    proof {
                        assert forall|j: int| 0 <= j < out@.len() implies (#[trigger] out@[j]).0
                            != kk by {
                            if out@[j].0 == kk {
                                assert(mg_has_key(pre.entries@.take(i as int), kk));
                            }
                        }
                    }
                    let ghost out_pre = out@;
                    out.push((kk, c - 1));
                    proof {
                        assert(out@ == out_pre.push((kk, (c - 1) as u64)));
                        lemma_mg_sum_push(out_pre, (kk, (c - 1) as u64));
                        lemma_mg_sum_push(pre.entries@.take(i as int), pre.entries@[i as int]);
                        assert(mg_sum(pre.entries@.take((i + 1) as int)) == mg_sum(
                            pre.entries@.take(i as int),
                        ) + c);
                        assert(out@.drop_last() =~= out_pre);
                        assert forall|j: int|
                            0 <= j < out@.len() implies mg_has_key(
                            pre.entries@.take((i + 1) as int),
                            (#[trigger] out@[j]).0,
                        ) by {
                            if j < out@.len() - 1 {
                                let t = choose|t: int|
                                    0 <= t < pre.entries@.take(i as int).len() && pre.entries@.take(
                                        i as int,
                                    )[t].0 == out@[j].0;
                                assert(pre.entries@.take((i + 1) as int)[t].0 == out@[j].0);
                            } else {
                                assert(pre.entries@.take((i + 1) as int)[i as int].0 == kk);
                            }
                        }
                        assert forall|x: u64|
                            mg_count(out@, x) == (if mg_count(pre.entries@.take((i + 1) as int), x)
                                >= 1 {
                                (mg_count(pre.entries@.take((i + 1) as int), x) - 1) as nat
                            } else {
                                0nat
                            }) by {
                            lemma_mg_count_push(out_pre, (kk, (c - 1) as u64), x);
                        }
                    }
                } else {
                    proof {
                        lemma_mg_sum_push(pre.entries@.take(i as int), pre.entries@[i as int]);
                        assert(mg_sum(pre.entries@.take((i + 1) as int)) == mg_sum(
                            pre.entries@.take(i as int),
                        ) + c);
                        assert forall|j: int|
                            0 <= j < out@.len() implies mg_has_key(
                            pre.entries@.take((i + 1) as int),
                            (#[trigger] out@[j]).0,
                        ) by {
                            let t = choose|t: int|
                                0 <= t < pre.entries@.take(i as int).len() && pre.entries@.take(
                                    i as int,
                                )[t].0 == out@[j].0;
                            assert(pre.entries@.take((i + 1) as int)[t].0 == out@[j].0);
                        }
                        assert forall|x: u64|
                            mg_count(out@, x) == (if mg_count(pre.entries@.take((i + 1) as int), x)
                                >= 1 {
                                (mg_count(pre.entries@.take((i + 1) as int), x) - 1) as nat
                            } else {
                                0nat
                            }) by {
                            if x == kk {
                                lemma_mg_count_pos(out@, x);
                                if mg_has_key(out@, x) {
                                    assert(mg_has_key(pre.entries@.take(i as int), kk));
                                }
                            }
                        }
                    }
                }
                proof {
                    assert(pre.entries@.take((i + 1) as int).drop_last() =~= pre.entries@.take(
                        i as int,
                    ));
                    assert(pre.entries@.take((i + 1) as int).last() == pre.entries@[i as int]);
                    assert(mg_decremented(pre.entries@.take((i + 1) as int)) =~= out@);
                }
                i = i + 1;
            }
            self.entries = out;
            proof {
                assert(pre.entries@.take(n as int) =~= pre.entries@);
                self.hist@ = self.hist@.push(v);
                self.decs@ = self.decs@ + 1;
                assert(n == K);
                if mg_has_key(pre.entries@, v) {
                    let t = choose|t: int| 0 <= t < pre.entries@.len() && pre.entries@[t].0 == v;
                    assert(false);
                }
                assert(self.entries@ == mg_decremented(pre.entries@));
                assert(self.decs@ * (K + 1) == pre.decs@ * (K + 1) + (K + 1)) by (nonlinear_arith)
                    requires
                        self.decs@ == pre.decs@ + 1,
                ;
                assert(self.hist@.len() == mg_sum(self.entries@) + self.decs@ * (K + 1));
                assert forall|x: u64|
                    seq_freq(self.hist@, x) <= mg_count(self.entries@, x) + self.decs@ by {
                    lemma_seq_freq_push(pre.hist@, v, x);
                    assert(seq_freq(pre.hist@, x) <= mg_count(pre.entries@, x) + pre.decs@);
                    assert(mg_count(self.entries@, x) == if mg_count(pre.entries@, x) >= 1 {
                        (mg_count(pre.entries@, x) - 1) as nat
                    } else {
                        0nat
                    });
                    if x == v {
                        lemma_mg_count_absent(pre.entries@, v);
                    }
                }
            }
        }
    }

    fn query(&self, args: &()) -> (r: Vec<u64>) {
        let mut r: Vec<u64> = Vec::new();
        let n = self.entries.len();
        let mut i: usize = 0;
        while i < n
            invariant
                i <= n,
                n == self.entries@.len(),
                r@.len() == i,
                forall|j: int| 0 <= j < i ==> r@[j] == (#[trigger] self.entries@[j]).0,
            decreases n - i,
        {
            let (kk, _c) = self.entries[i];
            r.push(kk);
            i = i + 1;
        }
        proof {
            assert(r@ =~= self.entries@.map_values(|e: (u64, u64)| e.0));
        }
        r
    }
}

/// The counter stored at a tracked index is the count of its key.
proof fn lemma_mg_count_at(s: Seq<(u64, u64)>, i: int)
    requires
        mg_keys_unique(s),
        0 <= i < s.len(),
    ensures
        mg_count(s, s[i].0) == s[i].1,
    decreases s.len(),
{
    if i == s.len() - 1 {
    } else {
        assert(s.last().0 != s[i].0);
        assert(s.drop_last()[i] == s[i]);
        lemma_mg_count_at(s.drop_last(), i);
    }
}

/// A key that first appears at position `i` is absent from the prefix.
proof fn lemma_mg_count_absent_prefix(s: Seq<(u64, u64)>, i: int)
    requires
        mg_keys_unique(s),
        0 <= i < s.len(),
    ensures
        mg_count(s.take(i), s[i].0) == 0,
{
    assert forall|j: int| 0 <= j < s.take(i).len() implies s.take(i)[j].0 != s[i].0 by {
        assert(s[j].0 != s[i].0);
    }
    lemma_mg_count_absent(s.take(i), s[i].0);
}

proof fn lemma_mg_sum_push(s: Seq<(u64, u64)>, e: (u64, u64))
    ensures
        mg_sum(s.push(e)) == mg_sum(s) + e.1,
{
    assert(s.push(e).drop_last() =~= s);
}

proof fn lemma_mg_count_push(s: Seq<(u64, u64)>, e: (u64, u64), x: u64)
    ensures
        mg_count(s.push(e), x) == if x == e.0 {
            e.1 as nat
        } else {
            mg_count(s, x)
        },
{
    assert(s.push(e).drop_last() =~= s);
}

/// Index of `v` among the tracked keys, or the length when untracked.
fn find_key(entries: &Vec<(u64, u64)>, v: u64) -> (r: usize)
    ensures
        r <= entries@.len(),
        r < entries@.len() ==> entries@[r as int].0 == v,
        r == entries@.len() ==> forall|j: int|
            0 <= j < entries@.len() ==> (#[trigger] entries@[j]).0 != v,
{
    let mut i: usize = 0;
    while i < entries.len()
        invariant
            i <= entries@.len(),
            forall|j: int| 0 <= j < i ==> (#[trigger] entries@[j]).0 != v,
        decreases entries@.len() - i,
    {
        if entries[i].0 == v {
            return i;
        }
        i = i + 1;
    }
    i
}

/// Along any run, the history recorded so far is exactly the processed
/// prefix.
proof fn lemma_mg_chain<const K: usize>(elems: Seq<u64>, states: Seq<MisraGries<K>>, j: int)
    requires
        runs_through::<u64, MisraGries<K>>(elems, states),
        0 <= j < states.len(),
    ensures
        states[j].hist@ == elems.take(j),
    decreases j,
{
    if j == 0 {
        assert(states[0].hist@ =~= elems.take(0));
    } else {
        lemma_mg_chain::<K>(elems, states, j - 1);
        assert(<MisraGries<K> as StreamProcessor<u64>>::process_post(
            states[j - 1],
            elems[j - 1],
            states[j - 1 + 1],
        ));
        assert(states[j - 1 + 1] == states[j]);
        assert(elems.take(j) =~= elems.take(j - 1).push(elems[j - 1]));
    }
}

/// Heavy hitters are never missed: after processing any sequence, every
/// element whose frequency exceeds `total / (K + 1)` appears in the query
/// result.
pub proof fn lemma_mg_heavy_hitter<const K: usize>(
    elems: Seq<u64>,
    s: MisraGries<K>,
    x: u64,
    r: Vec<u64>,
)
    requires
        folds_to::<u64, MisraGries<K>>(elems, s),
        s.query_post((), r),
        seq_freq(elems, x) * (K + 1) > elems.len(),
    ensures
        r@.contains(x),
{
    let states = choose|states: Seq<MisraGries<K>>|
        #[trigger] runs_through::<u64, MisraGries<K>>(elems, states) && states.last() == s;
    lemma_mg_chain::<K>(elems, states, states.len() - 1);
    assert(elems.take(elems.len() as int) =~= elems);
    assert(s.hist@ == elems);
    assert(s.wf());
    let freq = seq_freq(elems, x);
    assert(s.decs@ * (K + 1) <= elems.len());
    assert(freq > s.decs@) by (nonlinear_arith)
        requires
            freq * (K + 1) > elems.len(),
            s.decs@ * (K + 1) <= elems.len(),
            K >= 1,
    ;
    assert(freq <= mg_count(s.entries@, x) + s.decs@);
    assert(mg_count(s.entries@, x) >= 1);
    lemma_mg_count_pos(s.entries@, x);
    let i = choose|i: int| 0 <= i < s.entries@.len() && s.entries@[i].0 == x;
    assert(r@[i] == x);
    assert(r@.contains(x));
}


/// The cell of one row an element maps to: its hash reduced modulo the `B`
/// buckets.
pub open spec fn cm_index<const B: usize>(j: int, v: u64) -> int {
    (KeyedHash { key: key_for(j as u64) }.hash_spec(v) as int) % (B as int)
}

/// One row of the count-min matrix: a hash function and its counters.
pub struct CmRow {
    pub hasher: KeyedHash,
    pub cells: Vec<u64>,
}

/// The smallest counter an element maps to, over the given rows.
pub open spec fn cm_min<const B: usize>(rows: Seq<CmRow>, v: u64) -> nat
    decreases rows.len(),
{
    if rows.len() == 0 {
        0
    } else {
        let last_val = rows.last().cells@[cm_index::<B>(rows.len() - 1, v)] as nat;
        if rows.len() == 1 {
            last_val
        } else {
            let rest = cm_min::<B>(rows.drop_last(), v);
            if last_val < rest {
                last_val
            } else {
                rest
            }
        }
    }
}

/// Frequency estimation by counting in hashed buckets: each occurrence
/// increments one counter per row, and a query reads the minimum over the
/// rows, which never undercounts.
pub struct CountMin<const B: usize, const H: usize> {
    pub rows: Vec<CmRow>,
    pub hist: Ghost<Seq<u64>>,
}

impl<const B: usize, const H: usize> StreamProcessor<u64> for CountMin<B, H> {
    type Args = u64;

    type Result = u64;

    open spec fn config_ok() -> bool {
        &&& 1 <= B <= 0x0fff_ffff
        &&& 1 <= H <= 0xffff
    }

    open spec fn wf(&self) -> bool {
        &&& 1 <= B <= 0x0fff_ffff
        &&& 1 <= H <= 0xffff
        &&& self.rows@.len() == H
        &&& forall|j: int| 0 <= j < H ==> (#[trigger] self.rows@[j]).cells@.len() == B
        &&& forall|j: int| 0 <= j < H ==> (#[trigger] self.rows@[j]).hasher.key == key_for(j as u64)
        &&& forall|j: int, i: int|
            0 <= j < H && 0 <= i < B ==> (#[trigger] self.rows@[j].cells@[i]) as nat
                <= self.hist@.len()
        &&& forall|j: int, x: u64|
            0 <= j < H ==> seq_freq(self.hist@, x) <= (#[trigger] self.rows@[j].cells@[cm_index::<
                B,
            >(j, x)]) as nat
    }

    open spec fn is_fresh(&self) -> bool {
        self.hist@.len() == 0
    }

    open spec fn observed(&self) -> nat {
        self.hist@.len()
    }

    open spec fn process_post(pre: Self, v: u64, post: Self) -> bool {
        &&& post.hist@ == pre.hist@.push(v)
        &&& post.rows@.len() == pre.rows@.len()
        &&& forall|t: int|
            0 <= t < pre.rows@.len() ==> (#[trigger] post.rows@[t]).hasher == pre.rows@[t].hasher
                && post.rows@[t].cells@ == pre.rows@[t].cells@.update(
                cm_index::<B>(t, v),
                (pre.rows@[t].cells@[cm_index::<B>(t, v)] + 1) as u64,
            )
    }

    open spec fn query_post(&self, args: u64, r: u64) -> bool {
        r == cm_min::<B>(self.rows@, args)
    }

    fn new() -> (s: Self) {
        let buckets: usize = B;
        let mut rows: Vec<CmRow> = Vec::new();
        let mut j: usize = 0;
        while j < H
            invariant
                j <= H,
                1 <= B <= 0x0fff_ffff,
                buckets == B,
                rows@.len() == j,
                forall|t: int| 0 <= t < j ==> (#[trigger] rows@[t]).cells@.len() == B,
                forall|t: int| 0 <= t < j ==> (#[trigger] rows@[t]).hasher.key == key_for(t as u64),
                forall|t: int, i: int|
                    0 <= t < j && 0 <= i < B ==> (#[trigger] rows@[t].cells@[i]) == 0u64,
            decreases H - j,
        {
            let mut cells: Vec<u64> = Vec::new();
            let mut i: usize = 0;
            while i < buckets
                invariant
                    i <= buckets,
                    cells@.len() == i,
                    forall|t: int| 0 <= t < i ==> cells@[t] == 0u64,
                decreases buckets - i,
            {
                cells.push(0u64);
                i = i + 1;
            }
            rows.push(CmRow { hasher: KeyedHash::for_index(j as u64), cells });
            j = j + 1;
        }
        let s = CountMin { rows, hist: Ghost(Seq::empty()) };
        proof {
            assert forall|j2: int, x: u64| 0 <= j2 < H implies seq_freq(s.hist@, x) <= (
            #[trigger] s.rows@[j2].cells@[cm_index::<B>(j2, x)]) as nat by {
                assert(0 <= cm_index::<B>(j2, x) < B);
            }
        }
        s
    }

    fn process(&mut self, v: u64) {
        let buckets: usize = B;
        let ghost pre = *self;
        let mut j: usize = 0;
        while j < H
            invariant
                pre.wf(),
                pre.hist@.len() < u64::MAX,
                buckets == B,
                j <= H,
                self.hist@ == pre.hist@,
                self.rows@.len() == H,
                forall|t: int|
                    0 <= t < H ==> (#[trigger] self.rows@[t]).hasher == pre.rows@[t].hasher
                        && self.rows@[t].cells@.len() == B,
                forall|t: int, i: int|
                    0 <= t < H && 0 <= i < B && !(t < j && i == cm_index::<B>(t, v)) ==> (
                    #[trigger] self.rows@[t].cells@[i]) == pre.rows@[t].cells@[i],
                forall|t: int|
                    0 <= t < j ==> (#[trigger] self.rows@[t].cells@[cm_index::<B>(t, v)])
                        == pre.rows@[t].cells@[cm_index::<B>(t, v)] + 1,
            decreases H - j,
        {
            let ghost rows0 = self.rows@;
            let mut row = self.rows.remove(j);
            let mut h = row.hasher;
            let hv = h.hash(v);
            let idx = (hv % (buckets as u64)) as usize;
            proof {
                assert(row.hasher == (KeyedHash { key: key_for(j as u64) }));
                assert(idx as int == cm_index::<B>(j as int, v));
                assert(row.cells@[idx as int] <= pre.hist@.len());
                assert(pre.hist@.len() < u64::MAX);
            }
            let c = row.cells[idx];
            row.cells.set(idx, c + 1);
            let ghost rg = row;
            self.rows.insert(j, row);
            proof {
                assert(self.rows@ =~= rows0.update(j as int, rg));
            }
            j = j + 1;
        }
        proof {
            self.hist@ = self.hist@.push(v);
            assert forall|t: int|
                0 <= t < H implies (#[trigger] self.rows@[t]).cells@ == pre.rows@[t].cells@.update(
                cm_index::<B>(t, v),
                (pre.rows@[t].cells@[cm_index::<B>(t, v)] + 1) as u64,
            ) by {
                assert(self.rows@[t].cells@ =~= pre.rows@[t].cells@.update(
                    cm_index::<B>(t, v),
                    (pre.rows@[t].cells@[cm_index::<B>(t, v)] + 1) as u64,
                ));
            }
            assert forall|t: int, x: u64| 0 <= t < H implies seq_freq(self.hist@, x) <= (
            #[trigger] self.rows@[t].cells@[cm_index::<B>(t, x)]) as nat by {
                lemma_seq_freq_push(pre.hist@, v, x);
                assert(seq_freq(pre.hist@, x) <= pre.rows@[t].cells@[cm_index::<B>(t, x)]);
                if cm_index::<B>(t, x) == cm_index::<B>(t, v) {
                    assert(self.rows@[t].cells@[cm_index::<B>(t, v)] == pre.rows@[t].cells@[
                        cm_index::<B>(t, v)] + 1);
                } else {
                    assert(self.rows@[t].cells@[cm_index::<B>(t, x)] == pre.rows@[t].cells@[
                        cm_index::<B>(t, x)]);
                }
            }
        }
    }

    fn query(&self, args: &u64) -> (r: u64) {
        let buckets: usize = B;
        let mut best: u64 = 0;
        let mut started = false;
        let mut j: usize = 0;
        while j < H
            invariant
                self.wf(),
                buckets == B,
                j <= H,
                started == (j > 0),
                j > 0 ==> best == cm_min::<B>(self.rows@.take(j as int), *args),
            decreases H - j,
        {
            let mut h = self.rows[j].hasher;
            let hv = h.hash(*args);
            let idx = (hv % (buckets as u64)) as usize;
            proof {
                assert(self.rows@[j as int].hasher == (KeyedHash { key: key_for(j as u64) }));
                assert(idx as int == cm_index::<B>(j as int, *args));
                assert(self.rows@.take((j + 1) as int).drop_last() =~= self.rows@.take(j as int));
                assert(self.rows@.take((j + 1) as int).last() == self.rows@[j as int]);
            }
            let c = self.rows[j].cells[idx];
            if !started || c < best {
                best = c;
            }
            started = true;
            j = j + 1;
        }
        proof {
            assert(self.rows@.take(H as int) =~= self.rows@);
        }
        best
    }
}

/// Along any run, the history recorded so far is exactly the processed
/// prefix.
proof fn lemma_cm_chain<const B: usize, const H: usize>(
    elems: Seq<u64>,
    states: Seq<CountMin<B, H>>,
    j: int,
)
    requires
        runs_through::<u64, CountMin<B, H>>(elems, states),
        0 <= j < states.len(),
    ensures
        states[j].hist@ == elems.take(j),
    decreases j,
{
    if j == 0 {
        assert(states[0].hist@ =~= elems.take(0));
    } else {
        lemma_cm_chain::<B, H>(elems, states, j - 1);
        assert(<CountMin<B, H> as StreamProcessor<u64>>::process_post(
            states[j - 1],
            elems[j - 1],
            states[j - 1 + 1],
        ));
        assert(states[j - 1 + 1] == states[j]);
        assert(elems.take(j) =~= elems.take(j - 1).push(elems[j - 1]));
    }
}

/// The row minimum never drops below a bound that every row's cell meets.
proof fn lemma_cm_min_bound<const B: usize>(rows: Seq<CmRow>, v: u64, bound: nat)
    requires
        forall|j: int|
            0 <= j < rows.len() ==> bound <= (#[trigger] rows[j].cells@[cm_index::<B>(j, v)]) as nat,
        rows.len() >= 1,
    ensures
        bound <= cm_min::<B>(rows, v),
    decreases rows.len(),
{
    if rows.len() > 1 {
        assert forall|j: int|
            0 <= j < rows.drop_last().len() implies bound <= (#[trigger] rows.drop_last()[j].cells@[
            cm_index::<B>(j, v)]) as nat by {
            assert(rows.drop_last()[j] == rows[j]);
        }
        lemma_cm_min_bound::<B>(rows.drop_last(), v, bound);
    }
}

/// No underestimates: after processing any sequence, the estimate for any
/// element is at least its true frequency.
pub proof fn lemma_cm_no_underestimate<const B: usize, const H: usize>(
    elems: Seq<u64>,
    s: CountMin<B, H>,
    x: u64,
    r: u64,
)
    requires
        folds_to::<u64, CountMin<B, H>>(elems, s),
        s.query_post(x, r),
    ensures
        r >= seq_freq(elems, x),
{
    let states = choose|states: Seq<CountMin<B, H>>|
        #[trigger] runs_through::<u64, CountMin<B, H>>(elems, states) && states.last() == s;
    lemma_cm_chain::<B, H>(elems, states, states.len() - 1);
    assert(elems.take(elems.len() as int) =~= elems);
    assert(s.hist@ == elems);
    assert(s.wf());
    lemma_cm_min_bound::<B>(s.rows@, x, seq_freq(elems, x));
}

} // verus!
