use vstd::prelude::*;
use crate::StreamProcessor;
use crate::compactor::rank;
use crate::compactor::leq;
use crate::random::RandomSource;
use crate::random::RAND_DENOM;
use crate::random::RAND_SEED;
use crate::random::draw_of;
use crate::random::next_seed;

verus! {

/// Number of elements of `s` strictly below `a`.
pub open spec fn count_below(s: Seq<u64>, a: u64) -> nat
    decreases s.len(),
{
    if s.len() == 0 {
        0
    } else {
        (count_below(s.drop_last(), a) + if s.last() < a {
            1nat
        } else {
            0nat
        }) as nat
    }
}

/// Strictly ascending: sorted and duplicate-free.
pub open spec fn strictly_sorted(s: Seq<u64>) -> bool {
    forall|i: int, j: int| 0 <= i < j < s.len() ==> s[i] < s[j]
}

/// Approximate rank estimation from a random sample: every element advances
/// an owned counter, and is also kept in a sorted duplicate-free sample set
/// with probability `EXP_SIZE / SAMPLE_SIZE`.  A query scales the queried
/// value's rank among the samples by the counted stream length.
pub struct Quantile<const E: usize, const K: usize, C> {
    pub samples: Vec<u64>,
    pub counter: C,
    pub rng: RandomSource,
}

impl<const E: usize, const K: usize, C: StreamProcessor<(), Args = (), Result = u64>>
    StreamProcessor<u64> for Quantile<E, K, C> {
    type Args = u64;

    type Result = u64;

    open spec fn config_ok() -> bool {
        &&& 1 <= E <= 0xffff_ffff
        &&& 1 <= K <= 0xffff_ffff
        &&& C::config_ok()
    }

    open spec fn wf(&self) -> bool {
        &&& 1 <= E <= 0xffff_ffff
        &&& 1 <= K <= 0xffff_ffff
        &&& strictly_sorted(self.samples@)
        &&& self.counter.wf()
    }

    open spec fn is_fresh(&self) -> bool {
        &&& self.samples@.len() == 0
        &&& self.counter.is_fresh()
        &&& self.counter.observed() == 0
        &&& self.rng.seed == RAND_SEED
    }

    open spec fn observed(&self) -> nat {
        self.counter.observed()
    }

    open spec fn process_post(pre: Self, v: u64, post: Self) -> bool {
        &&& C::process_post(pre.counter, (), post.counter)
        &&& post.rng.seed == next_seed(pre.rng.seed)
        &&& if (draw_of(pre.rng.seed) as int) * (K as int) > (E as int) * (RAND_DENOM as int) {
            post.samples@ == pre.samples@
        } else {
            post.samples@.to_set() == pre.samples@.to_set().insert(v)
        }
    }

    open spec fn query_post(&self, a: u64, r: u64) -> bool {
        exists|cnt: u64|
            #[trigger] self.counter.query_post((), cnt) && r as int == if self.samples@.len()
                == 0 {
                0
            } else {
                ((cnt as int) * (count_below(self.samples@, a) as int)) / (
                self.samples@.len() as int)
            }
    }

    fn new() -> (s: Self) {
        Quantile { samples: Vec::new(), counter: C::new(), rng: RandomSource::new() }
    }

    fn process(&mut self, v: u64) {
        self.counter.process(());
        let d = self.rng.next();
        proof {
            assert(d * (K as u64) <= 0xffff_ffff_ffff_ffff) by (nonlinear_arith)
                requires
                    d < 0x1_0000_0000u64,
                    K <= 0xffff_ffffusize,
            ;
            assert((E as u64) * RAND_DENOM <= 0xffff_ffff_ffff_ffff) by (nonlinear_arith)
                requires
                    E <= 0xffff_ffffusize,
            ;
        }
        if d * (K as u64) > (E as u64) * RAND_DENOM {
            return ;
        }
        let ghost pre_samples = self.samples@;
        let n = self.samples.len();
        let mut idx: usize = 0;
        while idx < n && self.samples[idx] < v
            invariant
                idx <= n,
                n == self.samples@.len(),
                self.samples@ == pre_samples,
                forall|j: int| 0 <= j < idx ==> self.samples@[j] < v,
            decreases n - idx,
        {
            idx = idx + 1;
        }
        if idx < n && self.samples[idx] == v {
            proof {
                assert(self.samples@.to_set() =~= pre_samples.to_set().insert(v));
            }
            return ;
        }
        self.samples.insert(idx, v);
        proof {
            assert forall|i: int, j: int|
                0 <= i < j < self.samples@.len() implies self.samples@[i] < self.samples@[j] by {
                if i < idx && j == idx {
                } else if i == idx && j > idx {
                    assert(self.samples@[j] == pre_samples[j - 1]);
                    assert(pre_samples[j - 1] >= v);
                    assert(pre_samples[j - 1] != v);
                } else if j < idx {
                    assert(self.samples@[i] == pre_samples[i] && self.samples@[j]
                        == pre_samples[j]);
                } else if i > idx {
                    assert(self.samples@[i] == pre_samples[i - 1] && self.samples@[j]
                        == pre_samples[j - 1]);
                } else if i < idx && j > idx {
                    assert(self.samples@[i] == pre_samples[i] && self.samples@[j]
                        == pre_samples[j - 1]);
                }
            }
            assert forall|x: u64| self.samples@.to_set().contains(x) <==> pre_samples.to_set(
            ).insert(v).contains(x) by {
                if self.samples@.contains(x) {
                    let i = choose|i: int| 0 <= i < self.samples@.len() && self.samples@[i] == x;
                    if i < idx {
                        assert(pre_samples[i] == x);
                    } else if i > idx {
                        assert(pre_samples[i - 1] == x);
                    }
                }
                if pre_samples.contains(x) {
                    let i = choose|i: int| 0 <= i < pre_samples.len() && pre_samples[i] == x;
                    if i < idx {
                        assert(self.samples@[i] == x);
                    } else {
                        assert(self.samples@[i + 1] == x);
                    }
                }
                if x == v {
                    assert(self.samples@[idx as int] == v);
                }
            }
            assert(self.samples@.to_set() =~= pre_samples.to_set().insert(v));
        }
    }

    fn query(&self, a: &u64) -> (r: u64) {
        let cnt = self.counter.query(&());
        proof {
            assert forall|i: int, j: int|
                0 <= i < j < self.samples@.len() implies #[trigger] leq()(
                self.samples@[i],
                self.samples@[j],
            ) by {
                assert(self.samples@[i] < self.samples@[j]);
            }
        }
        let i = rank(self.samples.as_slice(), *a);
        let n = self.samples.len();
        if n == 0 {
            return 0;
        }
        proof {
            lemma_count_below_rank(self.samples@, *a, i as int);
            vstd::arithmetic::mul::lemma_mul_inequality(i as int, n as int, cnt as int);
            vstd::arithmetic::div_mod::lemma_div_is_ordered(
                (cnt as int) * (i as int),
                (cnt as int) * (n as int),
                n as int,
            );
            vstd::arithmetic::div_mod::lemma_div_by_multiple(cnt as int, n as int);
            assert((cnt as int) * (i as int) == (i as int) * (cnt as int)) by (nonlinear_arith);
            assert((cnt as int) * (n as int) == (n as int) * (cnt as int)) by (nonlinear_arith);
        }
        proof {
            assert((cnt as u128) * (i as u128) <= 0xffff_ffff_ffff_ffff_ffff_ffff_ffff_ffff)
                by (nonlinear_arith)
                requires
                    cnt <= 0xffff_ffff_ffff_ffffu64,
                    i <= 0xffff_ffff_ffff_ffffu128,
            ;
        }
        let est = ((cnt as u128) * (i as u128)) / (n as u128);
        est as u64
    }
}

/// For a sorted sequence, the boundary index separating smaller elements
/// from the rest equals the count of elements below the query point.
proof fn lemma_count_below_rank(s: Seq<u64>, a: u64, r: int)
    requires
        0 <= r <= s.len(),
        forall|i: int| 0 <= i < r ==> s[i] < a,
        forall|i: int| r <= i < s.len() ==> s[i] >= a,
    ensures
        count_below(s, a) == r,
    decreases s.len(),
{
    if s.len() > 0 {
        if s.last() < a {
            assert(r == s.len());
            lemma_count_below_rank(s.drop_last(), a, r - 1);
        } else {
            assert(r <= s.len() - 1);
            lemma_count_below_rank(s.drop_last(), a, r);
        }
    }
}

} // verus!
