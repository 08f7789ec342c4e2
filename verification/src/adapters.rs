use vstd::prelude::*;
use crate::StreamProcessor;
use crate::compactor::leq;
use crate::compactor::sort_vec;

verus! {

/// Sum of a sequence of 64-bit values, as a mathematical integer.
pub open spec fn seq_sum(s: Seq<u64>) -> int
    decreases s.len(),
{
    if s.len() == 0 {
        0
    } else {
        seq_sum(s.drop_last()) + s.last()
    }
}

proof fn lemma_seq_sum_push(s: Seq<u64>, x: u64)
    ensures
        seq_sum(s.push(x)) == seq_sum(s) + x,
{
    assert(s.push(x).drop_last() =~= s);
}

/// The per-group means of `M` groups of `N` sub-results each.
pub open spec fn group_means<const N: usize, const M: usize>(rs: Seq<u64>) -> Seq<u64> {
    Seq::new(M as nat, |g: int| (seq_sum(rs.subrange(g * N, g * N + N)) / (N as int)) as u64)
}

/// Amplifies a boolean-result processor by running `N` independent copies
/// and answering the conjunction of their answers: false-positive
/// probability shrinks exponentially, and no new false negatives appear.
pub struct BoolGroup<S, const N: usize> {
    pub subs: Vec<S>,
    pub obs: Ghost<nat>,
}

impl<T: Copy, S: StreamProcessor<T, Args = T, Result = bool>, const N: usize> StreamProcessor<
    T,
> for BoolGroup<S, N> {
    type Args = T;

    type Result = bool;

    open spec fn config_ok() -> bool {
        S::config_ok()
    }

    open spec fn wf(&self) -> bool {
        &&& self.subs@.len() == N
        &&& forall|i: int|
            0 <= i < N ==> (#[trigger] self.subs@[i]).wf() && self.subs@[i].observed() == self.obs@
    }

    open spec fn is_fresh(&self) -> bool {
        &&& self.obs@ == 0
        &&& forall|i: int| 0 <= i < N ==> (#[trigger] self.subs@[i]).is_fresh()
    }

    open spec fn observed(&self) -> nat {
        self.obs@
    }

    open spec fn process_post(pre: Self, v: T, post: Self) -> bool {
        &&& post.obs@ == pre.obs@ + 1
        &&& post.subs@.len() == N
        &&& forall|i: int| 0 <= i < N ==> S::process_post(pre.subs@[i], v, #[trigger] post.subs@[i])
    }

    open spec fn query_post(&self, a: T, r: bool) -> bool {
        exists|rs: Seq<bool>|
            #![trigger rs.len()]
            rs.len() == N && (forall|i: int|
                0 <= i < N ==> (#[trigger] self.subs@[i]).query_post(a, rs[i])) && (r == (forall|
                i: int,
            |
                0 <= i < N ==> rs[i] == true))
    }

    fn new() -> (s: Self) {
        let mut subs: Vec<S> = Vec::new();
        let mut i: usize = 0;
        while i < N
            invariant
                i <= N,
                S::config_ok(),
                subs@.len() == i,
                forall|t: int|
                    0 <= t < i ==> (#[trigger] subs@[t]).wf() && subs@[t].is_fresh()
                        && subs@[t].observed() == 0,
            decreases N - i,
        {
            subs.push(S::new());
            i = i + 1;
        }
        BoolGroup { subs, obs: Ghost(0) }
    }

    fn process(&mut self, v: T) {
        let ghost pre = *self;
        let mut i: usize = 0;
        while i < N
            invariant
                i <= N,
                self.subs@.len() == N,
                self.obs@ == pre.obs@,
                pre.obs@ < u64::MAX,
                forall|t: int|
                    0 <= t < N ==> (#[trigger] pre.subs@[t]).wf() && pre.subs@[t].observed()
                        == pre.obs@,
                forall|t: int| i <= t < N ==> #[trigger] self.subs@[t] == pre.subs@[t],
                forall|t: int|
                    0 <= t < i ==> S::process_post(pre.subs@[t], v, #[trigger] self.subs@[t])
                        && self.subs@[t].wf() && self.subs@[t].observed() == pre.obs@ + 1,
            decreases N - i,
        {
            let ghost subs0 = self.subs@;
            let mut sub = self.subs.remove(i);
            sub.process(v);
            let ghost sg = sub;
            self.subs.insert(i, sub);
            proof {
                assert(self.subs@ =~= subs0.update(i as int, sg));
            }
            i = i + 1;
        }
        proof {
            self.obs@ = self.obs@ + 1;
        }
    }

    fn query(&self, a: &T) -> (r: bool) {
        let ghost mut rs: Seq<bool> = Seq::empty();
        let mut all = true;
        let mut i: usize = 0;
        while i < N
            invariant
                i <= N,
                self.wf(),
                rs.len() == i,
                forall|t: int| 0 <= t < i ==> (#[trigger] self.subs@[t]).query_post(*a, rs[t]),
                all == (forall|t: int| 0 <= t < i ==> rs[t] == true),
            decreases N - i,
        {
            let one = self.subs[i].query(a);
            proof {
                let rs0 = rs;
                rs = rs.push(one);
                assert(forall|t: int| 0 <= t < i ==> rs[t] == rs0[t]);
                assert(rs[i as int] == one);
                if all && one {
                    assert forall|t: int| 0 <= t < i + 1 implies rs[t] == true by {
                        if t < i {
                            assert(rs0[t] == true);
                        }
                    }
                } else {
                    if !all {
                        let t0 = choose|t0: int| 0 <= t0 < i && rs0[t0] != true;
                        assert(rs[t0] != true);
                    } else {
                        assert(rs[i as int] != true);
                    }
                    assert(!(forall|t: int| 0 <= t < i + 1 ==> rs[t] == true));
                }
            }
            all = all && one;
            i = i + 1;
        }
        proof {
            assert(rs.len() == N && (forall|t: int|
                0 <= t < N ==> (#[trigger] self.subs@[t]).query_post(*a, rs[t])) && (all == (forall|
                t: int,
            |
                0 <= t < N ==> rs[t] == true)));
        }
        all
    }
}

/// Amplifies a numeric-result processor by running `M` groups of `N`
/// independent copies, averaging each group, and answering the median of
/// the group means: the classic variance-reduction wrapper.  The intra-group
/// aggregate is fixed here as the arithmetic mean.
pub struct MedianOfMeans<S, const N: usize, const M: usize> {
    pub subs: Vec<S>,
    pub obs: Ghost<nat>,
}

impl<T: Copy, S: StreamProcessor<T, Result = u64>, const N: usize, const M: usize> StreamProcessor<
    T,
> for MedianOfMeans<S, N, M> {
    type Args = S::Args;

    type Result = u64;

    open spec fn config_ok() -> bool {
        &&& S::config_ok()
        &&& 1 <= N <= 0xffff
        &&& 1 <= M <= 0xffff
    }

    open spec fn wf(&self) -> bool {
        &&& 1 <= N <= 0xffff
        &&& 1 <= M <= 0xffff
        &&& self.subs@.len() == M * N
        &&& forall|i: int|
            0 <= i < M * N ==> (#[trigger] self.subs@[i]).wf() && self.subs@[i].observed()
                == self.obs@
    }

    open spec fn is_fresh(&self) -> bool {
        &&& self.obs@ == 0
        &&& forall|i: int| 0 <= i < M * N ==> (#[trigger] self.subs@[i]).is_fresh()
    }

    open spec fn observed(&self) -> nat {
        self.obs@
    }

    open spec fn process_post(pre: Self, v: T, post: Self) -> bool {
        &&& post.obs@ == pre.obs@ + 1
        &&& post.subs@.len() == M * N
        &&& forall|i: int|
            0 <= i < M * N ==> S::process_post(pre.subs@[i], v, #[trigger] post.subs@[i])
    }

    open spec fn query_post(&self, a: S::Args, r: u64) -> bool {
        exists|rs: Seq<u64>|
            #![trigger rs.len()]
            rs.len() == M * N && (forall|i: int|
                0 <= i < M * N ==> (#[trigger] self.subs@[i]).query_post(a, rs[i])) && r
                == group_means::<N, M>(rs).sort_by(leq())[(M / 2) as int]
    }

    fn new() -> (s: Self) {
        proof {
            lemma_groups_fit(M as int, N as int);
        }
        let total = M * N;
        let mut subs: Vec<S> = Vec::new();
        let mut i: usize = 0;
        while i < total
            invariant
                i <= total,
                total == M * N,
                S::config_ok(),
                subs@.len() == i,
                forall|t: int|
                    0 <= t < i ==> (#[trigger] subs@[t]).wf() && subs@[t].is_fresh()
                        && subs@[t].observed() == 0,
            decreases total - i,
        {
            subs.push(S::new());
            i = i + 1;
        }
        MedianOfMeans { subs, obs: Ghost(0) }
    }

    fn process(&mut self, v: T) {
        let ghost pre = *self;
        proof {
            lemma_groups_fit(M as int, N as int);
        }
        let total = M * N;
        let mut i: usize = 0;
        while i < total
            invariant
                i <= total,
                total == M * N,
                self.subs@.len() == M * N,
                self.obs@ == pre.obs@,
                pre.obs@ < u64::MAX,
                forall|t: int|
                    0 <= t < M * N ==> (#[trigger] pre.subs@[t]).wf() && pre.subs@[t].observed()
                        == pre.obs@,
                forall|t: int| i <= t < M * N ==> #[trigger] self.subs@[t] == pre.subs@[t],
                forall|t: int|
                    0 <= t < i ==> S::process_post(pre.subs@[t], v, #[trigger] self.subs@[t])
                        && self.subs@[t].wf() && self.subs@[t].observed() == pre.obs@ + 1,
            decreases total - i,
        {
            let ghost subs0 = self.subs@;
            let mut sub = self.subs.remove(i);
            sub.process(v);
            let ghost sg = sub;
            self.subs.insert(i, sub);
            proof {
                assert(self.subs@ =~= subs0.update(i as int, sg));
            }
            i = i + 1;
        }
        proof {
            self.obs@ = self.obs@ + 1;
        }
    }

    fn query(&self, a: &S::Args) -> (r: u64) {
        proof {
            lemma_groups_fit(M as int, N as int);
        }
        let ghost mut rs: Seq<u64> = Seq::empty();
        let mut means: Vec<u64> = Vec::new();
        let mut g: usize = 0;
        while g < M
            invariant
                g <= M,
                self.wf(),
                M * N <= 0xffff_ffff,
                rs.len() == g * N,
                means@.len() == g,
                forall|t: int| 0 <= t < g * N ==> (#[trigger] self.subs@[t]).query_post(*a, rs[t]),
                forall|gg: int|
                    0 <= gg < g ==> #[trigger] means@[gg] == (seq_sum(
                        rs.subrange(gg * N, gg * N + N),
                    ) / (N as int)) as u64,
            decreases M - g,
        {
            proof {
                assert(g * N + N == (g + 1) * N) by (nonlinear_arith);
                assert((g + 1) * N <= M * N) by (nonlinear_arith)
                    requires
                        0 <= g < M,
                        N >= 1,
                ;
            }
            let mut acc: u128 = 0;
            let mut t: usize = 0;
            let ghost rs_g = rs;
            while t < N
                invariant
                    t <= N,
                    g < M,
                    self.wf(),
                    M * N <= 0xffff_ffff,
                    g * N + N <= M * N,
                    rs.len() == g * N + t,
                    rs_g == rs.take((g * N) as int),
                    rs_g.len() == g * N,
                    forall|q: int|
                        0 <= q < g * N + t ==> (#[trigger] self.subs@[q]).query_post(*a, rs[q]),
                    acc == seq_sum(rs.skip((g * N) as int)),
                    acc <= t * 0xffff_ffff_ffff_ffff,
                decreases N - t,
            {
                let one = self.subs[g * N + t].query(a);
                proof {
                    let rs0 = rs;
                    rs = rs.push(one);
                    assert(rs.skip((g * N) as int) =~= rs0.skip((g * N) as int).push(one));
                    lemma_seq_sum_push(rs0.skip((g * N) as int), one);
                    assert(rs.take((g * N) as int) =~= rs0.take((g * N) as int));
                }
                acc = acc + (one as u128);
                t = t + 1;
            }
            proof {
                vstd::arithmetic::div_mod::lemma_div_is_ordered(
                    acc as int,
                    (N as int) * 0xffff_ffff_ffff_ffff,
                    N as int,
                );
                vstd::arithmetic::div_mod::lemma_div_by_multiple(0xffff_ffff_ffff_ffff, N as int);
                assert((N as int) * 0xffff_ffff_ffff_ffff == 0xffff_ffff_ffff_ffff * (N as int))
                    by (nonlinear_arith);
            }
            let mean = (acc / (N as u128)) as u64;
            proof {
                assert(rs.subrange((g * N) as int, (g * N + N) as int) =~= rs.skip((g * N) as int));
                assert forall|gg: int|
                    0 <= gg < g implies #[trigger] rs.subrange(gg * N, gg * N + N)
                    =~= rs_g.subrange(gg * N, gg * N + N) by {
                    assert((gg + 1) * N <= g * N) by (nonlinear_arith)
                        requires
                            0 <= gg < g,
                            N >= 1,
                    ;
                    assert(gg * N + N == (gg + 1) * N) by (nonlinear_arith);
                    assert forall|q: int| gg * N <= q < gg * N + N implies rs[q] == rs_g[q] by {
                        assert(rs.take((g * N) as int)[q] == rs[q]);
                    }
                }
            }
            means.push(mean);
            g = g + 1;
        }
        proof {
            assert(rs.len() == M * N);
            assert(means@ =~= group_means::<N, M>(rs));
        }
        sort_vec(&mut means);
        let r = means[M / 2];
        proof {
            assert(rs.len() == M * N && (forall|i: int|
                0 <= i < M * N ==> (#[trigger] self.subs@[i]).query_post(*a, rs[i])) && r
                == group_means::<N, M>(rs).sort_by(leq())[(M / 2) as int]);
        }
        r
    }
}

/// The flat pool of `M` groups of `N` sub-instances fits comfortably in an
/// index.
proof fn lemma_groups_fit(m: int, n: int)
    requires
        0 <= m <= 0xffff,
        0 <= n <= 0xffff,
    ensures
        m * n <= 0xffff_ffff,
{
    assert(m * n <= 0xffff * 0xffff) by (nonlinear_arith)
        requires
            0 <= m <= 0xffff,
            0 <= n <= 0xffff,
    ;
}

} // verus!
