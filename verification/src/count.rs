use vstd::prelude::*;
use crate::StreamProcessor;
use crate::folds_to;
use crate::runs_through;
use crate::random::RandomSource;
use crate::random::RAND_DENOM;

verus! {

/// Counts the elements of a stream exactly.
#[derive(Clone, Copy, Debug, PartialEq, Eq, Structural)]
pub struct ExactCounter {
    pub count: u64,
}

impl<T> StreamProcessor<T> for ExactCounter {
    type Args = ();

    type Result = u64;

    open spec fn config_ok() -> bool {
        true
    }

    open spec fn wf(&self) -> bool {
        true
    }

    open spec fn is_fresh(&self) -> bool {
        self.count == 0
    }

    open spec fn observed(&self) -> nat {
        self.count as nat
    }

    open spec fn process_post(pre: Self, v: T, post: Self) -> bool {
        post.count == pre.count + 1
    }

    open spec fn query_post(&self, args: (), r: u64) -> bool {
        r == self.count
    }

    fn new() -> (s: Self) {
        ExactCounter { count: 0 }
    }

    fn process(&mut self, v: T) {
        self.count = self.count + 1;
    }

    fn query(&self, args: &()) -> (r: u64) {
        self.count
    }
}

/// Along any run, the exact counter's state is the number of elements
/// observed so far.
proof fn lemma_exact_chain<T>(elems: Seq<T>, states: Seq<ExactCounter>, j: int)
    requires
        runs_through::<T, ExactCounter>(elems, states),
        0 <= j < states.len(),
    ensures
        states[j].count == j,
    decreases j,
{
    if j > 0 {
        lemma_exact_chain::<T>(elems, states, j - 1);
        assert(<ExactCounter as StreamProcessor<T>>::process_post(
            states[j - 1],
            elems[j - 1],
            states[j],
        ));
    }
}

/// Exactness: for every sequence of observations, the counter's answer is
/// exactly the number of elements processed.
pub proof fn lemma_exact_counter_exact<T>(elems: Seq<T>, s: ExactCounter, r: u64)
    requires
        folds_to::<T, ExactCounter>(elems, s),
        <ExactCounter as StreamProcessor<T>>::query_post(&s, (), r),
    ensures
        r == elems.len(),
{
    let states = choose|states: Seq<ExactCounter>|
        #[trigger] runs_through::<T, ExactCounter>(elems, states) && states.last() == s;
    lemma_exact_chain::<T>(elems, states, states.len() - 1);
}


/// The probability threshold for incrementing a Morris counter at count
/// `c`: the fraction `1 / (1 + ALPHA)^c`, as a numerator over `RAND_DENOM`.
pub open spec fn morris_threshold(alpha: u64, c: u64) -> int {
    (RAND_DENOM as int) / vstd::arithmetic::power::pow((1 + alpha) as int, c as nat)
}

/// The count estimate a Morris counter reports at count `c`:
/// `((1 + ALPHA)^c - 1) / ALPHA`.
pub open spec fn morris_estimate(alpha: u64, c: u64) -> int {
    (vstd::arithmetic::power::pow((1 + alpha) as int, c as nat) - 1) / (alpha as int)
}

/// Approximate counting in logarithmic space: each observation increments
/// the counter only with probability `(1 + ALPHA)^-count`, and the estimate
/// inverts that expectation.  Larger `ALPHA` trades accuracy for a smaller
/// counter.
pub struct MorrisCounter<const ALPHA: u64> {
    pub count: u64,
    pub rng: RandomSource,
    pub obs: Ghost<nat>,
}

impl<T, const ALPHA: u64> StreamProcessor<T> for MorrisCounter<ALPHA> {
    type Args = ();

    type Result = u64;

    open spec fn config_ok() -> bool {
        1 <= ALPHA <= 0xffff_ffff
    }

    open spec fn wf(&self) -> bool {
        &&& 1 <= ALPHA <= 0xffff_ffff
        &&& self.count <= 64
        &&& vstd::arithmetic::power::pow((1 + ALPHA) as int, self.count as nat) <= (
        RAND_DENOM as int) * ((1 + ALPHA) as int)
    }

    open spec fn is_fresh(&self) -> bool {
        &&& self.count == 0
        &&& self.rng.seed == crate::random::RAND_SEED
        &&& self.obs@ == 0
    }

    open spec fn observed(&self) -> nat {
        self.obs@
    }

    open spec fn process_post(pre: Self, v: T, post: Self) -> bool {
        &&& post.rng.seed == crate::random::next_seed(pre.rng.seed)
        &&& post.obs@ == pre.obs@ + 1
        &&& post.count == if crate::random::draw_of(pre.rng.seed) < morris_threshold(
            ALPHA,
            pre.count,
        ) {
            pre.count + 1
        } else {
            pre.count as int
        }
    }

    open spec fn query_post(&self, args: (), r: u64) -> bool {
        r == morris_estimate(ALPHA, self.count)
    }

    fn new() -> (s: Self) {
        proof {
            vstd::arithmetic::power::lemma_pow0((1 + ALPHA) as int);
            vstd::arithmetic::power::lemma_pow_positive((1 + ALPHA) as int, 0);
        }
        MorrisCounter { count: 0, rng: RandomSource::new(), obs: Ghost(0) }
    }

    fn process(&mut self, v: T) {
        let ghost pre = *self;
        let base = 1 + ALPHA;
        let mut t: u64 = RAND_DENOM;
        let mut i: u64 = 0;
        proof {
            vstd::arithmetic::power::lemma_pow0(base as int);
        }
        while i < self.count
            invariant
                *self == pre,
                <MorrisCounter<ALPHA> as StreamProcessor<T>>::wf(&pre),
                base == 1 + ALPHA,
                i <= self.count,
                t == (RAND_DENOM as int) / vstd::arithmetic::power::pow(base as int, i as nat),
            decreases self.count - i,
        {
            proof {
                vstd::arithmetic::power::lemma_pow_positive(base as int, i as nat);
                vstd::arithmetic::power::lemma_pow_positive(base as int, (i + 1) as nat);
                vstd::arithmetic::div_mod::lemma_div_denominator(
                    RAND_DENOM as int,
                    vstd::arithmetic::power::pow(base as int, i as nat),
                    base as int,
                );
                vstd::arithmetic::power::lemma_pow_adds(base as int, i as nat, 1);
                vstd::arithmetic::power::lemma_pow1(base as int);
            }
            t = t / base;
            i = i + 1;
        }
        let f = self.rng.next();
        if f < t {
            proof {
                vstd::arithmetic::power::lemma_pow_positive(base as int, pre.count as nat);
                assert(vstd::arithmetic::power::pow(base as int, pre.count as nat)
                    <= RAND_DENOM as int) by {
                    if vstd::arithmetic::power::pow(base as int, pre.count as nat)
                        > RAND_DENOM as int {
                        assert(t == 0) by {
                            vstd::arithmetic::div_mod::lemma_basic_div(
                                RAND_DENOM as int,
                                vstd::arithmetic::power::pow(base as int, pre.count as nat),
                            );
                        }
                    }
                }
                vstd::arithmetic::power::lemma_pow_adds(base as int, pre.count as nat, 1);
                vstd::arithmetic::power::lemma_pow1(base as int);
                assert(vstd::arithmetic::power::pow(base as int, (pre.count + 1) as nat) <= (
                RAND_DENOM as int) * (base as int)) by (nonlinear_arith)
                    requires
                        vstd::arithmetic::power::pow(base as int, (pre.count + 1) as nat)
                            == vstd::arithmetic::power::pow(base as int, pre.count as nat) * (
                        base as int),
                        vstd::arithmetic::power::pow(base as int, pre.count as nat)
                            <= RAND_DENOM as int,
                        base >= 2,
                ;
                lemma_pow_at_least_pow2(base, pre.count);
                vstd::arithmetic::power2::lemma2_to64();
                vstd::arithmetic::power2::lemma2_to64_rest();
                if pre.count >= 33 {
                    if pre.count > 33 {
                        vstd::arithmetic::power2::lemma_pow2_strictly_increases(
                            33,
                            pre.count as nat,
                        );
                    }
                    assert(vstd::arithmetic::power2::pow2(pre.count as nat) >= 0x2_0000_0000);
                    assert(false);
                }
            }
            self.count = self.count + 1;
        }
        proof {
            self.obs@ = self.obs@ + 1;
        }
    }

    fn query(&self, args: &()) -> (r: u64) {
        let base = 1 + ALPHA;
        let mut acc: u128 = 1;
        let mut i: u64 = 0;
        proof {
            vstd::arithmetic::power::lemma_pow0(base as int);
        }
        while i < self.count
            invariant
                <MorrisCounter<ALPHA> as StreamProcessor<T>>::wf(self),
                base == 1 + ALPHA,
                i <= self.count,
                acc == vstd::arithmetic::power::pow(base as int, i as nat),
            decreases self.count - i,
        {
            proof {
                vstd::arithmetic::power::lemma_pow_adds(base as int, i as nat, 1);
                vstd::arithmetic::power::lemma_pow1(base as int);
                vstd::arithmetic::power::lemma_pow_increases(
                    base as nat,
                    (i + 1) as nat,
                    self.count as nat,
                );
                vstd::arithmetic::power::lemma_pow_positive(base as int, i as nat);
            }
            acc = acc * (base as u128);
            i = i + 1;
        }
        proof {
            vstd::arithmetic::power::lemma_pow_positive(base as int, self.count as nat);
        }
        let est = (acc - 1) / (ALPHA as u128);
        proof {
            vstd::arithmetic::div_mod::lemma_div_is_ordered(
                acc - 1,
                0xffff_ffff_ffff_ffff,
                ALPHA as int,
            );
            assert((0xffff_ffff_ffff_ffffu128 as int) / (ALPHA as int)
                <= 0xffff_ffff_ffff_ffff) by {
                vstd::arithmetic::div_mod::lemma_div_is_ordered_by_denominator(
                    0xffff_ffff_ffff_ffff,
                    1,
                    ALPHA as int,
                );
                vstd::arithmetic::div_mod::lemma_div_basics(0xffff_ffff_ffff_ffff);
            }
        }
        est as u64
    }
}

/// A base of at least two outgrows powers of two.
proof fn lemma_pow_at_least_pow2(base: u64, c: u64)
    requires
        base >= 2,
    ensures
        vstd::arithmetic::power2::pow2(c as nat) <= vstd::arithmetic::power::pow(
            base as int,
            c as nat,
        ),
    decreases c,
{
    vstd::arithmetic::power2::lemma_pow2(c as nat);
    vstd::arithmetic::power::lemma_pow_increases(2, c as nat, c as nat);
    assert(vstd::arithmetic::power::pow(2, c as nat) <= vstd::arithmetic::power::pow(
        base as int,
        c as nat,
    )) by {
        lemma_pow_base_increases(base, c);
    }
}

proof fn lemma_pow_base_increases(base: u64, c: u64)
    requires
        base >= 2,
    ensures
        vstd::arithmetic::power::pow(2, c as nat) <= vstd::arithmetic::power::pow(
            base as int,
            c as nat,
        ),
    decreases c,
{
    if c == 0 {
        vstd::arithmetic::power::lemma_pow0(2);
        vstd::arithmetic::power::lemma_pow0(base as int);
    }
    if c > 0 {
        lemma_pow_base_increases(base, (c - 1) as u64);
        vstd::arithmetic::power::lemma_pow_adds(2, (c - 1) as nat, 1);
        vstd::arithmetic::power::lemma_pow_adds(base as int, (c - 1) as nat, 1);
        vstd::arithmetic::power::lemma_pow1(2);
        vstd::arithmetic::power::lemma_pow1(base as int);
        vstd::arithmetic::power::lemma_pow_positive(2, (c - 1) as nat);
        vstd::arithmetic::power::lemma_pow_positive(base as int, (c - 1) as nat);
        assert(vstd::arithmetic::power::pow(2, (c - 1) as nat) * 2 <= vstd::arithmetic::power::pow(
            base as int,
            (c - 1) as nat,
        ) * (base as int)) by (nonlinear_arith)
            requires
                vstd::arithmetic::power::pow(2, (c - 1) as nat) <= vstd::arithmetic::power::pow(
                    base as int,
                    (c - 1) as nat,
                ),
                vstd::arithmetic::power::pow(2, (c - 1) as nat) > 0,
                base >= 2,
        ;
    }
}

} // verus!
