use sketches::Bitmap;
use sketches::HashFunction;
use sketches::StreamProcessor;
use sketches::adapters::BoolGroup;
use sketches::adapters::MedianOfMeans;
use sketches::apply;
use sketches::bloom::BloomFilter;
use sketches::count::ExactCounter;
use sketches::count::MorrisCounter;
use sketches::distinct::FlajoletMartin;
use sketches::hashing::KeyedHash;
use sketches::high_freq::CountMin;
use sketches::high_freq::MisraGries;
use sketches::quantile::Quantile;

#[test]
fn empty() {
    assert_eq!(0, apply::<u64, FlajoletMartin<8>>(vec![], &()));
}

#[test]
fn fm_estimate_tracks_distinct_count() {
    let elems: Vec<u64> = (0..500).map(|i| i * 7 + 13).collect();
    let est = apply::<u64, FlajoletMartin<8>>(elems, &());
    let distinct: u64 = 500;
    let diff = if est > distinct { est - distinct } else { distinct - est };
    assert!(diff < 1000 + distinct / 2, "estimate {} too far from {}", est, distinct);
}

#[test]
fn fm_reobservation_is_idempotent() {
    let once = apply::<u64, FlajoletMartin<8>>((0..300u64).collect(), &());
    let twice = apply::<u64, FlajoletMartin<8>>(
        (0..300u64).chain(0..300u64).collect(),
        &(),
    );
    assert_eq!(once, twice);
}

#[test]
fn exact_counter_counts_exactly() {
    assert_eq!(3, apply::<u64, ExactCounter>(vec![5, 5, 9], &()));
    assert_eq!(0, apply::<u64, ExactCounter>(vec![], &()));
    let mut c = <ExactCounter as StreamProcessor<u64>>::new();
    for i in 0..1000u64 {
        c.process(i);
    }
    assert_eq!(1000, <ExactCounter as StreamProcessor<u64>>::query(&c, &()));
}

#[test]
fn morris_counter_estimates_in_range() {
    let mut m = <MorrisCounter<1> as StreamProcessor<u64>>::new();
    assert_eq!(0, <MorrisCounter<1> as StreamProcessor<u64>>::query(&m, &()));
    for i in 0..1000u64 {
        m.process(i);
    }
    let est = <MorrisCounter<1> as StreamProcessor<u64>>::query(&m, &());
    assert!(est >= 32 && est <= 32768, "estimate {}", est);
}

#[test]
fn bloom_filter_has_no_false_negatives() {
    let mut b = <BloomFilter<16, 4> as StreamProcessor<u64>>::new();
    for i in 0..50u64 {
        b.process(i * 3);
    }
    for i in 0..50u64 {
        assert!(b.query(&(i * 3)));
    }
}

#[test]
fn bloom_filter_false_positive_rate_is_low() {
    let mut b = <BloomFilter<64, 4> as StreamProcessor<u64>>::new();
    for i in 0..50u64 {
        b.process(i);
    }
    let mut positives: u32 = 0;
    for i in 1000..2000u64 {
        if b.query(&i) {
            positives += 1;
        }
    }
    assert!(positives < 100, "false positive count {}", positives);
}

#[test]
fn misra_gries_finds_heavy_hitter() {
    let mut m = <MisraGries<2> as StreamProcessor<u64>>::new();
    for v in [1u64, 1, 1, 2, 3, 1, 1] {
        m.process(v);
    }
    let keys = m.query(&());
    assert!(keys.contains(&1));
}

#[test]
fn misra_gries_tracks_at_most_k_keys() {
    let mut m = <MisraGries<3> as StreamProcessor<u64>>::new();
    for v in 0..100u64 {
        m.process(v % 10);
    }
    assert!(m.query(&()).len() <= 3);
}

#[test]
fn count_min_never_underestimates() {
    let mut c = <CountMin<4, 8> as StreamProcessor<u64>>::new();
    let stream = [1u64, 1, 2, 3, 1, 2, 9];
    for v in stream {
        c.process(v);
    }
    assert!(c.query(&1) >= 3);
    assert!(c.query(&2) >= 2);
    assert!(c.query(&3) >= 1);
    assert!(c.query(&9) >= 1);
}

#[test]
fn quantile_rank_is_exact_when_all_sampled() {
    let mut q = <Quantile<4096, 128, ExactCounter> as StreamProcessor<u64>>::new();
    for v in 0..100u64 {
        q.process(v);
    }
    assert_eq!(50, q.query(&50));
    assert_eq!(0, q.query(&0));
    assert_eq!(100, q.query(&1000));
}

#[test]
fn quantile_on_empty_stream_is_zero() {
    let q = <Quantile<4096, 128, ExactCounter> as StreamProcessor<u64>>::new();
    assert_eq!(0, q.query(&42));
}

#[test]
fn bool_group_keeps_membership() {
    let mut g = <BoolGroup<BloomFilter<16, 4>, 3> as StreamProcessor<u64>>::new();
    for i in 0..30u64 {
        g.process(i * 5);
    }
    for i in 0..30u64 {
        assert!(g.query(&(i * 5)));
    }
}

#[test]
fn median_of_means_of_exact_counters_is_exact() {
    let mut m = <MedianOfMeans<ExactCounter, 2, 3> as StreamProcessor<u64>>::new();
    for i in 0..5u64 {
        m.process(i);
    }
    assert_eq!(5, <MedianOfMeans<ExactCounter, 2, 3> as StreamProcessor<u64>>::query(&m, &()));
}

#[test]
fn bitmap_set_and_get() {
    let mut b = Bitmap::<4>::new();
    for i in 0..32 {
        assert!(!b.get(i));
    }
    b.set(0);
    b.set(13);
    b.set(31);
    assert!(b.get(0) && b.get(13) && b.get(31));
    assert!(!b.get(1) && !b.get(12));
}

#[test]
fn bitmap_set_or_max_saturates() {
    let mut b = Bitmap::<2>::new();
    b.set_or_max(3);
    assert!(b.get(3));
    b.set_or_max(100);
    assert!(b.get(15));
    assert!(!b.get(14));
}

#[test]
fn keyed_hash_is_deterministic_and_keyed() {
    let mut h0 = KeyedHash::for_index(0);
    let mut h1 = KeyedHash::for_index(1);
    assert_eq!(h0.hash(12345), h0.hash(12345));
    assert_ne!(h0.hash(12345), h1.hash(12345));
    assert_ne!(h0.hash(1), h0.hash(2));
}
