use sketches::compactor::ChainedCompactors;
use sketches::compactor::Compactor;
use sketches::compactor::checked_log;
use sketches::compactor::isqrt;
use sketches::compactor::rank;
use sketches::compactor::sort_vec;
use sketches::random::RAND_DENOM;
use sketches::random::RandomSource;

#[test]
fn test_single_additive_compactor() {
    let mut c = Compactor::new(100);
    let mut outputs: Vec<u64> = vec![];
    let len: u64 = 5000;
    for i in (0..len).rev() {
        if c.add(i) {
            outputs.extend(c.additive_compact());
        }
    }
    outputs.sort_unstable();
    assert_eq!(outputs.len(), (len / 2) as usize);
    assert!(c.is_empty());
}

#[test]
fn test_chained_relative_compactor() {
    let mut c = ChainedCompactors::new(vec![
        Compactor::new(144),
        Compactor::new(144),
        Compactor::new(144),
    ]);
    let mut outputs: Vec<u64> = vec![];
    let len: u64 = 10000;
    let mut accept = RandomSource::from_seed(7);
    let mut inputs: Vec<u64> = (0..len).rev().filter(|_| accept.next() > RAND_DENOM / 4).collect();
    for &i in inputs.iter() {
        if c.add(i) {
            c.linear_relative_compact(&mut outputs);
        }
    }
    c.linear_relative_compact_all(&mut outputs);
    assert!(c.is_empty());
    outputs.sort_unstable();
    inputs.sort_unstable();
    // Bounded relative rank error: estimate each query point's rank from its
    // rank among the survivors, scaled by the compaction ratio.
    let scale = inputs.len() as f32 / outputs.len() as f32;
    let mut max_rel_error = 0.0f32;
    for q in 0..len {
        let exp = rank(&inputs, q) as f32;
        if exp < 500.0 {
            continue;
        }
        let got = rank(&outputs, q) as f32 * scale;
        let rel = 1.0 - (exp / got).min(got / exp);
        if rel > max_rel_error {
            max_rel_error = rel;
        }
    }
    assert!(max_rel_error < 0.5, "max relative rank error {}", max_rel_error);
}

#[test]
fn additive_compact_halves_even_buffer() {
    let mut c = Compactor::new(8);
    for i in [5u64, 3, 7, 1, 8, 2, 6, 4] {
        c.add(i);
    }
    let out = c.additive_compact();
    assert_eq!(out.len(), 4);
    assert!(c.is_empty());
    for w in out.windows(2) {
        assert!(w[0] <= w[1]);
    }
}

#[test]
fn relative_compact_drains_capacity() {
    let mut c = Compactor::new(15);
    for i in 0..15u64 {
        c.add(i);
    }
    let mut buf: Vec<u64> = vec![];
    c.relative_compact(&mut buf);
    assert!(c.is_empty());
    assert!(buf.len() <= 4);
    for v in buf {
        assert!(v < 15);
    }
}

#[test]
fn linear_relative_compact_empties_square_capacity() {
    let mut c = Compactor::new(16);
    for i in (0..16u64).rev() {
        c.add(i);
    }
    let mut buf: Vec<u64> = vec![];
    c.linear_relative_compact(&mut buf);
    assert!(c.is_empty());
    // chunk n of the four chunks loses min(n, 4) elements
    assert_eq!(buf.len(), 16 - (0 + 1 + 2 + 3));
    for w in buf.windows(2) {
        assert!(w[0] <= w[1]);
    }
}

#[test]
fn chained_flush_empties_non_square_capacities() {
    let mut c = ChainedCompactors::new(vec![Compactor::new(10), Compactor::new(7)]);
    let mut outputs: Vec<u64> = vec![];
    for i in 0..25u64 {
        if c.add(i) {
            c.linear_relative_compact(&mut outputs);
        }
    }
    c.linear_relative_compact_all(&mut outputs);
    assert!(c.is_empty());
    assert!(!outputs.is_empty());
}

#[test]
fn linear_relative_compact_drains_non_square_capacity() {
    let mut c = Compactor::new(10);
    for i in 0..10u64 {
        c.add(i);
    }
    let mut buf: Vec<u64> = vec![];
    c.linear_relative_compact(&mut buf);
    assert!(c.is_empty());
    // three full chunks of three lose 0, 1 and 2 elements; the tail element is kept
    assert_eq!(buf.len(), 10 - (0 + 1 + 2));
}

#[test]
fn chained_outputs_only_buffered_elements() {
    let mut c = ChainedCompactors::new(vec![Compactor::new(9), Compactor::new(9)]);
    let mut outputs: Vec<u64> = vec![];
    for i in 0..40u64 {
        let v = 1000 + 3 * i;
        if c.add(v) {
            c.linear_relative_compact(&mut outputs);
        }
    }
    c.linear_relative_compact_all(&mut outputs);
    assert!(c.is_empty());
    assert!(!outputs.is_empty());
    for &v in outputs.iter() {
        assert!(v >= 1000 && (v - 1000) % 3 == 0 && v < 1000 + 3 * 40);
    }
}

#[test]
fn rank_counts_smaller_elements() {
    let outputs: Vec<u64> = vec![1, 3, 3, 5, 9];
    assert_eq!(rank(&outputs, 0), 0);
    assert_eq!(rank(&outputs, 1), 0);
    assert_eq!(rank(&outputs, 4), 3);
    assert_eq!(rank(&outputs, 100), 5);
}

#[test]
fn checked_log_rounds_up() {
    assert_eq!(checked_log(0), 0);
    assert_eq!(checked_log(1), 0);
    assert_eq!(checked_log(2), 1);
    assert_eq!(checked_log(5), 3);
    assert_eq!(checked_log(8), 3);
    assert_eq!(checked_log(9), 4);
}

#[test]
fn isqrt_values() {
    assert_eq!(isqrt(1), 1);
    assert_eq!(isqrt(10), 3);
    assert_eq!(isqrt(16), 4);
    assert_eq!(isqrt(143), 11);
    assert_eq!(isqrt(144), 12);
}

#[test]
fn sort_vec_sorts() {
    let mut v: Vec<u64> = vec![9, 1, 4, 4, 0, 7];
    sort_vec(&mut v);
    assert_eq!(v, vec![0, 1, 4, 4, 7, 9]);
}

#[test]
fn random_source_is_deterministic() {
    let mut a = RandomSource::from_seed(42);
    let mut b = RandomSource::from_seed(42);
    for _ in 0..100 {
        let x = a.next();
        assert_eq!(x, b.next());
        assert!(x < RAND_DENOM);
    }
}
