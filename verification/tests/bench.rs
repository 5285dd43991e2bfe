use surp_core::bench::{Measurement, Rng, Severity};

#[test]
fn rng_is_deterministic_and_seed_zero_is_one() {
    let mut a = Rng::new(0);
    let mut b = Rng::new(1);
    for _ in 0..10 {
        assert_eq!(a.next_u64(), b.next_u64());
    }
    let mut r = Rng::new(1);
    // One xorshift64 (13, 7, 17) step from state 1.
    let mut x: u64 = 1;
    x ^= x << 13;
    x ^= x >> 7;
    x ^= x << 17;
    assert_eq!(r.next_u64(), x);
}

#[test]
fn rng_derived_draws() {
    let mut a = Rng::new(42);
    let mut b = Rng::new(42);
    let v = a.next_u64();
    assert_eq!(b.next_u32(), (v >> 16) as u32);
    let mut c = Rng::new(7);
    let mut d = Rng::new(7);
    assert_eq!(c.next_range(10), d.next_u64() % 10);
    let s = Rng::new(9).next_string(32);
    assert_eq!(s.len(), 32);
    assert!(s.chars().all(|ch| ch.is_ascii_lowercase()));
    let mut e = Rng::new(5);
    let bytes = e.next_bytes(4);
    let mut f = Rng::new(5);
    let expect: Vec<u8> = (0..4).map(|_| (f.next_u64() & 0xFF) as u8).collect();
    assert_eq!(bytes, expect);
}

#[test]
fn measurement_statistics() {
    let mut m = Measurement::new("surp", "small", "encode");
    assert_eq!(m.median_ns(), 0);
    assert_eq!(m.p95_ns(), 0);
    assert_eq!(m.min_ns(), 0);
    assert_eq!(m.max_ns(), 0);
    for d in [50u128, 10, 40, 20, 30] {
        m.add_duration(d);
    }
    assert_eq!(m.durations_ns, vec![50, 10, 40, 20, 30]);
    assert_eq!(m.median_ns(), 30);
    assert_eq!(m.min_ns(), 10);
    assert_eq!(m.max_ns(), 50);
    assert_eq!(m.p95_ns(), 50);
    assert_eq!(m.p99_ns(), 50);
}

#[test]
fn measurement_percentiles_of_hundred() {
    let mut m = Measurement::new("f", "d", "decode");
    for d in (1..=100u128).rev() {
        m.add_duration(d);
    }
    assert_eq!(m.median_ns(), 51);
    assert_eq!(m.p95_ns(), 95);
    assert_eq!(m.p99_ns(), 99);
    assert_ne!(Severity::Warning, Severity::Failure);
}
