use qmf_core::rng::SplitMix64;

#[test]
fn deterministic_sequence() {
    let mut a = SplitMix64::new(42);
    let mut b = SplitMix64::new(42);
    for _ in 0..100 {
        assert_eq!(a.next_u64(), b.next_u64());
    }
}

#[test]
fn fraction_range() {
    let mut rng = SplitMix64::new(123);
    for _ in 0..1000 {
        let v = rng.next_fraction(1_000_000);
        assert!(v < 1_000_000, "fraction out of range: {v}");
    }
}

#[test]
fn next_usize_range() {
    let mut rng = SplitMix64::new(999);
    for bound in [1, 2, 5, 10, 100, 1000] {
        for _ in 0..200 {
            let v = rng.next_usize(bound);
            assert!(v < bound, "next_usize({bound}) produced {v}");
        }
    }
}

#[test]
fn different_seeds_diverge() {
    let mut a = SplitMix64::new(0);
    let mut b = SplitMix64::new(1);
    // Extremely unlikely to collide on all 10 outputs
    let same = (0..10).all(|_| a.next_u64() == b.next_u64());
    assert!(!same);
}

#[test]
fn next_usize_zero_and_one_bound() {
    let mut rng = SplitMix64::new(7);
    assert_eq!(rng.next_usize(0), 0);
    assert_eq!(rng.next_usize(1), 0);
}
