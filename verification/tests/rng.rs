use fourier::rng::XorShift64;

#[test]
fn zero_seed_is_bumped_to_one() {
    let mut a = XorShift64::new(0);
    let mut b = XorShift64::new(1);
    assert_eq!(a.next_u64(), b.next_u64());
}

#[test]
fn first_values_from_seed_one() {
    let mut rng = XorShift64::new(1);
    assert_eq!(rng.next_u64(), 1082269761);
    assert_eq!(rng.next_u64(), 1152992998833853505);
    assert_eq!(rng.next_u64(), 11177516664432764457);
}

#[test]
fn first_values_from_benchmark_seed() {
    let mut rng = XorShift64::new(12345);
    assert_eq!(rng.next_u64(), 13289605635609);
    assert_eq!(rng.next_u64(), 11245129090807876197);
}

#[test]
fn same_seed_gives_same_stream() {
    let mut a = XorShift64::new(987654321);
    let mut b = XorShift64::new(987654321);
    for _ in 0..32 {
        assert_eq!(a.next_u64(), b.next_u64());
    }
}

#[test]
fn stream_never_hits_zero() {
    let mut rng = XorShift64::new(42);
    for _ in 0..1000 {
        assert_ne!(rng.next_u64(), 0);
    }
}
