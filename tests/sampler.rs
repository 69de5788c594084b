use pathtrace::sampler::Rng;

#[test]
fn splitmix_reference_values() {
    let mut r = Rng::new(0);
    assert_eq!(r.next_u64(), 0xE220_A839_7B1D_CDAF);
    let mut s = Rng::new(1234567);
    assert_eq!(s.next_u64(), 6457827717110365317);
    assert_eq!(s.next_u64(), 3203168211198807973);
}

#[test]
fn same_seed_gives_same_draws() {
    let mut a = Rng::new(42);
    let mut b = Rng::new(42);
    assert_eq!(a.take(1000), b.take(1000));
    assert_eq!(a.state, b.state);
}

#[test]
fn different_seeds_differ() {
    let mut a = Rng::new(1);
    let mut b = Rng::new(2);
    assert_ne!(a.take(4), b.take(4));
}

#[test]
fn take_continues_the_stream() {
    let mut a = Rng::new(7);
    let all = a.take(10);
    let mut b = Rng::new(7);
    let mut first = b.take(4);
    first.extend(b.take(6));
    assert_eq!(all, first);
}

#[test]
fn mantissa_is_top_bits_below_two_pow_53() {
    let mut a = Rng::new(99);
    let mut b = Rng::new(99);
    for _ in 0..1000 {
        let m = a.next_mantissa();
        assert!(m < (1u64 << 53));
        assert_eq!(m, b.next_u64() >> 11);
    }
}

#[test]
fn pixel_generators_depend_on_position_only() {
    let mut a = Rng::for_pixel(5, 17);
    let mut b = Rng::for_pixel(5, 17);
    assert_eq!(a.take(8), b.take(8));
    let mut c = Rng::for_pixel(5, 18);
    let mut d = Rng::for_pixel(5, 17);
    assert_ne!(c.take(8), d.take(8));
}
