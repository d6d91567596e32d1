use nn_from_scratch::rng::Rng;

#[test]
fn same_seed_gives_same_sequence() {
    let mut a = Rng::new(123);
    let mut b = Rng::new(123);
    for _ in 0..10 {
        assert_eq!(a.next_u64(), b.next_u64());
    }
}

#[test]
fn xorshift_star_outputs_for_seed_42() {
    let mut rng = Rng::new(42);
    assert_eq!(rng.next_u64(), 0x9eb3_1902_fb08_80bd);
    assert_eq!(rng.next_u64(), 0x7411_91fc_cc34_92f7);
    assert_eq!(rng.next_u64(), 0x1d2f_a72b_7757_ad59);
}

#[test]
fn seed_zero_does_not_get_stuck() {
    let mut rng = Rng::new(0);
    let first = rng.next_u64();
    let second = rng.next_u64();
    assert_ne!(first, 0);
    assert_ne!(first, second);
    // Seed 0 is forced to 1.
    let mut one = Rng::new(1);
    assert_eq!(one.next_u64(), first);
}

#[test]
fn seeds_differing_only_in_the_low_bit_agree() {
    let mut a = Rng::new(2);
    let mut b = Rng::new(3);
    for _ in 0..5 {
        assert_eq!(a.next_u64(), b.next_u64());
    }
}

#[test]
fn different_seeds_diverge() {
    let mut a = Rng::new(1);
    let mut b = Rng::new(2);
    assert_ne!(a.next_u64(), b.next_u64());
}

#[test]
fn next_bits53_is_the_top_of_the_next_output() {
    let mut a = Rng::new(42);
    let mut b = Rng::new(42);
    for _ in 0..100 {
        let bits = a.next_bits53();
        assert_eq!(bits, b.next_u64() >> 11);
        assert!(bits < 1u64 << 53);
    }
    let mut c = Rng::new(42);
    assert_eq!(c.next_bits53(), 5_583_745_790_730_512);
}
