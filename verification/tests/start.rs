use blockgame::start::fresh_seed;

#[test]
fn a_seed_is_the_low_bits_of_the_clock() {
    assert_eq!(fresh_seed(0), 0);
    assert_eq!(fresh_seed(1_700_000_000_123_456_789), 1_700_000_000_123_456_789);
    assert_eq!(fresh_seed(u128::from(u64::MAX) + 1), 0);
    assert_eq!(fresh_seed((5u128 << 64) | 42), 42);
}
