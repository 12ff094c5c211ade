use reactor::random::RandomSource;

#[test]
fn draws_match_the_generator() {
    let mut source = RandomSource::new(42);
    let mut reference = oorandom::Rand64::new(42);
    for _ in 0..100 {
        assert_eq!(source.draw(), reference.rand_u64());
    }
}

#[test]
fn uniform_matches_the_generator_float() {
    let mut source = RandomSource::new(7);
    let mut reference = oorandom::Rand64::new(7);
    for _ in 0..100 {
        let point = source.uniform();
        let expected: f64 = reference.rand_float();
        assert_eq!(point as f64 / 9007199254740992.0, expected);
    }
}
