use reactor::seed::{from_clock, from_entropy};

#[test]
fn entropy_is_read_most_significant_byte_first() {
    let mut bytes = [0u8; 16];
    assert_eq!(from_entropy(&bytes), 0);
    bytes[15] = 1;
    assert_eq!(from_entropy(&bytes), 1);
    bytes[0] = 0x80;
    assert_eq!(from_entropy(&bytes), (1u128 << 127) + 1);
    let counting: [u8; 16] = [1, 2, 3, 4, 5, 6, 7, 8, 9, 10, 11, 12, 13, 14, 15, 16];
    assert_eq!(from_entropy(&counting), 0x0102030405060708090a0b0c0d0e0f10);
    assert_eq!(from_entropy(&counting), u128::from_be_bytes(counting));
    assert_eq!(from_entropy(&[0xff; 16]), u128::MAX);
}

#[test]
fn the_fallback_mixes_clock_and_process() {
    assert_eq!(from_clock(0, 0), 0);
    assert_eq!(from_clock(0b1100, 0b1010), 0b0110);
    assert_eq!(from_clock(1_700_000_000_000_000_000, 4242), 1_700_000_000_000_000_000 ^ 4242);
    assert_ne!(from_clock(1_700_000_000_000_000_000, 1), from_clock(1_700_000_000_000_000_000, 2));
}
