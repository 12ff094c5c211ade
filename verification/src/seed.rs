//! Turning what a caller has at hand into the seed of a reactor.

use vstd::prelude::*;

verus! {

/// The number that the first `n` bytes spell, most significant byte first.
pub open spec fn big_endian(bytes: Seq<u8>, n: int) -> nat
    decreases n,
{
    if n <= 0 {
        0
    } else {
        big_endian(bytes, n - 1) * 256 + bytes[n - 1] as nat
    }
}

/// `n` bytes spell a number below `256^n`, here for up to 16 bytes.
proof fn lemma_big_endian_bound(bytes: Seq<u8>, n: int)
    requires
        0 <= n <= bytes.len(),
        n <= 16,
    ensures
        big_endian(bytes, n) < vstd::arithmetic::power::pow(256, n as nat),
    decreases n,
{
    reveal(vstd::arithmetic::power::pow);
    if n > 0 {
        lemma_big_endian_bound(bytes, n - 1);
    }
}

/// Makes a seed of 16 bytes of entropy: the 128-bit number that they spell,
/// most significant byte first.
pub fn from_entropy(bytes: &[u8; 16]) -> (seed: u128)
    ensures
        seed == big_endian(bytes@, 16),
{
    let mut seed: u128 = 0;
    let mut n: usize = 0;
    proof {
        lemma_big_endian_bound(bytes@, 0);
    }
    while n < 16
        invariant
            n <= 16,
            seed == big_endian(bytes@, n as int),
            seed < vstd::arithmetic::power::pow(256, n as nat),
        decreases 16 - n,
    {
        let byte: u8 = bytes[n];
        proof {
            lemma_shift_in(seed, byte, n as nat);
            lemma_big_endian_bound(bytes@, n + 1);
        }
        seed = seed << 8 | (byte as u128);
        n = n + 1;
    }
    seed
}

proof fn lemma_shift_in(seed: u128, byte: u8, n: nat)
    requires
        n < 16,
        seed < vstd::arithmetic::power::pow(256, n),
    ensures
        (seed << 8 | (byte as u128)) == seed * 256 + byte,
{
    vstd::arithmetic::power::lemma_pow_increases(256, n, 15);
    assert(vstd::arithmetic::power::pow(256, 15) == 0x1_0000_0000_0000_0000_0000_0000_0000_00) by {
        reveal_with_fuel(vstd::arithmetic::power::pow, 16);
    }
    assert(seed < 0x1_0000_0000_0000_0000_0000_0000_0000_00u128 ==> (seed << 8 | (byte as u128))
        == seed * 256 + byte as u128) by (bit_vector);
}

/// Makes a seed where no entropy is to be had: the nanoseconds since a fixed
/// epoch, with the bits of the process's identifier flipped in, so that two
/// processes started at the same instant get different seeds.
pub fn from_clock(nanos: u128, process: u32) -> (seed: u128)
    ensures
        seed == nanos ^ (process as u128),
{
    nanos ^ (process as u128)
}

/// Seeds made at one instant for two processes differ.
pub proof fn lemma_processes_differ(nanos: u128, process: u32, other: u32)
    requires
        process != other,
    ensures
        nanos ^ (process as u128) != nanos ^ (other as u128),
{
    let a = process as u128;
    let b = other as u128;
    assert(a != b ==> nanos ^ a != nanos ^ b) by (bit_vector);
}

} // verus!
