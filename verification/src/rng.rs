//! The boundary to the randomness stream.
//!
//! A draw callback hands the engine an opaque byte sequence. A word derived
//! from those bytes seeds a pseudo-random source of the `random` crate, and
//! the draw consumes the source as a stream of bounded ordinals. Nothing is
//! assumed about the values the stream yields beyond their range, so every
//! property proved of the draw holds for every possible stream.

use vstd::prelude::*;

verus! {

#[verifier::external_type_specification]
#[verifier::external_body]
pub struct ExXorshift128Plus(random::Xorshift128Plus);

/// The byte of the seed at `i`, or zero past its end, as a word.
pub open spec fn seed_byte_or_zero(seed: Seq<u8>, i: int) -> u64 {
    if i < seed.len() {
        seed[i] as u64
    } else {
        0
    }
}

/// The word formed from the first eight seed bytes, least significant first;
/// missing bytes read as zero.
pub open spec fn seed_word(seed: Seq<u8>) -> u64 {
    seed_byte_or_zero(seed, 0) | (seed_byte_or_zero(seed, 1) << 8) | (
    seed_byte_or_zero(seed, 2) << 16) | (seed_byte_or_zero(seed, 3) << 24) | (
    seed_byte_or_zero(seed, 4) << 32) | (seed_byte_or_zero(seed, 5) << 40) | (
    seed_byte_or_zero(seed, 6) << 48) | (seed_byte_or_zero(seed, 7) << 56)
}

/// Folds the opaque seed bytes into the word that seeds the source.
pub fn word_of_seed(seed: &Vec<u8>) -> (word: u64)
    ensures
        word == seed_word(seed@),
{
    let b0: u64 = if seed.len() > 0 { seed[0] as u64 } else { 0 };
    let b1: u64 = if seed.len() > 1 { seed[1] as u64 } else { 0 };
    let b2: u64 = if seed.len() > 2 { seed[2] as u64 } else { 0 };
    let b3: u64 = if seed.len() > 3 { seed[3] as u64 } else { 0 };
    let b4: u64 = if seed.len() > 4 { seed[4] as u64 } else { 0 };
    let b5: u64 = if seed.len() > 5 { seed[5] as u64 } else { 0 };
    let b6: u64 = if seed.len() > 6 { seed[6] as u64 } else { 0 };
    let b7: u64 = if seed.len() > 7 { seed[7] as u64 } else { 0 };
    b0 | (b1 << 8) | (b2 << 16) | (b3 << 24) | (b4 << 32) | (b5 << 40) | (b6 << 48) | (b7 << 56)
}

/// Relies on random::default: builds a Xorshift128+ source whose state is
/// derived from the given word. The two derived state halves can never both
/// be zero, so the construction cannot trip the crate's seed check.
#[verifier::external_body]
fn seed_source(seed_word: u64) -> (source: random::Xorshift128Plus) {
    random::default(seed_word)
}

/// Relies on random::Source::read_u64 for Xorshift128Plus: advances the
/// source and returns its next word. Any value can come back, and nothing
/// more is assumed.
#[verifier::external_body]
fn next_u64(source: &mut random::Xorshift128Plus) -> (raw: u64) {
    random::Source::read_u64(source)
}

/// The stream of draws that the opaque seed bytes determine.
pub fn source_from_seed(seed: &Vec<u8>) -> (source: random::Xorshift128Plus) {
    seed_source(word_of_seed(seed))
}

/// The stream's next ordinal, reduced to `[0, bound)`.
pub fn roll(source: &mut random::Xorshift128Plus, bound: u16) -> (ordinal: u16)
    requires
        bound > 0,
    ensures
        ordinal < bound,
{
    let raw = next_u64(source);
    (raw % (bound as u64)) as u16
}

} // verus!
