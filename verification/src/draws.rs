//! Random draws.
//!
//! A ChaCha8 generator is a stream of 32-bit words that its seed determines. What is drawn here
//! is stated in terms of that stream.
use rand::Rng;
use rand_chacha::rand_core::SeedableRng;
use rand_chacha::ChaCha8Rng;
use vstd::prelude::*;

use crate::ieee::convert::{double_of_int, single_of_int};
use crate::ieee::{Double, Single};

verus! {

/// The generator of the `rand_chacha` crate.
#[verifier::external_type_specification]
#[verifier::external_body]
pub struct ExChaCha8Rng(rand_chacha::ChaCha8Rng);

/// The words that a generator has not handed out yet, in the order in which they will come.
pub uninterp spec fn words_ahead(rng: ChaCha8Rng) -> Map<nat, u32>;

/// The words of the generator that is seeded with `seed`.
pub uninterp spec fn chacha8_words(seed: u64) -> Map<nat, u32>;

/// The words from position `k` on.
pub open spec fn words_from(words: Map<nat, u32>, k: nat) -> Map<nat, u32> {
    Map::new(|i: nat| true, |i: nat| words[i + k])
}

/// `ChaCha8Rng::seed_from_u64`: a generator whose words depend on the seed alone.
#[verifier::external_body]
pub(crate) fn seeded(seed: u64) -> (r: ChaCha8Rng)
    ensures
        words_ahead(r) == chacha8_words(seed),
{
    ChaCha8Rng::seed_from_u64(seed)
}

/// `Rng::random::<u32>`: hands out the next word.
#[verifier::external_body]
pub(crate) fn next_word(rng: &mut ChaCha8Rng) -> (r: u32)
    ensures
        r == words_ahead(*old(rng))[0],
        words_ahead(*final(rng)) == words_from(words_ahead(*old(rng)), 1),
{
    rng.random::<u32>()
}

/// `Rng::random::<u64>`: hands out the next two words, the first as the lower half.
#[verifier::external_body]
pub(crate) fn next_word_pair(rng: &mut ChaCha8Rng) -> (r: u64)
    ensures
        r == words_ahead(*old(rng))[0] + 0x1_0000_0000 * words_ahead(*old(rng))[1],
        words_ahead(*final(rng)) == words_from(words_ahead(*old(rng)), 2),
{
    rng.random::<u64>()
}

/// The generator has handed out the first `at` of `words`.
pub open spec fn is_at(rng: ChaCha8Rng, words: Map<nat, u32>, at: nat) -> bool {
    forall|i: nat| #[trigger] words_ahead(rng)[i] == words[i + at]
}

/// The `binary32` number in `[0, 1)` made of the upper 24 bits of a word.
pub open spec fn unit_single(word: u32) -> Single {
    single_of_int((word / 0x100) as int).product(Single { bits: 0x3380_0000 /* 2^-24 */ })
}

/// The `binary64` number in `[0, 1)` made of the upper 53 bits of two words.
pub open spec fn unit_double(low: u32, high: u32) -> Double {
    double_of_int((low + 0x1_0000_0000 * high) / 0x800).product(Double { bits: 0x3ca0_0000_0000_0000 /* 2^-53 */ })
}

/// The number in `[0, 1)` that the words at `at` give.
pub open spec fn single_at(words: Map<nat, u32>, at: nat) -> Single {
    unit_single(words[at])
}

/// The number in `[0, 1)` that the two words at `at` give.
pub open spec fn double_at(words: Map<nat, u32>, at: nat) -> Double {
    unit_double(words[at], words[at + 1])
}

/// Draws a `binary32` number in `[0, 1)`.
pub(crate) fn draw_single(rng: &mut ChaCha8Rng, words: Ghost<Map<nat, u32>>, at: Ghost<nat>) -> (r: Single)
    requires
        is_at(*old(rng), words@, at@),
    ensures
        r == single_at(words@, at@),
        is_at(*final(rng), words@, at@ + 1),
{
    let w: u32 = next_word(rng);
    assert(words_ahead(*old(rng))[0] == words@[0 + at@]);
    assert forall|i: nat| #[trigger] words_ahead(*rng)[i] == words@[i + (at@ + 1)] by {
        assert(words_ahead(*old(rng))[i + 1] == words@[(i + 1) + at@]);
    }
    Single::from_i64((w / 0x100) as i64).times(Single { bits: 0x3380_0000 /* 2^-24 */ })
}

/// Draws a `binary64` number in `[0, 1)`.
pub(crate) fn draw_double(rng: &mut ChaCha8Rng, words: Ghost<Map<nat, u32>>, at: Ghost<nat>) -> (r: Double)
    requires
        is_at(*old(rng), words@, at@),
    ensures
        r == double_at(words@, at@),
        is_at(*final(rng), words@, at@ + 2),
{
    let w: u64 = next_word_pair(rng);
    assert(words_ahead(*old(rng))[0] == words@[0 + at@]);
    assert(words_ahead(*old(rng))[1] == words@[1 + at@]);
    assert forall|i: nat| #[trigger] words_ahead(*rng)[i] == words@[i + (at@ + 2)] by {
        assert(words_ahead(*old(rng))[i + 2] == words@[(i + 2) + at@]);
    }
    Double::from_u64(w / 0x800).times(Double { bits: 0x3ca0_0000_0000_0000 /* 2^-53 */ })
}

} // verus!
