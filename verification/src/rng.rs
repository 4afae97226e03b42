//! The engine's deterministic random number generator.
//!
//! Every identifier the engine mints and every shuffle it performs draws from
//! one seeded xoshiro256** generator, so that a game can be replayed exactly
//! from its seed and its atom log. The generator itself comes from the
//! `rand_xoshiro` crate; this module gives names to its state and to the
//! results drawn from it, so that contracts can say that the same state
//! always yields the same identifier, the same shuffle and the same
//! successor state.

use vstd::prelude::*;

use crate::zone::GameObject;

verus! {

#[verifier::external_type_specification]
#[verifier::external_body]
pub struct ExXoshiro256StarStar(rand_xoshiro::Xoshiro256StarStar);

/// The 256-bit state of a generator, as four words.
pub uninterp spec fn rng_words(r: rand_xoshiro::Xoshiro256StarStar) -> Seq<u64>;

/// The identifier drawn from a generator in the given state.
pub uninterp spec fn id_drawn(words: Seq<u64>) -> u128;

/// The generator state left after drawing one identifier.
pub uninterp spec fn words_after_id(words: Seq<u64>) -> Seq<u64>;

/// The index permutation a shuffle of the given length applies, as a function
/// of the generator state; position `j` of the result receives the element
/// that stood at `shuffle_perm(..)[j]`.
pub uninterp spec fn shuffle_perm(words: Seq<u64>, len: int) -> Seq<int>;

/// The generator state left after shuffling a sequence of the given length.
pub uninterp spec fn words_after_shuffle(words: Seq<u64>, len: int) -> Seq<u64>;

/// A sequence reordered by an index permutation. Positions whose index falls
/// outside the sequence keep their own element, so the result always holds
/// elements of `s` whatever `perm` is.
pub open spec fn apply_perm<T>(perm: Seq<int>, s: Seq<T>) -> Seq<T> {
    Seq::new(s.len(), |j: int| if 0 <= perm[j] < s.len() { s[perm[j]] } else { s[j] })
}

/// Relies on the derived `Clone` of `rand_xoshiro::Xoshiro256StarStar`, which
/// copies the four state words.
#[verifier::external_body]
pub(crate) fn rng_clone(r: &rand_xoshiro::Xoshiro256StarStar) -> (r2: rand_xoshiro::Xoshiro256StarStar)
    ensures
        rng_words(r2) == rng_words(*r),
{
    r.clone()
}

/// Draws sixteen bytes and lays them out as a version-4 UUID value.
///
/// Relies on `rand::Fill::try_fill` for byte slices (it fills the buffer from
/// the generator's own byte stream and never fails for xoshiro256**) and on
/// `uuid::Builder::from_random_bytes` (a pure function of the bytes). Both
/// the value drawn and the successor state depend on the prior state alone.
#[verifier::external_body]
pub fn get_seeded_uuid(rng: &mut rand_xoshiro::Xoshiro256StarStar) -> (r: u128)
    ensures
        r == id_drawn(rng_words(*old(rng))),
        rng_words(*final(rng)) == words_after_id(rng_words(*old(rng))),
{
    let mut random_bytes: [u8; 16] = [0; 16];
    rand::Fill::try_fill(&mut random_bytes[..], rng).unwrap();
    uuid::Builder::from_random_bytes(random_bytes).into_uuid().as_u128()
}

/// Shuffles the objects in place.
///
/// Relies on `rand::seq::SliceRandom::shuffle`: a Fisher-Yates shuffle whose
/// draws depend only on the generator state and the slice length, and which
/// permutes the slice in place, so the multiset of elements is kept.
#[verifier::external_body]
pub(crate) fn shuffle_objects(
    rng: &mut rand_xoshiro::Xoshiro256StarStar,
    v: &mut Vec<GameObject>,
) -> (r: ())
    ensures
        final(v)@ == apply_perm(shuffle_perm(rng_words(*old(rng)), old(v)@.len() as int), old(v)@),
        final(v)@.to_multiset() == old(v)@.to_multiset(),
        rng_words(*final(rng)) == words_after_shuffle(rng_words(*old(rng)), old(v)@.len() as int),
{
    rand::seq::SliceRandom::shuffle(v.as_mut_slice(), rng)
}

} // verus!
