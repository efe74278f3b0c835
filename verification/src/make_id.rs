//! Random identifiers of letters and digits.

use vstd::prelude::*;

verus! {

/// `ch` is one of the digits `0` to `9` or of the letters `A` to `Z` and `a`
/// to `z`.
pub open spec fn is_alphanumeric(ch: char) -> bool {
    ||| 48 <= ch as u32 <= 57
    ||| 65 <= ch as u32 <= 90
    ||| 97 <= ch as u32 <= 122
}

/// `String::push` of std: the character is appended at the end, and the
/// characters before it stay.
pub assume_specification[ String::push ](text: &mut String, ch: char)
    ensures
        final(text)@ == old(text)@.push(ch),
;

/// One draw from the `Alphanumeric` distribution of `rand` on the generator
/// that `rand::thread_rng` keeps for the thread. Whatever is drawn is the
/// ASCII code of a digit or of an upper- or lower-case letter; which of them
/// it is depends on chance. The generator is seeded by the operating system
/// when a thread first uses it, and `rand` panics where that fails.
#[verifier::external_body]
fn sample_alphanumeric() -> (byte: u8)
    ensures
        is_alphanumeric(byte as char),
{
    rand::distributions::Distribution::sample(
        &rand::distributions::Alphanumeric,
        &mut rand::thread_rng(),
    )
}

/// The text whose characters have the given bytes as their code points, in
/// the same order.
pub fn id_from_samples(samples: &Vec<u8>) -> (id: String)
    ensures
        id@.len() == samples@.len(),
        forall|k: int| 0 <= k < samples@.len() ==> #[trigger] id@[k] == samples@[k] as char,
{
    let mut id = String::new();
    for k in 0..samples.len()
        invariant
            id@.len() == k,
            forall|j: int| 0 <= j < k ==> id@[j] == samples@[j] as char,
    {
        id.push(samples[k] as char);
    }
    id
}

/// An identifier of `len` characters, each a digit or an ASCII letter drawn
/// at random.
pub fn make_id(len: usize) -> (id: String)
    ensures
        id@.len() == len,
        forall|k: int| 0 <= k < len ==> is_alphanumeric(#[trigger] id@[k]),
{
    let mut samples: Vec<u8> = Vec::with_capacity(len);
    for k in 0..len
        invariant
            samples@.len() == k,
            forall|j: int| 0 <= j < k ==> is_alphanumeric(samples@[j] as char),
    {
        samples.push(sample_alphanumeric());
    }
    id_from_samples(&samples)
}

} // verus!
