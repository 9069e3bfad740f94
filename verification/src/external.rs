//! The calls this library makes into rand and rust-bitcoin's hashes.
use vstd::prelude::*;

use rand::seq::SliceRandom;

use crate::types::PeerId;

verus! {

/// The double SHA-256 digest of `data`, as its 32 bytes.
pub uninterp spec fn sha256d_digest(data: Seq<u8>) -> Seq<u8>;

/// Calls `bitcoin::hashes::sha256d::Hash::hash`, the double SHA-256 of `data`,
/// and returns its bytes. The result is named `sha256d_digest(data)`: the same
/// bytes always give the same digest.
#[verifier::external_body]
pub(crate) fn sha256d(data: &Vec<u8>) -> (digest: [u8; 32])
    ensures
        digest@ == sha256d_digest(data@),
{
    let h = <bitcoin::hashes::sha256d::Hash as bitcoin::hashes::Hash>::hash(data.as_slice());
    <bitcoin::hashes::sha256d::Hash as bitcoin::hashes::Hash>::to_byte_array(h)
}

/// Calls `rand::random::<usize>()` with the thread-local generator. Any value
/// may come back, so nothing is claimed of it.
#[verifier::external_body]
pub(crate) fn random_id() -> usize {
    rand::random::<usize>()
}

/// Calls rand's `SliceRandom::choose` with the thread-local generator. As rand's
/// source shows, it returns `None` exactly when the slice is empty and otherwise
/// one of its elements; which one is left to chance.
#[verifier::external_body]
pub(crate) fn choose_random(ids: &[PeerId]) -> (r: Option<PeerId>)
    ensures
        r is None <==> ids@.len() == 0,
        r matches Some(id) ==> ids@.contains(id),
{
    ids.choose(&mut rand::thread_rng()).copied()
}

} // verus!
