//! The SHA-1 implementation of the `rust-crypto` crate, as this library uses
//! it: an incremental state that absorbs bytes and yields a 20-byte digest.

use crypto::digest::Digest;
use crypto::sha1::Sha1;
use vstd::prelude::*;

verus! {

#[verifier::external_type_specification]
#[verifier::external_body]
pub struct ExSha1(Sha1);

/// The bytes that a SHA-1 state has absorbed since it was created.
pub uninterp spec fn absorbed(h: Sha1) -> Seq<u8>;

/// Whether a SHA-1 state has been finalised; such a state absorbs nothing
/// more.
pub uninterp spec fn finalized(h: Sha1) -> bool;

/// The SHA-1 digest of a byte string.
pub uninterp spec fn sha1_of(data: Seq<u8>) -> Seq<u8>;

/// The most bytes that one SHA-1 state absorbs: it counts them in bits, in a
/// `u64`.
pub const MAX_ABSORBED: u64 = 0x1fff_ffff_ffff_ffff;

/// Length of a SHA-1 digest, in bytes.
pub const DIGEST_LEN: usize = 20;

/// Relies on `crypto::sha1::Sha1::new`: a fresh state that has absorbed
/// nothing.
#[verifier::external_body]
pub(crate) fn sha1_new() -> (r: Sha1)
    ensures
        absorbed(r) == Seq::<u8>::empty(),
        !finalized(r),
{
    Sha1::new()
}

/// Relies on `Digest::input` of `crypto::sha1::Sha1`: the bytes are appended
/// to what the state has absorbed. It panics on a finalised state, and where
/// the count of absorbed bits would overflow a `u64`; the `requires` leaves
/// both out.
#[verifier::external_body]
pub(crate) fn sha1_input(h: &mut Sha1, data: &[u8])
    requires
        !finalized(*old(h)),
        absorbed(*old(h)).len() + data@.len() <= MAX_ABSORBED,
    ensures
        absorbed(*final(h)) == absorbed(*old(h)) + data@,
        !finalized(*final(h)),
{
    h.input(data)
}

/// Relies on `Digest::result` of `crypto::sha1::Sha1`: it writes the 20-byte
/// digest of what the state has absorbed. The state is taken by value, a
/// copy, so the caller's state is never finalised.
#[verifier::external_body]
pub(crate) fn sha1_result(h: Sha1) -> (r: Vec<u8>)
    ensures
        r@ == sha1_of(absorbed(h)),
        r@.len() == DIGEST_LEN,
{
    let mut h = h;
    let mut out = vec![0u8; DIGEST_LEN];
    h.result(&mut out);
    out
}

} // verus!
