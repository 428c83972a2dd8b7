//! The salted preimage that every trial of a search shares: a null parent,
//! the parent identifier, the commit payload, and a per-run salt.

use crate::decimal::{decimal, decimal_bytes, lemma_decimal_injective, lemma_decimal_len};
use crate::digest::{absorbed, finalized, sha1_input, sha1_new};
use crate::hex::{decode, from_hex, lemma_decode_len, DecodeError};
use crypto::sha1::Sha1;
use vstd::prelude::*;
use vstd::string::StringSliceAdditionalSpecFns;

verus! {

/// Length of the all-zero identifier that stands for the missing second
/// parent.
pub const NULL_ID_LEN: usize = 20;

/// The most bytes of parent text and payload together that a preimage is
/// built from.
pub const MAX_INPUT_LEN: u64 = 0x0fff_ffff_ffff_0000;

/// The most bytes that a built state holds; what stays below the SHA-1 bound
/// is room for a nonce.
pub const MAX_STATE_LEN: u64 = 0x1000_0000_0000_0000;

/// The byte `_` that ends the salt.
pub const SALT_SEPARATOR: u8 = 0x5f;

/// What a run's preimage starts with, whatever its salt.
pub open spec fn preamble(parent: Seq<u8>, payload: Seq<u8>) -> Seq<u8> {
    Seq::new(NULL_ID_LEN as nat, |i: int| 0u8) + parent + payload
}

/// The whole preimage that trials share.
pub open spec fn salted_preimage(parent: Seq<u8>, payload: Seq<u8>, salt: u32) -> Seq<u8> {
    preamble(parent, payload) + decimal(salt as nat) + seq![SALT_SEPARATOR]
}

/// A SHA-1 state that has absorbed a salted preimage. Each trial copies it,
/// so the preimage is hashed once.
#[derive(Clone, Copy)]
pub struct PartialHashState {
    hasher: Sha1,
}

impl PartialHashState {
    /// The bytes that the state has absorbed.
    pub closed spec fn view(&self) -> Seq<u8> {
        absorbed(self.hasher)
    }

    pub closed spec fn wf(&self) -> bool {
        &&& absorbed(self.hasher).len() <= MAX_STATE_LEN
        &&& !finalized(self.hasher)
    }

    pub(crate) proof fn lemma_wf_len(&self)
        requires
            self.wf(),
        ensures
            self@.len() <= MAX_STATE_LEN,
    {
    }

    pub(crate) fn hasher(&self) -> (r: Sha1)
        ensures
            absorbed(r) == self@,
            self.wf() ==> !finalized(r),
    {
        self.hasher
    }

    /// The state after the null parent, the bytes that `parent_hex` stands
    /// for, the payload, the salt in decimal and `_`; an error where
    /// `parent_hex` is not hex text.
    pub fn build(parent_hex: &str, commit_payload: &[u8], salt: u32) -> (r: Result<
        PartialHashState,
        DecodeError,
    >)
        requires
            parent_hex.spec_bytes().len() + commit_payload@.len() <= MAX_INPUT_LEN,
        ensures
            match r {
                Ok(s) => {
                    &&& s.wf()
                    &&& decode(parent_hex.spec_bytes()) matches Some(parent)
                    &&& s@ == salted_preimage(parent, commit_payload@, salt)
                },
                Err(_) => decode(parent_hex.spec_bytes()) is None,
            },
    {
        let parent = match from_hex(parent_hex) {
            Ok(v) => v,
            Err(e) => {
                return Err(e);
            },
        };
        proof {
            lemma_decode_len(parent_hex.spec_bytes());
            lemma_decimal_len(salt as nat);
        }
        let null_id: Vec<u8> = vec![0u8; NULL_ID_LEN];
        let mut h = sha1_new();
        sha1_input(&mut h, null_id.as_slice());
        sha1_input(&mut h, parent.as_slice());
        sha1_input(&mut h, commit_payload);
        let digits = decimal_bytes(salt as u64);
        sha1_input(&mut h, digits.as_slice());
        let sep: Vec<u8> = vec![SALT_SEPARATOR];
        sha1_input(&mut h, sep.as_slice());
        assert(null_id@ =~= Seq::new(NULL_ID_LEN as nat, |i: int| 0u8));
        assert(absorbed(h) =~= salted_preimage(parent@, commit_payload@, salt));
        assert(decode(parent_hex.spec_bytes()) == Some(parent@));
        assert(absorbed(h).len() <= MAX_STATE_LEN);
        Ok(PartialHashState { hasher: h })
    }

    /// As `build`, with a salt drawn at random; the salt is returned beside
    /// the state.
    pub fn build_with_random_salt(parent_hex: &str, commit_payload: &[u8]) -> (r: Result<
        (PartialHashState, u32),
        DecodeError,
    >)
        requires
            parent_hex.spec_bytes().len() + commit_payload@.len() <= MAX_INPUT_LEN,
        ensures
            match r {
                Ok((s, salt)) => {
                    &&& s.wf()
                    &&& decode(parent_hex.spec_bytes()) matches Some(parent)
                    &&& s@ == salted_preimage(parent, commit_payload@, salt)
                },
                Err(_) => decode(parent_hex.spec_bytes()) is None,
            },
    {
        let salt: u32 = rand::random::<u32>();
        match PartialHashState::build(parent_hex, commit_payload, salt) {
            Ok(s) => Ok((s, salt)),
            Err(e) => Err(e),
        }
    }
}

/// Relies on `rand::random`: a value drawn from the thread-local generator;
/// nothing is promised of which.
pub assume_specification<T>[ rand::random::<T> ]() -> (r: T)
    where
        rand::distributions::Standard: rand::distributions::Distribution<T>,
;

/// Every preimage of a run starts with the same preamble, whatever the salt;
/// two salts give the same preimage only when they are equal. `build` fixes
/// the absorbed bytes as this preimage, so equal inputs and salt give equal
/// states.
pub proof fn lemma_salt_changes_only_tail(parent: Seq<u8>, payload: Seq<u8>, s1: u32, s2: u32)
    ensures
        salted_preimage(parent, payload, s1).take(preamble(parent, payload).len() as int)
            == preamble(parent, payload),
        salted_preimage(parent, payload, s1) == salted_preimage(parent, payload, s2) <==> s1
            == s2,
{
    let pre = preamble(parent, payload);
    let a = salted_preimage(parent, payload, s1);
    let b = salted_preimage(parent, payload, s2);
    assert(a.take(pre.len() as int) =~= pre);
    if a == b {
        let da = decimal(s1 as nat);
        let db = decimal(s2 as nat);
        assert(a.subrange(pre.len() as int, a.len() - 1) =~= da);
        assert(b.subrange(pre.len() as int, b.len() - 1) =~= db);
        lemma_decimal_injective(s1 as nat, s2 as nat);
    }
}

} // verus!
