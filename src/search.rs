//! The search for a nonce whose digest shares its short identifier with one
//! that the history already holds.

use crate::decimal::{decimal, decimal_bytes, lemma_decimal_len};
use crate::digest::{sha1_input, sha1_of, sha1_result, DIGEST_LEN};
use crate::hex::{encode, to_hex};
use crate::prefix_index::{PrefixIndex, PREFIX_LEN};
use crate::preimage::{preamble, salted_preimage, PartialHashState, SALT_SEPARATOR};
use vstd::prelude::*;

verus! {

/// Nonces tried between two progress reports.
pub const PROGRESS_INTERVAL: u64 = 0x4_0000;

/// The digest of one trial: the shared preimage followed by the nonce in
/// decimal.
pub open spec fn trial_digest(base: Seq<u8>, nonce: nat) -> Seq<u8> {
    sha1_of(base + decimal(nonce))
}

/// The short identifier of a digest: the first `PREFIX_LEN` characters of
/// its lowercase hex rendering.
pub open spec fn digest_prefix(d: Seq<u8>) -> Seq<u8> {
    encode(d).take(PREFIX_LEN as int)
}

/// Whether the trial with `nonce` collides with an identifier in `index`.
pub open spec fn is_hit(base: Seq<u8>, index: Set<Seq<u8>>, nonce: nat) -> bool {
    index.contains(digest_prefix(trial_digest(base, nonce)))
}

/// A collision: the identifier hit, the nonce, and the full digest.
pub struct SearchResult {
    pub prefix: Vec<u8>,
    pub nonce: u64,
    pub digest: Vec<u8>,
}

impl SearchResult {
    /// The result describes the trial with its nonce.
    pub open spec fn describes(&self, base: Seq<u8>) -> bool {
        &&& self.digest@ == trial_digest(base, self.nonce as nat)
        &&& self.digest@.len() == DIGEST_LEN
        &&& self.prefix@.len() == PREFIX_LEN
        &&& self.prefix@ == digest_prefix(self.digest@)
    }
}

/// Runs the trial with `nonce`: a copy of `base` absorbs the nonce in decimal
/// and is finalised. A collision where its short identifier is in `index`.
pub fn try_nonce(base: &PartialHashState, index: &PrefixIndex, nonce: u64) -> (r: Option<
    SearchResult,
>)
    requires
        base.wf(),
        index.wf(),
    ensures
        r is Some <==> is_hit(base@, index@, nonce as nat),
        r matches Some(res) ==> res.nonce == nonce && res.describes(base@),
{
    let mut h = base.hasher();
    let digits = decimal_bytes(nonce);
    proof {
        lemma_decimal_len(nonce as nat);
        base.lemma_wf_len();
    }
    sha1_input(&mut h, digits.as_slice());
    let digest = sha1_result(h);
    let hex = to_hex(digest.as_slice());
    let mut prefix: Vec<u8> = Vec::new();
    let mut i: usize = 0;
    while i < PREFIX_LEN
        invariant
            0 <= i <= PREFIX_LEN,
            hex@.len() == 40,
            prefix@ =~= hex@.take(i as int),
        decreases PREFIX_LEN - i,
    {
        prefix.push(hex[i]);
        i += 1;
    }
    if index.contains(prefix.as_slice()) {
        Some(SearchResult { prefix, nonce, digest })
    } else {
        None
    }
}

/// Tries the nonces from `start` up to, not including, `end`, in increasing
/// order, and stops at the first collision; `None` where there is none in
/// the range.
pub fn search_range(base: &PartialHashState, index: &PrefixIndex, start: u64, end: u64) -> (r:
    Option<SearchResult>)
    requires
        base.wf(),
        index.wf(),
    ensures
        match r {
            Some(res) => {
                &&& start <= res.nonce < end
                &&& is_hit(base@, index@, res.nonce as nat)
                &&& res.describes(base@)
                &&& forall|n: nat| start <= n < res.nonce ==> !is_hit(base@, index@, n)
            },
            None => forall|n: nat| start <= n < end ==> !is_hit(base@, index@, n),
        },
{
    let mut i: u64 = start;
    while i < end
        invariant
            base.wf(),
            index.wf(),
            start <= i,
            start < end ==> i <= end,
            forall|n: nat| start <= n < i ==> !is_hit(base@, index@, n),
        decreases end - i,
    {
        match try_nonce(base, index, i) {
            Some(res) => {
                return Some(res);
            },
            None => {},
        }
        i += 1;
    }
    None
}

/// The search from nonce zero, bounded by `max_trials`: the smallest nonce
/// below the bound whose trial collides.
pub fn search(base: &PartialHashState, index: &PrefixIndex, max_trials: u64) -> (r: Option<
    SearchResult,
>)
    requires
        base.wf(),
        index.wf(),
    ensures
        match r {
            Some(res) => {
                &&& res.nonce < max_trials
                &&& is_hit(base@, index@, res.nonce as nat)
                &&& res.describes(base@)
                &&& forall|n: nat| n < res.nonce ==> !is_hit(base@, index@, n)
            },
            None => forall|n: nat| n < max_trials ==> !is_hit(base@, index@, n),
        },
{
    search_range(base, index, 0, max_trials)
}

/// What to append to a commit message so that its preimage ends as the
/// trial did: the salt, `_`, and the nonce, in decimal.
pub open spec fn commit_suffix_spec(salt: u32, nonce: u64) -> Seq<u8> {
    decimal(salt as nat) + seq![SALT_SEPARATOR] + decimal(nonce as nat)
}

/// Renders the suffix that reproduces a trial: `{salt}_{nonce}`.
pub fn commit_suffix(salt: u32, nonce: u64) -> (r: Vec<u8>)
    ensures
        r@ == commit_suffix_spec(salt, nonce),
{
    let mut out = decimal_bytes(salt as u64);
    out.push(SALT_SEPARATOR);
    let mut digits = decimal_bytes(nonce);
    out.append(&mut digits);
    out
}

/// A trial's input is the preamble followed by the suffix that `commit_suffix`
/// renders for its salt and nonce.
pub proof fn lemma_trial_input(parent: Seq<u8>, payload: Seq<u8>, salt: u32, nonce: u64)
    ensures
        salted_preimage(parent, payload, salt) + decimal(nonce as nat) == preamble(parent, payload)
            + commit_suffix_spec(salt, nonce),
{
    assert(salted_preimage(parent, payload, salt) + decimal(nonce as nat) =~= preamble(
        parent,
        payload,
    ) + commit_suffix_spec(salt, nonce));
}

} // verus!
