//! The set of short identifiers (fixed-length prefixes of full hashes) that a
//! history already holds.

use std::collections::HashSet;
use vstd::prelude::*;
use vstd::string::StringSliceAdditionalSpecFns;
use vstd::utf8::{encode_scalar, encode_utf8, has_width_1_encoding};

verus! {

broadcast use vstd::std_specs::hash::group_hash_axioms;

/// Length of a short identifier, in characters.
pub const PREFIX_LEN: usize = 12;

/// A short identifier: `PREFIX_LEN` ASCII bytes.
pub open spec fn is_prefix_shape(p: Seq<u8>) -> bool {
    &&& p.len() == PREFIX_LEN
    &&& forall|i: int| 0 <= i < p.len() ==> #[trigger] p[i] < 128
}

/// The short identifier of an entry, given as its UTF-8 bytes: its first
/// `PREFIX_LEN` characters, or `None` where it is shorter. Entries are full
/// hashes in hex, so one whose first characters are not all ASCII is
/// malformed, and it is ignored like one that is too short: no digest's hex
/// rendering could share its identifier. Where the first `PREFIX_LEN` bytes
/// are ASCII they are exactly the first `PREFIX_LEN` characters.
pub open spec fn entry_prefix(h: Seq<u8>) -> Option<Seq<u8>> {
    if h.len() >= PREFIX_LEN && is_prefix_shape(h.take(PREFIX_LEN as int)) {
        Some(h.take(PREFIX_LEN as int))
    } else {
        None
    }
}

/// The bytes of each entry.
pub open spec fn entry_bytes(hashes: Seq<&str>) -> Seq<Seq<u8>> {
    hashes.map_values(|h: &str| h.spec_bytes())
}

/// The short identifiers of all entries.
pub open spec fn prefix_set(hs: Seq<Seq<u8>>) -> Set<Seq<u8>>
    decreases hs.len(),
{
    if hs.len() == 0 {
        Set::empty()
    } else {
        match entry_prefix(hs.last()) {
            Some(p) => prefix_set(hs.drop_last()).insert(p),
            None => prefix_set(hs.drop_last()),
        }
    }
}

/// One notice for each entry whose short identifier an earlier entry already
/// had, naming that identifier, in the order of the entries.
pub open spec fn duplicate_notices(hs: Seq<Seq<u8>>) -> Seq<Seq<u8>>
    decreases hs.len(),
{
    if hs.len() == 0 {
        seq![]
    } else {
        let rest = duplicate_notices(hs.drop_last());
        match entry_prefix(hs.last()) {
            Some(p) => if prefix_set(hs.drop_last()).contains(p) {
                rest.push(p)
            } else {
                rest
            },
            None => rest,
        }
    }
}

/// How many entries have the short identifier `p`.
pub open spec fn occurrences(hs: Seq<Seq<u8>>, p: Seq<u8>) -> nat
    decreases hs.len(),
{
    if hs.len() == 0 {
        0
    } else {
        occurrences(hs.drop_last(), p) + if entry_prefix(hs.last()) == Some(p) {
            1nat
        } else {
            0nat
        }
    }
}

/// How many times `p` stands in `s`.
pub open spec fn count_of(s: Seq<Seq<u8>>, p: Seq<u8>) -> nat
    decreases s.len(),
{
    if s.len() == 0 {
        0
    } else {
        count_of(s.drop_last(), p) + if s.last() == p {
            1nat
        } else {
            0nat
        }
    }
}

/// A short identifier read as a big-endian number in base 256.
pub open spec fn pack(p: Seq<u8>) -> nat
    decreases p.len(),
{
    if p.len() == 0 {
        0
    } else {
        pack(p.drop_last()) * 256 + p.last() as nat
    }
}

pub open spec fn pow256(n: nat) -> nat
    decreases n,
{
    if n == 0 {
        1
    } else {
        256 * pow256((n - 1) as nat)
    }
}

proof fn lemma_pack_bound(p: Seq<u8>)
    ensures
        pack(p) < pow256(p.len()),
    decreases p.len(),
{
    if p.len() > 0 {
        lemma_pack_bound(p.drop_last());
        let a = pack(p.drop_last());
        let b = pow256((p.len() - 1) as nat);
        let c = p.last() as nat;
        assert(a * 256 + c < 256 * b) by (nonlinear_arith)
            requires
                a < b,
                c < 256,
        ;
    }
}

proof fn lemma_pack_injective(p: Seq<u8>, q: Seq<u8>)
    requires
        p.len() == q.len(),
        pack(p) == pack(q),
    ensures
        p == q,
    decreases p.len(),
{
    if p.len() > 0 {
        let a = pack(p.drop_last());
        let b = pack(q.drop_last());
        let c = p.last() as int;
        let d = q.last() as int;
        assert(a == b && c == d) by (nonlinear_arith)
            requires
                a * 256 + c == b * 256 + d,
                0 <= c < 256,
                0 <= d < 256,
                a >= 0,
                b >= 0,
        ;
        lemma_pack_injective(p.drop_last(), q.drop_last());
        assert(p =~= p.drop_last().push(p.last()));
        assert(q =~= q.drop_last().push(q.last()));
    }
}

/// The number of a short identifier; distinct identifiers get distinct
/// numbers.
pub(crate) fn pack_prefix(b: &[u8]) -> (r: u128)
    requires
        b@.len() >= PREFIX_LEN,
    ensures
        r == pack(b@.take(PREFIX_LEN as int)),
{
    let mut acc: u128 = 0;
    let mut i: usize = 0;
    proof {
        reveal_with_fuel(pow256, 13);
    }
    while i < PREFIX_LEN
        invariant
            0 <= i <= PREFIX_LEN,
            b@.len() >= PREFIX_LEN,
            acc == pack(b@.take(i as int)),
            pow256(PREFIX_LEN as nat) < 0x1_0000_0000_0000_0000_0000_0000_0000,
        decreases PREFIX_LEN - i,
    {
        proof {
            lemma_pack_bound(b@.take(i + 1));
            assert(b@.take(i + 1).drop_last() =~= b@.take(i as int));
            lemma_pow256_mono((i + 1) as nat, PREFIX_LEN as nat);
        }
        acc = acc * 256 + b[i] as u128;
        i += 1;
    }
    acc
}

proof fn lemma_pow256_mono(m: nat, n: nat)
    requires
        m <= n,
    ensures
        pow256(m) <= pow256(n),
    decreases n - m,
{
    if m < n {
        lemma_pow256_mono(m, (n - 1) as nat);
    }
}

/// The short identifier of an entry's bytes, where it has one.
fn short_id(b: &[u8]) -> (r: Option<Vec<u8>>)
    ensures
        r is Some <==> entry_prefix(b@) is Some,
        r matches Some(v) ==> entry_prefix(b@) == Some(v@),
{
    if b.len() < PREFIX_LEN {
        return None;
    }
    let mut v: Vec<u8> = Vec::new();
    let mut i: usize = 0;
    while i < PREFIX_LEN
        invariant
            b@.len() >= PREFIX_LEN,
            0 <= i <= PREFIX_LEN,
            v@ =~= b@.take(i as int),
            forall|j: int| 0 <= j < i ==> #[trigger] b@[j] < 128,
        decreases PREFIX_LEN - i,
    {
        if b[i] >= 128 {
            assert(b@.take(PREFIX_LEN as int)[i as int] == b@[i as int]);
            assert(!is_prefix_shape(b@.take(PREFIX_LEN as int)));
            return None;
        }
        v.push(b[i]);
        i += 1;
    }
    Some(v)
}

/// The short identifiers of a history. `prefixes` is what the set means;
/// `keys` holds each of them as its number.
pub struct PrefixIndex {
    keys: HashSet<u128>,
    prefixes: Ghost<Set<Seq<u8>>>,
}

impl PrefixIndex {
    pub closed spec fn view(&self) -> Set<Seq<u8>> {
        self.prefixes@
    }

    pub closed spec fn wf(&self) -> bool {
        keys_match(self.keys@, self.prefixes@)
    }

    /// The short identifiers of `hashes`, and one notice for each entry whose
    /// identifier an earlier entry already had.
    pub fn build(hashes: &[&str]) -> (r: (PrefixIndex, Vec<Vec<u8>>))
        ensures
            r.0.wf(),
            r.0@ == prefix_set(entry_bytes(hashes@)),
            r.1.deep_view() == duplicate_notices(entry_bytes(hashes@)),
    {
        let ghost hs = entry_bytes(hashes@);
        let mut keys: HashSet<u128> = HashSet::new();
        let ghost mut prefixes = Set::<Seq<u8>>::empty();
        let mut notices: Vec<Vec<u8>> = Vec::new();
        let mut i: usize = 0;
        assert(hs.take(0) =~= Seq::<Seq<u8>>::empty());
        while i < hashes.len()
            invariant
                hs == entry_bytes(hashes@),
                0 <= i <= hashes@.len(),
                keys_match(keys@, prefixes),
                prefixes == prefix_set(hs.take(i as int)),
                notices.deep_view() == duplicate_notices(hs.take(i as int)),
            decreases hashes@.len() - i,
        {
            let b = hashes[i].as_bytes();
            assert(b@ == hs[i as int]);
            assert(hs.take(i + 1).drop_last() =~= hs.take(i as int));
            assert(hs.take(i + 1).last() == hs[i as int]);
            match short_id(b) {
                Some(p) => {
                    let k = pack_prefix(b);
                    let ghost old_keys = keys@;
                    let fresh = keys.insert(k);
                    proof {
                        lemma_pack_fits(p@);
                        lemma_keys_match_insert(old_keys, prefixes, p@, fresh);
                    }
                    if !fresh {
                        let ghost before = notices.deep_view();
                        let ghost before_v = notices@;
                        assert(p.deep_view() =~= p@);
                        notices.push(p);
                        assert(notices@ == before_v.push(p));
                        assert(notices.deep_view() =~= before.push(p@));
                    }
                    proof {
                        prefixes = prefixes.insert(p@);
                    }
                },
                None => {},
            }
            i += 1;
        }
        assert(hs.take(i as int) =~= hs);
        (PrefixIndex { keys, prefixes: Ghost(prefixes) }, notices)
    }

    /// Whether `p` is one of the short identifiers.
    pub fn contains(&self, p: &[u8]) -> (r: bool)
        requires
            self.wf(),
        ensures
            r == self@.contains(p@),
    {
        if p.len() != PREFIX_LEN {
            assert(!is_prefix_shape(p@));
            assert(!self.prefixes@.contains(p@));
            return false;
        }
        let mut i: usize = 0;
        while i < PREFIX_LEN
            invariant
                self.wf(),
                p@.len() == PREFIX_LEN,
                0 <= i <= PREFIX_LEN,
                forall|j: int| 0 <= j < i ==> #[trigger] p@[j] < 128,
            decreases PREFIX_LEN - i,
        {
            if p[i] >= 128 {
                assert(!is_prefix_shape(p@));
                assert(!self.prefixes@.contains(p@));
                return false;
            }
            i += 1;
        }
        assert(p@.take(PREFIX_LEN as int) =~= p@);
        let k = pack_prefix(p);
        proof {
            lemma_pack_fits(p@);
            assert(is_prefix_shape(p@));
        }
        let r = self.keys.contains(&k);
        assert(r == self.keys@.contains(k));
        assert(k == pack(p@) as u128);
        r
    }

    /// The number of distinct short identifiers.
    pub fn len(&self) -> (r: usize)
        requires
            self.wf(),
        ensures
            r == self@.len(),
    {
        self.keys.len()
    }
}

/// `keys` holds exactly the numbers of the identifiers in `prefixes`.
pub open spec fn keys_match(keys: Set<u128>, prefixes: Set<Seq<u8>>) -> bool {
    &&& forall|p: Seq<u8>| #[trigger] prefixes.contains(p) ==> is_prefix_shape(p)
    &&& forall|p: Seq<u8>|
        is_prefix_shape(p) ==> (prefixes.contains(p) <==> #[trigger] keys.contains(
            pack(p) as u128,
        ))
    &&& prefixes.finite()
    &&& keys.finite()
    &&& keys.len() == prefixes.len()
}

proof fn lemma_pack_fits(p: Seq<u8>)
    requires
        p.len() == PREFIX_LEN,
    ensures
        pack(p) < 0x1_0000_0000_0000_0000_0000_0000_0000,
{
    lemma_pack_bound(p);
    reveal_with_fuel(pow256, 13);
}

proof fn lemma_keys_match_insert(keys: Set<u128>, prefixes: Set<Seq<u8>>, p0: Seq<u8>, fresh: bool)
    requires
        keys_match(keys, prefixes),
        is_prefix_shape(p0),
        fresh == !keys.contains(pack(p0) as u128),
    ensures
        fresh == !prefixes.contains(p0),
        keys_match(keys.insert(pack(p0) as u128), prefixes.insert(p0)),
{
    let k0 = pack(p0) as u128;
    lemma_pack_fits(p0);
    assert forall|p: Seq<u8>| is_prefix_shape(p) implies (prefixes.insert(p0).contains(p)
        <==> #[trigger] keys.insert(k0).contains(pack(p) as u128)) by {
        lemma_pack_fits(p);
        if pack(p) as u128 == k0 {
            lemma_pack_injective(p, p0);
        }
    }
}

proof fn lemma_leading_byte(v: u32)
    ensures
        has_width_1_encoding(v) ==> encode_scalar(v) == seq![v as u8],
        !has_width_1_encoding(v) ==> encode_scalar(v)[0] >= 128,
{
    if has_width_1_encoding(v) {
        assert(v & 0x7F == v) by (bit_vector)
            requires
                v <= 0x7F,
        ;
    } else {
        let x2 = ((v >> 6) & 0x1F) as u8;
        let x3 = ((v >> 12) & 0x0F) as u8;
        let x4 = ((v >> 18) & 0x7) as u8;
        assert(0xC0u8 | x2 >= 0x80u8) by (bit_vector);
        assert(0xE0u8 | x3 >= 0x80u8) by (bit_vector);
        assert(0xF0u8 | x4 >= 0x80u8) by (bit_vector);
    }
}

/// Where the first `k` bytes of a UTF-8 encoding are ASCII, the text has at
/// least `k` characters and those bytes are its first `k` characters: each
/// byte's value is the code point of the character.
pub proof fn lemma_ascii_start(chars: Seq<char>, k: nat)
    requires
        encode_utf8(chars).len() >= k,
        forall|i: int| 0 <= i < k ==> #[trigger] encode_utf8(chars)[i] < 128,
    ensures
        chars.len() >= k,
        forall|i: int| 0 <= i < k ==> #[trigger] encode_utf8(chars)[i] as u32 == chars[i] as u32,
    decreases k,
{
    if k > 0 {
        let b = encode_utf8(chars);
        if chars.len() == 0 {
            assert(b.len() == 0);
        }
        let v = chars[0] as u32;
        let rest = encode_utf8(chars.drop_first());
        assert(b == encode_scalar(v) + rest);
        lemma_leading_byte(v);
        assert(b[0] == encode_scalar(v)[0]);
        assert(has_width_1_encoding(v));
        assert(rest =~= b.drop_first());
        assert forall|i: int| 0 <= i < k - 1 implies #[trigger] rest[i] < 128 by {
            assert(rest[i] == b[i + 1]);
        }
        lemma_ascii_start(chars.drop_first(), (k - 1) as nat);
        assert forall|i: int| 0 <= i < k implies #[trigger] encode_utf8(chars)[i] as u32 == chars[i] as u32 by {
            if i > 0 {
                assert(b[i] == rest[i - 1]);
                assert(chars[i] == chars.drop_first()[i - 1]);
            } else {
                assert(encode_scalar(v)[0] == v as u8);
                assert(b[0] == v as u8);

            }
        }
    }
}

/// An entry's short identifier is its first `PREFIX_LEN` characters, byte by
/// byte their code points.
pub proof fn lemma_prefix_is_first_chars(h: &str)
    ensures
        entry_prefix(h.spec_bytes()) matches Some(p) ==> {
            &&& h@.len() >= PREFIX_LEN
            &&& p.len() == PREFIX_LEN
            &&& forall|i: int| 0 <= i < PREFIX_LEN ==> #[trigger] p[i] as u32 == h@[i] as u32
        },
{
    if let Some(p) = entry_prefix(h.spec_bytes()) {
        let b = h.spec_bytes();
        assert forall|i: int| 0 <= i < PREFIX_LEN implies #[trigger] b[i] < 128 by {
            assert(p[i] == b[i]);
        }
        lemma_ascii_start(h@, PREFIX_LEN as nat);
        assert forall|i: int| 0 <= i < PREFIX_LEN implies #[trigger] p[i] as u32 == h@[i] as u32 by {
            assert(p[i] == b[i]);
        }
    }
}

/// How many entries are at least `PREFIX_LEN` characters long.
pub open spec fn long_entries_chars(hashes: Seq<&str>) -> nat
    decreases hashes.len(),
{
    if hashes.len() == 0 {
        0
    } else {
        long_entries_chars(hashes.drop_last()) + if hashes.last()@.len() >= PREFIX_LEN {
            1nat
        } else {
            0nat
        }
    }
}

/// Building the index from a history gives no more short identifiers than it
/// has entries of at least `PREFIX_LEN` characters.
pub proof fn lemma_index_size_chars(hashes: Seq<&str>)
    ensures
        prefix_set(entry_bytes(hashes)).finite(),
        prefix_set(entry_bytes(hashes)).len() <= long_entries_chars(hashes),
    decreases hashes.len(),
{
    let hs = entry_bytes(hashes);
    if hashes.len() > 0 {
        let rest = hashes.drop_last();
        lemma_index_size_chars(rest);
        assert(hs.drop_last() =~= entry_bytes(rest));
        assert(hs.last() == hashes.last().spec_bytes());
        lemma_prefix_is_first_chars(hashes.last());
    }
}

/// For each short identifier, the index holds it once if any entry has it,
/// and every entry past the first that has it gives exactly one notice that
/// names it.
pub proof fn lemma_duplicate_notices(hs: Seq<Seq<u8>>, p: Seq<u8>)
    ensures
        prefix_set(hs).contains(p) <==> occurrences(hs, p) >= 1,
        occurrences(hs, p) >= 1 ==> count_of(duplicate_notices(hs), p) == occurrences(hs, p) - 1,
        occurrences(hs, p) == 0 ==> count_of(duplicate_notices(hs), p) == 0,
    decreases hs.len(),
{
    if hs.len() > 0 {
        let rest = hs.drop_last();
        lemma_duplicate_notices(rest, p);
        let n = duplicate_notices(rest);
        match entry_prefix(hs.last()) {
            Some(q) => {
                if prefix_set(rest).contains(q) {
                    assert(n.push(q).drop_last() =~= n);
                } 
            },
            None => {},
        }
    }
}

} // verus!
