use vanity_collide::hex::DecodeError;
use vanity_collide::prefix_index::PrefixIndex;
use vanity_collide::preimage::PartialHashState;
use vanity_collide::search::{commit_suffix, search, search_range, try_nonce};

const PARENT: &str = "0123456789abcdef0123456789abcdef01234567";
const PAYLOAD: &[u8] = b"author someone\n\nfirst commit";

fn base(salt: u32) -> PartialHashState {
    PartialHashState::build(PARENT, PAYLOAD, salt).unwrap()
}

#[test]
fn known_digests_of_trials() {
    let b = base(7);
    let (index, _) = PrefixIndex::build(&["a4333eb984b6", "098b21f02c40"]);
    let r0 = try_nonce(&b, &index, 0).unwrap();
    assert_eq!(r0.nonce, 0);
    assert_eq!(String::from_utf8(r0.prefix).unwrap(), "a4333eb984b6");
    assert_eq!(
        vanity_collide::hex::to_hex(&r0.digest),
        b"a4333eb984b6984a7742c45fc81627c8b68fc276".to_vec()
    );
    let r42 = try_nonce(&b, &index, 42).unwrap();
    assert_eq!(
        vanity_collide::hex::to_hex(&r42.digest),
        b"098b21f02c4020645325bf5e200029caf772046b".to_vec()
    );
    assert!(try_nonce(&b, &index, 1).is_none());
}

#[test]
fn salt_changes_the_digest() {
    let (index, _) = PrefixIndex::build(&["6ff193cec035"]);
    assert!(try_nonce(&base(8), &index, 0).is_some());
    assert!(try_nonce(&base(7), &index, 0).is_none());
}

#[test]
fn same_inputs_give_same_state() {
    let (index, _) = PrefixIndex::build(&["a4333eb984b6"]);
    let a = base(7);
    let b = base(7);
    assert_eq!(try_nonce(&a, &index, 0).unwrap().digest, try_nonce(&b, &index, 0).unwrap().digest);
}

#[test]
fn bad_parent_is_a_decode_error() {
    assert_eq!(
        PartialHashState::build("01x3", PAYLOAD, 7).err(),
        Some(DecodeError { position: 2 })
    );
    assert!(PartialHashState::build_with_random_salt("zz", PAYLOAD).is_err());
}

#[test]
fn random_salt_state_matches_the_salt() {
    let (state, salt) = PartialHashState::build_with_random_salt(PARENT, PAYLOAD).unwrap();
    let again = base(salt);
    let (empty, _) = PrefixIndex::build(&[]);
    assert!(search(&state, &empty, 3).is_none());
    assert!(search(&again, &empty, 3).is_none());
}

#[test]
fn search_finds_nonce_forty_two() {
    let b = base(7);
    let (index, _) = PrefixIndex::build(&["098b21f02c40"]);
    let r = search(&b, &index, 1000).unwrap();
    assert_eq!(r.nonce, 42);
    assert_eq!(String::from_utf8(r.prefix).unwrap(), "098b21f02c40");
    assert_eq!(
        vanity_collide::hex::to_hex(&r.digest),
        b"098b21f02c4020645325bf5e200029caf772046b".to_vec()
    );
}

#[test]
fn search_returns_smallest_hit() {
    let b = base(7);
    let (index, _) = PrefixIndex::build(&["e9587391e0e6", "c6f9d3b8a15c", "098b21f02c40"]);
    let hits: Vec<u64> = (0u64..50).filter(|n| try_nonce(&b, &index, *n).is_some()).collect();
    assert_eq!(hits, vec![3, 7, 42]);
    assert_eq!(search(&b, &index, 50).unwrap().nonce, 3);
    assert_eq!(search_range(&b, &index, 4, 50).unwrap().nonce, 7);
    assert_eq!(search_range(&b, &index, 8, 50).unwrap().nonce, 42);
    assert!(search_range(&b, &index, 43, 50).is_none());
    assert!(search(&b, &index, 3).is_none());
}

#[test]
fn empty_index_never_hits_within_budget() {
    let b = base(7);
    let (index, _) = PrefixIndex::build(&[]);
    assert!(search(&b, &index, 5000).is_none());
}

#[test]
fn suffix_reproduces_salt_and_nonce() {
    assert_eq!(String::from_utf8(commit_suffix(7, 42)).unwrap(), "7_42");
    assert_eq!(String::from_utf8(commit_suffix(4294967295, 0)).unwrap(), "4294967295_0");
    assert_eq!(
        String::from_utf8(commit_suffix(0, u64::MAX)).unwrap(),
        "0_18446744073709551615"
    );
}

#[test]
fn result_carries_full_digest() {
    let b = base(7);
    let (index, _) = PrefixIndex::build(&["a4333eb984b6"]);
    let r = search(&b, &index, 10).unwrap();
    assert_eq!(r.digest.len(), 20);
    assert_eq!(r.prefix.len(), 12);
    let hex = vanity_collide::hex::to_hex(&r.digest);
    assert_eq!(hex.len(), 40);
    assert!(hex.starts_with(&r.prefix));
}
