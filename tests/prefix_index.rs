use vanity_collide::prefix_index::PrefixIndex;

#[test]
fn short_entries_are_dropped() {
    let (index, notices) = PrefixIndex::build(&["0123456789ab", "0123", "", "fedcba9876543210"]);
    assert_eq!(index.len(), 2);
    assert!(index.contains(b"0123456789ab"));
    assert!(index.contains(b"fedcba987654"));
    assert!(!index.contains(b"0123"));
    assert!(notices.is_empty());
}

#[test]
fn empty_input_gives_empty_index() {
    let (index, notices) = PrefixIndex::build(&[]);
    assert_eq!(index.len(), 0);
    assert!(notices.is_empty());
    assert!(!index.contains(b"000000000000"));
}

#[test]
fn duplicate_prefix_gives_one_notice_per_extra_entry() {
    let hashes = [
        "abcdefabcdef0000",
        "abcdefabcdef1111",
        "111111111111",
        "abcdefabcdef2222",
        "111111111111aaaa",
    ];
    let (index, notices) = PrefixIndex::build(&hashes);
    assert_eq!(index.len(), 2);
    assert_eq!(
        notices,
        vec![b"abcdefabcdef".to_vec(), b"abcdefabcdef".to_vec(), b"111111111111".to_vec()]
    );
}

#[test]
fn size_is_at_most_the_long_entries() {
    let hashes = ["aaaaaaaaaaaa", "aaaaaaaaaaaa", "bbbbbbbbbbbb", "ccc"];
    let (index, _) = PrefixIndex::build(&hashes);
    let long = hashes.iter().filter(|h| h.len() >= 12).count();
    assert!(index.len() <= long);
    assert_eq!(index.len(), 2);
}

#[test]
fn prefix_comparison_is_exact() {
    let (index, _) = PrefixIndex::build(&["ABCDEF123456"]);
    assert!(index.contains(b"ABCDEF123456"));
    assert!(!index.contains(b"abcdef123456"));
    assert!(!index.contains(b"ABCDEF12345"));
    assert!(!index.contains(b"ABCDEF1234567"));
}

#[test]
fn entries_with_non_ascii_start_are_dropped() {
    let (index, _) = PrefixIndex::build(&["ééééééééééééé"]);
    assert_eq!(index.len(), 0);
}
