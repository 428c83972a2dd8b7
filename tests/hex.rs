use vanity_collide::hex::{from_hex, to_hex, DecodeError};

#[test]
fn decodes_pairs_of_digits() {
    assert_eq!(from_hex("00ff10").unwrap(), vec![0x00, 0xff, 0x10]);
}

#[test]
fn decodes_either_case() {
    assert_eq!(from_hex("aBcD").unwrap(), vec![0xab, 0xcd]);
    assert_eq!(from_hex("ABCDEF").unwrap(), from_hex("abcdef").unwrap());
}

#[test]
fn skips_whitespace_inside_a_pair() {
    assert_eq!(from_hex("a 0\tb\r\n1").unwrap(), vec![0xa0, 0xb1]);
    assert_eq!(from_hex(" \n").unwrap(), Vec::<u8>::new());
}

#[test]
fn drops_a_last_unpaired_digit() {
    assert_eq!(from_hex("abc").unwrap(), vec![0xab]);
}

#[test]
fn empty_text_is_empty() {
    assert_eq!(from_hex("").unwrap(), Vec::<u8>::new());
}

#[test]
fn rejects_other_characters() {
    assert_eq!(from_hex("zz"), Err(DecodeError { position: 0 }));
    assert_eq!(from_hex("ab g0"), Err(DecodeError { position: 3 }));
    assert_eq!(from_hex("01-"), Err(DecodeError { position: 2 }));
    assert_eq!(from_hex("é0"), Err(DecodeError { position: 0 }));
}

#[test]
fn renders_lowercase_pairs() {
    assert_eq!(String::from_utf8(to_hex(&[0x0f, 0xa0, 0x00, 0xff])).unwrap(), "0fa000ff");
    assert_eq!(to_hex(&[]), Vec::<u8>::new());
}

#[test]
fn round_trip_of_rendered_bytes() {
    let cases: Vec<Vec<u8>> = vec![
        vec![],
        vec![0],
        vec![255, 1, 128, 17],
        (0u8..=255).collect(),
    ];
    for b in cases {
        let text = String::from_utf8(to_hex(&b)).unwrap();
        assert_eq!(from_hex(&text).unwrap(), b);
    }
}

#[test]
fn round_trip_with_whitespace_inserted() {
    let b = vec![0xde, 0xad, 0xbe, 0xef];
    let text = String::from_utf8(to_hex(&b)).unwrap();
    let spaced: String = text.chars().flat_map(|c| vec![c, ' ']).collect();
    assert_eq!(from_hex(&spaced).unwrap(), b);
}

#[test]
fn round_trip_of_uppercase_digits() {
    let b = vec![0x00, 0x9a, 0xbc, 0xff];
    let text: String = b.iter().map(|x| format!("{:02X}", x)).collect();
    assert_eq!(text, "009ABCFF");
    assert_eq!(from_hex(&text).unwrap(), b);
}

#[test]
fn runs_of_whitespace_between_digits() {
    assert_eq!(from_hex("d \t\r\n e\n\nad").unwrap(), vec![0xde, 0xad]);
}
