//! Hexadecimal text: rendering bytes as lowercase digits and reading digits
//! back, with whitespace between them ignored.

use vstd::prelude::*;
use vstd::string::StringSliceAdditionalSpecFns;

verus! {

/// Space, carriage return, line feed and tab.
pub open spec fn is_space(b: u8) -> bool {
    b == 0x20 || b == 0x0d || b == 0x0a || b == 0x09
}

/// `0-9`, `A-F` and `a-f`.
pub open spec fn is_hex_digit(b: u8) -> bool {
    (0x30 <= b <= 0x39) || (0x41 <= b <= 0x46) || (0x61 <= b <= 0x66)
}

/// The value of a hex digit.
pub open spec fn nibble_of(b: u8) -> u8 {
    if 0x30 <= b <= 0x39 {
        (b - 0x30) as u8
    } else if 0x41 <= b <= 0x46 {
        (b - 0x41 + 10) as u8
    } else {
        (b - 0x61 + 10) as u8
    }
}

/// The lowercase digit that stands for `n < 16`.
pub open spec fn hex_char(n: u8) -> u8 {
    if n < 10 {
        (0x30 + n) as u8
    } else {
        (0x61 + n - 10) as u8
    }
}

/// The values of the hex digits of `s`, in order, whitespace and anything
/// else left out.
pub open spec fn nibbles(s: Seq<u8>) -> Seq<u8>
    decreases s.len(),
{
    if s.len() == 0 {
        seq![]
    } else {
        let rest = nibbles(s.drop_last());
        if is_hex_digit(s.last()) {
            rest.push(nibble_of(s.last()))
        } else {
            rest
        }
    }
}

/// Consecutive pairs of nibbles joined into bytes, high nibble first; an odd
/// nibble at the end is left out.
pub open spec fn pair_up(d: Seq<u8>) -> Seq<u8> {
    Seq::new(d.len() / 2, |i: int| (d[2 * i] * 16 + d[2 * i + 1]) as u8)
}

/// Every byte is a hex digit or whitespace.
pub open spec fn is_hex_text(s: Seq<u8>) -> bool {
    forall|i: int| 0 <= i < s.len() ==> is_hex_digit(#[trigger] s[i]) || is_space(s[i])
}

/// The bytes that hex text stands for, or `None` where it holds a byte that
/// is neither a hex digit nor whitespace.
pub open spec fn decode(s: Seq<u8>) -> Option<Seq<u8>> {
    if is_hex_text(s) {
        Some(pair_up(nibbles(s)))
    } else {
        None
    }
}

/// Two lowercase hex digits for each byte, high nibble first.
pub open spec fn encode(b: Seq<u8>) -> Seq<u8> {
    Seq::new(
        2 * b.len(),
        |i: int|
            if i % 2 == 0 {
                hex_char((b[i / 2] / 16) as u8)
            } else {
                hex_char((b[i / 2] % 16) as u8)
            },
    )
}

/// Where hex text holds a byte that is neither a hex digit nor whitespace.
#[derive(Debug, Clone, Copy, PartialEq, Eq, Structural)]
pub struct DecodeError {
    /// Index of the first such byte.
    pub position: usize,
}

fn is_space_byte(b: u8) -> (r: bool)
    ensures
        r == is_space(b),
{
    b == 0x20 || b == 0x0d || b == 0x0a || b == 0x09
}

fn nibble_value(b: u8) -> (r: Option<u8>)
    ensures
        r == (if is_hex_digit(b) { Some(nibble_of(b)) } else { None::<u8> }),
        r matches Some(n) ==> n < 16,
{
    if 0x30 <= b && b <= 0x39 {
        Some(b - 0x30)
    } else if 0x41 <= b && b <= 0x46 {
        Some(b - 0x41 + 10)
    } else if 0x61 <= b && b <= 0x66 {
        Some(b - 0x61 + 10)
    } else {
        None
    }
}

pub(crate) fn hex_digit_char(n: u8) -> (r: u8)
    requires
        n < 16,
    ensures
        r == hex_char(n),
{
    if n < 10 {
        0x30 + n
    } else {
        0x61 + n - 10
    }
}

proof fn lemma_nibbles_small(s: Seq<u8>)
    ensures
        forall|i: int| 0 <= i < nibbles(s).len() ==> #[trigger] nibbles(s)[i] < 16,
    decreases s.len(),
{
    if s.len() > 0 {
        lemma_nibbles_small(s.drop_last());
        let rest = nibbles(s.drop_last());
        if is_hex_digit(s.last()) {
            assert(nibble_of(s.last()) < 16);
            assert forall|i: int| 0 <= i < nibbles(s).len() implies #[trigger] nibbles(s)[i] < 16 by {
                if i < rest.len() {
                    assert(nibbles(s)[i] == rest[i]);
                }
            }
        }
    }
}

/// Reads hex text into bytes: two digits make a byte, high nibble first, in
/// either case; whitespace between digits is skipped and does not break a
/// pair; a last unpaired digit is dropped. Any other byte is an error.
pub fn from_hex(input: &str) -> (r: Result<Vec<u8>, DecodeError>)
    ensures
        match r {
            Ok(v) => decode(input.spec_bytes()) == Some(v@),
            Err(e) => {
                &&& decode(input.spec_bytes()) is None
                &&& e.position < input.spec_bytes().len()
                &&& !is_hex_digit(input.spec_bytes()[e.position as int])
                &&& !is_space(input.spec_bytes()[e.position as int])
                &&& is_hex_text(input.spec_bytes().take(e.position as int))
            },
        },
{
    let bytes = input.as_bytes();
    let ghost s = bytes@;
    let mut out: Vec<u8> = Vec::new();
    let mut pending: bool = false;
    let mut high: u8 = 0;
    let mut i: usize = 0;
    while i < bytes.len()
        invariant
            s == bytes@,
            s == input.spec_bytes(),
            0 <= i <= s.len(),
            is_hex_text(s.take(i as int)),
            pending == (nibbles(s.take(i as int)).len() % 2 == 1),
            pending ==> high == nibbles(s.take(i as int)).last(),
            out@ == pair_up(nibbles(s.take(i as int))),
        decreases s.len() - i,
    {
        let c = bytes[i];
        let ghost before = nibbles(s.take(i as int));
        assert(s.take(i + 1).drop_last() =~= s.take(i as int));
        assert(s.take(i + 1).last() == c);
        proof {
            lemma_nibbles_small(s.take(i as int));
        }
        if is_space_byte(c) {
        } else {
            match nibble_value(c) {
                Some(n) => {
                    let ghost after = before.push(n);
                    assert(nibbles(s.take(i + 1)) == after);
                    if pending {
                        out.push(high * 16 + n);
                        assert(out@ =~= pair_up(after));
                        pending = false;
                    } else {
                        assert(pair_up(after) =~= pair_up(before));
                        high = n;
                        pending = true;
                    }
                },
                None => {
                    assert(!is_hex_text(s));
                    return Err(DecodeError { position: i });
                },
            }
        }
        assert(is_hex_text(s.take(i + 1)));
        i += 1;
    }
    assert(s.take(i as int) =~= s);
    Ok(out)
}

/// Renders bytes as lowercase hex digits, two for each byte.
pub fn to_hex(b: &[u8]) -> (r: Vec<u8>)
    ensures
        r@ == encode(b@),
{
    let mut out: Vec<u8> = Vec::new();
    let mut i: usize = 0;
    while i < b.len()
        invariant
            0 <= i <= b@.len(),
            out@ =~= encode(b@.take(i as int)),
        decreases b@.len() - i,
    {
        let x = b[i];
        out.push(hex_digit_char(x / 16));
        out.push(hex_digit_char(x % 16));
        assert(out@ =~= encode(b@.take(i + 1)));
        i += 1;
    }
    assert(b@.take(i as int) =~= b@);
    out
}

proof fn lemma_nibbles_of_digits(s: Seq<u8>)
    requires
        forall|i: int| 0 <= i < s.len() ==> is_hex_digit(#[trigger] s[i]),
    ensures
        nibbles(s) == s.map_values(|c: u8| nibble_of(c)),
    decreases s.len(),
{
    if s.len() > 0 {
        let t = s.drop_last();
        assert forall|i: int| 0 <= i < t.len() implies is_hex_digit(#[trigger] t[i]) by {
            assert(t[i] == s[i]);
        }
        lemma_nibbles_of_digits(t);
        assert(is_hex_digit(s[s.len() - 1]));
        assert(nibbles(s) =~= s.map_values(|c: u8| nibble_of(c)));
    }
}

proof fn lemma_nibbles_concat(a: Seq<u8>, b: Seq<u8>)
    ensures
        nibbles(a + b) == nibbles(a) + nibbles(b),
    decreases b.len(),
{
    if b.len() == 0 {
        assert(a + b =~= a);
        assert(nibbles(b) =~= seq![]);
        assert(nibbles(a) + nibbles(b) =~= nibbles(a));
    } else {
        lemma_nibbles_concat(a, b.drop_last());
        assert((a + b).drop_last() =~= a + b.drop_last());
        assert((a + b).last() == b.last());
        if is_hex_digit(b.last()) {
            assert(nibbles(a + b) =~= nibbles(a) + nibbles(b));
        } else {
            assert(nibbles(a + b) =~= nibbles(a) + nibbles(b));
        }
    }
}

proof fn lemma_nibbles_len(s: Seq<u8>)
    ensures
        nibbles(s).len() <= s.len(),
    decreases s.len(),
{
    if s.len() > 0 {
        lemma_nibbles_len(s.drop_last());
    }
}

/// Hex text stands for at most half as many bytes as it holds.
pub proof fn lemma_decode_len(s: Seq<u8>)
    ensures
        decode(s) matches Some(b) ==> b.len() <= s.len() / 2,
{
    lemma_nibbles_len(s);
}

/// The uppercase digit that stands for `n < 16`.
pub open spec fn hex_char_upper(n: u8) -> u8 {
    if n < 10 {
        (0x30 + n) as u8
    } else {
        (0x41 + n - 10) as u8
    }
}

/// Two uppercase hex digits for each byte, high nibble first.
pub open spec fn encode_upper(b: Seq<u8>) -> Seq<u8> {
    Seq::new(
        2 * b.len(),
        |i: int|
            if i % 2 == 0 {
                hex_char_upper((b[i / 2] / 16) as u8)
            } else {
                hex_char_upper((b[i / 2] % 16) as u8)
            },
    )
}

/// Every byte is whitespace.
pub open spec fn all_space(w: Seq<u8>) -> bool {
    forall|i: int| 0 <= i < w.len() ==> is_space(#[trigger] w[i])
}

proof fn lemma_decode_digit_pairs(e: Seq<u8>, b: Seq<u8>)
    requires
        e.len() == 2 * b.len(),
        forall|i: int| 0 <= i < e.len() ==> is_hex_digit(#[trigger] e[i]),
        forall|i: int|
            0 <= i < b.len() ==> nibble_of(#[trigger] e[2 * i]) == b[i] / 16 && nibble_of(
                e[2 * i + 1],
            ) == b[i] % 16,
    ensures
        decode(e) == Some(b),
{
    assert(is_hex_text(e));
    lemma_nibbles_of_digits(e);
    let d = nibbles(e);
    assert forall|i: int| 0 <= i < b.len() implies #[trigger] pair_up(d)[i] == b[i] by {
        assert(nibble_of(e[2 * i]) == b[i] / 16);
        assert(d[2 * i] == b[i] / 16);
        assert(d[2 * i + 1] == b[i] % 16);
    }
    assert(pair_up(d) =~= b);
}

/// Reading back what `to_hex` renders gives the bytes that were rendered.
pub proof fn lemma_decode_encode(b: Seq<u8>)
    ensures
        decode(encode(b)) == Some(b),
{
    let e = encode(b);
    assert forall|i: int| 0 <= i < e.len() implies is_hex_digit(#[trigger] e[i]) by {
        assert(b[i / 2] / 16 < 16);
        assert(b[i / 2] % 16 < 16);
    }
    assert forall|i: int| 0 <= i < b.len() implies nibble_of(#[trigger] e[2 * i]) == b[i] / 16
        && nibble_of(e[2 * i + 1]) == b[i] % 16 by {
        assert(e[2 * i] == hex_char((b[i] / 16) as u8));
        assert(e[2 * i + 1] == hex_char((b[i] % 16) as u8));
    }
    lemma_decode_digit_pairs(e, b);
}

/// Digits in uppercase read back the same way.
pub proof fn lemma_decode_encode_upper(b: Seq<u8>)
    ensures
        decode(encode_upper(b)) == Some(b),
{
    let e = encode_upper(b);
    assert forall|i: int| 0 <= i < e.len() implies is_hex_digit(#[trigger] e[i]) by {
        assert(b[i / 2] / 16 < 16);
        assert(b[i / 2] % 16 < 16);
    }
    assert forall|i: int| 0 <= i < b.len() implies nibble_of(#[trigger] e[2 * i]) == b[i] / 16
        && nibble_of(e[2 * i + 1]) == b[i] % 16 by {
        assert(e[2 * i] == hex_char_upper((b[i] / 16) as u8));
        assert(e[2 * i + 1] == hex_char_upper((b[i] % 16) as u8));
    }
    lemma_decode_digit_pairs(e, b);
}

proof fn lemma_nibbles_of_space(w: Seq<u8>)
    requires
        all_space(w),
    ensures
        nibbles(w) == Seq::<u8>::empty(),
    decreases w.len(),
{
    if w.len() > 0 {
        let t = w.drop_last();
        assert forall|i: int| 0 <= i < t.len() implies is_space(#[trigger] t[i]) by {
            assert(t[i] == w[i]);
        }
        lemma_nibbles_of_space(t);
        assert(is_space(w[w.len() - 1]));
    }
}

/// Any run of whitespace bytes, anywhere in hex text, even between the two
/// digits of a byte, changes neither whether it reads nor what it reads as.
pub proof fn lemma_whitespace_ignored(a: Seq<u8>, c: Seq<u8>, w: Seq<u8>)
    requires
        all_space(w),
    ensures
        decode(a + w + c) == decode(a + c),
{
    let s = a + w + c;
    let n = w.len();
    lemma_nibbles_concat(a + w, c);
    lemma_nibbles_concat(a, w);
    lemma_nibbles_concat(a, c);
    lemma_nibbles_of_space(w);
    assert(nibbles(a) + nibbles(w) =~= nibbles(a));
    if is_hex_text(a + c) {
        assert forall|i: int| 0 <= i < s.len() implies is_hex_digit(#[trigger] s[i]) || is_space(s[i]) by {
            if i < a.len() {
                assert(s[i] == (a + c)[i]);
            } else if i < a.len() + n {
                assert(s[i] == w[i - a.len()]);
            } else {
                assert(s[i] == (a + c)[i - n]);
            }
        }
    }
    if is_hex_text(s) {
        assert forall|i: int| 0 <= i < (a + c).len() implies is_hex_digit(#[trigger] (a + c)[i]) || is_space((a + c)[i]) by {
            if i < a.len() {
                assert(s[i] == (a + c)[i]);
            } else {
                assert(s[i + n] == (a + c)[i]);
            }
        }
    }
}

/// Any byte that is neither a hex digit nor whitespace makes the text fail
/// to read.
pub proof fn lemma_other_byte_rejected(s: Seq<u8>, i: int)
    requires
        0 <= i < s.len(),
        !is_hex_digit(s[i]),
        !is_space(s[i]),
    ensures
        decode(s) is None,
{
}

} // verus!
