use spinoso::utf8::chars::OrdError;
use spinoso::utf8::{InvalidCodepointError, Utf8String};

fn string(bytes: &[u8]) -> Utf8String {
    Utf8String::new(bytes.to_vec())
}

#[test]
fn get_char_of_ascii_is_the_byte() {
    let s = string(b"abc");
    assert_eq!(s.get_char(0), Some(&b"a"[..]));
    assert_eq!(s.get_char(2), Some(&b"c"[..]));
    assert_eq!(s.get_char(3), None);
    assert_eq!(string(b"").get_char(0), None);
}

#[test]
fn get_char_counts_characters_not_bytes() {
    let s = string("a💎b🦀".as_bytes());
    assert_eq!(s.get_char(0), Some("a".as_bytes()));
    assert_eq!(s.get_char(1), Some("💎".as_bytes()));
    assert_eq!(s.get_char(2), Some("b".as_bytes()));
    assert_eq!(s.get_char(3), Some("🦀".as_bytes()));
    assert_eq!(s.get_char(4), None);
    assert_eq!(s.get_char(9), None);
}

#[test]
fn get_char_takes_invalid_bytes_one_by_one() {
    // a truncated four-byte character, then a valid one
    let s = string(b"a\xF0\x9F\x87z");
    assert_eq!(s.get_char(0), Some(&b"a"[..]));
    assert_eq!(s.get_char(1), Some(&b"\xF0"[..]));
    assert_eq!(s.get_char(2), Some(&b"\x9F"[..]));
    assert_eq!(s.get_char(3), Some(&b"\x87"[..]));
    assert_eq!(s.get_char(4), Some(&b"z"[..]));
    assert_eq!(s.get_char(5), None);
    let s = string(b"\xFF\xFEab");
    assert_eq!(s.get_char(1), Some(&b"\xFE"[..]));
    assert_eq!(s.get_char(2), Some(&b"a"[..]));
}

#[test]
fn get_char_slice_of_ascii_is_the_byte_range() {
    let s = string(b"abcdef");
    assert_eq!(s.get_char_slice(1..3), Some(&b"bc"[..]));
    assert_eq!(s.get_char_slice(4..100), Some(&b"ef"[..]));
    assert_eq!(s.get_char_slice(6..7), Some(&b""[..]));
    assert_eq!(s.get_char_slice(7..8), None);
}

#[test]
fn get_char_slice_counts_characters() {
    let s = string("a💎b🦀c".as_bytes());
    assert_eq!(s.get_char_slice(0..1), Some("a".as_bytes()));
    assert_eq!(s.get_char_slice(0..2), Some("a💎".as_bytes()));
    assert_eq!(s.get_char_slice(1..4), Some("💎b🦀".as_bytes()));
    assert_eq!(s.get_char_slice(3..5), Some("🦀c".as_bytes()));
    assert_eq!(s.get_char_slice(3..50), Some("🦀c".as_bytes()));
    assert_eq!(s.get_char_slice(5..6), Some("".as_bytes()));
    assert_eq!(s.get_char_slice(6..7), None);
}

#[test]
fn get_char_slice_cuts_inside_invalid_bytes() {
    let s = string(b"a\xF0\x9F\x87");
    assert_eq!(s.get_char_slice(0..2), Some(&b"a\xF0"[..]));
    assert_eq!(s.get_char_slice(1..3), Some(&b"\xF0\x9F"[..]));
    assert_eq!(s.get_char_slice(2..4), Some(&b"\x9F\x87"[..]));
    assert_eq!(s.get_char_slice(3..9), Some(&b"\x87"[..]));
    assert_eq!(s.get_char_slice(4..9), Some(&b""[..]));
    assert_eq!(s.get_char_slice(5..9), None);
}

#[test]
fn chr_is_the_first_character() {
    assert_eq!(string(b"").chr(), b"");
    assert_eq!(string(b"abc").chr(), b"a");
    assert_eq!(string("💎x".as_bytes()).chr(), "💎".as_bytes());
    assert_eq!(string(b"\xFFabc").chr(), b"\xFF");
}

#[test]
fn ord_is_the_number_of_the_first_character() {
    assert_eq!(string(b"abc").ord(), Ok(97));
    assert_eq!(string("💎".as_bytes()).ord(), Ok(0x1F48E));
    assert_eq!(string("☃".as_bytes()).ord(), Ok(0x2603));
    assert_eq!(string(b"").ord(), Err(OrdError::EmptyString));
    assert_eq!(string(b"\xFFabc").ord(), Err(OrdError::InvalidUtf8ByteSequence));
    assert_eq!(string(b"\xE2\x98").ord(), Err(OrdError::InvalidUtf8ByteSequence));
}

#[test]
fn validity_of_the_encoding() {
    assert!(string(b"").is_valid_encoding());
    assert!(string(b"abc").is_valid_encoding());
    assert!(string("a💎☃".as_bytes()).is_valid_encoding());
    assert!(!string(b"abc\xFF").is_valid_encoding());
    assert!(!string(b"\xF0\x9F\x87").is_valid_encoding());
    // a surrogate and an overlong encoding
    assert!(!string(b"\xED\xA0\x80").is_valid_encoding());
    assert!(!string(b"\xC0\x80").is_valid_encoding());
}

#[test]
fn ascii_only() {
    assert!(string(b"").is_ascii_only());
    assert!(string(b"abc\x7F\x00").is_ascii_only());
    assert!(!string(b"abc\x80").is_ascii_only());
    assert!(!string("é".as_bytes()).is_ascii_only());
}

#[test]
fn ends_with_a_suffix() {
    let s = string(b"artichoke");
    assert!(s.ends_with(b"choke"));
    assert!(s.ends_with(b""));
    assert!(s.ends_with(b"artichoke"));
    assert!(!s.ends_with(b"an artichoke"));
    assert!(!s.ends_with(b"choka"));
    assert!(!s.ends_with(b"arti"));
}

#[test]
fn reverse_of_ascii_turns_the_bytes() {
    let mut s = string(b"abc");
    s.reverse();
    assert_eq!(s.as_slice(), b"cba");
    let mut s = string(b"");
    s.reverse();
    assert_eq!(s.as_slice(), b"");
}

#[test]
fn reverse_keeps_the_bytes_of_a_character_together() {
    let mut s = string("a💎b☃".as_bytes());
    s.reverse();
    assert_eq!(s.as_slice(), "☃b💎a".as_bytes());
    let mut s = string(b"\xF0\x9F\x87z\xE2\x98\x83");
    s.reverse();
    assert_eq!(s.as_slice(), b"\xE2\x98\x83z\x87\x9F\xF0");
}

#[test]
fn pushing_bytes_characters_and_strings() {
    let mut s = string(b"");
    s.push_byte(0x61);
    s.push_char('💎');
    s.push_char('é');
    s.push_str("☃z");
    s.extend_from_slice(b"\xFF");
    assert_eq!(s.as_slice(), b"a\xF0\x9F\x92\x8E\xC3\xA9\xE2\x98\x83z\xFF");
    assert_eq!(s.len(), 12);
    assert!(s.capacity() >= 12);
}

#[test]
fn pushing_codepoints() {
    let mut s = string(b"");
    assert_eq!(s.try_push_codepoint(0x61), Ok(()));
    assert_eq!(s.try_push_codepoint(0x1F48E), Ok(()));
    assert_eq!(s.as_slice(), "a💎".as_bytes());
    assert_eq!(s.try_push_codepoint(-1), Err(InvalidCodepointError::OutOfRange(-1)));
    assert_eq!(
        s.try_push_codepoint(1 << 40),
        Err(InvalidCodepointError::OutOfRange(1 << 40))
    );
    assert_eq!(
        s.try_push_codepoint(0xD800),
        Err(InvalidCodepointError::InvalidUtf8Codepoint(0xD800))
    );
    assert_eq!(
        s.try_push_codepoint(0x110000),
        Err(InvalidCodepointError::InvalidUtf8Codepoint(0x110000))
    );
    assert_eq!(s.as_slice(), "a💎".as_bytes());
}

#[test]
fn size_and_capacity() {
    let mut s = string(b"abcdef");
    s.reserve(10);
    assert!(s.capacity() >= 16);
    s.reserve_exact(20);
    assert!(s.capacity() >= 26);
    assert!(s.try_reserve(5).is_ok());
    assert!(s.try_reserve_exact(5).is_ok());
    assert!(s.try_reserve_exact(0).is_ok());
    assert!(s.try_reserve_exact(usize::MAX - 5).is_err());
    assert!(s.try_reserve(usize::MAX).is_err());
    assert!(s.try_reserve_exact(usize::MAX).is_err());
    s.shrink_to(8);
    assert!(s.capacity() >= 8);
    s.shrink_to_fit();
    assert_eq!(s.as_slice(), b"abcdef");
    s.truncate(10);
    assert_eq!(s.as_slice(), b"abcdef");
    s.truncate(2);
    assert_eq!(s.as_slice(), b"ab");
    assert!(!s.is_empty());
    s.clear();
    assert!(s.is_empty());
    assert_eq!(s.len(), 0);
}

#[test]
fn indexing_and_iterating() {
    let mut s = string(b"abc");
    assert_eq!(s.get(1), Some(&b'b'));
    assert_eq!(s.get(3), None);
    assert_eq!(s.get(1..3), Some(&b"bc"[..]));
    assert_eq!(s.get(2..9), None);
    assert_eq!(s.iter().copied().collect::<Vec<u8>>(), b"abc".to_vec());
    s.as_mut_slice()[0] = b'z';
    assert_eq!(s.clone().into_iter().collect::<Vec<u8>>(), b"zbc".to_vec());
    assert_eq!(s.into_vec(), b"zbc".to_vec());
}

#[test]
fn char_len_takes_invalid_bytes_one_by_one() {
    assert_eq!(string(b"\xF0\x9F\x87").char_len(), 3);
    assert_eq!(string(b"ab\xF0\x9F\x87cd").char_len(), 7);
    assert_eq!(string("ab☃".as_bytes()).char_len(), 3);
}
