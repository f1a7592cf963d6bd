use spinoso::bridge::{
    byte_order, digit, digits_in_radix, index_of, integer_text, resize_action, resolve_offset,
    substr_start, IntegerText, Resize,
};

#[test]
fn offsets_that_are_not_negative_stand_for_themselves() {
    assert_eq!(resolve_offset(0, 5), Some(0));
    assert_eq!(resolve_offset(3, 5), Some(3));
    assert_eq!(resolve_offset(9, 5), Some(9));
}

#[test]
fn negative_offsets_count_past_the_length() {
    assert_eq!(resolve_offset(-5, 5), Some(0));
    assert_eq!(resolve_offset(-7, 5), Some(2));
    assert_eq!(resolve_offset(-4, 5), None);
    assert_eq!(resolve_offset(-1, 0), Some(1));
    assert_eq!(resolve_offset(i64::MIN, 0), None);
}

#[test]
fn index_of_finds_the_first_occurrence() {
    assert_eq!(index_of(b"foo bar baz", b"bar", 0), 4);
    assert_eq!(index_of(b"foo bar baz", b"ba", 0), 4);
    assert_eq!(index_of(b"foo bar baz", b"quux", 0), -1);
    // the position is counted from the start of the search
    assert_eq!(index_of(b"foo bar baz", b"ba", 5), 3);
    assert_eq!(index_of(b"foo bar baz", b"foo", 1), -1);
}

#[test]
fn index_of_an_empty_needle_is_the_start() {
    assert_eq!(index_of(b"abc", b"", 0), 0);
    assert_eq!(index_of(b"abc", b"", 2), 2);
    assert_eq!(index_of(b"abc", b"", 3), 3);
    assert_eq!(index_of(b"abc", b"", 4), -1);
}

#[test]
fn index_of_outside_the_haystack_is_not_found() {
    assert_eq!(index_of(b"abc", b"a", 4), -1);
    assert_eq!(index_of(b"abc", b"a", -2), -1);
    assert_eq!(index_of(b"abc", b"c", -5), 0);
}

#[test]
fn substr_start_is_the_resolved_position() {
    assert_eq!(substr_start(5, 2, 1), Some(2));
    assert_eq!(substr_start(5, 5, 0), Some(5));
    assert_eq!(substr_start(5, 6, 1), None);
    assert_eq!(substr_start(5, 2, -1), None);
    assert_eq!(substr_start(5, -7, 1), Some(2));
    assert_eq!(substr_start(5, -3, 1), None);
}

#[test]
fn resize_action_by_length() {
    assert_eq!(resize_action(5, 5), Resize::Keep);
    assert_eq!(resize_action(5, -1), Resize::Keep);
    assert_eq!(resize_action(5, 8), Resize::Grow(3));
    assert_eq!(resize_action(5, 2), Resize::Truncate(2));
    assert_eq!(resize_action(5, 0), Resize::Truncate(0));
    assert_eq!(resize_action(0, 0), Resize::Keep);
}

#[test]
fn byte_order_is_lexicographic() {
    assert_eq!(byte_order(b"", b""), 0);
    assert_eq!(byte_order(b"abc", b"abc"), 0);
    assert_eq!(byte_order(b"abc", b"abd"), -1);
    assert_eq!(byte_order(b"abd", b"abc"), 1);
    assert_eq!(byte_order(b"ab", b"abc"), -1);
    assert_eq!(byte_order(b"abc", b"ab"), 1);
    assert_eq!(byte_order(b"", b"a"), -1);
    assert_eq!(byte_order(b"\xFF", b"a"), 1);
    assert_eq!(byte_order(b"b", b"abc"), 1);
}

#[test]
fn digits_are_ascii() {
    assert_eq!(digit(0), b'0');
    assert_eq!(digit(9), b'9');
    assert_eq!(digit(10), b'a');
    assert_eq!(digit(35), b'z');
}

#[test]
fn digits_in_radix_writes_the_number() {
    assert_eq!(digits_in_radix(0, 10), b"0".to_vec());
    assert_eq!(digits_in_radix(7, 10), b"7".to_vec());
    assert_eq!(digits_in_radix(1234, 10), b"1234".to_vec());
    assert_eq!(digits_in_radix(255, 16), b"ff".to_vec());
    assert_eq!(digits_in_radix(255, 2), b"11111111".to_vec());
    assert_eq!(digits_in_radix(35, 36), b"z".to_vec());
    assert_eq!(digits_in_radix(36, 36), b"10".to_vec());
    assert_eq!(digits_in_radix(i64::MAX, 10), b"9223372036854775807".to_vec());
}

#[test]
fn integer_text_reads_and_writes() {
    assert_eq!(integer_text(b"1234", 10, true), IntegerText::Digits(b"1234".to_vec()));
    assert_eq!(integer_text(b"255", 16, true), IntegerText::Digits(b"ff".to_vec()));
    assert_eq!(integer_text(b"+12", 2, false), IntegerText::Digits(b"1100".to_vec()));
    assert_eq!(integer_text(b"0", 36, false), IntegerText::Digits(b"0".to_vec()));
}

#[test]
fn integer_text_of_what_is_not_a_number() {
    assert_eq!(integer_text(b"abc", 10, true), IntegerText::InvalidNumber);
    assert_eq!(integer_text(b"abc", 10, false), IntegerText::Zero);
    assert_eq!(integer_text(b"", 10, false), IntegerText::Zero);
    assert_eq!(integer_text(b"\xFF", 10, true), IntegerText::InvalidNumber);
    assert_eq!(integer_text(b"\xFF", 10, false), IntegerText::Zero);
    assert_eq!(integer_text(b"99999999999999999999", 10, true), IntegerText::InvalidNumber);
    // not a number comes before the radix
    assert_eq!(integer_text(b"abc", 99, true), IntegerText::InvalidNumber);
}

#[test]
fn integer_text_refuses_a_radix_outside_two_to_thirty_six() {
    assert_eq!(integer_text(b"12", 1, true), IntegerText::IllegalRadix);
    assert_eq!(integer_text(b"12", 37, false), IntegerText::IllegalRadix);
    assert_eq!(integer_text(b"12", -10, true), IntegerText::IllegalRadix);
    assert_eq!(integer_text(b"-12", 0, true), IntegerText::IllegalRadix);
}

#[test]
fn integer_text_of_a_negative_number() {
    assert_eq!(integer_text(b"-12", 10, true), IntegerText::NegativeNumber);
}
