use bee::lexical::{digits_only, find_byte, read_decimal, read_signed, COLON, END, MINUS, PLUS};

#[test]
fn delimiters() {
    assert_eq!(COLON, b':');
    assert_eq!(END, b'e');
    assert_eq!(MINUS, b'-');
    assert_eq!(PLUS, b'+');
    assert_eq!(bee::grammar::INTEGER, b'i');
    assert_eq!(bee::grammar::LIST, b'l');
    assert_eq!(bee::grammar::DICT, b'd');
}

#[test]
fn find_byte_gives_the_first() {
    let bytes = b"ab:cd:e".to_vec();
    assert_eq!(find_byte(&bytes, b':', 0), Some(2));
    assert_eq!(find_byte(&bytes, b':', 2), Some(2));
    assert_eq!(find_byte(&bytes, b':', 3), Some(5));
    assert_eq!(find_byte(&bytes, b':', 6), None);
    assert_eq!(find_byte(&bytes, b'e', 6), Some(6));
    assert_eq!(find_byte(&bytes, b'e', 7), None);
    assert_eq!(find_byte(&bytes, b'e', 100), None);
    assert_eq!(find_byte(&bytes, b'z', 0), None);
    assert_eq!(find_byte(&Vec::new(), b'z', 0), None);
}

#[test]
fn digits_only_on_ranges() {
    let bytes = b"12a45/:".to_vec();
    assert!(digits_only(&bytes, 0, 2));
    assert!(!digits_only(&bytes, 0, 3));
    assert!(digits_only(&bytes, 3, 5));
    assert!(digits_only(&bytes, 3, 3));
    assert!(!digits_only(&bytes, 5, 6));
    assert!(!digits_only(&bytes, 6, 7));
    assert!(digits_only(&b"0123456789".to_vec(), 0, 10));
}

#[test]
fn digits_only_outside_the_buffer() {
    let bytes = b"123".to_vec();
    assert!(digits_only(&bytes, 0, 3));
    assert!(!digits_only(&bytes, 0, 4));
    assert!(!digits_only(&bytes, 2, 1));
    assert!(!digits_only(&bytes, 4, 4));
    assert!(digits_only(&bytes, 3, 3));
}

#[test]
fn read_decimal_values() {
    let bytes = b"x00120y".to_vec();
    assert_eq!(read_decimal(&bytes, 1, 6, 1000), Some(120));
    assert_eq!(read_decimal(&bytes, 1, 6, 120), Some(120));
    assert_eq!(read_decimal(&bytes, 1, 6, 119), None);
    assert_eq!(read_decimal(&bytes, 1, 5, 12), Some(12));
    assert_eq!(read_decimal(&bytes, 1, 3, 0), Some(0));
    assert_eq!(read_decimal(&bytes, 3, 3, 0), Some(0));
    assert_eq!(read_decimal(&bytes, 3, 4, 0), None);
    let max = b"340282366920938463463374607431768211455".to_vec();
    assert_eq!(read_decimal(&max, 0, max.len(), u128::MAX), Some(u128::MAX));
    let over = b"340282366920938463463374607431768211456".to_vec();
    assert_eq!(read_decimal(&over, 0, over.len(), u128::MAX), None);
    let long = b"3402823669209384634633746074317682114550".to_vec();
    assert_eq!(read_decimal(&long, 0, long.len(), u128::MAX), None);
}

#[test]
fn read_decimal_rejects() {
    let bytes = b"12a4".to_vec();
    assert_eq!(read_decimal(&bytes, 0, 2, 100), Some(12));
    assert_eq!(read_decimal(&bytes, 0, 3, 100), None);
    assert_eq!(read_decimal(&bytes, 2, 3, 100), None);
    assert_eq!(read_decimal(&bytes, 0, 5, 100), None);
    assert_eq!(read_decimal(&bytes, 2, 1, 100), None);
    assert_eq!(read_decimal(&b"-1".to_vec(), 0, 2, 100), None);
    assert_eq!(read_decimal(&b"+1".to_vec(), 0, 2, 100), None);
}

#[test]
fn read_signed_values() {
    let bytes = b"i-12e+7;;0".to_vec();
    assert_eq!(read_signed(&bytes, 1, 4), Some(-12));
    assert_eq!(read_signed(&bytes, 2, 4), Some(12));
    assert_eq!(read_signed(&bytes, 5, 7), Some(7));
    assert_eq!(read_signed(&bytes, 9, 10), Some(0));
    assert_eq!(read_signed(&bytes, 1, 2), None);
    assert_eq!(read_signed(&bytes, 5, 6), None);
    assert_eq!(read_signed(&bytes, 4, 4), None);
    assert_eq!(read_signed(&bytes, 0, 4), None);
    assert_eq!(read_signed(&bytes, 1, 5), None);
    assert_eq!(read_signed(&bytes, 7, 8), None);
    assert_eq!(read_signed(&bytes, 9, 11), None);
    assert_eq!(read_signed(&bytes, 3, 2), None);
    assert_eq!(read_signed(&bytes, 10, 10), None);
}

#[test]
fn read_signed_range() {
    let max = b"+170141183460469231731687303715884105727".to_vec();
    assert_eq!(read_signed(&max, 0, max.len()), Some(i128::MAX));
    assert_eq!(read_signed(&max, 1, max.len()), Some(i128::MAX));
    let over = b"170141183460469231731687303715884105728".to_vec();
    assert_eq!(read_signed(&over, 0, over.len()), None);
    let min = b"-170141183460469231731687303715884105728".to_vec();
    assert_eq!(read_signed(&min, 0, min.len()), Some(i128::MIN));
    let under = b"-170141183460469231731687303715884105729".to_vec();
    assert_eq!(read_signed(&under, 0, under.len()), None);
}
