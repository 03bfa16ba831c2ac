use bee::grammar::MAX_DEPTH;
use bee::{Bee, BeeValue, DecodeError};

fn decode(input: &[u8]) -> Result<Bee, DecodeError> {
    BeeValue::from_bytes(&input.to_vec())
}

fn failure(input: &[u8]) -> DecodeError {
    match decode(input) {
        Ok(node) => panic!("decoded to {:?}", node),
        Err(e) => e,
    }
}

fn keys(pairs: &[(String, Bee)]) -> Vec<String> {
    let mut keys: Vec<String> = pairs.iter().map(|pair| pair.0.clone()).collect();
    keys.sort();
    keys
}

fn nested(opener: u8, levels: usize) -> Vec<u8> {
    let mut bytes = vec![opener; levels];
    bytes.extend(vec![b'e'; levels]);
    bytes
}

#[test]
fn string_is_text() {
    let bytes = b"4:spam".to_vec();
    let (node, next) = BeeValue::dfs(&bytes, 0, MAX_DEPTH).unwrap();
    assert_eq!(node.get_string(), Some("spam".to_string()));
    assert_eq!(next, 6);
    assert_eq!(node.get_decoded(), bytes);
    assert_eq!(node.get_raw(), None);
    assert_eq!(node.get_int(), None);
    assert!(node.get_list().is_none());
    assert!(node.get_dict().is_none());
}

#[test]
fn empty_string_is_text() {
    let node = decode(b"0:").unwrap();
    assert_eq!(node.get_string(), Some(String::new()));
    assert_eq!(node.get_decoded(), b"0:".to_vec());
}

#[test]
fn length_with_leading_zeros() {
    let node = decode(b"004:spam").unwrap();
    assert_eq!(node.get_string(), Some("spam".to_string()));
    assert_eq!(node.get_decoded(), b"004:spam".to_vec());
}

#[test]
fn payload_may_hold_delimiters() {
    let node = decode(b"5:a:e:i").unwrap();
    assert_eq!(node.get_string(), Some("a:e:i".to_string()));
}

#[test]
fn multibyte_text() {
    let node = decode(b"6:h\xc3\xa9llo").unwrap();
    assert_eq!(node.get_string(), Some("h\u{e9}llo".to_string()));
    assert_eq!(node.get_raw(), None);
    let node = decode(b"4:\xf0\x9f\x90\x9d").unwrap();
    assert_eq!(node.get_string(), Some("\u{1f41d}".to_string()));
}

#[test]
fn integers() {
    assert_eq!(decode(b"i3e").unwrap().get_int(), Some(3));
    assert_eq!(decode(b"i-3e").unwrap().get_int(), Some(-3));
    assert_eq!(decode(b"i0e").unwrap().get_int(), Some(0));
    assert_eq!(decode(b"i1234567890e").unwrap().get_int(), Some(1234567890));
}

#[test]
fn integer_span_and_cursor() {
    let bytes = b"i-42e".to_vec();
    let (node, next) = BeeValue::dfs(&bytes, 0, 0).unwrap();
    assert_eq!(node.get_int(), Some(-42));
    assert_eq!(next, 5);
    assert_eq!(node.get_decoded(), bytes);
    assert_eq!(node.get_string(), None);
}

#[test]
fn integer_lexical_rule() {
    assert_eq!(decode(b"i+5e").unwrap().get_int(), Some(5));
    assert_eq!(decode(b"i-0e").unwrap().get_int(), Some(0));
    assert_eq!(decode(b"i007e").unwrap().get_int(), Some(7));
    assert_eq!(decode(b"i-007e").unwrap().get_int(), Some(-7));
    assert_eq!(failure(b"ie"), DecodeError::InvalidInteger);
    assert_eq!(failure(b"i-e"), DecodeError::InvalidInteger);
    assert_eq!(failure(b"i+e"), DecodeError::InvalidInteger);
    assert_eq!(failure(b"i--1e"), DecodeError::InvalidInteger);
    assert_eq!(failure(b"i1-e"), DecodeError::InvalidInteger);
    assert_eq!(failure(b"i1x2e"), DecodeError::InvalidInteger);
    assert_eq!(failure(b"i 1e"), DecodeError::InvalidInteger);
}

#[test]
fn integer_range() {
    assert_eq!(
        decode(b"i170141183460469231731687303715884105727e").unwrap().get_int(),
        Some(i128::MAX)
    );
    assert_eq!(
        decode(b"i-170141183460469231731687303715884105728e").unwrap().get_int(),
        Some(i128::MIN)
    );
    assert_eq!(
        decode(b"i-170141183460469231731687303715884105727e").unwrap().get_int(),
        Some(i128::MIN + 1)
    );
    assert_eq!(
        decode(b"i000000000000000000000000000000000000000000000000000000000012e").unwrap().get_int(),
        Some(12)
    );
    assert_eq!(
        failure(b"i170141183460469231731687303715884105728e"),
        DecodeError::InvalidInteger
    );
    assert_eq!(
        failure(b"i-170141183460469231731687303715884105729e"),
        DecodeError::InvalidInteger
    );
    assert_eq!(
        failure(b"i99999999999999999999999999999999999999999999999999e"),
        DecodeError::InvalidInteger
    );
}

#[test]
fn list_of_text() {
    let node = decode(b"l4:spam4:eggse").unwrap();
    let items = node.get_list().unwrap();
    assert_eq!(items.len(), 2);
    assert_eq!(items[0].get_string(), Some("spam".to_string()));
    assert_eq!(items[1].get_string(), Some("eggs".to_string()));
    assert_eq!(node.at(0).unwrap().get_string(), Some("spam".to_string()));
    assert_eq!(node.at(1).unwrap().get_string(), Some("eggs".to_string()));
    assert!(node.at(2).is_none());
    assert!(node.get("spam").is_none());
    assert!(node.get_dict().is_none());
}

#[test]
fn dictionary_of_text() {
    let node = decode(b"d3:cow3:moo4:spam4:eggse").unwrap();
    let pairs = node.get_dict().unwrap();
    assert_eq!(pairs.len(), 2);
    assert_eq!(keys(&pairs), vec!["cow".to_string(), "spam".to_string()]);
    for (key, child) in pairs.iter() {
        let expected = if key == "cow" { "moo" } else { "eggs" };
        assert_eq!(child.get_string(), Some(expected.to_string()));
    }
    assert_eq!(node.get("cow").unwrap().get_string(), Some("moo".to_string()));
    assert_eq!(node.get("spam").unwrap().get_string(), Some("eggs".to_string()));
    assert!(node.get("eggs").is_none());
    assert!(node.at(0).is_none());
    assert!(node.get_list().is_none());
}

#[test]
fn empty_collections() {
    let list = decode(b"le").unwrap();
    assert_eq!(list.get_list().unwrap().len(), 0);
    assert!(list.get_dict().is_none());
    assert_eq!(list.get_decoded(), b"le".to_vec());
    let dict = decode(b"de").unwrap();
    assert_eq!(dict.get_dict().unwrap().len(), 0);
    assert!(dict.get_list().is_none());
    assert_eq!(dict.get_decoded(), b"de".to_vec());
}

#[test]
fn declared_length_past_the_end() {
    assert_eq!(failure(b"5:abc"), DecodeError::TruncatedInput);
    assert_eq!(failure(b"1:"), DecodeError::TruncatedInput);
    assert_eq!(failure(b"l5:abce"), DecodeError::TruncatedInput);
    assert_eq!(
        failure(b"99999999999999999999999999999999999999999999999999:abc"),
        DecodeError::TruncatedInput
    );
    assert_eq!(failure(b"18446744073709551615:abc"), DecodeError::TruncatedInput);
    assert_eq!(failure(b"18446744073709551616:abc"), DecodeError::TruncatedInput);
}

#[test]
fn dictionary_with_integer_value() {
    let node = decode(b"d3:cowi5ee").unwrap();
    let pairs = node.get_dict().unwrap();
    assert_eq!(pairs.len(), 1);
    assert_eq!(pairs[0].0, "cow");
    assert_eq!(pairs[0].1.get_int(), Some(5));
    assert_eq!(node.get("cow").unwrap().get_int(), Some(5));
}

#[test]
fn dictionary_key_must_be_text() {
    assert_eq!(failure(b"di5e3:cowe"), DecodeError::NonTextKey);
    assert_eq!(failure(b"dle3:cowe"), DecodeError::NonTextKey);
    assert_eq!(failure(b"dde3:cowe"), DecodeError::NonTextKey);
    assert_eq!(failure(b"d2:\xff\xfei1ee"), DecodeError::NonTextKey);
    assert_eq!(failure(b"d3:cowi5ei6e3:mooe"), DecodeError::NonTextKey);
}

#[test]
fn key_is_judged_before_its_value() {
    assert_eq!(failure(b"di5e"), DecodeError::NonTextKey);
    assert_eq!(failure(b"di5ex"), DecodeError::NonTextKey);
}

#[test]
fn invalid_text_is_raw() {
    let node = decode(b"2:\xff\xfe").unwrap();
    assert_eq!(node.get_raw(), Some(vec![0xff, 0xfe]));
    assert_eq!(node.get_string(), None);
    assert_eq!(node.get_decoded(), b"2:\xff\xfe".to_vec());
}

#[test]
fn ill_formed_utf8_is_raw() {
    // A lone continuation byte, an overlong form, a surrogate, a scalar past
    // the last one, and a sequence cut short.
    assert_eq!(decode(b"1:\x80").unwrap().get_raw(), Some(vec![0x80]));
    assert_eq!(decode(b"2:\xc0\x80").unwrap().get_raw(), Some(vec![0xc0, 0x80]));
    assert_eq!(decode(b"3:\xed\xa0\x80").unwrap().get_raw(), Some(vec![0xed, 0xa0, 0x80]));
    assert_eq!(
        decode(b"4:\xf4\x90\x80\x80").unwrap().get_raw(),
        Some(vec![0xf4, 0x90, 0x80, 0x80])
    );
    assert_eq!(decode(b"2:a\xc3").unwrap().get_raw(), Some(vec![0x61, 0xc3]));
}

#[test]
fn raw_value_in_a_dictionary() {
    let node = decode(b"d4:hash2:\xff\x00e").unwrap();
    assert_eq!(node.get("hash").unwrap().get_raw(), Some(vec![0xff, 0x00]));
}

#[test]
fn malformed_length() {
    assert_eq!(failure(b"4spam"), DecodeError::MalformedLength);
    assert_eq!(failure(b"4"), DecodeError::MalformedLength);
    assert_eq!(failure(b"4x:spam"), DecodeError::MalformedLength);
    assert_eq!(failure(b"4-1:spam"), DecodeError::MalformedLength);
    assert_eq!(failure(b"1 :a"), DecodeError::MalformedLength);
    assert_eq!(failure(b"9e9:a"), DecodeError::MalformedLength);
}

#[test]
fn malformed_length_comes_before_truncation() {
    assert_eq!(failure(b"99x:a"), DecodeError::MalformedLength);
    assert_eq!(failure(b"99"), DecodeError::MalformedLength);
}

#[test]
fn empty_input() {
    assert_eq!(failure(b""), DecodeError::TruncatedInput);
    let bytes = b"i1e".to_vec();
    assert!(matches!(BeeValue::dfs(&bytes, 3, MAX_DEPTH), Err(DecodeError::TruncatedInput)));
    assert!(matches!(BeeValue::dfs(&bytes, 99, MAX_DEPTH), Err(DecodeError::TruncatedInput)));
}

#[test]
fn unterminated_integer() {
    assert_eq!(failure(b"i42"), DecodeError::UnterminatedInteger);
    assert_eq!(failure(b"i"), DecodeError::UnterminatedInteger);
    assert_eq!(failure(b"li42"), DecodeError::UnterminatedInteger);
}

#[test]
fn integer_ends_at_the_first_terminator() {
    assert_eq!(failure(b"li1ei2"), DecodeError::UnterminatedInteger);
    let node = decode(b"i1ee").unwrap();
    assert_eq!(node.get_int(), Some(1));
    assert_eq!(node.get_decoded(), b"i1e".to_vec());
}

#[test]
fn unterminated_collection() {
    assert_eq!(failure(b"l"), DecodeError::UnterminatedCollection);
    assert_eq!(failure(b"li1e"), DecodeError::UnterminatedCollection);
    assert_eq!(failure(b"l4:spam"), DecodeError::UnterminatedCollection);
    assert_eq!(failure(b"d"), DecodeError::UnterminatedCollection);
    assert_eq!(failure(b"d3:cow"), DecodeError::UnterminatedCollection);
    assert_eq!(failure(b"d3:cow3:moo"), DecodeError::UnterminatedCollection);
    assert_eq!(failure(b"llee"[..3].as_ref()), DecodeError::UnterminatedCollection);
}

#[test]
fn unexpected_byte() {
    assert_eq!(failure(b"x"), DecodeError::UnexpectedByte);
    assert_eq!(failure(b"e"), DecodeError::UnexpectedByte);
    assert_eq!(failure(b":"), DecodeError::UnexpectedByte);
    assert_eq!(failure(b"-1"), DecodeError::UnexpectedByte);
    assert_eq!(failure(b"lxe"), DecodeError::UnexpectedByte);
    assert_eq!(failure(b"d3:cowxe"), DecodeError::UnexpectedByte);
    assert_eq!(failure(b"L"), DecodeError::UnexpectedByte);
}

#[test]
fn key_without_value() {
    assert_eq!(failure(b"d3:cowe"), DecodeError::UnexpectedByte);
    assert_eq!(failure(b"d3:cow3:moo4:spame"), DecodeError::UnexpectedByte);
}

#[test]
fn later_pair_replaces_earlier() {
    let node = decode(b"d1:ai1e1:bi2e1:ai3ee").unwrap();
    let pairs = node.get_dict().unwrap();
    assert_eq!(pairs.len(), 2);
    assert_eq!(keys(&pairs), vec!["a".to_string(), "b".to_string()]);
    for (key, child) in pairs.iter() {
        assert_eq!(child.get_int(), Some(if key == "a" { 3 } else { 2 }));
    }
    assert_eq!(node.get("a").unwrap().get_int(), Some(3));
    assert_eq!(node.get("b").unwrap().get_int(), Some(2));
    assert_eq!(node.get_decoded(), b"d1:ai1e1:bi2e1:ai3ee".to_vec());
}

#[test]
fn keys_need_no_order() {
    let node = decode(b"d1:bi1e1:ai2ee").unwrap();
    assert_eq!(node.get("a").unwrap().get_int(), Some(2));
    assert_eq!(node.get("b").unwrap().get_int(), Some(1));
}

#[test]
fn bytes_after_the_value_are_left() {
    let bytes = b"i3exyz".to_vec();
    let (node, next) = BeeValue::dfs(&bytes, 0, MAX_DEPTH).unwrap();
    assert_eq!(next, 3);
    assert_eq!(node.get_int(), Some(3));
    assert_eq!(node.get_decoded(), b"i3e".to_vec());
    let node = decode(b"le4:spam").unwrap();
    assert_eq!(node.get_list().unwrap().len(), 0);
    assert_eq!(node.get_decoded(), b"le".to_vec());
}

#[test]
fn decoding_from_a_cursor() {
    let bytes = b"l4:spami7ee".to_vec();
    let (text, next) = BeeValue::dfs(&bytes, 1, MAX_DEPTH).unwrap();
    assert_eq!(text.get_string(), Some("spam".to_string()));
    assert_eq!(next, 7);
    let (number, next) = BeeValue::dfs(&bytes, 7, MAX_DEPTH).unwrap();
    assert_eq!(number.get_int(), Some(7));
    assert_eq!(next, 10);
    assert_eq!(number.get_decoded(), b"i7e".to_vec());
}

#[test]
fn nesting_up_to_the_depth_allowed() {
    assert_eq!(MAX_DEPTH, 256);
    let mut node = decode(&nested(b'l', MAX_DEPTH)).unwrap();
    let mut levels = 1;
    loop {
        let items = node.get_list().unwrap();
        if items.is_empty() {
            break;
        }
        assert_eq!(items.len(), 1);
        node = items[0].clone();
        levels += 1;
    }
    assert_eq!(levels, MAX_DEPTH);
}

#[test]
fn nesting_too_deep() {
    assert_eq!(failure(&nested(b'l', MAX_DEPTH + 1)), DecodeError::NestingTooDeep);
    assert_eq!(failure(&vec![b'l'; 100_000]), DecodeError::NestingTooDeep);
    let mut dicts = Vec::new();
    for _ in 0..MAX_DEPTH + 1 {
        dicts.extend_from_slice(b"d1:a");
    }
    assert_eq!(failure(&dicts), DecodeError::NestingTooDeep);
}

#[test]
fn depth_counts_open_collections() {
    let bytes = b"lli1eee".to_vec();
    assert!(matches!(BeeValue::dfs(&bytes, 0, 0), Err(DecodeError::NestingTooDeep)));
    assert!(matches!(BeeValue::dfs(&bytes, 0, 1), Err(DecodeError::NestingTooDeep)));
    let (node, next) = BeeValue::dfs(&bytes, 0, 2).unwrap();
    assert_eq!(next, 7);
    assert_eq!(node.at(0).unwrap().at(0).unwrap().get_int(), Some(1));
    // Strings and integers open nothing.
    assert!(BeeValue::dfs(&b"l1:ai1ee".to_vec(), 0, 1).is_ok());
    // Collections side by side are open one at a time.
    assert!(BeeValue::dfs(&b"llelededee".to_vec(), 0, 2).is_ok());
}

#[test]
fn descriptor_like_input() {
    let input = b"d8:announce14:http://tracker4:infod6:lengthi1024e4:name8:file.txt12:piece lengthi512e6:pieces4:\x00\xff\x10\x80ee";
    let root = decode(input).unwrap();
    assert_eq!(root.get_decoded(), input.to_vec());
    assert_eq!(root.get("announce").unwrap().get_string(), Some("http://tracker".to_string()));
    let info = root.get("info").unwrap();
    assert_eq!(info.get("length").unwrap().get_int(), Some(1024));
    assert_eq!(info.get("name").unwrap().get_string(), Some("file.txt".to_string()));
    assert_eq!(info.get("piece length").unwrap().get_int(), Some(512));
    assert_eq!(info.get("pieces").unwrap().get_raw(), Some(vec![0x00, 0xff, 0x10, 0x80]));
    assert_eq!(
        info.get_decoded(),
        b"d6:lengthi1024e4:name8:file.txt12:piece lengthi512e6:pieces4:\x00\xff\x10\x80e".to_vec()
    );
}
