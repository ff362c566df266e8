use bencode_torrent::decode::{decode, decode_bencoded_value, decode_exact, insert_entry};
use bencode_torrent::encode::encode;
use bencode_torrent::grammar::DecodeError;
use bencode_torrent::value::Value;

fn bytes(s: &str) -> Value {
    Value::ByteString(s.as_bytes().to_vec())
}

#[test]
fn test_string() {
    let mut encoded_value = b"5:hello".to_vec();
    let result = decode_bencoded_value(&mut encoded_value);
    assert_eq!(result, Ok(bytes("hello")));
    assert!(encoded_value.is_empty());
}

#[test]
fn test_empty_string() {
    let mut encoded_value = b"0:".to_vec();
    let result = decode_bencoded_value(&mut encoded_value);
    assert_eq!(result, Ok(bytes("")));
    assert!(encoded_value.is_empty());
}

#[test]
fn test_list() {
    let mut encoded_value = b"l5:helloi52ee".to_vec();
    let result = decode_bencoded_value(&mut encoded_value);
    let expected = Value::List(vec![bytes("hello"), Value::Integer(52)]);
    assert_eq!(result, Ok(expected));
    assert!(encoded_value.is_empty());
}

#[test]
fn test_dictionary() {
    let mut encoded_value = b"d3:foo3:bar5:helloi52ee".to_vec();
    let result = decode_bencoded_value(&mut encoded_value);
    let expected = Value::Dictionary(vec![
        (b"foo".to_vec(), bytes("bar")),
        (b"hello".to_vec(), Value::Integer(52)),
    ]);
    assert_eq!(result, Ok(expected));
    assert!(encoded_value.is_empty());
}

#[test]
fn test_invalid_input() {
    let mut encoded_value = b"x123e".to_vec();
    let result = decode_bencoded_value(&mut encoded_value);
    assert_eq!(result, Err(DecodeError::UnrecognizedTag));
    assert_eq!(encoded_value, b"x123e".to_vec());
}

#[test]
fn test_incomplete_integer() {
    let mut encoded_value = b"i123".to_vec();
    let result = decode_bencoded_value(&mut encoded_value);
    assert!(result.is_err());
}

#[test]
fn test_incomplete_string() {
    let mut encoded_value = b"4:hel".to_vec();
    let result = decode_bencoded_value(&mut encoded_value);
    assert!(result.is_err());
}

#[test]
fn test_incomplete_list() {
    let mut encoded_value = b"l5:hello".to_vec();
    let result = decode_bencoded_value(&mut encoded_value);
    assert!(result.is_err());
}

#[test]
fn test_incomplete_dictionary() {
    let mut encoded_value = b"d3:foo3:bar".to_vec();
    let result = decode_bencoded_value(&mut encoded_value);
    assert!(result.is_err());
}

#[test]
fn decode_leaves_the_rest() {
    let mut encoded_value = b"i7e4:spam".to_vec();
    let result = decode_bencoded_value(&mut encoded_value);
    assert_eq!(result, Ok(Value::Integer(7)));
    assert_eq!(encoded_value, b"4:spam".to_vec());
    assert_eq!(decode(b"i7e4:spam"), Ok((Value::Integer(7), 3)));
}

#[test]
fn integer_literals() {
    assert_eq!(decode_exact(b"i52e"), Ok(Value::Integer(52)));
    assert_eq!(decode_exact(b"i-3e"), Ok(Value::Integer(-3)));
    assert_eq!(decode_exact(b"i0e"), Ok(Value::Integer(0)));
    assert_eq!(decode_exact(b"i03e"), Err(DecodeError::MalformedInteger));
    assert_eq!(decode_exact(b"i-0e"), Err(DecodeError::MalformedInteger));
    assert_eq!(decode_exact(b"ie"), Err(DecodeError::MalformedInteger));
    assert_eq!(decode_exact(b"i1x2e"), Err(DecodeError::MalformedInteger));
}

#[test]
fn integer_bounds() {
    assert_eq!(decode_exact(b"i9223372036854775807e"), Ok(Value::Integer(i64::MAX)));
    assert_eq!(decode_exact(b"i-9223372036854775808e"), Ok(Value::Integer(i64::MIN)));
    assert_eq!(decode_exact(b"i9223372036854775808e"), Err(DecodeError::MalformedInteger));
    assert_eq!(decode_exact(b"i-9223372036854775809e"), Err(DecodeError::MalformedInteger));
    assert_eq!(decode_exact(b"i99999999999999999999999e"), Err(DecodeError::MalformedInteger));
    assert_eq!(encode(&Value::Integer(i64::MIN)), b"i-9223372036854775808e".to_vec());
}

#[test]
fn byte_string_literals() {
    assert_eq!(decode_exact(b"4:spam"), Ok(bytes("spam")));
    assert_eq!(decode_exact(b"0:"), Ok(bytes("")));
    assert_eq!(decode_exact(&[b'2', b':', 0xff, 0x00]), Ok(Value::ByteString(vec![0xff, 0x00])));
    assert_eq!(decode_exact(b"04:spam"), Err(DecodeError::MalformedLength));
    assert_eq!(decode_exact(b"4x:spam"), Err(DecodeError::MalformedLength));
    assert_eq!(decode_exact(b"99999999999999999999999:spam"), Err(DecodeError::TruncatedInput));
}

#[test]
fn list_literal() {
    assert_eq!(decode_exact(b"l4:spam4:eggse"), Ok(Value::List(vec![bytes("spam"), bytes("eggs")])));
    assert_eq!(decode_exact(b"le"), Ok(Value::List(vec![])));
}

#[test]
fn dictionary_literals() {
    let input = b"d3:cow3:moo4:spam4:eggse";
    let v = decode_exact(input).unwrap();
    assert_eq!(
        v,
        Value::Dictionary(vec![(b"cow".to_vec(), bytes("moo")), (b"spam".to_vec(), bytes("eggs"))])
    );
    assert_eq!(encode(&v), input.to_vec());
    assert_eq!(
        decode_exact(b"d4:spaml1:a1:bee"),
        Ok(Value::Dictionary(vec![(b"spam".to_vec(), Value::List(vec![bytes("a"), bytes("b")]))]))
    );
}

#[test]
fn unsorted_keys_are_sorted() {
    let v = decode_exact(b"d4:spami1e3:cowi2ee").unwrap();
    assert_eq!(encode(&v), b"d3:cowi2e4:spami1ee".to_vec());
}

#[test]
fn repeated_key_keeps_the_last() {
    let v = decode_exact(b"d1:ai1e1:ai2ee").unwrap();
    assert_eq!(v, Value::Dictionary(vec![(b"a".to_vec(), Value::Integer(2))]));
}

#[test]
fn dictionary_built_in_code_is_canonical() {
    let mut entries = Vec::new();
    insert_entry(&mut entries, b"spam".to_vec(), Value::Integer(1));
    insert_entry(&mut entries, b"cow".to_vec(), Value::Integer(2));
    assert_eq!(encode(&Value::Dictionary(entries)), b"d3:cowi2e4:spami1ee".to_vec());
}

#[test]
fn missing_terminator_is_truncation() {
    assert_eq!(decode_exact(b"l5:hello"), Err(DecodeError::TruncatedInput));
    assert_eq!(decode_exact(b"d3:foo3:bar"), Err(DecodeError::TruncatedInput));
    assert_eq!(decode_exact(b"d3:foo"), Err(DecodeError::TruncatedInput));
    assert_eq!(decode_exact(b"4:hel"), Err(DecodeError::TruncatedInput));
    assert_eq!(decode_exact(b"li123"), Err(DecodeError::TruncatedInput));
}

#[test]
fn bare_integer_without_terminator_is_malformed() {
    assert_eq!(decode_exact(b"i123"), Err(DecodeError::MalformedInteger));
    assert_eq!(decode_exact(b"i"), Err(DecodeError::MalformedInteger));
    assert_eq!(decode_exact(b"i-"), Err(DecodeError::MalformedInteger));
}

#[test]
fn dictionary_held_unsorted_encodes_sorted() {
    let v = Value::Dictionary(vec![
        (b"spam".to_vec(), Value::Integer(1)),
        (b"cow".to_vec(), Value::Integer(2)),
    ]);
    let e = encode(&v);
    assert_eq!(e, b"d3:cowi2e4:spami1ee".to_vec());
    let d = decode_exact(&e).unwrap();
    assert_eq!(encode(&d), e);
}

#[test]
fn dictionary_held_with_repeated_key_keeps_the_last() {
    let v = Value::Dictionary(vec![
        (b"a".to_vec(), Value::Integer(1)),
        (b"a".to_vec(), Value::Integer(2)),
    ]);
    assert_eq!(encode(&v), b"d1:ai2ee".to_vec());
}

#[test]
fn every_prefix_is_truncated() {
    let input = b"d4:infod6:lengthi12e4:name1:xe5:itemsl0:i-1eleee";
    for k in 1..input.len() {
        assert_eq!(decode_exact(&input[..k]), Err(DecodeError::TruncatedInput), "prefix {}", k);
    }
    assert!(decode_exact(input).is_ok());
}

#[test]
fn other_errors() {
    assert_eq!(decode_exact(b""), Err(DecodeError::UnrecognizedTag));
    assert_eq!(decode_exact(b"di1e1:ae"), Err(DecodeError::NonStringKey));
    assert_eq!(decode_exact(b"i1ei2e"), Err(DecodeError::TrailingBytes));
    assert_eq!(decode_exact(b"lxe"), Err(DecodeError::UnrecognizedTag));
}

#[test]
fn nesting_bound() {
    let mut ok = vec![b'l'; 256];
    ok.extend(vec![b'e'; 256]);
    assert!(decode_exact(&ok).is_ok());
    let mut deep = vec![b'l'; 257];
    deep.extend(vec![b'e'; 257]);
    assert_eq!(decode_exact(&deep), Err(DecodeError::NestingTooDeep));
}

#[test]
fn round_trip_and_idempotence() {
    let mut entries = Vec::new();
    insert_entry(&mut entries, b"zeta".to_vec(), Value::List(vec![Value::Integer(-12), bytes("")]));
    insert_entry(&mut entries, b"alpha".to_vec(), Value::ByteString(vec![0, 255, 58]));
    let v = Value::List(vec![Value::Integer(0), Value::Dictionary(entries), Value::List(vec![])]);
    let e = encode(&v);
    assert_eq!(e, b"li0ed5:alpha3:\x00\xff:4:zetali-12e0:eelee".to_vec());
    let d = decode_exact(&e).unwrap();
    assert_eq!(d, v);
    assert_eq!(encode(&d), e);
    assert_eq!(decode(&e), decode(&e));
}
