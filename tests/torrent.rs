use bencode_torrent::grammar::DecodeError;
use bencode_torrent::torrent::{read_file, MetaError, Torrent};
use bencode_torrent::value::Value;

fn single_file(pieces: usize, length: &str) -> Vec<u8> {
    let mut out = b"d8:announce21:http://tracker.test/a4:infod6:length".to_vec();
    out.extend_from_slice(length.as_bytes());
    out.extend_from_slice(b"4:name5:a.txt12:piece lengthi16384e6:pieces");
    out.extend_from_slice(format!("{}:", pieces).as_bytes());
    out.extend(vec![7u8; pieces]);
    out.extend_from_slice(b"ee");
    out
}

#[test]
fn single_file_metadata() {
    let t = Torrent::from_file(&single_file(40, "i92063e")).unwrap();
    assert_eq!(t.announce, "http://tracker.test/a");
    assert_eq!(t.info.name, "a.txt");
    assert_eq!(t.info.piece_length, 16384);
    assert_eq!(t.info.pieces, vec![7u8; 40]);
    assert_eq!(t.length(), 92063);
}

#[test]
fn multi_file_metadata() {
    let data = b"d8:announce3:url4:infod5:filesld6:lengthi10e4:pathl1:aeed6:lengthi32e4:pathl1:b1:ceee4:name3:dir12:piece lengthi1e6:pieces0:ee";
    let t = read_file(data).unwrap();
    assert_eq!(t.info.name, "dir");
    assert_eq!(t.info.files.len(), 2);
    assert_eq!(t.info.files[0].path, vec![b"a".to_vec()]);
    assert_eq!(t.info.files[0].length, 10);
    assert_eq!(t.info.files[1].path, vec![b"b".to_vec(), b"c".to_vec()]);
    assert_eq!(t.info.files[1].length, 32);
    assert_eq!(t.length(), 42);
}

#[test]
fn single_file_has_no_file_list() {
    let t = Torrent::from_file(&single_file(20, "i5e")).unwrap();
    assert!(t.info.files.is_empty());
}

#[test]
fn path_components_must_be_byte_strings() {
    let data = b"d8:announce3:url4:infod5:filesld6:lengthi10e4:pathli1eeee4:name3:dir12:piece lengthi1e6:pieces0:ee";
    assert_eq!(read_file(data).err(), Some(MetaError::InvalidLength));
}

#[test]
fn info_hash_of_unsorted_value() {
    let sorted = Torrent::from_file(&single_file(20, "i5e")).unwrap();
    let info = Value::Dictionary(vec![
        (b"pieces".to_vec(), Value::ByteString(vec![7u8; 20])),
        (b"name".to_vec(), Value::ByteString(b"a.txt".to_vec())),
        (b"piece length".to_vec(), Value::Integer(16384)),
        (b"length".to_vec(), Value::Integer(5)),
    ]);
    let top = Value::Dictionary(vec![
        (b"info".to_vec(), info),
        (b"announce".to_vec(), Value::ByteString(b"http://tracker.test/a".to_vec())),
    ]);
    let t = Torrent::from_value(&top).unwrap();
    assert_eq!(t.info_hash, sorted.info_hash);
}

#[test]
fn metadata_errors() {
    assert_eq!(read_file(b"i1e").err(), Some(MetaError::NotADictionary));
    assert_eq!(read_file(b"de").err(), Some(MetaError::MissingField));
    assert_eq!(read_file(b"l").err(), Some(MetaError::Decode(DecodeError::TruncatedInput)));
    assert_eq!(read_file(&single_file(41, "i1e")).err(), Some(MetaError::MalformedPieceHashes));
    assert_eq!(read_file(&single_file(20, "i-1e")).err(), Some(MetaError::InvalidLength));
    let zero = b"d8:announce1:u4:infod6:lengthi1e4:name1:n12:piece lengthi0e6:pieces0:ee";
    assert_eq!(read_file(zero).err(), Some(MetaError::InvalidPieceLength));
    let both = b"d8:announce1:u4:infod5:filesle6:lengthi1e4:name1:n12:piece lengthi1e6:pieces0:ee";
    assert_eq!(read_file(both).err(), Some(MetaError::AmbiguousLayout));
    let neither = b"d8:announce1:u4:infod4:name1:n12:piece lengthi1e6:pieces0:ee";
    assert_eq!(read_file(neither).err(), Some(MetaError::AmbiguousLayout));
    let bad_url = b"d8:announce1:\xff4:infod6:lengthi1e4:name1:n12:piece lengthi1e6:pieces0:ee";
    assert_eq!(read_file(bad_url).err(), Some(MetaError::InvalidAnnounceUrl));
    let bad_name = b"d8:announce1:u4:infod6:lengthi1e4:name1:\xfe12:piece lengthi1e6:pieces0:ee";
    assert_eq!(read_file(bad_name).err(), Some(MetaError::InvalidName));
}

#[test]
fn empty_torrent() {
    let t = Torrent::new();
    assert_eq!(t.announce, "");
    assert_eq!(t.length(), 0);
}

fn hex(b: &[u8]) -> String {
    b.iter().map(|x| format!("{:02x}", x)).collect()
}

#[test]
fn info_hash_digests_the_info_encoding() {
    let t = Torrent::from_file(&single_file(40, "i92063e")).unwrap();
    assert_eq!(hex(&t.info_hash), "922c5f558e2963d86826af005a5253323e20b50f");
}

#[test]
fn info_hash_uses_the_canonical_encoding() {
    let unsorted = b"d8:announce1:u4:infod4:name1:n6:lengthi1e12:piece lengthi1e6:pieces0:ee";
    let t = read_file(unsorted).unwrap();
    assert_eq!(hex(&t.info_hash), "29b2c99f977a7b89bf00f90867a514fe671ffb55");
}
