use sha1::{Digest, Sha1};
use torrent_codec::metainfo::{parse, Keys, MetainfoError, SchemaError};

fn single_file_info() -> Vec<u8> {
    let mut info = Vec::new();
    info.extend_from_slice(b"d6:lengthi1000e4:name5:a.txt12:piece lengthi32768e6:pieces20:");
    info.extend_from_slice(&[0xAB; 20]);
    info.extend_from_slice(b"e");
    info
}

fn single_file_torrent() -> Vec<u8> {
    let mut t = Vec::new();
    t.extend_from_slice(b"d8:announce28:http://example.test/announce4:info");
    t.extend_from_slice(&single_file_info());
    t.extend_from_slice(b"e");
    t
}

#[test]
fn parse_single_file_torrent() {
    let t = parse(&single_file_torrent()).unwrap();
    assert_eq!(t.announce.as_slice(), b"http://example.test/announce");
    assert_eq!(t.info.name.as_slice(), b"a.txt");
    assert_eq!(t.info.plength, 32768);
    assert_eq!(t.info.pieces.0.len(), 1);
    assert_eq!(t.info.pieces.0[0].as_slice(), &[0xAB; 20]);
    assert!(matches!(t.info.keys, Keys::SingleFile { length: 1000 }));
}

#[test]
fn parse_multi_file_torrent() {
    let mut t = Vec::new();
    t.extend_from_slice(b"d8:announce28:http://example.test/announce4:info");
    t.extend_from_slice(
        b"d5:filesld6:lengthi500e4:pathl3:dir5:a.txteee4:name3:dir12:piece lengthi16384e6:pieces20:",
    );
    t.extend_from_slice(&[0x01; 20]);
    t.extend_from_slice(b"ee");
    let t = parse(&t).unwrap();
    match &t.info.keys {
        Keys::MultiFile { files } => {
            assert_eq!(files.len(), 1);
            assert_eq!(files[0].length, 500);
            assert_eq!(files[0].path.len(), 2);
            assert_eq!(files[0].path[0].as_slice(), b"dir");
            assert_eq!(files[0].path[1].as_slice(), b"a.txt");
        }
        _ => panic!("expected the multi-file layout"),
    }
}

#[test]
fn neither_length_nor_files_is_a_schema_error() {
    let mut t = Vec::new();
    t.extend_from_slice(b"d8:announce28:http://example.test/announce4:info");
    t.extend_from_slice(b"d4:name5:a.txt12:piece lengthi32768e6:pieces20:");
    t.extend_from_slice(&[0xAB; 20]);
    t.extend_from_slice(b"ee");
    assert_eq!(
        parse(&t).unwrap_err(),
        MetainfoError::Schema(SchemaError::FileLayout)
    );
}

#[test]
fn both_length_and_files_is_a_schema_error() {
    let mut t = Vec::new();
    t.extend_from_slice(b"d8:announce28:http://example.test/announce4:info");
    t.extend_from_slice(
        b"d5:filesld6:lengthi500e4:pathl5:a.txteee6:lengthi1000e4:name5:a.txt12:piece lengthi32768e6:pieces20:",
    );
    t.extend_from_slice(&[0xAB; 20]);
    t.extend_from_slice(b"ee");
    assert_eq!(
        parse(&t).unwrap_err(),
        MetainfoError::Schema(SchemaError::FileLayout)
    );
}

#[test]
fn missing_announce_is_a_schema_error() {
    let mut t = Vec::new();
    t.extend_from_slice(b"d4:info");
    t.extend_from_slice(&single_file_info());
    t.extend_from_slice(b"e");
    assert_eq!(
        parse(&t).unwrap_err(),
        MetainfoError::Schema(SchemaError::Announce)
    );
}

#[test]
fn mistyped_piece_length_is_a_schema_error() {
    let mut t = Vec::new();
    t.extend_from_slice(b"d8:announce28:http://example.test/announce4:info");
    t.extend_from_slice(b"d6:lengthi1000e4:name5:a.txt12:piece length2:hi6:pieces20:");
    t.extend_from_slice(&[0xAB; 20]);
    t.extend_from_slice(b"ee");
    assert_eq!(
        parse(&t).unwrap_err(),
        MetainfoError::Schema(SchemaError::PieceLength)
    );
}

#[test]
fn pieces_not_a_multiple_of_twenty_is_a_length_error() {
    let mut t = Vec::new();
    t.extend_from_slice(b"d8:announce28:http://example.test/announce4:info");
    t.extend_from_slice(b"d6:lengthi1000e4:name5:a.txt12:piece lengthi32768e6:pieces19:");
    t.extend_from_slice(&[0xAB; 19]);
    t.extend_from_slice(b"ee");
    match parse(&t).unwrap_err() {
        MetainfoError::Length(e) => {
            assert_eq!(e.len, 19);
            assert_eq!(e.chunk, 20);
        }
        other => panic!("expected a length error, got {:?}", other),
    }
}

#[test]
fn malformed_bencode_is_a_decode_error() {
    assert!(matches!(
        parse(b"d8:announce").unwrap_err(),
        MetainfoError::Decode(_)
    ));
}

#[test]
fn trailing_bytes_are_rejected() {
    let mut t = single_file_torrent();
    t.push(b'x');
    assert_eq!(
        parse(&t).unwrap_err(),
        MetainfoError::Schema(SchemaError::NotADict)
    );
}

#[test]
fn top_level_not_a_dictionary_is_rejected() {
    assert_eq!(
        parse(b"i5e").unwrap_err(),
        MetainfoError::Schema(SchemaError::NotADict)
    );
}

#[test]
fn info_hash_matches_reference_sha1_of_canonical_info() {
    // The info dictionary above is already in canonical key order, so
    // re-encoding must reproduce it byte for byte, and the hash must be
    // SHA-1 of exactly those bytes.
    let t = parse(&single_file_torrent()).unwrap();
    let expected: [u8; 20] = Sha1::digest(&single_file_info()).into();
    assert_eq!(t.info_hash(), expected);
}

#[test]
fn info_hash_is_deterministic() {
    let t = parse(&single_file_torrent()).unwrap();
    assert_eq!(t.info_hash(), t.info_hash());
    let t2 = parse(&single_file_torrent()).unwrap();
    assert_eq!(t.info_hash(), t2.info_hash());
}

#[test]
fn info_hash_differs_when_content_differs() {
    let t = parse(&single_file_torrent()).unwrap();
    let mut other = single_file_torrent();
    // Change one byte of the piece hashes.
    let pos = other.len() - 3;
    other[pos] ^= 1;
    let t2 = parse(&other).unwrap();
    assert_ne!(t.info_hash(), t2.info_hash());
}

#[test]
fn info_hash_hex_matches_reference() {
    let t = parse(&single_file_torrent()).unwrap();
    let digest: [u8; 20] = Sha1::digest(&single_file_info()).into();
    assert_eq!(t.info_hash_hex(), hex::encode(digest));
    assert_eq!(t.info_hash_hex().len(), 40);
}
