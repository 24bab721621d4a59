use torrent_codec::chunks::{decode_chunks, encode_chunks};

#[test]
fn twelve_bytes_split_into_two_chunks_of_six() {
    let b: Vec<u8> = (1u8..=12).collect();
    let cs = decode_chunks(&b, 6).unwrap();
    assert_eq!(cs.len(), 2);
    assert_eq!(cs[0].as_slice(), &[1, 2, 3, 4, 5, 6]);
    assert_eq!(cs[1].as_slice(), &[7, 8, 9, 10, 11, 12]);
}

#[test]
fn thirteen_bytes_are_refused_for_chunks_of_six() {
    let b: Vec<u8> = (1u8..=13).collect();
    let e = decode_chunks(&b, 6).unwrap_err();
    assert_eq!(e.len, 13);
    assert_eq!(e.chunk, 6);
}

#[test]
fn empty_input_gives_no_chunks() {
    let cs = decode_chunks(&[], 20).unwrap();
    assert_eq!(cs.len(), 0);
}

#[test]
fn chunks_concatenate_back_to_the_input() {
    let b: Vec<u8> = (0u8..120).collect();
    for &n in &[1usize, 2, 6, 20, 120] {
        let cs = decode_chunks(&b, n).unwrap();
        assert_eq!(encode_chunks(&cs), b);
    }
}

#[test]
fn twenty_byte_chunks_for_piece_hashes() {
    let b = vec![0xABu8; 40];
    let cs = decode_chunks(&b, 20).unwrap();
    assert_eq!(cs.len(), 2);
    assert_eq!(cs[0].len(), 20);
    let e = decode_chunks(&b[..39], 20).unwrap_err();
    assert_eq!(e.len, 39);
    assert_eq!(e.chunk, 20);
}
