use rangecoder::rle::{rle_decode_file, rle_encode_file, RleError};

#[test]
fn rle_of_empty_message_is_empty() {
    assert_eq!(rle_encode_file(&[]), Vec::<u8>::new());
    assert_eq!(rle_decode_file(&[]), Ok(Vec::new()));
}

#[test]
fn rle_records_are_count_and_value() {
    assert_eq!(rle_encode_file(b"aaab"), vec![3, 0, 0, 0, b'a', 1, 0, 0, 0, b'b']);
    assert_eq!(rle_encode_file(b"x"), vec![1, 0, 0, 0, b'x']);
    let long = vec![7u8; 0x0102_03];
    assert_eq!(rle_encode_file(&long), vec![0x03, 0x02, 0x01, 0, 7]);
    assert_eq!(
        rle_encode_file(b"abba"),
        vec![1, 0, 0, 0, b'a', 2, 0, 0, 0, b'b', 1, 0, 0, 0, b'a']
    );
}

#[test]
fn rle_decodes_records() {
    assert_eq!(
        rle_decode_file(&[3, 0, 0, 0, b'a', 1, 0, 0, 0, b'b']),
        Ok(b"aaab".to_vec())
    );
    // runs of the same byte need not be joined
    assert_eq!(
        rle_decode_file(&[1, 0, 0, 0, b'a', 2, 0, 0, 0, b'a']),
        Ok(b"aaa".to_vec())
    );
    assert_eq!(rle_decode_file(&[0, 1, 0, 0, 9]), Ok(vec![9u8; 256]));
}

#[test]
fn rle_round_trip() {
    let mut x: u32 = 17;
    for n in 0..300usize {
        let mut data = Vec::with_capacity(n);
        for _ in 0..n {
            x = x.wrapping_mul(1103515245).wrapping_add(12345) & 0x7fff_ffff;
            data.push(((x >> 16) % 3) as u8);
        }
        let enc = rle_encode_file(&data);
        assert_eq!(enc.len() % 5, 0);
        assert_eq!(rle_decode_file(&enc), Ok(data));
    }
}

#[test]
fn rle_faults() {
    assert_eq!(rle_decode_file(&[3]), Err(RleError::TruncatedCount));
    assert_eq!(rle_decode_file(&[3, 0, 0]), Err(RleError::TruncatedCount));
    assert_eq!(rle_decode_file(&[0, 0, 0, 0, b'a']), Err(RleError::ZeroCount));
    assert_eq!(rle_decode_file(&[0, 0, 0, 0]), Err(RleError::ZeroCount));
    assert_eq!(rle_decode_file(&[3, 0, 0, 0]), Err(RleError::MissingValue));
    assert_eq!(
        rle_decode_file(&[3, 0, 0, 0, b'a', 1, 0]),
        Err(RleError::TruncatedCount)
    );
    assert_eq!(
        rle_decode_file(&[3, 0, 0, 0, b'a', 0, 0, 0, 0, b'b']),
        Err(RleError::ZeroCount)
    );
    assert_eq!(
        rle_decode_file(&[3, 0, 0, 0, b'a', 1, 0, 0, 0]),
        Err(RleError::MissingValue)
    );
}
