use rangecoder::wire::{read_header, read_u32_le, write_header, write_u32_le, MAX_TABLE_LEN};
use rangecoder::{ErrorKind, Fault, RangeError};

#[test]
fn u32_is_written_least_significant_byte_first() {
    let mut out = vec![9u8];
    write_u32_le(&mut out, 0x1234_5678);
    assert_eq!(out, vec![9, 0x78, 0x56, 0x34, 0x12]);
    write_u32_le(&mut out, 0);
    write_u32_le(&mut out, u32::MAX);
    assert_eq!(out[5..], [0, 0, 0, 0, 0xFF, 0xFF, 0xFF, 0xFF]);
}

#[test]
fn u32_is_read_back() {
    let input = [0xAA, 0x78, 0x56, 0x34, 0x12, 0x01];
    let mut pos = 1usize;
    assert_eq!(read_u32_le(&input, &mut pos), Some(0x1234_5678));
    assert_eq!(pos, 5);
    assert_eq!(read_u32_le(&input, &mut pos), None);
    assert_eq!(pos, 5);
    let mut pos = 2usize;
    assert_eq!(read_u32_le(&input, &mut pos), Some(0x0112_3456));
    assert_eq!(pos, 6);
    let mut pos = 3usize;
    assert_eq!(read_u32_le(&input, &mut pos), None);
    assert_eq!(pos, 3);
    let mut pos = usize::MAX;
    assert_eq!(read_u32_le(&input, &mut pos), None);
    assert_eq!(pos, usize::MAX);
    let mut pos = 0usize;
    assert_eq!(read_u32_le(&[1, 2, 3], &mut pos), None);
}

#[test]
fn header_layout() {
    let mut out = Vec::new();
    write_header(&mut out, &[1, 0x0100, 0xFFFF_FFFF]);
    assert_eq!(
        out,
        vec![b'R', b'C', b'N', b'C', 3, 0, 0, 0, 1, 0, 0, 0, 0, 1, 0, 0, 0xFF, 0xFF, 0xFF, 0xFF]
    );
    let mut out = vec![5u8];
    write_header(&mut out, &[]);
    assert_eq!(out, vec![5, b'R', b'C', b'N', b'C', 0, 0, 0, 0]);
}

#[test]
fn header_round_trip() {
    let table: Vec<u32> = (0..257u32).map(|i| i.wrapping_mul(0x0101_0101)).collect();
    let mut out = Vec::new();
    write_header(&mut out, &table);
    assert_eq!(out.len(), 8 + 4 * 257);
    out.extend_from_slice(&[1, 2, 3]);
    let mut pos = 0usize;
    assert_eq!(read_header(&out, &mut pos), Ok(table));
    assert_eq!(pos, 8 + 4 * 257);
}

#[test]
fn header_of_any_accepted_length_is_read() {
    assert_eq!(MAX_TABLE_LEN, 1024);
    for n in [1usize, 2, 256, 258, 1024] {
        let table: Vec<u32> = vec![3; n];
        let mut out = Vec::new();
        write_header(&mut out, &table);
        let mut pos = 77usize;
        assert_eq!(read_header(&out, &mut pos), Ok(table));
        assert_eq!(pos, 8 + 4 * n);
    }
}

#[test]
fn header_faults() {
    let mut pos = 3usize;
    let err = read_header(b"RCNC\x01\x00\x00", &mut pos).unwrap_err();
    assert_eq!(err, RangeError(Fault::InputTooShort));
    assert_eq!(pos, 3);

    let mut pos = 3usize;
    let err = read_header(b"RCNc\x01\x00\x00\x00\x05\x00\x00\x00", &mut pos).unwrap_err();
    assert_eq!(err, RangeError(Fault::BadMagic));
    assert_eq!(err.kind(), ErrorKind::Format);
    assert_eq!(pos, 3);

    let mut pos = 3usize;
    let err = read_header(b"RCNC\x00\x00\x00\x00\x05\x00\x00\x00", &mut pos).unwrap_err();
    assert_eq!(err, RangeError(Fault::BadSymbolCount));
    assert_eq!(pos, 8);

    let mut pos = 3usize;
    let err = read_header(b"RCNC\x01\x04\x00\x00\x05\x00\x00\x00", &mut pos).unwrap_err();
    assert_eq!(err, RangeError(Fault::BadSymbolCount));
    assert_eq!(pos, 8);

    let mut pos = 3usize;
    let err = read_header(b"RCNC\xFF\xFF\xFF\xFF", &mut pos).unwrap_err();
    assert_eq!(err, RangeError(Fault::BadSymbolCount));

    let mut pos = 3usize;
    let err =
        read_header(b"RCNC\x02\x00\x00\x00\x05\x00\x00\x00\x01\x02\x03", &mut pos).unwrap_err();
    assert_eq!(err, RangeError(Fault::TruncatedFrequencies));
    assert_eq!(err.kind(), ErrorKind::Format);
    assert_eq!(pos, 12);

    let mut pos = 3usize;
    let err = read_header(b"RCNC\x02\x00\x00\x00", &mut pos).unwrap_err();
    assert_eq!(err, RangeError(Fault::TruncatedFrequencies));
    assert_eq!(pos, 8);
}
