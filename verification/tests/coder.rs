use rangecoder::cumulative::build_cumulative;
use rangecoder::decoder::RangeDecoder;
use rangecoder::encoder::RangeEncoder;
use rangecoder::interval::{narrow, Interval};

fn small_table() -> Vec<u64> {
    let mut freq = vec![0u32; 257];
    freq[97] = 2;
    freq[98] = 1;
    freq[256] = 1;
    build_cumulative(&freq)
}

#[test]
fn narrow_takes_the_share_of_the_slot() {
    let cum: Vec<u64> = vec![0, 1, 2, 3, 4];
    assert_eq!(narrow(0, 0xFFFF_FFFF, 0, &cum), Interval { low: 0, high: 0x3FFF_FFFF });
    assert_eq!(narrow(0, 0xFFFF_FFFF, 1, &cum), Interval { low: 0x4000_0000, high: 0x7FFF_FFFF });
    assert_eq!(
        narrow(0, 0xFFFF_FFFF, 3, &cum),
        Interval { low: 0xC000_0000, high: 0xFFFF_FFFF }
    );
    assert_eq!(
        narrow(0x00FF_FFFF, 0x0100_0000, 1, &cum),
        Interval { low: 0x00FF_FFFF, high: 0x00FF_FFFF }
    );
}

#[test]
fn narrow_to_a_slot_without_a_value_crosses_the_ends() {
    let cum: Vec<u64> = vec![0, 1, 2, 3, 4];
    // width 2: the slot of symbol 0 starts and ends at offset 0
    assert_eq!(
        narrow(0x00FF_FFFF, 0x0100_0000, 0, &cum),
        Interval { low: 0x00FF_FFFF, high: 0x00FF_FFFE }
    );
    assert_eq!(narrow(0, 1, 0, &cum), Interval { low: 0, high: 0xFFFF_FFFF });
}

#[test]
fn encoder_starts_with_full_interval() {
    let enc = RangeEncoder::new(vec![1, 2, 3]);
    assert_eq!(enc.low(), 0);
    assert_eq!(enc.high(), 0xFFFF_FFFF);
    assert_eq!(enc.into_bytes(), vec![1, 2, 3]);
}

#[test]
fn encoder_steps() {
    let cum = small_table();
    let mut enc = RangeEncoder::new(Vec::new());
    enc.encode_symbol(97, &cum);
    assert_eq!((enc.low(), enc.high()), (0, 0x7FFF_FFFF));
    enc.encode_symbol(97, &cum);
    assert_eq!((enc.low(), enc.high()), (0, 0x3FFF_FFFF));
    enc.encode_symbol(98, &cum);
    assert_eq!((enc.low(), enc.high()), (0x2000_0000, 0x2FFF_FFFF));
    enc.encode_symbol(256, &cum);
    assert_eq!((enc.low(), enc.high()), (0x2C00_0000, 0x2FFF_FFFF));
    enc.finish();
    assert_eq!((enc.low(), enc.high()), (0, 0x2FFF_FFFF));
    assert_eq!(enc.into_bytes(), vec![0x2C, 0, 0, 0]);
}

#[test]
fn encoder_sheds_shared_leading_bytes() {
    let cum: Vec<u64> = vec![0, 1, 256];
    let mut enc = RangeEncoder::new(vec![0xEE]);
    enc.encode_symbol(0, &cum);
    // the slot is [0, 0x00FF_FFFF]: one byte is shed
    assert_eq!((enc.low(), enc.high()), (0, 0xFFFF_FFFF));
    enc.encode_symbol(1, &cum);
    assert_eq!((enc.low(), enc.high()), (0x0100_0000, 0xFFFF_FFFF));
    enc.finish();
    assert_eq!(enc.into_bytes(), vec![0xEE, 0, 1, 0, 0, 0]);
}

#[test]
fn finish_writes_low_most_significant_byte_first() {
    let cum: Vec<u64> = vec![0, 0x1234_5678, 0x1_0000_0000];
    let mut enc = RangeEncoder::new(Vec::new());
    enc.encode_symbol(1, &cum);
    assert_eq!((enc.low(), enc.high()), (0x1234_5678, 0xFFFF_FFFF));
    enc.finish();
    assert_eq!(enc.into_bytes(), vec![0x12, 0x34, 0x56, 0x78]);
}

#[test]
fn decoder_is_primed_with_four_bytes() {
    let data = [0x12, 0x34, 0x56, 0x78, 0x9A];
    let dec = RangeDecoder::new(&data);
    assert_eq!((dec.low(), dec.high()), (0, 0xFFFF_FFFF));
    assert_eq!(dec.code(), 0x1234_5678);
    assert_eq!(dec.position(), 4);
    assert!(!dec.is_starved());
}

#[test]
fn decoder_fills_missing_bytes_with_zero() {
    let data = [0x12, 0x34];
    let mut dec = RangeDecoder::new(&data);
    assert_eq!(dec.code(), 0x1234_0000);
    assert_eq!(dec.position(), 2);
    assert!(dec.is_starved());
    assert_eq!(dec.read_byte(), 0);
    assert_eq!(dec.position(), 2);
    let empty: [u8; 0] = [];
    let dec = RangeDecoder::new(&empty);
    assert_eq!(dec.code(), 0);
    assert!(dec.is_starved());
}

#[test]
fn read_byte_moves_on_until_the_end() {
    let data = [1, 2, 3, 4, 5, 6];
    let mut dec = RangeDecoder::new(&data);
    assert_eq!(dec.read_byte(), 5);
    assert_eq!(dec.position(), 5);
    assert_eq!(dec.read_byte(), 6);
    assert_eq!(dec.position(), 6);
    assert!(!dec.is_starved());
    assert_eq!(dec.read_byte(), 0);
    assert_eq!(dec.position(), 6);
    assert!(dec.is_starved());
}

#[test]
fn decoder_steps_mirror_the_encoder() {
    let cum = small_table();
    let body = [0x2C, 0, 0, 0];
    let mut dec = RangeDecoder::new(&body);
    assert_eq!(dec.decode_symbol(&cum), 97);
    assert_eq!((dec.low(), dec.high()), (0, 0x7FFF_FFFF));
    assert_eq!(dec.decode_symbol(&cum), 97);
    assert_eq!((dec.low(), dec.high()), (0, 0x3FFF_FFFF));
    assert_eq!(dec.decode_symbol(&cum), 98);
    assert_eq!((dec.low(), dec.high()), (0x2000_0000, 0x2FFF_FFFF));
    assert!(!dec.is_starved());
    assert_eq!(dec.decode_symbol(&cum), 256);
    assert_eq!((dec.low(), dec.high()), (0x2C00_0000, 0x2FFF_FFFF));
    assert_eq!(dec.code(), 0x2C00_0000);
    assert_eq!(dec.position(), 4);
    assert!(!dec.is_starved());
}

#[test]
fn decoder_reads_a_byte_for_each_byte_shed() {
    let cum: Vec<u64> = vec![0, 1, 256];
    let body = [0, 1, 0, 0, 0];
    let mut dec = RangeDecoder::new(&body);
    assert_eq!(dec.code(), 0x0001_0000);
    assert_eq!(dec.decode_symbol(&cum), 0);
    assert_eq!((dec.low(), dec.high()), (0, 0xFFFF_FFFF));
    assert_eq!(dec.code(), 0x0100_0000);
    assert_eq!(dec.position(), 5);
    assert_eq!(dec.decode_symbol(&cum), 1);
    assert_eq!((dec.low(), dec.high()), (0x0100_0000, 0xFFFF_FFFF));
    assert!(!dec.is_starved());
}
