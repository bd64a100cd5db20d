use rangecoder::bits::{BitReader, BitWriter};
use rangecoder::huffman::{
    build_codes, build_frequencies_from_file, default_frequencies, huffman_decode_file,
    huffman_encode_file, read_frequencies, write_frequencies, HuffmanError,
};
use rangecoder::tree::{build_tree, is_leaf, take_first, Node};

const HEADER_LEN: usize = 8 + 4 * 257;

fn leaf(symbol: u32, freq: u64) -> Node {
    Node { symbol, freq, left: None, right: None }
}

fn bits(s: &str) -> Vec<bool> {
    s.bytes().map(|c| c == b'1').collect()
}

fn codes_of(data: &[u8]) -> Vec<Vec<bool>> {
    let freq = build_frequencies_from_file(data);
    let root = build_tree(&freq);
    let mut codes = vec![Vec::new(); 257];
    let mut prefix = Vec::new();
    build_codes(&root, &mut codes, &mut prefix);
    assert!(prefix.is_empty());
    codes
}

fn stream_with_table(set: &[(usize, u32)], body: &[u8]) -> Vec<u8> {
    let mut table = vec![0u32; 257];
    for &(s, f) in set {
        table[s] = f;
    }
    let mut out = b"HFMN".to_vec();
    write_frequencies(&mut out, &table);
    out.extend_from_slice(body);
    out
}

#[test]
fn bit_writer_packs_most_significant_bit_first() {
    let mut w = BitWriter::new(vec![0xAB]);
    for b in [1u8, 0, 1, 1, 0, 0, 0, 1, 1, 1] {
        w.write_bit(b);
    }
    w.flush();
    assert_eq!(w.into_bytes(), vec![0xAB, 0b1011_0001, 0b1100_0000]);
}

#[test]
fn bit_writer_takes_the_lowest_bit() {
    let mut w = BitWriter::new(Vec::new());
    for b in [3u8, 2, 255, 254, 1, 0, 1, 0] {
        w.write_bit(b);
    }
    w.flush();
    w.flush();
    assert_eq!(w.into_bytes(), vec![0b1010_1010]);
    let mut w = BitWriter::new(Vec::new());
    w.flush();
    assert_eq!(w.into_bytes(), Vec::<u8>::new());
}

#[test]
fn bit_reader_reads_zeros_after_the_end() {
    let data = [0b1011_0001u8, 0b1100_0000];
    let mut r = BitReader::new(&data);
    let mut got = Vec::new();
    for _ in 0..16 {
        assert!(!r.eof());
        got.push(r.read_bit());
    }
    assert_eq!(got, vec![1, 0, 1, 1, 0, 0, 0, 1, 1, 1, 0, 0, 0, 0, 0, 0]);
    assert!(!r.eof());
    assert_eq!(r.read_bit(), 0);
    assert!(r.eof());
    assert_eq!(r.read_bit(), 0);
    assert!(r.eof());
    let empty: [u8; 0] = [];
    let mut r = BitReader::new(&empty);
    assert!(!r.eof());
    assert_eq!(r.read_bit(), 0);
    assert!(r.eof());
}

#[test]
fn leaves_and_nodes() {
    let l = leaf(5, 2);
    assert!(is_leaf(&l));
    let n = Node { symbol: 0, freq: 2, left: Some(Box::new(leaf(5, 2))), right: None };
    assert!(!is_leaf(&n));
}

#[test]
fn trees_are_taken_by_weight_then_symbol_then_place() {
    let mut forest = vec![leaf(9, 4), leaf(3, 2), leaf(1, 2), leaf(1, 2), leaf(7, 1)];
    assert_eq!(take_first(&mut forest), leaf(7, 1));
    assert_eq!(forest, vec![leaf(9, 4), leaf(3, 2), leaf(1, 2), leaf(1, 2)]);
    assert_eq!(take_first(&mut forest), leaf(1, 2));
    assert_eq!(forest, vec![leaf(9, 4), leaf(3, 2), leaf(1, 2)]);
    assert_eq!(take_first(&mut forest), leaf(1, 2));
    assert_eq!(take_first(&mut forest), leaf(3, 2));
    assert_eq!(take_first(&mut forest), leaf(9, 4));
    assert!(forest.is_empty());
}

#[test]
fn tree_of_table_without_count_is_end_of_stream_leaf() {
    assert_eq!(build_tree(&[0, 0, 0]), leaf(256, 1));
    assert_eq!(build_tree(&[]), leaf(256, 1));
}

#[test]
fn tree_of_single_count_is_node_over_leaf() {
    assert_eq!(
        build_tree(&[0, 0, 5]),
        Node { symbol: 0, freq: 5, left: Some(Box::new(leaf(2, 5))), right: None }
    );
}

#[test]
fn tree_joins_the_two_lightest_first() {
    let root = build_tree(&[5, 1, 2]);
    let inner = Node {
        symbol: 0,
        freq: 3,
        left: Some(Box::new(leaf(1, 1))),
        right: Some(Box::new(leaf(2, 2))),
    };
    assert_eq!(
        root,
        Node { symbol: 0, freq: 8, left: Some(Box::new(inner)), right: Some(Box::new(leaf(0, 5))) }
    );
}

#[test]
fn default_table_counts_every_symbol_once() {
    assert_eq!(default_frequencies(), vec![1u32; 257]);
}

#[test]
fn table_of_a_message_is_not_scaled() {
    let freq = build_frequencies_from_file(b"abracadabra");
    assert_eq!(freq.len(), 257);
    assert_eq!(freq[b'a' as usize], 5);
    assert_eq!(freq[b'b' as usize], 2);
    assert_eq!(freq[b'r' as usize], 2);
    assert_eq!(freq[b'c' as usize], 1);
    assert_eq!(freq[b'd' as usize], 1);
    assert_eq!(freq[256], 1);
    assert_eq!(freq.iter().sum::<u32>(), 12);
    let empty = build_frequencies_from_file(&[]);
    assert_eq!(empty.iter().sum::<u32>(), 1);
    assert_eq!(empty[256], 1);
}

#[test]
fn codes_of_a_message() {
    let codes = codes_of(b"abracadabra");
    assert_eq!(codes[b'a' as usize], bits("0"));
    assert_eq!(codes[b'b' as usize], bits("110"));
    assert_eq!(codes[b'c' as usize], bits("1010"));
    assert_eq!(codes[b'd' as usize], bits("1011"));
    assert_eq!(codes[b'r' as usize], bits("111"));
    assert_eq!(codes[256], bits("100"));
    assert_eq!(codes[b'z' as usize], bits(""));
    let codes = codes_of(b"");
    assert_eq!(codes[256], bits("0"));
    let codes = codes_of(b"aaaa");
    assert_eq!(codes[b'a' as usize], bits("1"));
    assert_eq!(codes[256], bits("0"));
}

#[test]
fn code_of_a_tree_that_is_one_leaf_is_one_zero() {
    let mut codes = vec![bits("111"); 257];
    let mut prefix = Vec::new();
    build_codes(&leaf(256, 1), &mut codes, &mut prefix);
    assert_eq!(codes[256], bits("0"));
    assert_eq!(codes[0], bits("111"));
    let mut prefix = bits("10");
    build_codes(&leaf(3, 1), &mut codes, &mut prefix);
    assert_eq!(codes[3], bits("10"));
    assert_eq!(prefix, bits("10"));
}

#[test]
fn huffman_stream_layout() {
    let enc = huffman_encode_file(b"abracadabra");
    assert_eq!(&enc[0..4], b"HFMN");
    assert_eq!(&enc[4..8], &[1, 1, 0, 0]);
    assert_eq!(&enc[8 + 4 * 97..12 + 4 * 97], &[5, 0, 0, 0]);
    assert_eq!(&enc[8 + 4 * 256..HEADER_LEN], &[1, 0, 0, 0]);
    assert_eq!(&enc[HEADER_LEN..], &[110, 165, 183, 64]);
    assert_eq!(&huffman_encode_file(b"")[HEADER_LEN..], &[0]);
    assert_eq!(&huffman_encode_file(b"a")[HEADER_LEN..], &[64]);
    assert_eq!(&huffman_encode_file(b"aaaa")[HEADER_LEN..], &[240]);
    assert_eq!(&huffman_encode_file(b"hello world")[HEADER_LEN..], &[220, 161, 188, 233, 208]);
}

#[test]
fn huffman_round_trip() {
    let mut x: u32 = 5;
    for n in 0..300usize {
        let spread = [1u32, 2, 3, 17, 256][n % 5];
        let mut data = Vec::with_capacity(n);
        for _ in 0..n {
            x = x.wrapping_mul(1103515245).wrapping_add(12345) & 0x7fff_ffff;
            data.push(((x >> 16) % spread) as u8);
        }
        let enc = huffman_encode_file(&data);
        assert_eq!(huffman_decode_file(&enc), Ok(data));
    }
}

#[test]
fn huffman_header_faults() {
    let enc = huffman_encode_file(b"abracadabra");
    for n in 0..4 {
        assert_eq!(huffman_decode_file(&enc[..n]), Err(HuffmanError::TruncatedMagic));
    }
    let mut bad = enc.clone();
    bad[3] = b'n';
    assert_eq!(huffman_decode_file(&bad), Err(HuffmanError::BadMagic));
    for n in 4..8 {
        assert_eq!(huffman_decode_file(&enc[..n]), Err(HuffmanError::TruncatedFrequencies));
    }
    for n in 8..HEADER_LEN {
        assert_eq!(huffman_decode_file(&enc[..n]), Err(HuffmanError::TruncatedFrequencies));
    }
    let mut short = enc.clone();
    short[4] = 0;
    assert_eq!(huffman_decode_file(&short), Err(HuffmanError::BadSymbolCount));
    assert_eq!(huffman_decode_file(&short[..9]), Err(HuffmanError::BadSymbolCount));
}

#[test]
fn read_frequencies_starts_after_the_magic() {
    let enc = huffman_encode_file(b"abracadabra");
    let mut pos = 4usize;
    let freq = read_frequencies(&enc, &mut pos).unwrap();
    assert_eq!(pos, HEADER_LEN);
    assert_eq!(freq, build_frequencies_from_file(b"abracadabra"));
    let mut pos = 4usize;
    assert_eq!(read_frequencies(&enc[..100], &mut pos), Err(HuffmanError::TruncatedFrequencies));
}

#[test]
fn huffman_truncated_body() {
    let enc = huffman_encode_file(b"abracadabra");
    assert_eq!(enc.len(), HEADER_LEN + 4);
    for n in HEADER_LEN..HEADER_LEN + 4 {
        assert_eq!(huffman_decode_file(&enc[..n]), Err(HuffmanError::CorruptData));
    }
}

#[test]
fn huffman_bits_that_leave_the_tree() {
    // no symbol has a count: the tree is one leaf and no bit leads on
    assert_eq!(huffman_decode_file(&stream_with_table(&[], &[])), Err(HuffmanError::CorruptData));
    assert_eq!(
        huffman_decode_file(&stream_with_table(&[], &[0x80])),
        Err(HuffmanError::CorruptData)
    );
    // one symbol: only zero bits lead on, and the end is never reached
    assert_eq!(
        huffman_decode_file(&stream_with_table(&[(65, 3)], &[0x00, 0x80])),
        Err(HuffmanError::CorruptData)
    );
    assert_eq!(
        huffman_decode_file(&stream_with_table(&[(65, 3)], &[])),
        Err(HuffmanError::CorruptData)
    );
}

#[test]
fn huffman_zeros_after_the_end_may_reach_end_of_stream() {
    assert_eq!(huffman_decode_file(&stream_with_table(&[(256, 1)], &[])), Ok(Vec::new()));
    assert_eq!(
        huffman_decode_file(&stream_with_table(&[(256, 1)], &[0x80])),
        Err(HuffmanError::CorruptData)
    );
}
