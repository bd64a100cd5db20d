use rangecoder::cumulative::{build_cumulative, find_symbol};
use rangecoder::frequency::{build_frequencies, scale_frequencies};
use rangecoder::{EOF_SYMBOL, MAX_TOTAL, SYMBOL_LIMIT};

#[test]
fn constants() {
    assert_eq!(SYMBOL_LIMIT, 257);
    assert_eq!(EOF_SYMBOL, 256);
    assert_eq!(MAX_TOTAL, 1 << 24);
}

#[test]
fn histogram_counts_bytes_and_end_of_stream() {
    let freq = build_frequencies(b"aab");
    assert_eq!(freq.len(), 257);
    for (s, &f) in freq.iter().enumerate() {
        let expected = match s {
            97 => 2,
            98 => 1,
            256 => 1,
            _ => 0,
        };
        assert_eq!(f, expected);
    }
}

#[test]
fn histogram_of_empty_input() {
    let freq = build_frequencies(&[]);
    assert_eq!(freq.len(), 257);
    for s in 0..256 {
        assert_eq!(freq[s], 0);
    }
    assert_eq!(freq[256], 1);
}

#[test]
fn histogram_under_the_ceiling_is_not_scaled() {
    let data = vec![7u8; 100_000];
    let freq = build_frequencies(&data);
    assert_eq!(freq[7], 100_000);
    assert_eq!(freq[256], 1);
    assert_eq!(freq.iter().map(|&f| f as u64).sum::<u64>(), 100_001);
}

#[test]
fn histogram_over_the_ceiling_is_scaled() {
    let mut data = vec![7u8; (1 << 24) + 10];
    data[5] = 9;
    data[6] = 9;
    data[7] = 200;
    let freq = build_frequencies(&data);
    // total 2^24 + 11; 7 occurs 2^24 + 7 times
    assert_eq!(freq[7], 16777212);
    assert_eq!(freq[9], 1);
    assert_eq!(freq[200], 1);
    assert_eq!(freq[256], 1);
    assert_eq!(freq[8], 0);
}

#[test]
fn rescale_leaves_conforming_table() {
    let mut freq: Vec<u32> = vec![0; 257];
    freq[0] = (1 << 24) - 5;
    freq[1] = 1;
    freq[2] = 3;
    freq[256] = 1;
    let before = freq.clone();
    scale_frequencies(&mut freq);
    assert_eq!(freq, before);
    scale_frequencies(&mut freq);
    assert_eq!(freq, before);
}

#[test]
fn rescale_leaves_empty_and_all_zero_tables() {
    let mut none: Vec<u32> = Vec::new();
    scale_frequencies(&mut none);
    assert_eq!(none, Vec::<u32>::new());
    let mut zeros: Vec<u32> = vec![0; 257];
    scale_frequencies(&mut zeros);
    assert_eq!(zeros, vec![0u32; 257]);
}

#[test]
fn rescale_scales_in_proportion_with_floor_of_one() {
    let mut freq: Vec<u32> = vec![0; 257];
    freq[0] = 1 << 24;
    freq[1] = 1;
    freq[2] = 3;
    freq[256] = 1;
    scale_frequencies(&mut freq);
    assert_eq!(freq[0], 16777211);
    assert_eq!(freq[1], 1);
    assert_eq!(freq[2], 2);
    assert_eq!(freq[3], 0);
    assert_eq!(freq[256], 1);
    assert_eq!(freq.iter().map(|&f| f as u64).sum::<u64>(), 16777215);
}

#[test]
fn rescale_of_largest_counts() {
    let mut freq: Vec<u32> = vec![u32::MAX; 257];
    scale_frequencies(&mut freq);
    assert_eq!(freq, vec![65280u32; 257]);
}

#[test]
fn rescale_can_end_over_the_ceiling() {
    // 256 counts of one keep their slot, so the total ends just over 2^24
    let mut freq: Vec<u32> = vec![1; 257];
    freq[0] = u32::MAX;
    scale_frequencies(&mut freq);
    assert_eq!(freq[0], 16777215);
    for s in 1..257 {
        assert_eq!(freq[s], 1);
    }
    let total: u64 = freq.iter().map(|&f| f as u64).sum();
    assert_eq!(total, (1 << 24) + 255);
}

#[test]
fn cumulative_is_running_sum() {
    let cum = build_cumulative(&[2, 1, 0, 1]);
    assert_eq!(cum, vec![0u64, 2, 3, 3, 4]);
    let freq = build_frequencies(b"aab");
    let cum = build_cumulative(&freq);
    assert_eq!(cum.len(), 258);
    assert_eq!(cum[0], 0);
    assert_eq!(cum[97], 0);
    assert_eq!(cum[98], 2);
    assert_eq!(cum[99], 3);
    assert_eq!(cum[256], 3);
    assert_eq!(cum[257], 4);
}

#[test]
fn cumulative_of_largest_counts_does_not_wrap() {
    let cum = build_cumulative(&[u32::MAX, u32::MAX, u32::MAX]);
    assert_eq!(cum, vec![0u64, 4294967295, 8589934590, 12884901885]);
}

#[test]
fn cumulative_of_zero_total_is_identity() {
    let cum = build_cumulative(&[0, 0, 0]);
    assert_eq!(cum, vec![0u64, 1, 2, 3]);
    let cum = build_cumulative(&vec![0u32; 257]);
    assert_eq!(cum.len(), 258);
    for i in 0..258 {
        assert_eq!(cum[i], i as u64);
    }
    assert_eq!(build_cumulative(&[]), vec![0u64]);
}

#[test]
fn cumulative_is_monotone() {
    let data: Vec<u8> = (0..5000u32).map(|i| ((i * i + 3 * i) % 251) as u8).collect();
    let freq = build_frequencies(&data);
    let cum = build_cumulative(&freq);
    for s in 0..257 {
        assert!(cum[s] <= cum[s + 1]);
        if freq[s] > 0 {
            assert!(cum[s] < cum[s + 1]);
            assert_eq!(cum[s + 1] - cum[s], freq[s] as u64);
        }
    }
    assert_eq!(cum[257], 5001);
}

#[test]
fn find_symbol_picks_last_lower_bound() {
    let cum: Vec<u64> = vec![0, 2, 3, 3, 4];
    assert_eq!(find_symbol(&cum, 0), 0);
    assert_eq!(find_symbol(&cum, 1), 0);
    assert_eq!(find_symbol(&cum, 2), 1);
    assert_eq!(find_symbol(&cum, 3), 3);
    assert_eq!(find_symbol(&cum, 4), 3);
    assert_eq!(find_symbol(&cum, 1000), 3);
    let one: Vec<u64> = vec![0, 7];
    assert_eq!(find_symbol(&one, 0), 0);
    assert_eq!(find_symbol(&one, 6), 0);
}
