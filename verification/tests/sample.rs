use rangecoder::{decode, encode, make_test_data};

#[test]
fn sample_data_follows_its_rule() {
    assert_eq!(make_test_data(0), Vec::<u8>::new());
    assert_eq!(make_test_data(5), vec![7, 38, 69, 100, 131]);
    let v = make_test_data(1000);
    assert_eq!(v.len(), 1000);
    for (i, &b) in v.iter().enumerate() {
        assert_eq!(b as usize, (i * 31 + 7) % 256);
    }
    assert_eq!(v[8], 255);
    assert_eq!(v[9], 30);
}

#[test]
fn sample_data_round_trips() {
    let data = make_test_data(1 << 16);
    let enc = encode(&data).unwrap();
    assert_eq!(decode(&enc).unwrap(), data);
}
