use utp::bit_iterator::BitIterator;

#[test]
fn test_iterator() {
    let bytes = vec![0xCA, 0xFE];
    let expected_bits = vec![0, 1, 0, 1, 0, 0, 1, 1, 0, 1, 1, 1, 1, 1, 1, 1];

    let mut it = BitIterator::from_bytes(&bytes);
    let mut i = 0;
    while let Some(bit) = it.next() {
        println!("{} == {}", bit, expected_bits[i] == 1);
        assert_eq!(bit, expected_bits[i] == 1);
        i += 1;
    }
    assert_eq!(i, expected_bits.len());
}

#[test]
fn count_ones_counts_every_set_bit() {
    let bytes = vec![0xCA, 0xFE, 0x00, 0xFF];
    let it = BitIterator::from_bytes(&bytes);
    assert_eq!(it.count_ones(), 4 + 7 + 0 + 8);
}

#[test]
fn size_hint_is_the_number_of_bits() {
    let bytes = vec![1u8, 2, 3];
    let it = BitIterator::from_bytes(&bytes);
    assert_eq!(it.size_hint(), (24, Some(24)));
}

#[test]
fn collect_bits_gives_every_bit_in_order() {
    let bytes = vec![0x01u8, 0x80];
    let mut it = BitIterator::from_bytes(&bytes);
    assert_eq!(it.next(), Some(true));
    let rest = it.collect_bits();
    let mut expected = vec![false; 15];
    expected[14] = true;
    assert_eq!(rest, expected);
    assert_eq!(it.next(), None);
}

#[test]
fn empty_input_yields_no_bits() {
    let bytes: Vec<u8> = vec![];
    let mut it = BitIterator::from_bytes(&bytes);
    assert_eq!(it.next(), None);
    assert_eq!(it.count_ones(), 0);
}

#[test]
fn count_ones_is_unchanged_by_iteration() {
    let bytes = [0xCAu8, 0xFE];
    let mut it = BitIterator::from_bytes(&bytes);
    assert_eq!(it.count_ones(), 11);
    let mut seen = Vec::new();
    for _ in 0..20 {
        seen.push(it.next());
        assert_eq!(it.count_ones(), 11);
    }
    for i in 0..16 {
        assert_eq!(seen[i], Some((bytes[i / 8] >> (i % 8)) & 1 == 1));
    }
    assert!(seen[16..].iter().all(|r| r.is_none()));
}
