use rcple::checksum::{calc_crc, checksum, crc32_u64, Checksum, CrcTable, SEED};

#[test]
fn empty_file_has_checksum_zero() {
    assert_eq!(checksum(&[]), 0);
    assert_eq!(calc_crc(&[]), 0);
    let table = CrcTable::new();
    assert_eq!(Checksum::new(&table).finish(), 0);
}

#[test]
fn register_is_the_castagnoli_crc() {
    // the published check value of CRC-32C is the register after
    // "123456789", inverted
    let table = CrcTable::new();
    let mut crc = SEED;
    for b in b"123456789" {
        crc = table.step(crc, *b);
    }
    assert_eq!(!crc, 0xE306_9283);
}

#[test]
fn checksum_of_one_word() {
    assert_eq!(checksum(b"12345678"), 2675474277);
    assert_eq!(calc_crc(b"12345678"), 2675474277);
    assert_eq!(crc32_u64(SEED, 4050765991979987505), 2675474277);
}

#[test]
fn checksum_of_a_word_of_zeros_is_not_zero() {
    assert_eq!(checksum(&[0u8; 8]), 1943489909);
    assert_eq!(calc_crc(&[0u8; 8]), 1943489909);
}

#[test]
fn short_last_word_is_filled_with_zeros() {
    assert_eq!(checksum(b"hello"), 1878790732);
    assert_eq!(calc_crc(b"hello"), 1878790732);
    assert_eq!(checksum(b"hello\0\0\0"), 1878790732);
    assert_eq!(checksum(b"a"), 770416377);
    assert_eq!(calc_crc(b"a"), 770416377);
    assert_eq!(checksum(b"hello world, this is rcple"), 2545542733);
    assert_eq!(calc_crc(b"hello world, this is rcple"), 2545542733);
}

#[test]
fn both_computations_agree_on_whole_words() {
    let mut data: Vec<u8> = Vec::new();
    for round in 0..40u32 {
        assert_eq!(data.len() % 8, 0);
        assert_eq!(checksum(&data), calc_crc(&data));
        for k in 0..8u32 {
            data.push((round * 31 + k * 7 + 3) as u8);
        }
    }
    let sixteen: Vec<u8> = (0u8..16).collect();
    assert_eq!(checksum(&sixteen), 641136404);
    assert_eq!(calc_crc(&sixteen), 641136404);
}

#[test]
fn both_computations_agree_on_any_length() {
    let data: Vec<u8> = (0..200u32).map(|i| (i * 13 + 5) as u8).collect();
    for n in 0..data.len() {
        assert_eq!(checksum(&data[..n]), calc_crc(&data[..n]));
    }
}

#[test]
fn checksum_does_not_depend_on_how_the_bytes_arrive() {
    let data = b"hello world, this is rcple";
    let table = CrcTable::new();
    let mut whole = Checksum::new(&table);
    whole.update(data);
    let mut pieces = Checksum::new(&table);
    pieces.update(&data[..3]);
    pieces.update(&[]);
    pieces.update(&data[3..11]);
    pieces.push(data[11]);
    pieces.update(&data[12..]);
    assert_eq!(whole.finish(), 2545542733);
    assert_eq!(pieces.finish(), 2545542733);
}
