use chunk_store::bit_packed::{mask, read};
use chunk_store::errors::WorldError;

#[test]
fn value_across_two_words_reads_back() {
    let mut words: Vec<u64> = vec![0, 0];
    assert_eq!(chunk_store::bit_packed::write(&mut words, 62, 31, 5), Ok(()));
    assert_eq!(read(&words, 62, 5), Ok(31));
    // two bits are left in word 0 from bit 62 on, the other three go to word 1
    assert_eq!(words[0], 0b11u64 << 62);
    assert_eq!(words[1], 0b111);
}

#[test]
fn write_leaves_other_bits_alone() {
    let mut words: Vec<u64> = vec![u64::MAX, u64::MAX, 0x0123_4567_89ab_cdef];
    assert_eq!(chunk_store::bit_packed::write(&mut words, 60, 0, 9), Ok(()));
    assert_eq!(words[0], u64::MAX >> 4);
    assert_eq!(words[1], u64::MAX << 5);
    assert_eq!(words[2], 0x0123_4567_89ab_cdef);
    assert_eq!(read(&words, 56, 4), Ok(0xf));
    assert_eq!(read(&words, 60, 9), Ok(0));
    assert_eq!(read(&words, 69, 4), Ok(0xf));
}

#[test]
fn read_inside_one_word() {
    let words: Vec<u64> = vec![0x0000_0000_0000_abcd];
    assert_eq!(read(&words, 0, 4), Ok(0xd));
    assert_eq!(read(&words, 4, 4), Ok(0xc));
    assert_eq!(read(&words, 8, 8), Ok(0xab));
    assert_eq!(read(&words, 0, 64), Ok(0xabcd));
}

#[test]
fn full_width_value_across_words() {
    let mut words: Vec<u64> = vec![0, 0];
    let value: u64 = 0xdead_beef_0bad_f00d;
    assert_eq!(chunk_store::bit_packed::write(&mut words, 13, value, 64), Ok(()));
    assert_eq!(read(&words, 13, 64), Ok(value));
    assert_eq!(words[0], value << 13);
    assert_eq!(words[1], value >> 51);
}

#[test]
fn access_outside_of_the_words_fails() {
    let mut words: Vec<u64> = vec![0, 0];
    assert_eq!(read(&words, 124, 5), Err(WorldError::InvalidBlockStateData));
    assert_eq!(read(&words, 128, 1), Err(WorldError::InvalidBlockStateData));
    assert_eq!(read(&words, 123, 5), Ok(0));
    assert_eq!(
        chunk_store::bit_packed::write(&mut words, 124, 1, 5),
        Err(WorldError::InvalidBlockStateData)
    );
    assert_eq!(words, vec![0, 0]);
    let empty: Vec<u64> = Vec::new();
    assert_eq!(read(&empty, 0, 1), Err(WorldError::InvalidBlockStateData));
}

#[test]
fn widths_out_of_range_fail() {
    let mut words: Vec<u64> = vec![7, 7];
    assert_eq!(read(&words, 0, 0), Err(WorldError::InvalidBlockStateData));
    assert_eq!(read(&words, 0, 65), Err(WorldError::InvalidBlockStateData));
    assert_eq!(
        chunk_store::bit_packed::write(&mut words, 0, 0, 0),
        Err(WorldError::InvalidBlockStateData)
    );
    assert_eq!(
        chunk_store::bit_packed::write(&mut words, 0, 0, 65),
        Err(WorldError::InvalidBlockStateData)
    );
    assert_eq!(words, vec![7, 7]);
}

#[test]
fn value_too_wide_is_refused() {
    let mut words: Vec<u64> = vec![0];
    assert_eq!(
        chunk_store::bit_packed::write(&mut words, 0, 32, 5),
        Err(WorldError::InvalidBlockStateData)
    );
    assert_eq!(words, vec![0]);
    assert_eq!(chunk_store::bit_packed::write(&mut words, 0, 31, 5), Ok(()));
    assert_eq!(words, vec![31]);
}

#[test]
fn mask_values() {
    assert_eq!(mask(0), 0);
    assert_eq!(mask(1), 1);
    assert_eq!(mask(4), 15);
    assert_eq!(mask(5), 31);
    assert_eq!(mask(63), u64::MAX >> 1);
    assert_eq!(mask(64), u64::MAX);
    assert_eq!(mask(200), u64::MAX);
}

#[test]
fn value_has_the_bits_of_the_stream() {
    let words: Vec<u64> = vec![0x8000_0000_0000_0001, 0x5, 0];
    // bit 0 is the lowest bit of word 0, bit 64 the lowest bit of word 1
    assert_eq!(read(&words, 0, 1), Ok(1));
    assert_eq!(read(&words, 1, 1), Ok(0));
    assert_eq!(read(&words, 63, 1), Ok(1));
    assert_eq!(read(&words, 64, 1), Ok(1));
    assert_eq!(read(&words, 65, 1), Ok(0));
    assert_eq!(read(&words, 66, 1), Ok(1));
    let value = read(&words, 60, 9).unwrap();
    for k in 0..9usize {
        assert_eq!((value >> k) & 1, read(&words, 60 + k, 1).unwrap());
    }
    assert_eq!(value, 0b0_0101_1000);
}
