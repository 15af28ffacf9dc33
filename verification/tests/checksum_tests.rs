use save_codec::checksum::{append_checksum, checksum_of, Checksum};
use save_codec::cursor::ByteCursor;

#[test]
fn checksum_matches_published_check_value() {
    // the CRC-32/BZIP2 check value for the standard nine-digit test vector
    let data = b"123456789".to_vec();
    assert_eq!(checksum_of(&data), 0xFC891918);
}

#[test]
fn checksum_is_deterministic() {
    let data: Vec<u8> = (0u8..=255).collect();
    assert_eq!(checksum_of(&data), checksum_of(&data.clone()));
}

#[test]
fn footer_is_appended_over_preceding_bytes() {
    let mut out = b"123456789".to_vec();
    append_checksum(&mut out);
    assert_eq!(out.len(), 13);
    assert_eq!(&out[9..13], &0xFC891918u32.to_le_bytes());
}

#[test]
fn checksum_type_reads_footer_and_recomputes_on_write() {
    let mut cur = ByteCursor::new(vec![0x11, 0x22, 0x33, 0x44]);
    let ck = Checksum::deserialize(&mut cur).unwrap();
    assert_eq!(ck, Checksum(0x44332211));

    let mut out = b"123456789".to_vec();
    // serialization ignores the stored value and recomputes over the stream
    Checksum(0xDEADBEEF).serialize(&mut out);
    assert_eq!(&out[9..13], &0xFC891918u32.to_le_bytes());
}

#[test]
fn single_bit_flips_change_the_checksum() {
    // avalanche over pseudo-random single-bit flips of a fixed buffer
    let mut seed: u64 = 0x1234_5678_9ABC_DEF0;
    let mut next = move || {
        seed = seed.wrapping_mul(6364136223846793005).wrapping_add(1442695040888963407);
        (seed >> 33) as usize
    };
    let base: Vec<u8> = (0u8..64).collect();
    let base_ck = checksum_of(&base);
    for _ in 0..200 {
        let bit = next() % (base.len() * 8);
        let mut flipped = base.clone();
        flipped[bit / 8] ^= 1 << (bit % 8);
        assert_ne!(checksum_of(&flipped), base_ck, "flip of bit {} left the checksum unchanged", bit);
    }
}
