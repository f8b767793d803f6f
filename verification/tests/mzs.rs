use chronos::mzs::{
    check_size, derive_keystream, pack_default, unpack_default, xor_into, Error, DEFAULT_KEY,
    DEFAULT_KEY_LENGTH, MAGIC,
};

#[test]
fn keystream_first_bytes_known() {
    let ks = derive_keystream(DEFAULT_KEY, "test.psb", DEFAULT_KEY_LENGTH);
    assert_eq!(ks.len(), DEFAULT_KEY_LENGTH);
}

#[test]
fn pack_then_unpack_roundtrip() {
    let original = b"the quick brown fox jumps over the lazy dog".repeat(50);
    let packed = pack_default(&original, "test.bin").unwrap();
    assert_eq!(&packed[..4], MAGIC);
    let unpacked = unpack_default(&packed, "test.bin").unwrap();
    assert_eq!(unpacked, original);
}

#[test]
fn wrong_filename_fails_zstd_check() {
    let original = b"hello world".to_vec();
    let packed = pack_default(&original, "right.bin").unwrap();
    let err = unpack_default(&packed, "wrong.bin").unwrap_err();
    assert!(matches!(err, Error::NotZstd));
}

#[test]
fn keystream_depends_on_the_file_name() {
    let a = derive_keystream(DEFAULT_KEY, "a.psb", 64);
    let b = derive_keystream(DEFAULT_KEY, "b.psb", 64);
    assert_eq!(a.len(), 64);
    assert_ne!(a, b);
    // The file name is compared case-insensitively.
    assert_eq!(derive_keystream(DEFAULT_KEY, "A.PSB", 64), a);
}

#[test]
fn xor_twice_gives_the_data_back() {
    let key = [1u8, 2, 3];
    let mut data = vec![10u8, 20, 30, 40, 50];
    xor_into(&mut data, &key);
    assert_eq!(data, vec![11, 22, 29, 41, 48]);
    xor_into(&mut data, &key);
    assert_eq!(data, vec![10, 20, 30, 40, 50]);
}

#[test]
fn unpack_rejects_bad_magic_and_short_input() {
    assert!(matches!(unpack_default(b"abcdefghij", "x"), Err(Error::BadMagic)));
    assert!(matches!(unpack_default(b"mzs\0\x01", "x"), Err(Error::Truncated)));
}

#[test]
fn size_check_reports_both_sizes() {
    match check_size(vec![1, 2, 3], 5) {
        Err(Error::SizeMismatch { expected, actual }) => {
            assert_eq!(expected, 5);
            assert_eq!(actual, 3);
        }
        other => panic!("unexpected {:?}", other),
    }
    assert_eq!(check_size(vec![1, 2, 3], 3).unwrap(), vec![1, 2, 3]);
}

#[test]
fn packed_header_records_the_size() {
    let data = vec![7u8; 1000];
    let packed = pack_default(&data, "seven.bin").unwrap();
    assert_eq!(&packed[4..8], &1000u32.to_le_bytes());
    assert_ne!(&packed[8..12], &[0x28, 0xB5, 0x2F, 0xFD]);
}
