use chronos::psb::reader::read;
use chronos::psb::value::Value;
use chronos::publish::LineupKind;
use chronos::saves::{
    all_zero, backup_flags, data_008_image, has_user_state, is_pack_state_file, pack_sram, parse_state_filename,
    sram_slice, sram_target, state_file_names, state_slot, state_target, system_save_metadata, SramTarget,
    DATA_008_SIZE, SRAM_BLOCK_SIZE, SRAM_OFFSET,
};
use md5::{Digest, Md5};

fn field<'a>(fields: &'a [(String, Value)], key: &str) -> &'a Value {
    &fields.iter().find(|(k, _)| k == key).expect("field").1
}

#[test]
fn generated_metadata_is_native_psb_with_matching_size_and_digest() {
    let data = vec![0u8; DATA_008_SIZE];
    let meta = system_save_metadata(&data, 1_700_000_000).unwrap();
    assert_eq!(&meta[..8], b"PSB\0\x03\0\0\0");
    let Value::Object(fields) = read(&meta).unwrap() else { panic!("metadata object") };
    assert!(matches!(field(&fields, "FileSize"), Value::Int(n) if *n == DATA_008_SIZE as i64));
    assert!(matches!(field(&fields, "OriginalSize"), Value::Int(n) if *n == DATA_008_SIZE as i64));
    assert!(matches!(field(&fields, "FileVersion"), Value::Int(0x10200)));
    assert!(matches!(field(&fields, "TimeStamp"), Value::Int(1_700_000_000)));
    let Value::Stream(digest) = field(&fields, "Digest") else { panic!("digest stream") };
    assert_eq!(digest.data, Md5::digest(&data).to_vec());
}

#[test]
fn pack_sram_embeds_whole_blocks_and_zeroes_the_rest() {
    let good = vec![7u8; SRAM_BLOCK_SIZE];
    let short = vec![9u8; 100];
    let blocks = vec![None, Some(good.clone()), Some(short), Some(good)];
    let (blob, embedded, skipped) = pack_sram(&blocks);
    assert_eq!(blob.len(), 150 * SRAM_BLOCK_SIZE);
    assert_eq!((embedded, skipped), (2, 1));
    assert!(blob[..SRAM_BLOCK_SIZE].iter().all(|&b| b == 0));
    assert!(blob[SRAM_BLOCK_SIZE..2 * SRAM_BLOCK_SIZE].iter().all(|&b| b == 7));
    assert!(blob[2 * SRAM_BLOCK_SIZE..3 * SRAM_BLOCK_SIZE].iter().all(|&b| b == 0));
    assert!(blob[3 * SRAM_BLOCK_SIZE..4 * SRAM_BLOCK_SIZE].iter().all(|&b| b == 7));
    assert!(blob[4 * SRAM_BLOCK_SIZE..].iter().all(|&b| b == 0));
}

#[test]
fn games_past_the_sram_array_are_dropped() {
    let blocks: Vec<Option<Vec<u8>>> = (0..151).map(|_| Some(vec![1u8; SRAM_BLOCK_SIZE])).collect();
    let (blob, embedded, skipped) = pack_sram(&blocks);
    assert_eq!(blob.len(), 150 * SRAM_BLOCK_SIZE);
    assert_eq!((embedded, skipped), (150, 0));
}

#[test]
fn system_save_takes_settings_and_active_sram() {
    let flags = vec![3u8; SRAM_OFFSET + 10];
    let sram = vec![5u8; 20];
    let image = data_008_image(Some(&flags), Some(&sram));
    assert_eq!(image.len(), DATA_008_SIZE);
    assert!(image[..SRAM_OFFSET].iter().all(|&b| b == 3));
    assert!(image[SRAM_OFFSET..SRAM_OFFSET + 20].iter().all(|&b| b == 5));
    assert!(image[SRAM_OFFSET + 20..].iter().all(|&b| b == 0));
    let empty = data_008_image(None, None);
    assert!(empty.iter().all(|&b| b == 0));
}

#[test]
fn user_state_is_a_nonzero_byte_in_the_first_four_kib() {
    assert!(!has_user_state(None));
    assert!(!has_user_state(Some(&[0u8; 5000])));
    let mut late = vec![0u8; 5000];
    late[4096] = 1;
    assert!(!has_user_state(Some(&late)));
    late[4095] = 1;
    assert!(has_user_state(Some(&late)));
}

#[test]
fn backup_flags_need_the_whole_settings_region() {
    assert!(backup_flags(&[1u8; 100]).is_none());
    let data: Vec<u8> = (0..SRAM_OFFSET + 50).map(|i| i as u8).collect();
    assert_eq!(backup_flags(&data).unwrap(), data[..SRAM_OFFSET].to_vec());
}

#[test]
fn state_slots_and_names() {
    assert_eq!(state_slot(0, 0, LineupKind::Jp), 0);
    assert_eq!(state_slot(3, 2, LineupKind::Jp), 14);
    assert_eq!(state_slot(3, 2, LineupKind::Us), 214);
    let (data, meta) = state_file_names(11, 214);
    assert_eq!(data, "data_011_0214.bin");
    assert_eq!(meta, "meta_011_0214.bin");
    assert_eq!(state_file_names(8, 12345).0, "data_008_12345.bin");
    assert!(is_pack_state_file("data_011_0001.bin"));
    assert!(is_pack_state_file("meta_012_0200.bin"));
    assert!(!is_pack_state_file("data_008_0000.bin"));
    assert!(!is_pack_state_file("data_011_0001.txt"));
}

#[test]
fn state_file_names_parse_back() {
    assert_eq!(parse_state_filename("data_011_0214.bin"), Some((11, 214)));
    assert_eq!(parse_state_filename("data_012_0003.bin"), Some((12, 3)));
    assert_eq!(parse_state_filename("data_+11_0002.bin"), Some((11, 2)));
    assert_eq!(parse_state_filename("data_013_0001.bin"), None);
    assert_eq!(parse_state_filename("meta_011_0001.bin"), None);
    assert_eq!(parse_state_filename("data_011_.bin"), None);
    assert_eq!(parse_state_filename("data_011_00x1.bin"), None);
    assert_eq!(parse_state_filename("data_70000_1.bin"), None);
    assert_eq!(parse_state_filename("data_011_0001"), None);
}

#[test]
fn sync_maps_blocks_and_states_to_games() {
    assert_eq!(sram_target(0, true, 3), SramTarget::BackCard);
    assert_eq!(sram_target(1, true, 3), SramTarget::Game(0));
    assert_eq!(sram_target(3, true, 3), SramTarget::Game(2));
    assert_eq!(sram_target(4, true, 3), SramTarget::Unmapped);
    assert_eq!(sram_target(0, false, 3), SramTarget::Game(0));
    assert_eq!(state_target(214, true, false, 5), Some((3, 2)));
    assert_eq!(state_target(9, false, true, 5), Some((1, 1)));
    assert_eq!(state_target(2, false, true, 5), None);
    assert_eq!(state_target(4, false, true, 5), Some((0, 0)));
    assert_eq!(state_target(40, false, false, 5), None);
    assert!(all_zero(&[0, 0, 0]));
    assert!(!all_zero(&[0, 1]));
    let data: Vec<u8> = (0..150 * SRAM_BLOCK_SIZE + 3).map(|i| (i % 251) as u8).collect();
    assert_eq!(sram_slice(&data, 3).unwrap(), data[3..].to_vec());
    assert!(sram_slice(&data, 4).is_none());
}
