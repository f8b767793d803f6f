use chronos::partition::{P9Walk, Step};

/// Walks an in-memory dump the way the editor walks a dump file.
fn partition9(bytes: &[u8]) -> Result<(u64, u64), String> {
    let mut walk = P9Walk::new();
    let mut lba = walk.first_sector();
    for _ in 0..6 {
        let start = lba as usize * 512;
        let sector = bytes.get(start..start + 512).ok_or("short read")?;
        match walk.step(sector) {
            Step::Read(next) => lba = next,
            Step::Found(offset, size) => return Ok((offset, size)),
            Step::Fail(m) => return Err(m),
        }
    }
    Err("walk did not end".to_string())
}

fn set_entry(bytes: &mut [u8], sector: usize, slot: usize, kind: u8, start: u32, size: u32) {
    let base = sector * 512;
    bytes[base + 510..base + 512].copy_from_slice(&[0x55, 0xaa]);
    let o = base + 446 + slot * 16;
    bytes[o + 4] = kind;
    bytes[o + 8..o + 12].copy_from_slice(&start.to_le_bytes());
    bytes[o + 12..o + 16].copy_from_slice(&size.to_le_bytes());
}

#[test]
fn full_dump_uses_ebr_addresses_not_assumed_stock_offsets() {
    let mut bytes = vec![0; 12 * 512];
    set_entry(&mut bytes, 0, 2, 5, 1, 11);
    for i in 0..5 {
        set_entry(&mut bytes, 1 + i, 0, 0x83, 1, 1);
        if i < 4 {
            set_entry(&mut bytes, 1 + i, 1, 5, (i + 1) as u32, 10);
        }
    }
    assert_eq!(partition9(&bytes).unwrap(), (6 * 512, 512));
    // Point the second EBR back to itself.
    set_entry(&mut bytes, 2, 1, 5, 1, 10);
    assert!(partition9(&bytes).unwrap_err().contains("Cyclic"));
}

#[test]
fn broken_tables_are_reported() {
    let bytes = vec![0; 4 * 512];
    assert_eq!(partition9(&bytes).unwrap_err(), "No valid MBR/EBR partition table at sector 0");
    let mut bytes = vec![0; 4 * 512];
    set_entry(&mut bytes, 0, 0, 0x83, 1, 1);
    assert_eq!(
        partition9(&bytes).unwrap_err(),
        "Full dump has no extended partition table; select the P9 image instead"
    );
    let mut bytes = vec![0; 4 * 512];
    set_entry(&mut bytes, 0, 3, 0x0f, 1, 3);
    set_entry(&mut bytes, 1, 0, 0x83, 1, 0);
    assert_eq!(partition9(&bytes).unwrap_err(), "Partition P5 is missing");
    let mut bytes = vec![0; 4 * 512];
    set_entry(&mut bytes, 0, 0, 0x85, 1, 3);
    set_entry(&mut bytes, 1, 0, 0x83, 1, 1);
    assert_eq!(partition9(&bytes).unwrap_err(), "P9 is missing from the full dump");
    let mut bytes = vec![0; 10 * 512];
    set_entry(&mut bytes, 0, 0, 0x05, 1, 3);
    set_entry(&mut bytes, 1, 0, 0x83, 1, 1);
    set_entry(&mut bytes, 1, 1, 0x05, 7, 1);
    assert_eq!(partition9(&bytes).unwrap_err(), "No valid MBR/EBR partition table at sector 8");
}
