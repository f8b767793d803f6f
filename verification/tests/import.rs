use chronos::import::{bios_status, free_name, imported_name, report, rom_kind, validate, BiosConfig};

#[test]
fn bios_images_must_be_256_kib_and_not_blank() {
    assert_eq!(
        validate(&[1u8; 10], "System Card").unwrap_err(),
        "System Card: expected a 256 KiB BIOS, found 10 bytes"
    );
    assert_eq!(validate(&vec![0u8; 262144], "Super System Card").unwrap_err(), "Super System Card: BIOS is empty");
    assert_eq!(validate(&vec![255u8; 262144], "X").unwrap_err(), "X: BIOS is empty");
    let mut ok = vec![0u8; 262144];
    ok[1000] = 7;
    assert!(validate(&ok, "X").is_ok());
}

#[test]
fn bios_status_messages() {
    let mut good = vec![0u8; 262144];
    good[5] = 1;
    let s = bios_status(None, &Ok(good.clone()), &Ok(good.clone()));
    assert!(!s.ready);
    assert_eq!(s.message, "No BIOS configured. Extract them from an original PCD in Settings.");
    let config = BiosConfig { super_path: "a".into(), system_path: "b".into(), source: "c".into() };
    let s = bios_status(Some(&config), &Ok(good.clone()), &Ok(good.clone()));
    assert!(s.ready);
    assert_eq!(s.message, "Both BIOS files are ready for CD conversion.");
    let s = bios_status(Some(&config), &Ok(good.clone()), &Ok(vec![0u8; 262144]));
    assert!(!s.ready);
    assert_eq!(s.message, "System Card: BIOS is empty");
    let s = bios_status(Some(&config), &Ok(vec![1u8; 12]), &Ok(vec![0u8; 262144]));
    assert_eq!(s.message, "Super System Card: expected a 256 KiB BIOS");
    let s = bios_status(Some(&config), &Err("Super System Card: a: not found".into()), &Ok(good));
    assert!(!s.ready);
    assert_eq!(s.message, "Super System Card: a: not found");
}

#[test]
fn rom_kinds_and_names() {
    assert_eq!(rom_kind("Game.CUE").unwrap(), (true, true));
    assert_eq!(rom_kind("game.pcd").unwrap(), (false, true));
    assert_eq!(rom_kind("game.pce").unwrap(), (false, false));
    assert_eq!(rom_kind("game.sgx").unwrap(), (false, false));
    assert_eq!(rom_kind("game.ZIP").unwrap_err(), "Unsupported ROM format: zip");
    assert_eq!(rom_kind("game").unwrap_err(), "Unsupported ROM format: ");
    assert!(rom_kind("track01.bin").unwrap_err().starts_with("For a CD game, select the .cue file"));
    assert_eq!(imported_name("Game.cue", true), "Game.pcd");
    assert_eq!(imported_name("Game.pce", false), "Game.pce");
    let taken = vec!["Game.pcd".to_string(), "Game (2).pcd".to_string(), "Other.pce".to_string()];
    assert_eq!(free_name("Game.pcd", &taken), "Game (3).pcd");
    assert_eq!(free_name("Other.pcd", &taken), "Other.pcd");
    assert_eq!(free_name("Other.pce", &taken), "Other (2).pce");
}

#[test]
fn progress_records() {
    let p = report("Copying".into(), Some((3, 10)));
    assert_eq!(p.message, "Copying");
    assert_eq!(p.completed, Some(3));
    assert_eq!(p.total, Some(10));
    let p = report("Done".into(), None);
    assert_eq!(p.completed, None);
    assert_eq!(p.total, None);
}
