use chronos::editor::{default_genres, default_true, pixel_count, preview_offset, read_game_saves, EditorSettings};

#[test]
fn thumbnail_sizes() {
    assert_eq!(pixel_count(320, 240).unwrap(), 230400);
    assert_eq!(pixel_count(2, 1).unwrap(), 6);
    assert_eq!(pixel_count(0, 10).unwrap_err(), "Invalid thumbnail dimensions");
    assert_eq!(pixel_count(321, 240).unwrap_err(), "Invalid thumbnail dimensions");
    assert_eq!(pixel_count(u32::MAX, u32::MAX).unwrap_err(), "Invalid thumbnail dimensions");
}

#[test]
fn native_state_layouts() {
    assert_eq!(preview_offset(895_848).unwrap(), 0x40300);
    assert_eq!(preview_offset(2_206_568).unwrap(), 0x180300);
    assert_eq!(preview_offset(8448).unwrap_err(), "Unrecognized console save size; preview unavailable");
}

#[test]
fn save_slots_report_previews_and_errors() {
    let saves = read_game_saves(
        vec![Some(Ok("data:image/png".into())), None, Some(Err("truncated".into())), None],
        true,
    );
    assert!(saves.sram_present);
    assert_eq!(saves.states.len(), 4);
    assert!(saves.states[0].exists);
    assert_eq!(saves.states[0].thumbnail.as_deref(), Some("data:image/png"));
    assert!(!saves.states[1].exists);
    assert!(saves.states[2].exists);
    assert_eq!(saves.states[2].preview_error.as_deref(), Some("truncated"));
    assert_eq!(saves.states[3].slot, 3);
}

#[test]
fn settings_defaults() {
    let s = EditorSettings::default();
    assert!(s.confirm_delete && s.force_us_titlebar);
    assert!(s.games_path.is_none() && s.bios.is_none());
    assert!(default_true());
    let g = default_genres();
    assert_eq!(g.len(), 10);
    assert_eq!(g[0], "Shooter");
    assert_eq!(g[9], "ETC.");
}
