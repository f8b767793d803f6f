use chronos::fonts::{pack_glyphs, Placement};
use chronos::psb::value::Value;
use chronos::publish::LineupKind;
use chronos::import::BiosConfig;
use chronos::stock::{
    bios_from_attempts, check_dump, copies_to_game, is_bios_source, original_games, required_file_names, template_file_names,
};

fn obj(entries: Vec<(&str, Value)>) -> Value {
    Value::Object(entries.into_iter().map(|(k, v)| (k.to_string(), v)).collect())
}

fn s(t: &str) -> Value {
    Value::String(t.to_string())
}

fn get<'a>(entries: &'a [(String, Value)], key: &str) -> &'a Value {
    &entries.iter().rev().find(|(k, _)| k == key).unwrap().1
}

fn text(v: &Value) -> &str {
    match v {
        Value::String(t) => t,
        other => panic!("expected text, found {other:?}"),
    }
}

fn integer(v: &Value) -> i64 {
    match v {
        Value::Int(i) => *i,
        other => panic!("expected an integer, found {other:?}"),
    }
}

fn menu(slots: Vec<(usize, Value)>) -> Value {
    let mut items: Vec<Value> = (0..200).map(|_| obj(vec![("regionTag", s("DUMMY"))])).collect();
    for (i, item) in slots {
        items[i] = item;
    }
    obj(vec![("root", obj(vec![("items", Value::Array(items))]))])
}

fn profiles(entries: Vec<(&str, Value)>) -> Value {
    obj(vec![("root", obj(vec![("m2epi", obj(vec![("version", obj(entries))]))]))])
}

#[test]
fn original_games_are_read_from_the_stock_menu() {
    let m = menu(vec![
        (0, obj(vec![("regionTag", s("GAME_A")), ("name", s("ゲーム")), ("image", Value::Int(7)), ("players", Value::Int(2))])),
        (3, obj(vec![("regionTag", s("GAME_B")), ("sor_date", Value::Int(1989))])),
        (100, obj(vec![("regionTag", s("GAME_A")), ("tname", s("Game A"))])),
        (60, obj(vec![("regionTag", s("GAME_US"))])),
    ]);
    let p = profiles(vec![
        ("GAME_A", obj(vec![("rom", s("roms/a.pce")), ("speed", Value::Int(1))])),
        ("GAME_B", obj(vec![("rom", s("b.pcd"))])),
    ]);
    let games = original_games(&m, &p, LineupKind::Jp).unwrap();
    assert_eq!(games.len(), 2);
    let a = &games[0];
    assert_eq!(a.tag, "GAME_A");
    assert_eq!(a.rom_file, "a.pce");
    assert_eq!(a.image, 7);
    assert_eq!(text(get(&a.display, "name")), "ゲーム");
    assert_eq!(text(get(&a.display, "tname")), "");
    assert_eq!(integer(get(&a.display, "players")), 2);
    assert_eq!(integer(get(&a.display, "csize")), 0);
    assert_eq!(text(get(&a.display, "name_eng")), "Game A");
    assert_eq!(text(get(&a.rom, "rom")), "a.pce");
    assert_eq!(text(get(&a.rom, "regionTag")), "GAME_A");
    assert_eq!(integer(get(&a.rom, "speed")), 1);
    assert_eq!(integer(get(&a.emulator, "ScreenMode")), 0);
    assert_eq!(text(get(&a.entry, "folder")), "GAME_A");
    let b = &games[1];
    assert_eq!(b.image, 3);
    assert_eq!(text(get(&b.display, "name_eng")), "");
    assert_eq!(integer(get(&b.entry, "sor_date")), 1989);
    // The US lineup lacks a profile for its game.
    assert_eq!(original_games(&m, &p, LineupKind::Us).unwrap_err(), "No ROM profile for GAME_US");
}

#[test]
fn original_games_refuse_bad_menus() {
    let p = profiles(vec![]);
    let short = obj(vec![("items", Value::Array(vec![]))]);
    assert_eq!(
        original_games(&short, &p, LineupKind::Jp).unwrap_err(),
        "Unsupported original menu: expected the JP/US lineups"
    );
    assert_eq!(original_games(&Value::Null, &p, LineupKind::Jp).unwrap_err(), "Original menu has no game list");
    let m = menu(vec![]);
    assert_eq!(original_games(&m, &Value::Null, LineupKind::Jp).unwrap_err(), "Original ROM profiles not found");
    for tag in ["FOLDER_001", "a/b"] {
        let m = menu(vec![(5, obj(vec![("regionTag", s(tag))]))]);
        assert_eq!(original_games(&m, &p, LineupKind::Jp).unwrap_err(), format!("Invalid game identifier: {tag}"));
    }
    let m = menu(vec![(5, obj(vec![("name", s("x"))]))]);
    assert_eq!(original_games(&m, &p, LineupKind::Jp).unwrap_err(), "Game has no regionTag");
    let m = menu(vec![(5, obj(vec![("regionTag", s("G"))]))]);
    let p = profiles(vec![("G", obj(vec![("x", Value::Int(1))]))]);
    assert_eq!(original_games(&m, &p, LineupKind::Jp).unwrap_err(), "Game has no ROM filename");
    assert!(original_games(&m, &p, LineupKind::Us).unwrap().is_empty());
}

#[test]
fn glyphs_fill_shelves_then_pages() {
    let (places, heights) = pack_glyphs(&vec![(10, 20), (1015, 5), (30, 1000)]).unwrap();
    assert_eq!(places[0], Placement { x: 1, y: 1, page: 0 });
    // Does not fit beside the first glyph: a new shelf below it.
    assert_eq!(places[1], Placement { x: 1, y: 23, page: 0 });
    // Too tall for what is left of the page: a new page.
    assert_eq!(places[2], Placement { x: 1, y: 1, page: 1 });
    // The first page closes on a fresh shelf at row 30: 31 rows used, padded to 32.
    assert_eq!(heights, vec![32, 1004]);
}

#[test]
fn oversized_glyphs_are_refused() {
    assert_eq!(pack_glyphs(&vec![(1, 1), (1023, 1)]).unwrap_err(), "Font glyph exceeds texture limit");
    assert_eq!(pack_glyphs(&vec![]).unwrap(), (vec![], vec![4]));
}

#[test]
fn a_dump_must_hold_every_required_file() {
    let mut names = required_file_names();
    assert_eq!(names.len(), 10);
    assert!(check_dump(&names).is_ok());
    names.retain(|n| n != "libopus.so.0" && n != "version");
    assert_eq!(
        check_dump(&names).unwrap_err(),
        "The dump is missing libopus.so.0. Select the original P9, not only alldata.bin."
    );
    let templates = template_file_names();
    assert_eq!(templates[0], "040/config/title_prof.psb.m");
    assert_eq!(templates[7], "system/motion/titleselect_ui.psb.m");
}

#[test]
fn dump_files_are_sorted_into_game_and_bios_sources() {
    assert!(copies_to_game("m2engage"));
    assert!(copies_to_game("system/config/system_prof.psb.m"));
    assert!(!copies_to_game("system/roms/a.pce"));
    assert!(!copies_to_game("save/data_012_0001.bin"));
    assert!(!copies_to_game("alldata.bin"));
    assert!(!copies_to_game("lost+found/x"));
    assert!(is_bios_source("system/roms/Game.PCD"));
    assert!(!is_bios_source("system/roms/game.pce"));
    assert!(!is_bios_source("other/game.pcd"));
}

#[test]
fn the_first_cd_game_with_a_bios_wins() {
    let config = BiosConfig { super_path: "s".into(), system_path: "y".into(), source: "d".into() };
    let tried = vec![
        ("system/roms/a.pcd".to_string(), Err("no bios section".to_string())),
        ("system/roms/b.pcd".to_string(), Ok(config)),
    ];
    let (bios, warnings) = bios_from_attempts(tried);
    assert_eq!(bios.unwrap().super_path, "s");
    assert_eq!(warnings, vec!["system/roms/a.pcd: no bios section".to_string()]);
    let (bios, warnings) = bios_from_attempts(vec![]);
    assert!(bios.is_none());
    assert_eq!(
        warnings,
        vec!["No compatible BIOS pair found. Configure BIOS in Settings before importing a CUE.".to_string()]
    );
}
