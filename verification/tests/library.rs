use chronos::library::{
    back_card_game, build_title_select_inputs, current_pack, folder_pack_games, folder_to_game,
    iter_all_games, join_path, library_game_dir, library_game_saves_dir, library_game_sram_path,
    published_rom_name, rom_is_blank, synthesize_root_games, Folder, Library, Lineup, LineupEntry,
};
use chronos::library::{resource_candidates, resource_path};
use chronos::publish::{CoverSize, Error, Game, GameJson, GameRom, SortIndices};

fn game(dir: &str, arch: &str) -> Game {
    Game {
        dir_name: dir.into(),
        region_tag: dir.into(),
        data: GameJson {
            rom: GameRom { arch: arch.into(), rom: format!("{dir}.pce"), ..Default::default() },
            ..Default::default()
        },
        sort: SortIndices { sor_date: 7, sor_demo: 7, sor_genr: 7, sor_name: 7, sor_pnum: 7 },
        source_dir: format!("lib/jp/{dir}"),
    }
}

fn folder(dir: &str, name: &str, games: Vec<Game>) -> Folder {
    Folder {
        dir_name: dir.into(),
        display_name: name.into(),
        sort: SortIndices { sor_date: 3, sor_demo: 4, sor_genr: 5, sor_name: 6, sor_pnum: 8 },
        source_dir: format!("lib/jp/{dir}"),
        games,
    }
}

fn lineup() -> Lineup {
    Lineup {
        root_entries: vec![
            LineupEntry::Game(game("GAME001", "tg16")),
            LineupEntry::Folder(folder("FOLDER01", "Shooters", vec![game("GAME010", "tg16cd"), game("GAME011", "sgx")])),
            LineupEntry::Game(game("GAME002", "tg16")),
            LineupEntry::Folder(folder("FOLDER02", "Empty", vec![])),
        ],
        source_dir: "lib/jp".into(),
    }
}

#[test]
fn paths_are_joined_by_unix_rules() {
    assert_eq!(join_path("a", "b"), "a/b");
    assert_eq!(join_path("a/", "b"), "a/b");
    assert_eq!(join_path("", "b"), "b");
    assert_eq!(join_path("a", "/b"), "/b");
    assert_eq!(join_path("a", ""), "a/");
}

#[test]
fn game_files_live_in_its_directory() {
    let mut g = game("GAME001", "tg16");
    assert_eq!(g.rom_path(), "lib/jp/GAME001/GAME001.pce");
    assert_eq!(g.cover_path(), "lib/jp/GAME001/cover.png");
    assert_eq!(g.sram_path(), "lib/jp/GAME001/sram.bin");
    assert_eq!(g.saves_dir(), "lib/jp/GAME001/saves");
    g.data.cover = Some("art/front.png".into());
    assert_eq!(g.cover_path(), "lib/jp/GAME001/art/front.png");
}

#[test]
fn save_state_type_follows_the_architecture() {
    assert_eq!(game("A", "folder").save_state_type(), None);
    assert_eq!(game("A", "tg16cd").save_state_type(), Some(11));
    assert_eq!(game("A", "pcecd").save_state_type(), Some(11));
    assert_eq!(game("A", "tg16").save_state_type(), Some(12));
    assert_eq!(game("A", "sgx").save_state_type(), Some(12));
    assert_eq!(game("A", "c").save_state_type(), Some(12));
}

#[test]
fn game_cover_dimensions_default_to_a_centred_square() {
    let mut g = game("A", "tg16");
    assert_eq!(g.cover_dimensions(), (240, 240, 120, 120));
    g.data.cover_size = Some(CoverSize { width: 300, height: 0, origin_x: 0, origin_y: 17 });
    assert_eq!(g.cover_dimensions(), (300, 240, 150, 17));
}

#[test]
fn folder_cards_and_entries() {
    let f = folder("FOLDER01", "Shooters", vec![]);
    assert_eq!(f.region_tag("jp"), "FOLDER_jp_FOLDER01");
    assert_eq!(f.cover_path(), "lib/jp/FOLDER01/cover.png");
    let e = LineupEntry::Folder(f);
    assert_eq!(e.dir_name(), "FOLDER01");
    assert_eq!(e.sort().sor_genr, 5);
    let g = LineupEntry::Game(game("GAME001", "tg16"));
    assert_eq!(g.dir_name(), "GAME001");
    assert_eq!(g.sort().sor_name, 7);
}

#[test]
fn a_lineup_publishes_its_root_and_each_folder() {
    let l = lineup();
    let folders: Vec<&str> = l.folders().iter().map(|f| f.dir_name.as_str()).collect();
    assert_eq!(folders, vec!["FOLDER01", "FOLDER02"]);
    let packs = l.iter_publish_folders();
    assert_eq!(packs.len(), 3);
    assert_eq!(packs[0].0, "_root");
    let root: Vec<&str> = packs[0].1.iter().map(|g| g.dir_name.as_str()).collect();
    assert_eq!(root, vec!["GAME001", "GAME002"]);
    assert_eq!(packs[1].0, "FOLDER01");
    let inner: Vec<&str> = packs[1].1.iter().map(|g| g.dir_name.as_str()).collect();
    assert_eq!(inner, vec!["GAME010", "GAME011"]);
    assert_eq!(packs[2].0, "FOLDER02");
    assert!(packs[2].1.is_empty());
    let all: Vec<&str> = iter_all_games(&l).iter().map(|g| g.dir_name.as_str()).collect();
    assert_eq!(all, vec!["GAME001", "GAME010", "GAME011", "GAME002"]);
    let library = Library { jp: l, us: Lineup { root_entries: vec![], source_dir: "lib/us".into() } };
    assert!(library.us.iter_publish_folders()[0].1.is_empty());
}

#[test]
fn a_folder_becomes_an_enter_folder_card() {
    let f = folder("FOLDER01", "Shooters", vec![game("GAME010", "tg16")]);
    let card = folder_to_game(&f, "us");
    assert_eq!(card.dir_name, "FOLDER01");
    assert_eq!(card.region_tag, "FOLDER_us_FOLDER01");
    assert_eq!(card.data.display.name, "Shooters");
    assert_eq!(card.data.display.tname, "Shooters");
    assert_eq!(card.data.display.name_eng, "Shooters");
    assert_eq!(card.data.display.csize, 10);
    assert_eq!(card.data.display.titlebar, 4);
    assert_eq!(card.data.rom.arch, "folder");
    assert_eq!(card.data.rom.country, "us");
    assert_eq!(card.data.rom.rom, "FOLDER_us_FOLDER01");
    assert_eq!(card.data.rom.region_tag.as_deref(), Some("FOLDER_us_FOLDER01"));
    assert_eq!(card.data.cover.as_deref(), Some("cover.png"));
    assert!(card.data.cover_size.is_none());
    assert_eq!(card.sort, f.sort);
    assert_eq!(card.source_dir, "lib/jp/FOLDER01");
    assert_eq!(card.save_state_type(), None);
}

#[test]
fn folder_packs_start_with_a_back_card_and_renumber_their_games() {
    let back = back_card_game("jp", "out/.assets/back_arrow.png");
    assert_eq!(back.dir_name, "BACK");
    assert_eq!(back.region_tag, "FOLDER_jp_BACK");
    assert_eq!(back.data.display.name, "Back");
    assert_eq!(back.data.display.csize, 11);
    assert_eq!(back.data.cover.as_deref(), Some("back_arrow.png"));
    assert_eq!(back.source_dir, "out/.assets");
    let f = folder("FOLDER01", "Shooters", vec![game("GAME010", "tg16cd"), game("GAME011", "tg16")]);
    let games = folder_pack_games(&f, "jp", "out/.assets/back_arrow.png");
    let dirs: Vec<&str> = games.iter().map(|g| g.dir_name.as_str()).collect();
    assert_eq!(dirs, vec!["BACK", "GAME010", "GAME011"]);
    for (i, g) in games.iter().enumerate() {
        let v = i as u32;
        assert_eq!(g.sort, SortIndices { sor_date: v, sor_demo: v, sor_genr: v, sor_name: v, sor_pnum: v });
    }
    assert_eq!(games[1].data.rom.arch, "tg16cd");
    assert_eq!(games[2].source_dir, "lib/jp/GAME011");
}

#[test]
fn the_root_pack_shows_games_and_folder_cards_in_order() {
    let l = lineup();
    let games = synthesize_root_games(&l.root_entries, "jp");
    let tags: Vec<&str> = games.iter().map(|g| g.region_tag.as_str()).collect();
    assert_eq!(tags, vec!["GAME001", "FOLDER_jp_FOLDER01", "GAME002", "FOLDER_jp_FOLDER02"]);
    assert_eq!(games[0].data.rom.rom, "GAME001.pce");
    let covers = build_title_select_inputs(&l.root_entries);
    assert_eq!(covers.len(), 4);
    assert_eq!(covers[0].cover_path, "lib/jp/GAME001/cover.png");
    assert_eq!(covers[0].label, "GAME001");
    assert_eq!(covers[1].cover_path, "lib/jp/FOLDER01/cover.png");
    assert_eq!(covers[1].label, "FOLDER01");
    assert!(covers[1].cover_size.is_none());
}

#[test]
fn sync_routes_saves_into_each_game_directory() {
    let f = folder("FOLDER01", "Shooters", vec![]);
    let g = game("GAME010", "tg16");
    assert_eq!(library_game_dir("lib", "jp", Some(&f), &g), "lib/jp/FOLDER01/GAME010");
    assert_eq!(library_game_dir("lib", "us", None, &g), "lib/us/GAME010");
    assert_eq!(library_game_sram_path("lib", "jp", None, &g), "lib/jp/GAME010/sram.bin");
    assert_eq!(library_game_saves_dir("lib", "jp", Some(&f), &g), "lib/jp/FOLDER01/GAME010/saves");
}

#[test]
fn the_current_pack_file_names_lineup_and_directory() {
    assert_eq!(current_pack(" jp/_root\n"), Some(("jp".to_string(), "_root".to_string())));
    assert_eq!(current_pack("us/FOLDER01/x"), Some(("us".to_string(), "FOLDER01/x".to_string())));
    assert_eq!(current_pack("\u{3000}jp/\u{a0}"), Some(("jp".to_string(), String::new())));
    assert_eq!(current_pack("nodir"), None);
    assert_eq!(current_pack("   "), None);
}

#[test]
fn raw_hucards_are_packed_and_packed_names_are_normalised() {
    assert_eq!(published_rom_name("Kung.PCE"), ("Kung.PCE.m".to_string(), true));
    assert_eq!(published_rom_name("b.sgx"), ("b.sgx.m".to_string(), true));
    assert_eq!(published_rom_name("a.pce.M"), ("a.pce.m".to_string(), false));
    assert_eq!(published_rom_name("a.Pce.m"), ("a.Pce.m".to_string(), false));
    assert_eq!(published_rom_name("disc.cue"), ("disc.cue".to_string(), false));
    assert_eq!(published_rom_name(".m"), (".m".to_string(), false));
}

#[test]
fn blank_rom_names_mean_no_rom() {
    let mut g = game("A", "tg16");
    assert!(!rom_is_blank(&g));
    g.data.rom.rom = String::new();
    assert!(rom_is_blank(&g));
    g.data.rom.rom = " \t\n".into();
    assert!(rom_is_blank(&g));
    g.data.rom.rom = " x ".into();
    assert!(!rom_is_blank(&g));
}

#[test]
fn menu_resources_are_looked_up_beside_the_library() {
    let c = resource_candidates("usb/library", "usb/library/templates", "040/font/font.psb.m");
    assert_eq!(c, vec![
        "usb/library/templates/040/font/font.psb.m",
        "usb/game/040/font/font.psb.m",
        "usb/BACKUP/game/040/font/font.psb.m",
    ]);
    let found = resource_path("usb/library", "usb/library/templates", "f.psb.m", &vec![false, true, true]);
    assert_eq!(found.unwrap(), "usb/game/f.psb.m");
    match resource_path("usb/library", "stock", "f.psb.m", &vec![false, false, false]) {
        Err(Error::Template(m)) => assert_eq!(
            m,
            "Original menu resource missing: f.psb.m. Restore it in library/templates/ from your console dump."
        ),
        _ => panic!("expected a missing-resource error"),
    }
    assert_eq!(resource_candidates("library", "s", "x")[1], "game/x");
}
