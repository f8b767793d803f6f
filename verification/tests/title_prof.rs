use chronos::psb::reader::{read, readable};
use chronos::psb::value::Value;
use chronos::publish::{Error, Game, GameJson, GameRom};
use chronos::title_prof::{generate, long_folder_tags_are_distinct, GenInputs};

fn game(tag: &str, arch: &str) -> Game {
    Game {
        dir_name: tag.into(),
        region_tag: tag.into(),
        data: GameJson {
            rom: GameRom { arch: arch.into(), rom: format!("{tag}.pce.m"), ..Default::default() },
            ..Default::default()
        },
        sort: Default::default(),
        source_dir: String::new(),
    }
}

fn obj(entries: Vec<(&str, Value)>) -> Value {
    Value::Object(entries.into_iter().map(|(k, v)| (k.to_string(), v)).collect())
}

fn get<'a>(value: &'a Value, key: &str) -> Option<&'a Value> {
    match value {
        Value::Object(map) => map.iter().find(|(k, _)| k == key).map(|(_, v)| v),
        _ => None,
    }
}

fn member<'a>(value: &'a Value, key: &str) -> &'a Value {
    get(value, key).expect("missing member")
}

fn element(value: &Value, i: usize) -> &Value {
    match value {
        Value::Array(items) => &items[i],
        _ => panic!("expected array"),
    }
}

fn is_text(value: &Value, text: &str) -> bool {
    matches!(value, Value::String(s) if s == text)
}

fn template() -> Vec<u8> {
    let tree = obj(vec![("root", obj(vec![
        ("m2epi", obj(vec![])),
        ("controller", Value::String("keep-stock-controller".into())),
    ]))]);
    chronos::psb::writer::write(&tree, 4).unwrap()
}

fn generated(games: &[Game]) -> Value {
    let template = template();
    assert!(readable(&template));
    assert!(long_folder_tags_are_distinct(games));
    let bytes = generate(&GenInputs { template_psb: &template, games }).unwrap();
    assert!(readable(&bytes));
    read(&bytes).unwrap()
}

#[test]
fn long_first_folder_tag_has_a_short_boot_alias_without_changing_slots() {
    let tag = "FOLDER_jp_FOLDER_TEST";
    let output = generated(&[game(tag, "folder"), game("GAME000", "tg16")]);
    let root = member(&output, "root");
    for region in ["japan", "usa", "europe", "asia"] {
        assert!(is_text(member(member(root, "game_versions_default"), region), "FOLDER_000"));
    }
    assert!(get(member(root, "game_versions"), tag).is_none());
    let machine = member(member(member(root, "m2epi"), "version"), "FOLDER_000");
    assert!(is_text(member(machine, "rom"), &format!("roms/{tag}.pce")));
    assert!(matches!(element(member(member(root, "game_versions"), "FOLDER_000"), 0), Value::Int(0)));
    assert!(matches!(element(member(member(root, "game_versions"), "GAME000"), 0), Value::Int(1)));
    let short = generated(&[game("FOLDER_jp_BACK", "folder")]);
    let root = member(&short, "root");
    assert!(is_text(member(member(root, "game_versions_default"), "japan"), "FOLDER_jp_BACK"));
    assert!(get(member(root, "game_versions"), "FOLDER_000").is_none());
}

#[test]
fn folder_uses_native_machine_without_moving_back_or_save_slots() {
    let games = [game("FOLDER_jp_BACK", "folder"), game("GAME053", "tg16"), game("GAME007", "tg16")];
    let output = generated(&games);
    let root = member(&output, "root");
    let machines = member(member(root, "m2epi"), "version");
    assert!(is_text(member(member(machines, "FOLDER_jp_BACK"), "arch"), "tg16"));
    assert!(is_text(member(member(machines, "FOLDER_jp_BACK"), "rom"), "roms/FOLDER_jp_BACK.pce"));
    let versions = member(root, "game_versions");
    for (tag, slot) in [("FOLDER_jp_BACK", 0), ("GAME053", 1), ("GAME007", 2)] {
        assert!(matches!(element(member(versions, tag), 0), Value::Int(n) if *n == slot));
    }
    assert!(is_text(member(root, "controller"), "keep-stock-controller"));
}

#[test]
fn folder_only_pack_is_native_compatible_and_real_cd_settings_are_preserved() {
    let mut folder = game("FOLDER_us_TEST", "folder");
    folder.data.rom.rom = "FOLDER_us_TEST".into();
    let output = generated(&[folder]);
    let versions = member(member(member(&output, "root"), "m2epi"), "version");
    assert!(is_text(member(member(versions, "FOLDER_us_TEST"), "arch"), "tg16"));
    assert!(is_text(member(member(versions, "FOLDER_us_TEST"), "rom"), "roms/FOLDER_us_TEST"));
    let mut cd = game("GAME002", "tg16cd");
    cd.data.rom.tg16cd_systemcard = Some("syscard.pce".into());
    cd.data.rom.tg16_option = Some(2);
    let output = generated(&[cd]);
    let versions = member(member(member(&output, "root"), "m2epi"), "version");
    let entry = member(versions, "GAME002");
    assert!(is_text(member(entry, "arch"), "tg16cd"));
    assert!(is_text(member(entry, "tg16cd_systemcard"), "syscard.pce"));
    assert!(matches!(member(entry, "tg16_option"), Value::Int(2)));
}

#[test]
fn alternative_tags_share_the_profile_and_label_of_their_game() {
    let mut g = game("GAME010", "tg16");
    g.data.rom_alt.region_tag_e = Some("GAME010E".into());
    g.data.rom_alt.region_tag_s1 = Some("NO".into());
    g.data.rom_alt.region_tag_s2 = Some(String::new());
    let output = generated(&[game("GAME001", "tg16"), g]);
    let root = member(&output, "root");
    let versions = member(root, "game_versions");
    assert!(matches!(element(member(versions, "GAME010E"), 0), Value::Int(1)));
    assert!(is_text(element(member(versions, "GAME010E"), 2), "MenuItemText__TITLE_GAME_VERSION_001"));
    assert!(get(versions, "NO").is_none());
    assert!(get(versions, "").is_none());
    let machines = member(member(root, "m2epi"), "version");
    assert!(is_text(member(member(machines, "GAME010E"), "rom"), "roms/GAME010.pce"));
    assert!(is_text(member(member(root, "game_versions_default"), "usa"), "GAME001"));
}

#[test]
fn templates_without_the_profile_paths_are_refused() {
    let no_root = chronos::psb::writer::write(&obj(vec![("other", Value::Null)]), 4).unwrap();
    match generate(&GenInputs { template_psb: &no_root, games: &[game("GAME000", "tg16")] }) {
        Err(Error::Template(m)) => assert_eq!(m, "template missing path key 'root'"),
        _ => panic!("expected a template error"),
    }
    let flat = chronos::psb::writer::write(&obj(vec![("root", Value::Int(3))]), 4).unwrap();
    match generate(&GenInputs { template_psb: &flat, games: &[game("GAME000", "tg16")] }) {
        Err(Error::Template(m)) => assert_eq!(m, "template type mismatch at 'game_versions_default': expected object"),
        _ => panic!("expected a template error"),
    }
}

#[test]
fn a_reserved_short_key_is_refused() {
    let games = [game("FOLDER_jp_FOLDER_TEST", "folder"), game("FOLDER_000", "tg16")];
    match generate(&GenInputs { template_psb: &template(), games: &games }) {
        Err(Error::Library(m)) => assert_eq!(m, "FOLDER_000 is reserved for native folder initialization"),
        _ => panic!("expected a library error"),
    }
}

#[test]
fn two_long_folder_cards_with_one_tag_are_detected() {
    let games = [game("FOLDER_jp_FOLDER_TEST", "folder"), game("FOLDER_jp_FOLDER_TEST", "folder")];
    assert!(!long_folder_tags_are_distinct(&games));
    assert!(long_folder_tags_are_distinct(&[game("FOLDER_jp_FOLDER_TEST", "folder"), game("GAME1", "tg16")]));
}
