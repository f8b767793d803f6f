use chronos::psb::reader::{read, readable};
use chronos::psb::value::Value;
use chronos::publish::{Error, Game, GameJson, LineupKind};
use chronos::title_mode_top::{generate, GenInputs};

fn obj(entries: Vec<(&str, Value)>) -> Value {
    Value::Object(entries.into_iter().map(|(k, v)| (k.to_string(), v)).collect())
}

fn get<'a>(value: &'a Value, key: &str) -> Option<&'a Value> {
    match value {
        Value::Object(map) => map.iter().find(|(k, _)| k == key).map(|(_, v)| v),
        _ => None,
    }
}

fn member<'a>(value: &'a Value, key: &str) -> &'a Value {
    get(value, key).expect("missing member")
}

fn is_text(value: &Value, text: &str) -> bool {
    matches!(value, Value::String(s) if s == text)
}

fn is_int(value: &Value, n: i64) -> bool {
    matches!(value, Value::Int(m) if *m == n)
}

fn stock_item(tag: &str) -> Value {
    obj(vec![
        ("name", Value::String("stock".into())),
        ("regionTag", Value::String(tag.into())),
        ("image", Value::Int(0)),
        ("kept", Value::Int(7)),
    ])
}

fn template(items: usize, with_dummy: bool) -> Vec<u8> {
    let list: Vec<Value> = (0..items)
        .map(|i| if with_dummy && i == 5 { stock_item("DUMMY") } else { stock_item("GAME") })
        .collect();
    let tree = obj(vec![
        ("items", Value::Array(list)),
        ("titleNum", Value::Int(50)),
        ("titleNumTG", Value::Int(50)),
    ]);
    chronos::psb::writer::write(&tree, 4).unwrap()
}

fn game(tag: &str, name: &str, tname: &str, name_eng: &str) -> Game {
    let mut data = GameJson::default();
    data.display.name = name.into();
    data.display.tname = tname.into();
    data.display.name_eng = name_eng.into();
    data.display.players = 2;
    data.rom_alt.region_tag_e = Some(format!("{tag}E"));
    Game { dir_name: tag.into(), region_tag: tag.into(), data, sort: Default::default(), source_dir: String::new() }
}

fn items(v: &Value) -> &Vec<Value> {
    match member(v, "items") {
        Value::Array(a) => a,
        _ => panic!("expected items"),
    }
}

#[test]
fn a_jp_pack_fills_its_slots_and_stamps_dummies_elsewhere() {
    let t = template(200, true);
    assert!(readable(&t));
    let games = [game("GAME001", "Name", "", "English"), game("GAME002", "", "Title", "")];
    let out = read(&generate(&GenInputs { template_psb: &t, lineup: LineupKind::Jp, games: &games }).unwrap()).unwrap();
    assert!(is_int(member(&out, "titleNum"), 2));
    assert!(is_int(member(&out, "titleNumTG"), 0));
    let list = items(&out);
    assert_eq!(list.len(), 200);
    // Japanese names in slots 0 and 1.
    assert!(is_text(member(&list[0], "name"), "Name"));
    assert!(is_text(member(&list[0], "tname"), "Name"));
    assert!(is_text(member(&list[1], "name"), "Title"));
    assert!(is_text(member(&list[1], "tname"), "Title"));
    assert!(is_text(member(&list[0], "regionTagE"), "GAME001E"));
    assert!(is_text(member(&list[0], "regionTagS1"), "NO"));
    assert!(is_int(member(&list[1], "image"), 1));
    assert!(is_int(member(&list[1], "players"), 2));
    assert!(is_int(member(&list[1], "kept"), 7));
    // English names in slots 100 and 101, image index still the lineup slot.
    assert!(is_text(member(&list[100], "tname"), "English"));
    assert!(is_text(member(&list[101], "tname"), "Title"));
    assert!(is_int(member(&list[100], "image"), 0));
    // Everything else is the DUMMY item with its own image index.
    for s in [2usize, 49, 50, 51, 99, 102, 150, 199] {
        assert!(is_text(member(&list[s], "regionTag"), "DUMMY"));
        assert!(is_int(member(&list[s], "image"), s as i64));
    }
}

#[test]
fn a_us_pack_uses_the_us_blocks() {
    let games = [game("GAME003", "US", "", "")];
    let out = read(&generate(&GenInputs { template_psb: &template(200, true), lineup: LineupKind::Us, games: &games }).unwrap()).unwrap();
    assert!(is_int(member(&out, "titleNum"), 0));
    assert!(is_int(member(&out, "titleNumTG"), 1));
    let list = items(&out);
    assert!(is_text(member(&list[0], "regionTag"), "DUMMY"));
    assert!(is_text(member(&list[50], "regionTag"), "GAME003"));
    assert!(is_text(member(&list[150], "regionTag"), "GAME003"));
    assert!(is_int(member(&list[150], "image"), 0));
}

#[test]
fn malformed_lists_and_oversized_folders_are_refused() {
    match generate(&GenInputs { template_psb: &template(199, true), lineup: LineupKind::Jp, games: &[] }) {
        Err(Error::Template(m)) => assert_eq!(m, "title_mode_top: expected 200 items in template, got 199"),
        _ => panic!("expected a template error"),
    }
    match generate(&GenInputs { template_psb: &template(200, false), lineup: LineupKind::Jp, games: &[] }) {
        Err(Error::Template(m)) => assert_eq!(m, "title_mode_top: no DUMMY item in template"),
        _ => panic!("expected a template error"),
    }
    let flat = chronos::psb::writer::write(&obj(vec![("items", Value::Int(1))]), 4).unwrap();
    match generate(&GenInputs { template_psb: &flat, lineup: LineupKind::Jp, games: &[] }) {
        Err(Error::Template(m)) => assert_eq!(m, "title_mode_top: 'items' not an array"),
        _ => panic!("expected a template error"),
    }
    let games: Vec<Game> = (0..51).map(|i| game(&format!("G{i}"), "n", "", "")).collect();
    match generate(&GenInputs { template_psb: &template(200, true), lineup: LineupKind::Jp, games: &games }) {
        Err(Error::Library(m)) => assert_eq!(m, "folder has 51 games, max 50 per lineup"),
        _ => panic!("expected a library error"),
    }
}
