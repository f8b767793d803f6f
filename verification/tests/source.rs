use chronos::source::alldata_entries;
use chronos::psb::value::Value;
use chronos::source::{dump_roots, p9_name, read_in_bounds, safe_relative};

#[test]
fn paths_and_partition_bounds_are_checked() {
    for path in ["../escape", "/absolute", "a/../b", "C:\\escape", "", "a\\b"] {
        assert!(safe_relative(path).is_err(), "{path}");
    }
    assert!(safe_relative("system/roms/Game.pcd").is_ok());
    // A partition of 512 bytes: a 16-byte read fits from 496, not from 497.
    let length = 512;
    assert!(read_in_bounds(496, 16, length));
    assert!(!read_in_bounds(497, 16, length));
    assert!(!read_in_bounds(u64::MAX, 16, length));
}

#[test]
fn plain_names_pass_and_special_components_do_not() {
    assert_eq!(safe_relative("a/../b"), Err("Invalid archive path: a/../b".to_string()));
    assert!(safe_relative("./a").is_err());
    assert!(safe_relative(".").is_err());
    assert!(safe_relative("..").is_err());
    assert!(safe_relative("a/..").is_err());
    assert!(safe_relative("a/./b").is_ok());
    assert!(safe_relative("a//b/").is_ok());
    assert!(safe_relative("..b/.c").is_ok());
    assert!(safe_relative(".hidden").is_ok());
}

#[test]
fn p9_images_are_named_by_stem_and_extension() {
    assert!(p9_name("mmcblk0p9.bin"));
    assert!(p9_name("P9.IMG"));
    assert!(p9_name("partition_9.ext4"));
    assert!(p9_name("partition9.raw"));
    assert!(!p9_name("p9"));
    assert!(!p9_name("p9.zip"));
    assert!(!p9_name("mmcblk0p8.bin"));
    assert!(!p9_name(".bin"));
    assert!(!p9_name("p9.bin.gz"));
}

#[test]
fn dump_folders_are_tried_in_order() {
    let roots = dump_roots("dump");
    assert_eq!(roots, vec!["dump/", "dump/game", "dump/usr/game", "dump/p9", "dump/P9", "dump/BACKUP/game"]);
}

fn range(start: i64, length: i64) -> Value {
    Value::Array(vec![Value::Int(start), Value::Int(length)])
}

fn index_of(entries: Vec<(&str, Value)>) -> Value {
    let table = entries.into_iter().map(|(k, v)| (k.to_string(), v)).collect();
    Value::Object(vec![("file_info".to_string(), Value::Object(table))])
}

#[test]
fn alldata_entries_come_in_name_order() {
    let index = index_of(vec![("sys/b.bin", range(0, 4)), ("a.bin", range(4, 2)), ("c", range(6, 4))]);
    let got = alldata_entries(&index, 10, &vec!["m2engage".to_string()]).unwrap();
    assert_eq!(
        got,
        vec![("a.bin".to_string(), 4, 2), ("c".to_string(), 6, 4), ("sys/b.bin".to_string(), 0, 4)]
    );
}

#[test]
fn alldata_entries_refuse_bad_ranges() {
    let no_table = Value::Object(vec![("other".to_string(), Value::Null)]);
    assert_eq!(alldata_entries(&no_table, 10, &vec![]).unwrap_err(), "alldata index has no file_info table");
    let one = |v: Value| alldata_entries(&index_of(vec![("x", v)]), 10, &vec![]).unwrap_err();
    assert_eq!(one(Value::Int(3)), "Invalid alldata range");
    assert_eq!(one(Value::Array(vec![Value::Int(1)])), "Invalid alldata range");
    assert_eq!(one(range(-1, 2)), "Invalid alldata offset");
    assert_eq!(one(Value::Array(vec![Value::Int(1), Value::Float(0)])), "Invalid alldata length");
    assert_eq!(one(range(8, 3)), "Truncated alldata.bin: x");
    let loose = vec!["x".to_string()];
    assert_eq!(
        alldata_entries(&index_of(vec![("x", range(0, 1))]), 10, &loose).unwrap_err(),
        "Ambiguous source: x exists both loose and in alldata.bin"
    );
    assert_eq!(
        alldata_entries(&index_of(vec![("../x", range(0, 1))]), 10, &vec![]).unwrap_err(),
        "Invalid archive path: ../x"
    );
}

#[test]
fn alldata_entries_report_the_first_bad_name() {
    let index = index_of(vec![("z", range(9, 9)), ("ok", range(0, 1)), ("b", range(7, 7))]);
    assert_eq!(alldata_entries(&index, 10, &vec![]).unwrap_err(), "Truncated alldata.bin: b");
}
