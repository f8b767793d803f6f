use chronos::psb::reader::{decimal_string, read, Reader};
use chronos::psb::trie::KeyNamesTrie;
use chronos::psb::value::{object_insert, Stream, Value};
use chronos::psb::writer::keys_fit;
use chronos::psb::Error;

fn same(a: &Value, b: &Value) -> bool {
    match (a, b) {
        (Value::Null, Value::Null) => true,
        (Value::Bool(x), Value::Bool(y)) => x == y,
        (Value::Int(x), Value::Int(y)) => x == y,
        (Value::Float(x), Value::Float(y)) => x == y,
        (Value::String(x), Value::String(y)) => x == y,
        (Value::Array(x), Value::Array(y)) => x.len() == y.len() && x.iter().zip(y).all(|(p, q)| same(p, q)),
        (Value::Object(x), Value::Object(y)) => {
            x.len() == y.len() && x.iter().zip(y).all(|(p, q)| p.0 == q.0 && same(&p.1, &q.1))
        }
        (Value::Stream(x), Value::Stream(y)) | (Value::BStream(x), Value::BStream(y)) => {
            x.index == y.index && x.data == y.data
        }
        _ => false,
    }
}

fn obj(entries: Vec<(&str, Value)>) -> Value {
    Value::Object(entries.into_iter().map(|(k, v)| (k.to_string(), v)).collect())
}

fn sample() -> Value {
    obj(vec![
        ("alpha", Value::Int(0)),
        ("beta", Value::Array(vec![
            Value::Int(1),
            Value::Int(-1),
            Value::Int(127),
            Value::Int(128),
            Value::Int(-129),
            Value::Int(40_000),
            Value::Int(8_388_608),
            Value::Int(2_147_483_648),
            Value::Int(-1_099_511_627_776),
            Value::Int(i64::MIN),
            Value::Int(i64::MAX),
        ])),
        ("gamma", Value::String("hello".to_string())),
        ("delta", obj(vec![
            ("x", Value::Float(1.5f64.to_bits())),
            ("y", Value::Float(0.1f64.to_bits())),
            ("z", Value::Float(0.0f64.to_bits())),
        ])),
        ("epsilon", Value::Bool(true)),
        ("zeta", Value::Null),
        ("eta", Value::Stream(Stream { index: 0, data: vec![1, 2, 3, 4, 5] })),
        ("theta", Value::String("hello".to_string())),
        ("iota", Value::Bool(false)),
        ("kappa", Value::String("日本語".to_string())),
    ])
}

/// The same tree with object entries in key order, as the writer emits them.
fn sorted(v: &Value) -> Value {
    match v {
        Value::Array(a) => Value::Array(a.iter().map(sorted).collect()),
        Value::Object(o) => {
            let mut entries: Vec<(String, Value)> = o.iter().map(|(k, v)| (k.clone(), sorted(v))).collect();
            entries.sort_by(|a, b| a.0.cmp(&b.0));
            Value::Object(entries)
        }
        other => other.duplicate(),
    }
}

#[test]
fn written_files_read_back_as_the_same_tree() {
    let v = sample();
    assert!(keys_fit(&v));
    for version in [2u16, 3, 4] {
        let bytes = chronos::psb::writer::write(&v, version).unwrap();
        assert_eq!(&bytes[..4], b"PSB\0");
        assert_eq!(&bytes[4..6], &version.to_le_bytes());
        let back = read(&bytes).unwrap();
        assert!(same(&back, &sorted(&v)), "version {version}: {back:?}");
    }
}

#[test]
fn writing_is_deterministic_and_ignores_entry_order() {
    let a = obj(vec![("b", Value::Int(2)), ("a", Value::Int(1))]);
    let b = obj(vec![("a", Value::Int(1)), ("b", Value::Int(2))]);
    assert_eq!(chronos::psb::writer::write(&a, 3).unwrap(), chronos::psb::writer::write(&b, 3).unwrap());
}

#[test]
fn integers_take_the_fewest_bytes() {
    // Root token directly after the header: version 2 has a 40-byte header.
    let bytes = chronos::psb::writer::write(&Value::Int(300), 2).unwrap();
    let root = u32::from_le_bytes(bytes[36..40].try_into().unwrap()) as usize;
    assert_eq!(&bytes[root..root + 3], &[6, 0x2C, 0x01]);
    let bytes = chronos::psb::writer::write(&Value::Int(0), 2).unwrap();
    let root = u32::from_le_bytes(bytes[36..40].try_into().unwrap()) as usize;
    assert_eq!(bytes[root], 4);
    let bytes = chronos::psb::writer::write(&Value::Int(-2), 2).unwrap();
    let root = u32::from_le_bytes(bytes[36..40].try_into().unwrap()) as usize;
    assert_eq!(&bytes[root..root + 2], &[5, 0xFE]);
}

#[test]
fn floats_are_narrowed_only_when_exact() {
    let bytes = chronos::psb::writer::write(&Value::Float(1.5f64.to_bits()), 2).unwrap();
    let root = u32::from_le_bytes(bytes[36..40].try_into().unwrap()) as usize;
    assert_eq!(bytes[root], 30);
    assert_eq!(&bytes[root + 1..root + 5], &1.5f32.to_le_bytes());
    let bytes = chronos::psb::writer::write(&Value::Float((-1.84f64).to_bits()), 2).unwrap();
    let root = u32::from_le_bytes(bytes[36..40].try_into().unwrap()) as usize;
    assert_eq!(bytes[root], 31);
    assert_eq!(&bytes[root + 1..root + 9], &(-1.84f64).to_le_bytes());
    let bytes = chronos::psb::writer::write(&Value::Float(0), 2).unwrap();
    let root = u32::from_le_bytes(bytes[36..40].try_into().unwrap()) as usize;
    assert_eq!(bytes[root], 29);
}

#[test]
fn streams_are_aligned_and_shared_by_index() {
    let v = Value::Array(vec![
        Value::Stream(Stream { index: 7, data: vec![9; 33] }),
        Value::Stream(Stream { index: 3, data: vec![1; 2] }),
        Value::Stream(Stream { index: 7, data: vec![5; 4] }),
    ]);
    let bytes = chronos::psb::writer::write(&v, 3).unwrap();
    let blob = u32::from_le_bytes(bytes[32..36].try_into().unwrap()) as usize;
    assert_eq!(blob % 32, 0);
    // Sorted by index: stream 3 first, then stream 7 padded to 64 bytes.
    assert_eq!(&bytes[blob..blob + 2], &[1, 1]);
    assert_eq!(&bytes[blob + 32..blob + 65], &[9; 33][..]);
    let back = read(&bytes).unwrap();
    match back {
        Value::Array(items) => {
            assert_eq!(items.len(), 3);
            match (&items[0], &items[1], &items[2]) {
                (Value::Stream(a), Value::Stream(b), Value::Stream(c)) => {
                    assert_eq!(a.data, vec![9; 33]);
                    assert_eq!(b.data, vec![1, 1]);
                    assert_eq!(c.data, vec![9; 33]);
                }
                other => panic!("unexpected {other:?}"),
            }
        }
        other => panic!("unexpected {other:?}"),
    }
}

#[test]
fn version_three_header_has_an_adler_checksum() {
    let bytes = chronos::psb::writer::write(&obj(vec![("k", Value::Int(5))]), 3).unwrap();
    let (mut a, mut b) = (1u32, 0u32);
    for &x in &bytes[8..40] {
        a = (a + x as u32) % 65521;
        b = (b + a) % 65521;
    }
    assert_eq!(u32::from_le_bytes(bytes[40..44].try_into().unwrap()), (b << 16) | a);
}

#[test]
fn trie_spells_every_name() {
    let names: Vec<String> = ["a", "ab", "abc", "b", "width", "height", "日本"].iter().map(|s| s.to_string()).collect();
    let mut sorted_names = names.clone();
    sorted_names.sort();
    let t = KeyNamesTrie::build(&sorted_names);
    assert_eq!(t.tails.len(), sorted_names.len());
    assert_eq!(t.tree.len(), t.value_offsets.len());
    for (i, name) in sorted_names.iter().enumerate() {
        let get = |arr: &[u64], i: u64| arr.get(i as usize).copied().unwrap_or(0);
        let mut bytes = Vec::new();
        let mut cur = get(&t.tree, t.tails[i]);
        while cur != 0 {
            let parent = get(&t.tree, cur);
            bytes.push(cur.wrapping_sub(get(&t.value_offsets, parent)) as u8);
            cur = parent;
        }
        bytes.reverse();
        assert_eq!(&bytes, name.as_bytes());
    }
}

#[test]
fn empty_trie() {
    let t = KeyNamesTrie::build(&[]);
    assert_eq!(t.value_offsets, vec![0]);
    assert_eq!(t.tree, vec![0]);
    assert!(t.tails.is_empty());
}

#[test]
fn reader_rejects_bad_magic_and_truncation() {
    assert!(matches!(read(b"XXXXXXXX"), Err(Error::BadMagic)));
    assert!(matches!(read(b"PS"), Err(Error::Truncated(0))));
    let mut r = Reader::new(b"PSB\0");
    assert!(r.parse().is_err());
}

#[test]
fn decimal_text() {
    assert_eq!(decimal_string(0), "0");
    assert_eq!(decimal_string(1234567890), "1234567890");
}

#[test]
fn object_insert_keeps_position() {
    let mut entries: Vec<(String, Value)> = Vec::new();
    object_insert(&mut entries, "a".to_string(), Value::Int(1));
    object_insert(&mut entries, "b".to_string(), Value::Int(2));
    object_insert(&mut entries, "a".to_string(), Value::Int(3));
    assert_eq!(entries.len(), 2);
    assert_eq!(entries[0].0, "a");
    assert!(matches!(entries[0].1, Value::Int(3)));
    assert_eq!(entries[1].0, "b");
}

#[test]
fn written_files_are_readable_and_stray_string_offsets_are_not() {
    let tree = sample();
    let bytes = chronos::psb::writer::write(&tree, 4).unwrap();
    assert!(chronos::psb::reader::readable(&bytes));
    // The string blob offset is the fourth header word.
    let mut bad = bytes.clone();
    bad[20..24].copy_from_slice(&0xFFFF_FFF0u32.to_le_bytes());
    assert!(!chronos::psb::reader::readable(&bad));
    // A header the reader rejects is readable: reading reports the error.
    assert!(chronos::psb::reader::readable(b"PSB"));
    assert!(read(b"PSB").is_err());
}
