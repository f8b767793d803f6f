use chronos::atlas::{compact, compact_stock_atlases, number};
use chronos::psb::reader::{read, readable};
use chronos::psb::value::{Stream, Value};

fn same(a: &Value, b: &Value) -> bool {
    match (a, b) {
        (Value::Null, Value::Null) => true,
        (Value::Bool(x), Value::Bool(y)) => x == y,
        (Value::Int(x), Value::Int(y)) => x == y,
        (Value::Float(x), Value::Float(y)) => x == y,
        (Value::String(x), Value::String(y)) => x == y,
        (Value::Array(x), Value::Array(y)) => x.len() == y.len() && x.iter().zip(y).all(|(p, q)| same(p, q)),
        (Value::Object(x), Value::Object(y)) => {
            x.len() == y.len() && x.iter().zip(y).all(|(p, q)| p.0 == q.0 && same(&p.1, &q.1))
        }
        (Value::Stream(x), Value::Stream(y)) | (Value::BStream(x), Value::BStream(y)) => {
            x.index == y.index && x.data == y.data
        }
        _ => false,
    }
}

fn obj(fields: Vec<(&str, Value)>) -> Value {
    Value::Object(fields.into_iter().map(|(k, v)| (k.to_string(), v)).collect())
}

fn float(x: f64) -> Value {
    Value::Float(x.to_bits())
}

fn icon(x: i64, y: i64) -> Value {
    obj(vec![
        ("left", float(x as f64)),
        ("top", float(y as f64)),
        ("width", Value::Int(3)),
        ("height", Value::Int(2)),
        ("originX", Value::Int(2)),
        ("originY", Value::Int(1)),
        ("attr", Value::Int(2)),
    ])
}

fn atlas() -> Value {
    obj(vec![
        ("icon", obj(vec![("keep", icon(2, 3)), ("unused", icon(10, 10))])),
        (
            "texture",
            obj(vec![
                ("width", Value::Int(16)),
                ("height", Value::Int(16)),
                ("ast", Value::Int(0)),
                ("type", Value::String("RGBA8".into())),
                (
                    "pixel",
                    Value::Stream(Stream { index: 7, data: (0..1024).map(|i| (i * 17) as u8).collect() }),
                ),
            ]),
        ),
    ])
}

fn entries_mut(v: &mut Value) -> &mut Vec<(String, Value)> {
    match v {
        Value::Object(o) => o,
        _ => panic!("object required"),
    }
}

fn member_mut<'a>(v: &'a mut Value, key: &str) -> &'a mut Value {
    &mut entries_mut(v).iter_mut().find(|(k, _)| k == key).expect("missing member").1
}

fn tree(content: Value) -> Value {
    let mut cover = atlas();
    let texture = member_mut(&mut cover, "texture");
    let Value::Stream(pixels) = member_mut(texture, "pixel") else { panic!() };
    pixels.index = 10;
    obj(vec![
        ("source", obj(vec![("tex#000", atlas()), ("tex#001", cover)])),
        ("object", obj(vec![("children", Value::Array(vec![content]))])),
    ])
}

fn reference() -> Value {
    obj(vec![("src", Value::String("tex#000".into())), ("icon", Value::String("keep".into()))])
}

fn object(v: &Value) -> &Vec<(String, Value)> {
    let Value::Object(o) = v else { panic!("object required") };
    o
}

fn get<'a>(o: &'a Vec<(String, Value)>, key: &str) -> Option<&'a Value> {
    o.iter().find(|(k, _)| k == key).map(|(_, v)| v)
}

fn at<'a>(o: &'a Vec<(String, Value)>, key: &str) -> &'a Value {
    get(o, key).expect("missing member")
}

fn copy(v: &Value) -> Value {
    v.duplicate()
}

#[test]
fn keeps_nested_sprite_pixels_border_origins_and_motion_with_smaller_atlas() {
    let mut after = tree(reference());
    let before = copy(&after);
    compact_stock_atlases(&mut after, 1); // tex#001 represents a new cover: untouched
    assert!(same(at(object(&after), "object"), at(object(&before), "object")));
    let old_sources = object(at(object(&before), "source"));
    let new_sources = object(at(object(&after), "source"));
    assert!(same(at(new_sources, "tex#001"), at(old_sources, "tex#001")));
    let old = object(at(old_sources, "tex#000"));
    let new = object(at(new_sources, "tex#000"));
    let icons = object(at(new, "icon"));
    assert_eq!(icons.len(), 1);
    let icon = object(at(icons, "keep"));
    let old_icon = object(at(object(at(old, "icon")), "keep"));
    for key in ["attr", "originX", "originY", "width", "height"] {
        assert!(same(at(icon, key), at(old_icon, key)));
    }
    let texture = object(at(new, "texture"));
    let Value::Stream(pixels) = at(texture, "pixel") else { panic!() };
    let Value::Stream(original) = at(object(at(old, "texture")), "pixel") else { panic!() };
    assert!(pixels.data.len() < original.data.len());
    let (x, y, width) =
        (number(icon, "left").unwrap(), number(icon, "top").unwrap(), number(texture, "width").unwrap());
    for dy in 0..4 {
        for dx in 0..5 {
            let from = ((2 + dy) * 16 + 1 + dx) * 4;
            let to = ((y + dy - 1) * width + x + dx - 1) * 4;
            assert_eq!(&pixels.data[to..to + 4], &original.data[from..from + 4]);
        }
    }
    // PSB stream indices need not be dense after removing atlases.
    let encoded = chronos::psb::writer::write(&after, 4).unwrap();
    assert!(readable(&encoded));
    let decoded = read(&encoded).unwrap();
    let d = object(at(object(at(object(&decoded), "source")), "tex#000"));
    let Value::Stream(p) = at(object(at(d, "texture")), "pixel") else { panic!() };
    assert_eq!(p.data, pixels.data);
    let once = copy(&after);
    compact_stock_atlases(&mut after, 1);
    assert!(same(&after, &once));
}

#[test]
fn drops_only_unreferenced_stock_sources() {
    let mut t = tree(reference());
    compact_stock_atlases(&mut t, 2);
    let source = object(at(object(&t), "source"));
    assert!(get(source, "tex#000").is_some());
    assert!(get(source, "tex#001").is_none());
}

#[test]
fn unknown_or_dynamic_references_preserve_everything() {
    for content in [
        obj(vec![("src", Value::Int(3))]),
        obj(vec![("src", Value::String("tex#000".into()))]),
    ] {
        let mut t = tree(content);
        let before = copy(&t);
        compact_stock_atlases(&mut t, 2);
        assert!(same(&t, &before));
    }
}

#[test]
fn unsupported_or_invalid_textures_are_left_untouched() {
    let keep = vec!["keep".to_string()];
    for (key, value) in [
        ("ast", Value::Int(1)),
        ("type", Value::String("DXT5".into())),
        ("width", Value::Int(0)),
        ("height", Value::Int(8)),
    ] {
        let mut a = atlas();
        let t = member_mut(&mut a, "texture");
        *member_mut(t, key) = value;
        assert!(compact(&a, &keep).is_none());
    }
    assert!(compact(&atlas(), &vec!["missing".to_string()]).is_none());
}

#[test]
fn whole_floats_and_integers_are_read_as_sizes() {
    let o = vec![
        ("a".to_string(), Value::Int(5)),
        ("b".to_string(), float(7.0)),
        ("c".to_string(), float(7.5)),
        ("d".to_string(), float(-0.0)),
        ("e".to_string(), float(-1.0)),
        ("f".to_string(), Value::Int(-1)),
        ("g".to_string(), float(f64::INFINITY)),
        ("h".to_string(), float(1e300)),
        ("i".to_string(), float(4503599627370496.0)),
        ("j".to_string(), Value::String("5".into())),
    ];
    assert_eq!(number(&o, "a"), Some(5));
    assert_eq!(number(&o, "b"), Some(7));
    assert_eq!(number(&o, "c"), None);
    assert_eq!(number(&o, "d"), Some(0));
    assert_eq!(number(&o, "e"), None);
    assert_eq!(number(&o, "f"), None);
    assert_eq!(number(&o, "g"), None);
    assert_eq!(number(&o, "h"), None);
    assert_eq!(number(&o, "i"), Some(4503599627370496));
    assert_eq!(number(&o, "j"), None);
    assert_eq!(number(&o, "zz"), None);
}

#[test]
fn float_coordinates_stay_floats_after_repacking() {
    let t = atlas();
    let packed = compact(&t, &vec!["keep".to_string()]).unwrap();
    let icon = object(at(object(at(object(&packed), "icon")), "keep"));
    let Value::Float(left) = at(icon, "left") else { panic!("left must stay a float") };
    assert_eq!(f64::from_bits(*left), 1.0);
    let Value::Float(top) = at(icon, "top") else { panic!("top must stay a float") };
    assert_eq!(f64::from_bits(*top), 1.0);
    let texture = object(at(object(&packed), "texture"));
    assert_eq!(number(texture, "width"), Some(8));
    assert_eq!(number(texture, "height"), Some(4));
    assert!(same(at(texture, "truncated_width"), &Value::Int(8)));
    assert!(compact(&t, &vec![]).map(|v| matches!(v, Value::Null)).unwrap());
}
