use chronos::mzs::{pack_default, unpack_default};
use chronos::psb::reader::{read, readable};
use chronos::psb::value::{Stream, Value};
use chronos::publish::{CoverEntry, Error};
use chronos::title_select::{generate, GenInputs};

fn same(a: &Value, b: &Value) -> bool {
    match (a, b) {
        (Value::Null, Value::Null) => true,
        (Value::Bool(x), Value::Bool(y)) => x == y,
        (Value::Int(x), Value::Int(y)) => x == y,
        (Value::Float(x), Value::Float(y)) => x == y,
        (Value::String(x), Value::String(y)) => x == y,
        (Value::Array(x), Value::Array(y)) => x.len() == y.len() && x.iter().zip(y).all(|(p, q)| same(p, q)),
        (Value::Object(x), Value::Object(y)) => {
            x.len() == y.len() && x.iter().all(|(k, v)| y.iter().any(|(k2, v2)| k == k2 && same(v, v2)))
        }
        (Value::Stream(x), Value::Stream(y)) | (Value::BStream(x), Value::BStream(y)) => {
            x.index == y.index && x.data == y.data
        }
        _ => false,
    }
}

fn obj(fields: Vec<(&str, Value)>) -> Value {
    Value::Object(fields.into_iter().map(|(k, v)| (k.to_string(), v)).collect())
}

fn text(s: &str) -> Value {
    Value::String(s.into())
}

fn get<'a>(v: &'a Value, key: &str) -> &'a Value {
    match v {
        Value::Object(o) => &o.iter().find(|(k, _)| k == key).expect("missing member").1,
        _ => panic!("object required"),
    }
}

fn has(v: &Value, key: &str) -> bool {
    match v {
        Value::Object(o) => o.iter().any(|(k, _)| k == key),
        _ => false,
    }
}

fn get_mut<'a>(v: &'a mut Value, key: &str) -> &'a mut Value {
    match v {
        Value::Object(o) => &mut o.iter_mut().find(|(k, _)| k == key).expect("missing member").1,
        _ => panic!("object required"),
    }
}

fn items(v: &Value) -> &Vec<Value> {
    match v {
        Value::Array(a) => a,
        _ => panic!("array required"),
    }
}

fn items_mut(v: &mut Value) -> &mut Vec<Value> {
    match v {
        Value::Array(a) => a,
        _ => panic!("array required"),
    }
}

fn is_int(v: &Value, n: i64) -> bool {
    matches!(v, Value::Int(x) if *x == n)
}

fn frame(time: i64, src: &str, icon: &str) -> Value {
    obj(vec![
        ("content", obj(vec![("icon", text(icon)), ("mask", Value::Int(0)), ("src", text(src))])),
        ("time", Value::Int(time)),
        ("type", Value::Int(2)),
    ])
}

// Synthetic schema matching the stock lookup tracks; no original assets.
// Keys are in sorted order, as a JSON object literal gives them.
fn track() -> Value {
    obj(vec![
        (
            "layer",
            Value::Array(vec![obj(vec![
                (
                    "frameList",
                    Value::Array(vec![
                        frame(0, "front", "legacy-unresolved"),
                        frame(7, "tex#001", "0045"),
                        frame(25, "tex#000", "0000"),
                        obj(vec![("time", Value::Int(51)), ("type", Value::Int(0))]),
                    ]),
                ),
                ("inheritMask", Value::Int(33556476)),
                ("label", text("front_00")),
            ])]),
        ),
        ("lastTime", Value::Int(51)),
        ("layerIndexMap", obj(vec![("front_00", Value::Int(0))])),
        ("loopTime", Value::Int(-1)),
        (
            "parameter",
            Value::Array(vec![obj(vec![
                ("division", Value::Int(50)),
                ("id", text("pkg")),
                ("rangeBegin", Value::Int(0)),
                ("rangeEnd", Value::Int(50)),
            ])]),
        ),
        (
            "priority",
            Value::Array(vec![
                obj(vec![
                    ("content", Value::Array(vec![Value::Int(0)])),
                    ("time", Value::Int(0)),
                    ("type", Value::Int(1)),
                ]),
                obj(vec![("content", Value::Null), ("time", Value::Int(51)), ("type", Value::Int(1))]),
            ]),
        ),
    ])
}

fn template(with_sg: bool) -> Value {
    let mut motions = vec![
        ("front", track()),
        ("soft31", obj(vec![("marker", text("keep auxiliary motion"))])),
        ("thumb", obj(vec![("marker", text("keep thumb"))])),
    ];
    if with_sg {
        motions.insert(1, ("sg", track()));
    }
    let mut tree = obj(vec![
        ("object", obj(vec![("pkg", obj(vec![("motion", obj(motions))]))])),
        (
            "source",
            obj(vec![
                ("tex#000", obj(vec![("texture", obj(vec![("pixel", Value::Null)]))])),
                ("tex#001", obj(vec![("texture", obj(vec![("pixel", Value::Null)]))])),
            ]),
        ),
    ]);
    // A second carousel layer must never leak into the boot label motion.
    {
        let front = get_mut(get_mut(get_mut(get_mut(&mut tree, "object"), "pkg"), "motion"), "front");
        items_mut(get_mut(front, "layer"))
            .push(obj(vec![("frameList", Value::Array(vec![obj(vec![("time", Value::Int(0)), ("type", Value::Int(0))])])), ("label", text("plus"))]));
        if let Value::Object(map) = get_mut(front, "layerIndexMap") {
            map.push(("plus".to_string(), Value::Int(1)));
        }
        let priority = items_mut(get_mut(front, "priority"));
        *get_mut(&mut priority[0], "content") = Value::Array(vec![Value::Int(1), Value::Int(0)]);
    }
    for (name, index) in [("tex#000", 1u32), ("tex#001", 0u32)] {
        let texture = get_mut(get_mut(get_mut(&mut tree, "source"), name), "texture");
        *get_mut(texture, "pixel") = Value::Stream(Stream { index, data: vec![index as u8, 20, 30, 255] });
    }
    tree
}

fn png(i: usize) -> Vec<u8> {
    let img = image::RgbaImage::from_pixel(2, 2, image::Rgba([i as u8, 40, 80, 255]));
    let mut out = std::io::Cursor::new(Vec::new());
    img.write_to(&mut out, image::ImageFormat::Png).unwrap();
    out.into_inner()
}

fn covers(n: usize) -> (Vec<CoverEntry>, Vec<Option<Vec<u8>>>) {
    let entries = (0..n)
        .map(|i| CoverEntry { cover_path: format!("covers/{i}.png"), cover_size: None, label: format!("slot {i}") })
        .collect();
    let files = (0..n).map(|i| Some(png(i))).collect();
    (entries, files)
}

fn generated(template: &Value, covers: &[CoverEntry], files: &[Option<Vec<u8>>]) -> Value {
    let psb = chronos::psb::writer::write(template, 4).unwrap();
    assert!(readable(&psb));
    let generated = generate(&GenInputs { games: covers, template_psb: &psb }, files).unwrap();
    // Check the packed artifact too: catches serialization/stream issues.
    let filename = "title_jp_titleselect_jp.psb.m";
    let packed = pack_default(&generated, filename).unwrap();
    let unpacked = unpack_default(&packed, filename).unwrap();
    assert!(readable(&unpacked));
    read(&unpacked).unwrap()
}

fn motions(v: &Value) -> &Value {
    get(get(get(v, "object"), "pkg"), "motion")
}

fn frames<'a>(motions: &'a Value, name: &str) -> &'a Vec<Value> {
    items(get(&items(get(get(motions, name), "layer"))[0], "frameList"))
}

#[test]
fn sg_labels_follow_folder_indices_and_use_the_same_pixels_as_front() {
    let (entries, files) = covers(3); // back, Daimakaimura, Aldynes
    let before = template(true);
    let after = generated(&before, &entries, &files);
    let m = motions(&after);
    let front = frames(m, "front");
    let sg = frames(m, "sg");
    for index in [1usize, 2] {
        assert!(is_int(get(&sg[index], "time"), index as i64));
        assert!(same(get(&sg[index], "content"), get(&front[index], "content")));
        assert!(same(get(get(&sg[index], "content"), "src"), &text(&format!("tex#{:03}", index + 2))));
    }
    assert_eq!(sg.len(), 4); // no stale 7/25 frames
    assert!(same(get(get(m, "sg"), "lastTime"), get(get(m, "front"), "lastTime")));
    assert!(same(get(get(m, "sg"), "parameter"), get(get(m, "front"), "parameter")));
    assert!(same(get(&items(get(get(m, "sg"), "priority"))[1], "time"), get(&sg[3], "time")));
    let original = motions(&before);
    assert!(same(get(m, "thumb"), get(original, "thumb")));
    assert!(same(get(m, "soft31"), get(original, "soft31")));
    assert!(same(&items(get(get(m, "front"), "layer"))[1], &items(get(get(original, "front"), "layer"))[1]));
    let source = get(&after, "source");
    let old_source = get(&before, "source");
    let Value::Object(entries_after) = source else { panic!() };
    assert_eq!(entries_after.len(), 5); // two stock atlases + three covers, no SGX duplicates
    for name in ["tex#000", "tex#001"] {
        assert!(same(get(source, name), get(old_source, name)));
    }
    for i in 0..3 {
        let texture = get(get(source, &format!("tex#{:03}", i + 2)), "texture");
        let Value::Stream(stream) = get(texture, "pixel") else { panic!("missing pixels") };
        assert_eq!(stream.data, [i as u8, 40, 80, 255].repeat(4));
    }
}

#[test]
fn moved_games_at_late_indices_do_not_keep_stock_sg_labels() {
    let (entries, files) = covers(50);
    let after = generated(&template(true), &entries, &files);
    let sg = get(motions(&after), "sg");
    let frames = items(get(&items(get(sg, "layer"))[0], "frameList"));
    for index in [0usize, 7, 25, 31, 49] {
        assert!(is_int(get(&frames[index], "time"), index as i64));
        assert!(same(get(get(&frames[index], "content"), "src"), &text(&format!("tex#{:03}", index + 2))));
    }
    assert!(same(&frames[50], &obj(vec![("time", Value::Int(52)), ("type", Value::Int(0))])));
    assert!(is_int(get(&items(get(sg, "parameter"))[0], "rangeEnd"), 51));
}

#[test]
fn template_without_sg_gets_a_single_layer_label_track() {
    let (entries, files) = covers(2);
    let after = generated(&template(false), &entries, &files);
    let m = motions(&after);
    assert_eq!(items(get(get(m, "sg"), "layer")).len(), 1);
    assert!(same(get(get(m, "sg"), "layerIndexMap"), &obj(vec![("front_00", Value::Int(0))])));
    assert!(same(
        get(&items(get(get(m, "sg"), "priority"))[0], "content"),
        &Value::Array(vec![Value::Int(0)])
    ));
    assert!(same(
        get(&items(get(get(m, "sg"), "layer"))[0], "frameList"),
        get(&items(get(get(m, "front"), "layer"))[0], "frameList")
    ));
    assert_eq!(items(get(get(m, "front"), "layer")).len(), 2);
}

#[test]
fn missing_and_unreadable_covers_are_reported() {
    let psb = chronos::psb::writer::write(&template(true), 4).unwrap();
    let (entries, mut files) = covers(2);
    files[1] = None;
    match generate(&GenInputs { games: &entries, template_psb: &psb }, &files) {
        Err(Error::Library(m)) => assert_eq!(m, "cover image missing for slot 1: covers/1.png"),
        _ => panic!("expected a missing-cover error"),
    }
    files[1] = Some(vec![1, 2, 3]);
    match generate(&GenInputs { games: &entries, template_psb: &psb }, &files) {
        Err(Error::Library(m)) => assert!(m.starts_with("failed to read covers/1.png: ")),
        _ => panic!("expected a decoding error"),
    }
}

#[test]
fn templates_without_the_sheet_paths_are_refused() {
    let (entries, files) = covers(1);
    let flat = chronos::psb::writer::write(&Value::Int(3), 4).unwrap();
    match generate(&GenInputs { games: &entries, template_psb: &flat }, &files) {
        Err(Error::Template(m)) => assert_eq!(m, "title_select template: expected object at root"),
        _ => panic!("expected a template error"),
    }
    let no_motion = chronos::psb::writer::write(&obj(vec![("source", obj(vec![])), ("object", obj(vec![]))]), 4).unwrap();
    match generate(&GenInputs { games: &entries, template_psb: &no_motion }, &files) {
        Err(Error::Template(m)) => assert_eq!(m, "title_select template: missing or non-object field 'pkg'"),
        _ => panic!("expected a template error"),
    }
    let no_source = chronos::psb::writer::write(&obj(vec![("object", obj(vec![]))]), 4).unwrap();
    assert!(!has(&read(&no_source).unwrap(), "source"));
    match generate(&GenInputs { games: &entries, template_psb: &no_source }, &files) {
        Err(Error::Template(m)) => assert_eq!(m, "title_select template: missing or non-object field 'source'"),
        _ => panic!("expected a template error"),
    }
}
