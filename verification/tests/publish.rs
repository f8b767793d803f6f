use chronos::mzs::pack_default;
use chronos::psb::value::Value;
use chronos::publish::{
    decode_resource, file_name, usb_root, ConsoleVariant, CoverEntry, CoverSize, Error, Templates,
};

fn profile(id: &str) -> Vec<u8> {
    let value = Value::Object(vec![(
        "root".to_string(),
        Value::Object(vec![
            ("dev_id".to_string(), Value::String(id.to_string())),
            ("region".to_string(), Value::String("japan".to_string())),
        ]),
    )]);
    let bytes = chronos::psb::writer::write(&value, 4).unwrap();
    pack_default(&bytes, "system_prof.psb.m").unwrap()
}

/// Which of the eight resources (Japan set, then World set) `exists` reports.
fn present(exists: impl Fn(&str) -> bool) -> Vec<bool> {
    let mut all = ConsoleVariant::Japan.templates().to_vec();
    all.extend(ConsoleVariant::World.templates());
    all.into_iter().map(|p| exists(p)).collect()
}

fn detect(profile: Option<&[u8]>, exists: impl Fn(&str) -> bool) -> Result<ConsoleVariant, Error> {
    ConsoleVariant::detect(profile, &present(exists))
}

#[test]
fn detects_both_retail_and_legacy_layouts() {
    for (id, variant) in [("40", ConsoleVariant::Japan), ("41", ConsoleVariant::World)] {
        let has = |p: &str| variant.templates().contains(&p);
        assert_eq!(detect(Some(&profile(id)), has).unwrap(), variant);
        assert_eq!(detect(None, has).unwrap(), variant);
        // Identity wins even if both directories are present.
        assert_eq!(detect(Some(&profile(id)), |_| true).unwrap(), variant);
        // The actual encrypted basename must be preserved.
        for path in &variant.templates()[2..] {
            let name = file_name(path);
            let encrypted = pack_default(b"PSB test", &name).unwrap();
            assert_eq!(chronos::mzs::unpack_default(&encrypted, &name).unwrap(), b"PSB test");
        }
    }
}

#[test]
fn rejects_ambiguous_incomplete_or_mismatched_resources() {
    assert!(detect(None, |_| true).is_err());
    assert!(detect(None, |_| false).is_err());
    assert!(detect(Some(&profile("41")), |p| ConsoleVariant::Japan.templates().contains(&p)).is_err());
    assert!(detect(Some(&profile("42")), |_| true).is_err());
    assert!(detect(Some(b"broken"), |_| true).is_err());
}

#[test]
fn detection_errors_name_the_problem() {
    match detect(None, |_| true) {
        Err(Error::Template(m)) => assert!(m.starts_with("Both console resource sets are present.")),
        _ => panic!("expected a template error"),
    }
    match detect(Some(&profile("41")), |p| p != "041/config/title_mode_top.psb.m") {
        Err(Error::Template(m)) => assert_eq!(m, "Console 041 resource missing: 041/config/title_mode_top.psb.m"),
        _ => panic!("expected a template error"),
    }
    match detect(Some(&profile("42")), |_| true) {
        Err(Error::Template(m)) => {
            assert_eq!(m, "Unsupported console package in system_prof.psb.m (expected 40 or 41)")
        }
        _ => panic!("expected a template error"),
    }
    assert!(matches!(detect(Some(b"broken"), |_| true), Err(Error::Psb(_))));
    // A header whose offsets point past the end is refused, not trusted.
    let mut dangling = b"PSB\0\x02\0\0\0".to_vec();
    dangling.extend([0xff_u8; 32]);
    assert!(matches!(detect(Some(&dangling), |_| true), Err(Error::Psb(_))));
}

#[test]
fn console_ids_and_templates() {
    assert_eq!(ConsoleVariant::Japan.id(), "040");
    assert_eq!(ConsoleVariant::World.id(), "041");
    assert_eq!(ConsoleVariant::Japan.templates()[2], "040/motion/title_jp_titleselect_jp.psb.m");
    assert_eq!(ConsoleVariant::World.templates()[3], "041/motion/title_us_titleselect_us.psb.m");
}

#[test]
fn encrypted_resources_keep_their_basename() {
    for variant in [ConsoleVariant::Japan, ConsoleVariant::World] {
        for path in &variant.templates()[2..] {
            let name = file_name(path);
            let encrypted = pack_default(b"PSB test", &name).unwrap();
            assert_eq!(decode_resource(&encrypted, &name).unwrap(), b"PSB test");
        }
    }
}

#[test]
fn resource_with_wrong_name_is_an_mzs_error() {
    let encrypted = pack_default(b"PSB test", "a.psb.m").unwrap();
    assert!(matches!(decode_resource(&encrypted, "b.psb.m"), Err(Error::Mzs(_))));
}

#[test]
fn last_path_component() {
    assert_eq!(file_name("040/motion/title.psb.m"), "title.psb.m");
    assert_eq!(file_name("plain"), "plain");
    assert_eq!(file_name("dir/"), "");
}

#[test]
fn stock_templates_are_decoded_or_reported_missing() {
    let t = Templates::new("/stock".to_string());
    match t.load_stock_psb("040/config/title_prof.psb.m", None) {
        Err(Error::Template(m)) => assert_eq!(
            m,
            "stock PSB template not found: /stock/040/config/title_prof.psb.m (stock_root='/stock', relative='040/config/title_prof.psb.m')"
        ),
        other => panic!("unexpected {other:?}"),
    }
    let raw = pack_default(b"PSB data", "title_prof.psb.m").unwrap();
    assert_eq!(t.load_stock_psb("040/config/title_prof.psb.m", Some(&raw)).unwrap(), b"PSB data");
}

#[test]
fn only_the_canonical_layout_has_a_usb_root() {
    let parts = |s: &[&str]| s.iter().map(|x| x.to_string()).collect::<Vec<_>>();
    assert_eq!(usb_root(&parts(&["/", "media", "usb", "library", "published"])), Some(parts(&["/", "media", "usb"])));
    assert_eq!(usb_root(&parts(&["library", "published"])), Some(vec![]));
    assert_eq!(usb_root(&parts(&["out", "published"])), None);
    assert_eq!(usb_root(&parts(&["published"])), None);
    assert_eq!(usb_root(&parts(&["library", "published", "x"])), None);
}

#[test]
fn cover_dimensions_default_to_a_centred_square() {
    let entry = |cs| CoverEntry { cover_path: "c.png".into(), cover_size: cs, label: "game".into() };
    assert_eq!(entry(None).dimensions(), (240, 240, 120, 120));
    assert_eq!(
        entry(Some(CoverSize { width: 100, height: 0, origin_x: 0, origin_y: 7 })).dimensions(),
        (100, 240, 50, 7)
    );
    assert_eq!(
        entry(Some(CoverSize { width: 0, height: 0, origin_x: 0, origin_y: 0 })).dimensions(),
        (240, 240, 120, 120)
    );
}
