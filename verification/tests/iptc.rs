use fastcull_core::iptc::{
    apply_template, expand, parse_templates, ExpandContext, IptcData, IptcError, IptcTemplate,
    mtime_date_time, RevertSlot, TemplatesFile,
};

fn ctx() -> ExpandContext {
    ExpandContext {
        date: "2026-07-25".into(),
        time: "174123".into(),
        filename_stem: "DSC01234".into(),
        camera: "ILCE-1".into(),
        ext_upper: "ARW".into(),
    }
}

#[test]
fn every_variable_expands() {
    let c = ctx();
    for (tpl, want) in [
        ("{date}", "2026-07-25"),
        ("{time}", "174123"),
        ("{filename}", "DSC01234"),
        ("{camera}", "ILCE-1"),
        ("{ext}", "ARW"),
        ("{date}_{filename}.{ext}", "2026-07-25_DSC01234.ARW"),
    ] {
        assert_eq!(expand("title", tpl, &c, 1, 1).unwrap(), want, "{tpl}");
    }
}

#[test]
fn seq_pads_to_batch_width_and_explicit_n() {
    let c = ctx();
    assert_eq!(expand("title", "{seq}", &c, 7, 120).unwrap(), "007");
    assert_eq!(expand("title", "{seq}", &c, 120, 120).unwrap(), "120");
    assert_eq!(expand("title", "{seq}", &c, 1, 9).unwrap(), "1");
    assert_eq!(expand("title", "{seq:5}", &c, 7, 9).unwrap(), "00007");
}

#[test]
fn brace_escapes_and_errors() {
    let c = ctx();
    assert_eq!(
        expand("title", "{{literal}} {date}", &c, 1, 1).unwrap(),
        "{literal} 2026-07-25"
    );
    let err = expand("headline", "x {nope} y", &c, 1, 1).unwrap_err();
    let msg = err.text();
    assert!(
        msg.contains("nope") && msg.contains("headline"),
        "error must name variable and field: {msg}"
    );
    assert!(matches!(
        expand("city", "oops {date", &c, 1, 1),
        Err(IptcError::UnclosedBrace { .. })
    ));
}

#[test]
fn capture_context_from_exif_and_mtime_fallback() {
    let mtime = 1_753_400_000;
    let c = ExpandContext::from_capture(
        Some("2021:04:05 17:41:23"),
        mtime,
        "DSC00042.ARW",
        Some("  ILCE-1 "),
    );
    assert_eq!((c.date.as_str(), c.time.as_str()), ("2021-04-05", "174123"));
    assert_eq!(c.filename_stem, "DSC00042");
    assert_eq!(c.ext_upper, "ARW");
    assert_eq!(c.camera, "ILCE-1");
    let c = ExpandContext::from_capture(Some("garbage"), mtime, "x.arw", None);
    assert_eq!(c.date, "2025-07-24");
    assert_eq!(c.time.len(), 6);
    assert_eq!(c.ext_upper, "ARW");
    let c = ExpandContext::from_capture(Some("0000:00:00 00:00:00"), mtime, "x.arw", None);
    assert_eq!(c.date, "2025-07-24");
    let c = ExpandContext::from_capture(Some("20xx:01:02 03:04:05"), mtime, "x.arw", None);
    assert_eq!(c.date, "2025-07-24");
}

#[test]
fn whitespace_only_template_value_clears_and_warns() {
    let (mut images, ctxs) = batch3();
    images[1].country = Some("Portugal".into());
    let tpl = IptcTemplate {
        country: Some("   ".into()),
        ..Default::default()
    };
    apply_template(&tpl, &mut images, &ctxs).unwrap();
    assert_eq!(images[1].country, None, "whitespace-only clears");
    let load = parse_templates(TemplatesFile::Entries(vec![("w".to_string(), Ok(tpl))])).unwrap();
    assert_eq!(load.warnings.len(), 1, "whitespace-only warns too");
    assert!(load.warnings[0].contains("country"));
}

#[test]
fn bad_seq_width_gets_its_own_error() {
    let c = ctx();
    for tpl in ["{seq:0}", "{seq:33}", "{seq:x}"] {
        let msg = expand("title", tpl, &c, 1, 1).unwrap_err().text();
        assert!(
            msg.contains("width") && msg.contains("title"),
            "{tpl}: {msg}"
        );
    }
}

fn batch3() -> (Vec<IptcData>, Vec<ExpandContext>) {
    let img0 = IptcData {
        city: Some("Old Town".into()),
        keywords: vec!["Birds".into()],
        ..Default::default()
    };
    let images = vec![img0, IptcData::default(), IptcData::default()];
    let ctxs = (0..3)
        .map(|i| ExpandContext {
            filename_stem: format!("DSC0000{i}"),
            ..ctx()
        })
        .collect();
    (images, ctxs)
}

#[test]
fn batch_apply_overwrites_preserves_unions_and_orders_seq() {
    let (mut images, ctxs) = batch3();
    images[0].headline = Some("stale headline".into());
    let tpl = IptcTemplate {
        title: Some("{filename} #{seq}".into()),
        creator: Some("Ana".into()),
        city: None,
        headline: Some("".into()),
        keywords: vec!["birds".into(), "{date}".into()],
        ..Default::default()
    };
    let snaps = apply_template(&tpl, &mut images, &ctxs).unwrap();
    assert_eq!(snaps.len(), 3);
    assert_eq!(snaps[0].headline.as_deref(), Some("stale headline"));
    assert_eq!(images[0].title.as_deref(), Some("DSC00000 #1"));
    assert_eq!(images[2].title.as_deref(), Some("DSC00002 #3"));
    assert_eq!(images[1].creator.as_deref(), Some("Ana"));
    assert_eq!(
        images[0].city.as_deref(),
        Some("Old Town"),
        "absent preserves"
    );
    assert_eq!(images[0].headline, None, "empty CLEARS the field");
    assert_eq!(images[1].headline, None, "clear is a no-op on unset");
    assert_eq!(images[0].keywords, vec!["Birds", "2026-07-25"]);
    assert_eq!(images[1].keywords, vec!["birds", "2026-07-25"]);
}

#[test]
fn all_or_nothing_on_mid_batch_failure() {
    let (mut images, mut ctxs) = batch3();
    ctxs[1].camera.clear();
    let before = images.clone();
    let tpl = IptcTemplate {
        title: Some("{filename}-{bogus}".into()),
        keywords: vec!["k".into()],
        ..Default::default()
    };
    let err = apply_template(&tpl, &mut images, &ctxs).unwrap_err();
    assert!(matches!(err, IptcError::UnknownVariable { .. }));
    assert_eq!(images, before, "no image may be modified on failure");
}

#[test]
fn revert_restores_exact_state_and_is_single_level() {
    let (mut images, ctxs) = batch3();
    let before = images.clone();
    let tpl = IptcTemplate {
        title: Some("t".into()),
        keywords: vec!["added".into()],
        ..Default::default()
    };
    let mut slot = RevertSlot::default();
    slot.store(apply_template(&tpl, &mut images, &ctxs).unwrap());
    assert_ne!(images, before);
    assert!(slot.revert_into(&mut images));
    assert_eq!(images, before, "exact pre-apply state incl. keywords");
    let frozen = images.clone();
    assert!(!slot.revert_into(&mut images), "second revert is a no-op");
    assert_eq!(images, frozen);
}

#[test]
fn keywords_unite_without_regard_to_case() {
    let mut data = IptcData::default();
    data.add_keywords(vec!["Straße".into(), "birds".into(), "".into()]);
    data.add_keywords(vec!["STRASSE".into(), "Birds".into(), "fog".into()]);
    assert_eq!(data.keywords, vec!["Straße", "birds", "fog"]);
}

#[test]
fn the_extension_is_written_in_capitals() {
    let c = ExpandContext::from_capture(None, 0, "x.straß", None);
    assert_eq!(c.ext_upper, "STRASS");
    assert_eq!((c.date.as_str(), c.time.as_str()), ("1970-01-01", "000000"));
}

#[test]
fn a_modification_time_is_read_in_utc() {
    let at = |secs| {
        let (date, time) = mtime_date_time(secs);
        format!("{date} {time}")
    };
    assert_eq!(at(1_753_400_000), "2025-07-24 233320");
    assert_eq!(at(951_782_399), "2000-02-28 235959");
    assert_eq!(at(951_782_400), "2000-02-29 000000");
}

#[test]
fn a_templates_file_loads_what_is_sound() {
    let good = IptcTemplate {
        title: Some("Boda de São João {seq}".into()),
        keywords: vec!["casamento".into(), "fotografia".into()],
        ..Default::default()
    };
    let load = parse_templates(TemplatesFile::Entries(vec![
        ("good".into(), Ok(good)),
        ("bad".into(), Err("invalid type: integer".into())),
    ]))
    .unwrap();
    assert_eq!(load.templates.len(), 1);
    assert_eq!(load.templates[0].name, "good");
    assert_eq!(load.templates[0].keywords, vec!["casamento", "fotografia"]);
    assert_eq!(load.entry_errors.len(), 1);
    assert!(load.entry_errors[0].contains("bad"));
    assert!(load.warnings.is_empty());

    let wipe = IptcTemplate {
        city: Some("".into()),
        ..Default::default()
    };
    let load = parse_templates(TemplatesFile::Entries(vec![("wipe".into(), Ok(wipe))])).unwrap();
    assert_eq!(load.warnings.len(), 1);
    assert!(load.warnings[0].contains("wipe") && load.warnings[0].contains("city"));

    assert!(matches!(
        parse_templates(TemplatesFile::Invalid("line 1".into())),
        Err(IptcError::Toml(_))
    ));
    let none = parse_templates(TemplatesFile::Absent).unwrap();
    assert!(none.templates.is_empty());
}

#[test]
fn keywords_unite_by_the_keys_that_are_given() {
    let words = |w: &[&str]| w.iter().map(|s| s.to_string()).collect::<Vec<String>>();
    let mut data = IptcData {
        keywords: words(&["Sun", "sea"]),
        ..IptcData::default()
    };
    data.merge_keywords(
        words(&["sun", "sea"]),
        words(&["SUN", "", "Sand", "sand", "Rock"]),
        words(&["sun", "x", "sand", "sand", "sea"]),
    );
    assert_eq!(data.keywords, ["Sun", "sea", "Sand"]);
}

#[test]
fn the_extension_is_in_uppercase() {
    let c = ExpandContext::from_capture(Some("0000:00:00 00:00:00"), 1_753_400_000, "x.arw", None);
    assert_eq!(c.date, "2025-07-24");
    assert_eq!(c.time, "233320");
    assert_eq!(c.filename_stem, "x");
    assert_eq!(c.camera, "");
    assert_eq!(c.ext_upper, "ARW");
}
