use fastcull_core::burst::parse_sort_key_ms;
use fastcull_core::exif::{
    eq_ignore_ascii_case, normalize_make, read_exif_summary, DecodedFields, ExifFields,
    ExifSummary, Extracted,
};

fn summary(time: Option<&str>, subsec: Option<&str>) -> ExifSummary {
    ExifSummary {
        capture_time: time.map(String::from),
        subsec: subsec.map(String::from),
        ..Default::default()
    }
}

#[test]
fn sort_key_normalizes_subseconds_to_millis() {
    let t = "2021:04:05 17:41:23";
    assert_eq!(
        summary(Some(t), None).sort_key().unwrap(),
        "2021:04:05 17:41:23.000"
    );
    assert_eq!(
        summary(Some(t), Some("5")).sort_key().unwrap(),
        "2021:04:05 17:41:23.500"
    );
    assert_eq!(
        summary(Some(t), Some("57")).sort_key().unwrap(),
        "2021:04:05 17:41:23.570"
    );
    assert_eq!(
        summary(Some(t), Some("5712")).sort_key().unwrap(),
        "2021:04:05 17:41:23.571"
    );
}

#[test]
fn sort_key_orders_chronologically() {
    let a = summary(Some("2021:04:05 17:41:23"), Some("9"));
    let b = summary(Some("2021:04:05 17:41:24"), Some("0"));
    let c = summary(Some("2021:12:01 05:00:00"), None);
    assert!(a.sort_key() < b.sort_key());
    assert!(b.sort_key() < c.sort_key());
}

#[test]
fn sort_key_requires_capture_time() {
    assert_eq!(summary(None, Some("57")).sort_key(), None);
}

#[test]
fn non_digit_subsec_does_not_corrupt_key() {
    assert_eq!(
        summary(Some("2021:04:05 17:41:23"), Some("x?"))
            .sort_key()
            .unwrap(),
        "2021:04:05 17:41:23.000"
    );
}

fn fields() -> ExifFields {
    ExifFields {
        make: Some("SONY".into()),
        model: Some("ILCE-1".into()),
        serial: Some("123".into()),
        date_time_original: Some("2021:04:05 17:41:23".into()),
        subsec_original: Some("57".into()),
    }
}

#[test]
fn a_key_reads_back_as_the_moment_it_was_made_from() {
    let key = |t, s| summary(Some(t), Some(s)).sort_key().unwrap();
    let a = parse_sort_key_ms(&key("1970:01:01 00:00:00", "0")).unwrap();
    let b = parse_sort_key_ms(&key("1970:01:02 01:02:03", "456")).unwrap();
    assert_eq!(a, 0);
    assert_eq!(b, 86_400_000 + 3_723_000 + 456);
}

#[test]
fn a_tiff_raw_gets_the_conventional_make_and_its_sequence() {
    let s = read_exif_summary(Extracted::Tiff(fields(), Some(3))).unwrap();
    assert_eq!(s.camera_make.as_deref(), Some("Sony"));
    assert_eq!(s.camera_model.as_deref(), Some("ILCE-1"));
    assert_eq!(s.sequence_number, Some(3));
    assert_eq!(s.sort_key().as_deref(), Some("2021:04:05 17:41:23.570"));
}

#[test]
fn a_jpeg_keeps_its_make_as_it_stands() {
    let s = read_exif_summary(Extracted::Jpeg(Some(fields()))).unwrap();
    assert_eq!(s.camera_make.as_deref(), Some("SONY"));
    assert_eq!(s.sequence_number, None);
    let none = read_exif_summary(Extracted::Jpeg(None)).unwrap();
    assert_eq!(none, ExifSummary::default());
}

#[test]
fn what_a_decoder_leaves_blank_is_absent() {
    let s = read_exif_summary(Extracted::Decoded(DecodedFields {
        make: "Canon".into(),
        model: "".into(),
        serial_number: Some("".into()),
        date_time_original: Some("2021:04:05 17:41:23".into()),
        sub_sec_time_original: None,
    }))
    .unwrap();
    assert_eq!(s.camera_make.as_deref(), Some("Canon"));
    assert_eq!((s.camera_model, s.serial_number), (None, None));
    assert_eq!(s.capture_time.as_deref(), Some("2021:04:05 17:41:23"));
}

#[test]
fn a_file_that_cannot_be_read_says_why() {
    let e = read_exif_summary(Extracted::CannotOpen("gone".into())).unwrap_err();
    assert_eq!(e.text(), "cannot open RAW file: gone");
    let e = read_exif_summary(Extracted::CannotDecode("odd".into())).unwrap_err();
    assert_eq!(e.text(), "cannot decode RAW metadata: odd");
}

#[test]
fn makes_compare_without_regard_to_case() {
    assert!(eq_ignore_ascii_case("NIKON", "nikon"));
    assert!(!eq_ignore_ascii_case("NIKON", "nikons"));
    assert_eq!(normalize_make("Unheard Of"), "Unheard Of");
}
