use fastcull_core::catalog::{
    has_jpeg_extension, has_raw_extension, wants_a_look, CatalogError, Entry, Found, Listing,
    LoadState, PickState, Session,
};

fn file(name: &str) -> Option<Entry> {
    Some(Entry {
        name: name.to_string(),
        stem_is_text: true,
        found: Found::File {
            size: 4,
            mtime: Some(1_753_400_000_000_000_000),
        },
    })
}

fn entry(name: &str, found: Found) -> Option<Entry> {
    Some(Entry {
        name: name.to_string(),
        stem_is_text: true,
        found,
    })
}

fn open(entries: Vec<Option<Entry>>) -> Session {
    Session::open("/shoot", &Listing::Entries(entries)).unwrap()
}

fn files(names: &[&str]) -> Session {
    open(names.iter().map(|n| file(n)).collect())
}

fn names(session: &Session) -> Vec<&str> {
    session.images.iter().map(|i| i.file_name()).collect()
}

#[test]
fn scan_keeps_raw_extensions_case_insensitively_and_unpaired_jpegs() {
    let session = files(&[
        "b.ARW", "a.arw", "c.Arw", "d.CR3", "e.nef", "x.jpg", "y.txt", "z.xmp",
    ]);
    assert_eq!(
        names(&session),
        ["a.arw", "b.ARW", "c.Arw", "d.CR3", "e.nef", "x.jpg"]
    );
    assert!(session
        .images
        .iter()
        .all(|i| i.state == LoadState::Placeholder && i.pick == PickState::Unmarked));
    assert_eq!(session.folder, "/shoot");
    assert_eq!(session.images[0].entry, 1, "a.arw was listed second");
}

#[test]
fn only_images_are_worth_a_look() {
    for name in ["b.ARW", "d.cr3", "x.JPG", "y.jpeg"] {
        assert!(wants_a_look(name), "{name}");
    }
    for name in ["y.txt", "z.xmp", "clip.MP4", "arw", ".arw", "a.ARW.bak"] {
        assert!(!wants_a_look(name), "{name}");
    }
    assert!(has_raw_extension("b.ARW") && !has_raw_extension("b.jpg"));
    assert!(has_jpeg_extension("b.JPEG") && !has_jpeg_extension("b.ARW"));
}

#[test]
fn scan_hides_paired_jpegs_imports_unpaired_ignores_nonimages() {
    let session = files(&[
        "DSC001.ARW",
        "DSC001.JPG",
        "dsc002.arw",
        "DSC002.jpeg",
        "DSC003.JPG",
        "phone.jpeg",
        "clip.MP4",
        "notes.txt",
    ]);
    assert_eq!(
        names(&session),
        ["DSC001.ARW", "DSC003.JPG", "dsc002.arw", "phone.jpeg"]
    );
}

#[test]
fn scan_jpeg_only_folder_imports_everything() {
    assert_eq!(files(&["IMG_1.jpg", "IMG_2.JPEG", "IMG_3.jpeg"]).images.len(), 3);
}

#[test]
fn scan_directory_named_like_raw_does_not_hide_the_jpeg() {
    let session = open(vec![
        file("DSC002.jpg"),
        entry("DSC001.ARW", Found::Other),
        file("DSC001.JPG"),
    ]);
    assert_eq!(
        names(&session),
        ["DSC001.JPG", "DSC002.jpg"],
        "the fake-RAW directory neither imports nor hides anything"
    );
}

#[test]
fn scan_is_non_recursive_and_skips_dirs_named_like_raws() {
    let session = open(vec![
        file("top.ARW"),
        entry("sub", Found::Other),
        entry("weird.ARW", Found::Other),
    ]);
    assert_eq!(names(&session), ["top.ARW"]);
}

#[test]
fn empty_and_missing_folders() {
    assert!(files(&[]).images.is_empty());
    match Session::open("/nope", &Listing::NotADirectory) {
        Err(e) => {
            assert!(e.text().contains("/nope"), "{}", e.text());
            assert!(matches!(e, CatalogError::NotADirectory(_)));
        }
        Ok(_) => panic!("there is no such folder"),
    }
    let denied = Listing::Unreadable("permission denied".to_string());
    match Session::open("/secret", &denied) {
        Err(e) => assert!(e.text().contains("permission denied"), "{}", e.text()),
        Ok(_) => panic!("it cannot be read"),
    }
}

#[test]
fn records_carry_size_and_mtime() {
    let session = files(&["a.ARW"]);
    assert_eq!(session.images[0].size, 4);
    assert_eq!(
        session.images[0].mtime,
        Some(1_753_400_000_000_000_000)
    );
}

#[test]
fn symlinks_are_followed_and_broken_ones_surface() {
    let session = open(vec![
        file("real.ARW"),
        file("link.ARW"),
        entry("broken.ARW", Found::Unreadable("not found".to_string())),
    ]);
    assert_eq!(names(&session), ["broken.ARW", "link.ARW", "real.ARW"]);
    assert!(matches!(session.images[0].state, LoadState::Failed(_)));
    assert_eq!(session.images[1].state, LoadState::Placeholder);
    assert_eq!(session.images[1].size, 4);
}

#[test]
fn a_broken_raw_leaves_its_jpeg_visible() {
    let session = open(vec![
        entry("a.ARW", Found::Unreadable("denied".to_string())),
        file("a.JPG"),
    ]);
    assert_eq!(names(&session), ["a.ARW", "a.JPG"]);
}

#[test]
fn entries_without_a_name_are_counted() {
    let session = open(vec![file("a.ARW"), None, None]);
    assert_eq!(names(&session), ["a.ARW"]);
    assert_eq!(session.scan_errors, 2);
}

#[test]
fn a_stem_that_is_no_text_pairs_with_nothing() {
    let session = open(vec![
        Some(Entry {
            name: "a\u{fffd}.ARW".to_string(),
            stem_is_text: false,
            found: Found::File {
                size: 1,
                mtime: None,
            },
        }),
        Some(Entry {
            name: "a\u{fffd}.JPG".to_string(),
            stem_is_text: false,
            found: Found::File {
                size: 1,
                mtime: None,
            },
        }),
    ]);
    assert_eq!(session.images.len(), 2);
}

#[test]
fn a_thousand_entries_are_a_thousand_placeholders() {
    let session = open((0..1000).map(|i| file(&format!("DSC{i:05}.ARW"))).collect());
    assert_eq!(session.images.len(), 1000);
    assert!(session
        .images
        .iter()
        .all(|i| i.state == LoadState::Placeholder));
    assert_eq!(session.images[999].file_name(), "DSC00999.ARW");
}
