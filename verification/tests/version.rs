use fastcull_core::VERSION;

#[test]
fn version_is_semver_like() {
    let (base, pre) = VERSION.split_once('-').unwrap_or((VERSION, "x"));
    let parts: Vec<_> = base.split('.').collect();
    assert_eq!(parts.len(), 3, "base must be MAJOR.MINOR.PATCH: {base}");
    assert!(
        parts.iter().all(|p| p.parse::<u32>().is_ok()),
        "numeric base: {base}"
    );
    assert!(!pre.is_empty(), "prerelease suffix must be non-empty");
}
