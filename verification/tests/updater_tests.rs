use markdown_viewer::updater::{
    check_for_updates, decide_update, get_arch_suffix, get_current_app_version,
    get_current_version, select_dmg_asset, str_contains, str_ends_with, strip_v_prefix, Release,
    ReleaseAsset,
};

fn asset(name: &str, url: &str) -> ReleaseAsset {
    ReleaseAsset { name: name.to_string(), browser_download_url: url.to_string() }
}

fn release(tag: &str, assets: Vec<ReleaseAsset>) -> Release {
    Release {
        tag_name: tag.to_string(),
        body: Some("notes".to_string()),
        published_at: "2024-01-01T00:00:00Z".to_string(),
        assets,
    }
}

#[test]
fn version_strings() {
    assert_eq!(get_current_version(), "0.1.0");
    assert_eq!(get_current_app_version(), "0.1.0");
    assert_eq!(get_arch_suffix(true), "aarch64");
    assert_eq!(get_arch_suffix(false), "x64");
}

#[test]
fn tag_prefix_stripping() {
    assert_eq!(strip_v_prefix("v1.2.3"), "1.2.3");
    assert_eq!(strip_v_prefix("1.2.3"), "1.2.3");
    assert_eq!(strip_v_prefix("vv2.0.0"), "2.0.0");
    assert_eq!(strip_v_prefix(""), "");
}

#[test]
fn string_search_helpers() {
    assert!(str_ends_with("app-x64.dmg", ".dmg"));
    assert!(!str_ends_with("app.zip", ".dmg"));
    assert!(!str_ends_with("mg", ".dmg"));
    assert!(str_contains("app-aarch64.dmg", "aarch64"));
    assert!(!str_contains("app-x64.dmg", "aarch64"));
    assert!(str_contains("abc", ""));
}

#[test]
fn asset_selection_prefers_architecture() {
    let assets = vec![
        asset("app-x64.dmg", "https://x64"),
        asset("app-aarch64.dmg", "https://arm"),
    ];
    assert_eq!(select_dmg_asset(&assets, "aarch64"), Some(1));
    assert_eq!(select_dmg_asset(&assets, "x64"), Some(0));
}

#[test]
fn asset_selection_falls_back_to_any_dmg() {
    let assets = vec![asset("app.zip", "https://zip"), asset("app-x64.dmg", "https://x64")];
    assert_eq!(select_dmg_asset(&assets, "aarch64"), Some(1));
    assert_eq!(select_dmg_asset(&vec![asset("app.zip", "https://zip")], "x64"), None);
}

#[test]
fn no_update_when_not_newer() {
    let r = release("v0.0.1", vec![asset("app-x64.dmg", "https://x64")]);
    assert!(matches!(decide_update(&r, false, "x64"), Ok(None)));
}

#[test]
fn newer_release_without_dmg_is_an_error() {
    let r = release("v9.9.9", vec![asset("app.zip", "https://zip")]);
    let got = decide_update(&r, true, "x64");
    assert_eq!(got.unwrap_err(), "No DMG found for this architecture");
}

#[test]
fn newer_release_yields_update_info() {
    let r = release("v9.9.9", vec![asset("app-aarch64.dmg", "https://arm")]);
    let got = decide_update(&r, true, "aarch64").unwrap().unwrap();
    assert_eq!(got.version, "9.9.9");
    assert_eq!(got.download_url, "https://arm");
    assert_eq!(got.release_notes, "notes");
    assert_eq!(got.published_at, "2024-01-01T00:00:00Z");
}

#[test]
fn missing_body_becomes_empty_notes() {
    let mut r = release("v9.9.9", vec![asset("a-x64.dmg", "https://x64")]);
    r.body = None;
    let got = decide_update(&r, true, "x64").unwrap().unwrap();
    assert_eq!(got.release_notes, "");
}

#[test]
fn full_check_detects_newer_release() {
    // Exercises the semver parse and ordering calls end to end.
    let r = release("v9.9.9", vec![asset("app-x64.dmg", "https://x64")]);
    let got = check_for_updates(&r, "0.1.0", "x64").unwrap().unwrap();
    assert_eq!(got.version, "9.9.9");
    assert_eq!(got.download_url, "https://x64");
}

#[test]
fn full_check_skips_older_and_equal_releases() {
    let older = release("v0.0.1", vec![asset("app-x64.dmg", "https://x64")]);
    assert!(check_for_updates(&older, "0.1.0", "x64").unwrap().is_none());
    let equal = release("v0.1.0", vec![asset("app-x64.dmg", "https://x64")]);
    assert!(check_for_updates(&equal, "0.1.0", "x64").unwrap().is_none());
}

#[test]
fn full_check_orders_by_semver_not_text() {
    // 0.10.0 is newer than 0.9.0 though it sorts lower as text.
    let r = release("v0.10.0", vec![asset("app-x64.dmg", "https://x64")]);
    assert!(check_for_updates(&r, "0.9.0", "x64").unwrap().is_some());
}

#[test]
fn full_check_reports_parse_errors() {
    let bad = release("vnot-a-version", vec![asset("app-x64.dmg", "https://x64")]);
    let err = check_for_updates(&bad, "0.1.0", "x64").unwrap_err();
    assert!(err.starts_with("Invalid version:"));
    let good_tag = release("v1.0.0", vec![asset("app-x64.dmg", "https://x64")]);
    let err = check_for_updates(&good_tag, "not-a-version", "x64").unwrap_err();
    assert!(err.starts_with("Invalid version:"));
}
