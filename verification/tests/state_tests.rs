use markdown_viewer::files::{get_settings, initial_settings, save_settings, FileEntry, Settings, Source};
use markdown_viewer::state::AppState;

#[test]
fn default_state_is_empty_with_stock_settings() {
    let s = AppState::default();
    assert!(s.get_snapshot().is_empty());
    let cfg = s.get_config();
    assert!(cfg.sources.is_empty());
    assert_eq!(
        cfg.exclusions,
        vec!["node_modules", ".git", "vendor", "dist", "build"]
    );
    assert_eq!(cfg.theme, "system");
    assert!(cfg.last_opened_file.is_none());
}

#[test]
fn get_settings_returns_the_initial_settings() {
    let got = get_settings().unwrap();
    let init = initial_settings();
    assert_eq!(got.exclusions, init.exclusions);
    assert_eq!(got.theme, init.theme);
    assert!(got.sources.is_empty());
    assert!(got.last_opened_file.is_none());
}

#[test]
fn save_settings_accepts_any_value() {
    let s = initial_settings();
    assert!(save_settings(s).is_ok());
}

#[test]
fn replace_snapshot_swaps_whole_and_keeps_settings() {
    let mut s = AppState::default();
    let snap = vec![FileEntry {
        path: "/r/a.md".to_string(),
        name: "a.md".to_string(),
        modified: 1,
        size: 2,
    }];
    s.replace_snapshot(snap);
    assert_eq!(s.get_snapshot().len(), 1);
    assert_eq!(s.get_snapshot()[0].path, "/r/a.md");
    assert_eq!(s.get_config().theme, "system");
    // Last replace wins, whole-snapshot.
    s.replace_snapshot(Vec::new());
    assert!(s.get_snapshot().is_empty());
}

#[test]
fn replace_config_keeps_snapshot() {
    let mut s = AppState::default();
    let cfg = Settings {
        sources: vec![Source { path: "~/docs".to_string(), enabled: true }],
        exclusions: vec!["drafts".to_string()],
        theme: "dark".to_string(),
        last_opened_file: Some("/r/a.md".to_string()),
    };
    s.replace_config(cfg);
    assert_eq!(s.get_config().theme, "dark");
    assert_eq!(s.get_config().sources.len(), 1);
    assert!(s.get_config().sources[0].enabled);
    assert!(s.get_snapshot().is_empty());
}
