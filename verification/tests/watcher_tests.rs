use markdown_viewer::files::FileEntry;
use markdown_viewer::watcher::{
    get_file_entry, handle_event, resolve_path, should_exclude, ChangeEvent, EventKind, FileEvent,
    FileMeta, SessionSet,
};

fn meta(modified: u64, size: u64) -> Option<FileMeta> {
    Some(FileMeta { modified: Some(modified), size })
}

#[test]
fn creation_with_live_file_yields_one_added() {
    let events = handle_event(
        EventKind::Create,
        &vec!["/root/new.md".to_string()],
        &vec![meta(42, 7)],
        &vec![],
    );
    assert_eq!(events.len(), 1);
    match &events[0] {
        ChangeEvent::Added(e) => {
            assert_eq!(e.path, "/root/new.md");
            assert_eq!(e.name, "new.md");
            assert_eq!(e.modified, 42);
            assert_eq!(e.size, 7);
        },
        _ => panic!("expected Added"),
    }
}

#[test]
fn creation_of_vanished_file_yields_nothing() {
    let events = handle_event(EventKind::Create, &vec!["/root/new.md".to_string()], &vec![None], &vec![]);
    assert!(events.is_empty());
}

#[test]
fn modification_yields_changed() {
    let r = resolve_path(EventKind::Modify, "/root/doc.mdx", meta(9, 3), &vec![]);
    match r {
        Some(ChangeEvent::Changed(e)) => {
            assert_eq!(e.path, "/root/doc.mdx");
            assert_eq!(e.modified, 9);
        },
        _ => panic!("expected Changed"),
    }
}

#[test]
fn removal_always_yields_removed_without_materialization() {
    let events = handle_event(EventKind::Remove, &vec!["/root/old.md".to_string()], &vec![None], &vec![]);
    assert_eq!(events.len(), 1);
    match &events[0] {
        ChangeEvent::Removed(p) => assert_eq!(p, "/root/old.md"),
        _ => panic!("expected Removed"),
    }
    // The observation is never consulted for removals.
    let with_meta = handle_event(EventKind::Remove, &vec!["/root/old.md".to_string()], &vec![
        meta(1, 1),
    ], &vec![]);
    assert_eq!(with_meta.len(), 1);
    assert!(matches!(&with_meta[0], ChangeEvent::Removed(p) if p == "/root/old.md"));
}

#[test]
fn excluded_paths_yield_nothing_for_every_kind() {
    for kind in [EventKind::Create, EventKind::Modify, EventKind::Remove, EventKind::Other] {
        let events = handle_event(kind, &vec!["/root/.git/HEAD".to_string()], &vec![meta(1, 1)], &vec![]);
        assert!(events.is_empty());
        let events =
            handle_event(kind, &vec!["/root/node_modules/x.md".to_string()], &vec![meta(1, 1)], &vec![]);
        assert!(events.is_empty());
    }
}

#[test]
fn non_markdown_and_other_kinds_are_ignored() {
    assert!(resolve_path(EventKind::Create, "/root/a.txt", meta(1, 1), &vec![]).is_none());
    assert!(resolve_path(EventKind::Other, "/root/a.md", meta(1, 1), &vec![]).is_none());
}

#[test]
fn mixed_paths_in_one_notification() {
    let events = handle_event(
        EventKind::Create,
        &vec![
            "/r/.git/a.md".to_string(),
            "/r/b.md".to_string(),
            "/r/c.txt".to_string(),
        ],
        &vec![meta(1, 1), meta(2, 2), meta(3, 3)],
        &vec![],
    );
    assert_eq!(events.len(), 1);
    assert!(matches!(&events[0], ChangeEvent::Added(e) if e.path == "/r/b.md"));
}

#[test]
fn notification_without_paths_yields_nothing() {
    let events = handle_event(EventKind::Create, &vec![], &vec![], &vec![]);
    assert!(events.is_empty());
}

#[test]
fn failed_clock_conversion_degrades_to_zero() {
    let e = get_file_entry("/r/a.md", Some(FileMeta { modified: None, size: 5 })).unwrap();
    assert_eq!(e.modified, 0);
    assert_eq!(e.size, 5);
}

#[test]
fn materialize_rejects_gone_or_non_markdown() {
    assert!(get_file_entry("/r/a.md", None).is_none());
    assert!(get_file_entry("/r/a.txt", meta(1, 1)).is_none());
}

#[test]
fn watcher_exclusion_matches_scanner_policy() {
    assert!(should_exclude("/root/.git/HEAD", &vec![]));
    assert!(should_exclude("/a/target/x.md", &vec![]));
    assert!(!should_exclude("/a/docs/x.md", &vec![]));
    // The user's additions extend the fixed set.
    assert!(should_exclude("/a/drafts/x.md", &vec!["drafts".to_string()]));
    assert!(!should_exclude("/a/drafts/x.md", &vec![]));
}

#[test]
fn file_event_carries_entry_fields() {
    let entry = FileEntry {
        path: "/r/a.md".to_string(),
        name: "a.md".to_string(),
        modified: 11,
        size: 22,
    };
    let ev = FileEvent::from(entry);
    assert_eq!(ev.path, "/r/a.md");
    assert_eq!(ev.name, "a.md");
    assert_eq!(ev.modified, 11);
    assert_eq!(ev.size, 22);
}

#[test]
fn overlapping_sessions_accumulate_and_emit_independently() {
    let mut sessions = SessionSet::new();
    sessions.start_session(vec!["/root".to_string()]);
    sessions.start_session(vec!["/root".to_string()]);
    assert_eq!(sessions.sessions.len(), 2);
    // Each session runs the same translation on the same change, so the same
    // event surfaces once per session: a documented limitation, not deduplicated.
    let paths = vec!["/root/n.md".to_string()];
    let obs = vec![meta(4, 4)];
    let mut emitted: Vec<ChangeEvent> = Vec::new();
    for _ in 0..sessions.sessions.len() {
        emitted.extend(handle_event(EventKind::Create, &paths, &obs, &vec![]));
    }
    assert_eq!(emitted.len(), 2);
    for ev in &emitted {
        assert!(matches!(ev, ChangeEvent::Added(e) if e.path == "/root/n.md"));
    }
}

#[test]
fn user_exclusions_reach_the_watcher() {
    let paths = vec!["/r/drafts/x.md".to_string()];
    let obs = vec![meta(1, 1)];
    let with_user = handle_event(EventKind::Create, &paths, &obs, &vec!["drafts".to_string()]);
    assert!(with_user.is_empty());
    let without = handle_event(EventKind::Create, &paths, &obs, &vec![]);
    assert_eq!(without.len(), 1);
}
