use markdown_viewer::files::{scan_directories, FileEntry, FsNode, RootTree};
use markdown_viewer::sorting::sort_entries;

fn file(name: &str, modified: u64, size: u64) -> FsNode {
    FsNode::File { name: name.to_string(), modified, size }
}

fn dir(name: &str, entries: Vec<FsNode>) -> FsNode {
    FsNode::Dir { name: name.to_string(), entries }
}

fn entry(path: &str, name: &str, modified: u64, size: u64) -> FileEntry {
    FileEntry { path: path.to_string(), name: name.to_string(), modified, size }
}

#[test]
fn scan_prunes_exclusions_and_sorts_newest_first() {
    let root = RootTree {
        path: "/root".to_string(),
        node: Some(dir(
            "root",
            vec![
                file("a.md", 100, 10),
                file("b.MDX", 200, 20),
                dir(".git", vec![file("c.md", 300, 30)]),
                dir("node_modules", vec![file("d.md", 50, 5)]),
            ],
        )),
    };
    let got = scan_directories(&vec![root], &vec![]).unwrap();
    assert_eq!(got.len(), 2);
    assert_eq!(got[0].path, "/root/b.MDX");
    assert_eq!(got[0].name, "b.MDX");
    assert_eq!(got[0].modified, 200);
    assert_eq!(got[0].size, 20);
    assert_eq!(got[1].path, "/root/a.md");
    assert_eq!(got[1].name, "a.md");
    assert_eq!(got[1].modified, 100);
}

#[test]
fn scan_skips_missing_roots_and_non_markdown() {
    let missing = RootTree { path: "/gone".to_string(), node: None };
    let present = RootTree {
        path: "/docs".to_string(),
        node: Some(dir("docs", vec![file("x.txt", 5, 1), file("y.md", 9, 2)])),
    };
    let got = scan_directories(&vec![missing, present], &vec![]).unwrap();
    assert_eq!(got.len(), 1);
    assert_eq!(got[0].path, "/docs/y.md");
}

#[test]
fn scan_descends_nested_directories() {
    let root = RootTree {
        path: "/r".to_string(),
        node: Some(dir(
            "r",
            vec![dir("sub", vec![dir("deep", vec![file("n.md", 7, 3)])])],
        )),
    };
    let got = scan_directories(&vec![root], &vec![]).unwrap();
    assert_eq!(got.len(), 1);
    assert_eq!(got[0].path, "/r/sub/deep/n.md");
    assert_eq!(got[0].name, "n.md");
}

#[test]
fn scan_applies_user_exclusions() {
    let root = RootTree {
        path: "/r".to_string(),
        node: Some(dir(
            "r",
            vec![dir("drafts", vec![file("d.md", 9, 1)]), file("k.md", 3, 1)],
        )),
    };
    let got = scan_directories(&vec![root], &vec!["drafts".to_string()]).unwrap();
    assert_eq!(got.len(), 1);
    assert_eq!(got[0].path, "/r/k.md");
}

#[test]
fn scan_excluded_root_yields_nothing() {
    let root = RootTree {
        path: "/home/u/.notes".to_string(),
        node: Some(dir(".notes", vec![file("a.md", 1, 1)])),
    };
    let got = scan_directories(&vec![root], &vec![]).unwrap();
    assert!(got.is_empty());
}

#[test]
fn scan_of_a_file_root() {
    let root = RootTree { path: "/home/u/solo.md".to_string(), node: Some(file("solo.md", 4, 8)) };
    let got = scan_directories(&vec![root], &vec![]).unwrap();
    assert_eq!(got.len(), 1);
    assert_eq!(got[0].path, "/home/u/solo.md");
}

#[test]
fn scan_empty_root_set() {
    let got = scan_directories(&vec![], &vec![]).unwrap();
    assert!(got.is_empty());
}

#[test]
fn sort_is_stable_on_equal_modified() {
    let input = vec![
        entry("/a", "a", 100, 1),
        entry("/b", "b", 200, 2),
        entry("/c", "c", 100, 3),
        entry("/d", "d", 100, 4),
    ];
    let got = sort_entries(input);
    let paths: Vec<&str> = got.iter().map(|e| e.path.as_str()).collect();
    assert_eq!(paths, vec!["/b", "/a", "/c", "/d"]);
}

#[test]
fn sort_handles_empty_and_zero_timestamps() {
    let got = sort_entries(vec![]);
    assert!(got.is_empty());
    let got = sort_entries(vec![entry("/z", "z", 0, 1), entry("/y", "y", 1, 1)]);
    assert_eq!(got[0].path, "/y");
    assert_eq!(got[1].path, "/z");
}

#[test]
fn scan_carries_extreme_metadata_unchanged() {
    let root = RootTree {
        path: "/r".to_string(),
        node: Some(dir("r", vec![file("big.md", u64::MAX, u64::MAX), file("old.md", 0, 0)])),
    };
    let got = scan_directories(&vec![root], &vec![]).unwrap();
    assert_eq!(got.len(), 2);
    assert_eq!(got[0].modified, u64::MAX);
    assert_eq!(got[0].size, u64::MAX);
    assert_eq!(got[1].modified, 0);
}

#[test]
fn ties_across_roots_keep_traversal_order() {
    let r1 = RootTree { path: "/one".to_string(), node: Some(dir("one", vec![file("p.md", 5, 1)])) };
    let r2 = RootTree { path: "/two".to_string(), node: Some(dir("two", vec![file("q.md", 5, 1)])) };
    let got = scan_directories(&vec![r1, r2], &vec![]).unwrap();
    assert_eq!(got.len(), 2);
    assert_eq!(got[0].path, "/one/p.md");
    assert_eq!(got[1].path, "/two/q.md");
}

#[test]
fn hidden_markdown_files_are_excluded_from_scans() {
    // The file's own name is a path component; a hidden name keeps it out,
    // exactly as the watcher would drop a notification for it.
    let root = RootTree {
        path: "/r".to_string(),
        node: Some(dir("r", vec![file(".hidden.md", 9, 1), file("seen.md", 1, 1)])),
    };
    let got = scan_directories(&vec![root], &vec![]).unwrap();
    assert_eq!(got.len(), 1);
    assert_eq!(got[0].path, "/r/seen.md");
}

#[test]
fn root_under_excluded_component_yields_nothing() {
    let root = RootTree {
        path: "/home/.config/docs".to_string(),
        node: Some(dir("docs", vec![file("a.md", 1, 1)])),
    };
    let got = scan_directories(&vec![root], &vec![]).unwrap();
    assert!(got.is_empty());
}

#[test]
fn snapshot_paths_are_pairwise_distinct() {
    let r1 = RootTree {
        path: "/one".to_string(),
        node: Some(dir(
            "one",
            vec![file("a.md", 5, 1), dir("sub", vec![file("a.md", 5, 1)])],
        )),
    };
    let r2 = RootTree { path: "/two".to_string(), node: Some(dir("two", vec![file("a.md", 5, 1)])) };
    let got = scan_directories(&vec![r1, r2], &vec![]).unwrap();
    assert_eq!(got.len(), 3);
    for i in 0..got.len() {
        for j in (i + 1)..got.len() {
            assert_ne!(got[i].path, got[j].path);
        }
    }
}
