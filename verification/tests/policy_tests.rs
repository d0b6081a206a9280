use markdown_viewer::policy::{expand_tilde, is_markdown_file, join_path, path_is_excluded, should_exclude};

fn fixed() -> Vec<String> {
    vec![
        "node_modules".to_string(),
        ".git".to_string(),
        "vendor".to_string(),
        "dist".to_string(),
        "build".to_string(),
        "target".to_string(),
    ]
}

#[test]
fn markdown_extensions_case_insensitive() {
    assert!(is_markdown_file("NOTES.MD"));
    assert!(is_markdown_file("a.md"));
    assert!(is_markdown_file("b.MDX"));
    assert!(is_markdown_file("/root/dir/file.mdx"));
    assert!(!is_markdown_file("notes.txt"));
    assert!(!is_markdown_file("noext"));
    assert!(!is_markdown_file("archive.md.bak"));
}

#[test]
fn leading_dot_only_name_has_no_extension() {
    assert!(!is_markdown_file(".md"));
    assert!(!is_markdown_file("/root/.md"));
    assert!(is_markdown_file("/root/.hidden.md"));
}

#[test]
fn excluded_dir_names() {
    let ex = fixed();
    assert!(should_exclude(".hidden", &ex));
    assert!(should_exclude(".git", &ex));
    assert!(should_exclude("node_modules", &ex));
    assert!(should_exclude("target", &ex));
    assert!(!should_exclude("src", &ex));
    assert!(!should_exclude("", &ex));
}

#[test]
fn user_exclusions_are_additive() {
    let mut ex = fixed();
    ex.push("drafts".to_string());
    assert!(should_exclude("drafts", &ex));
    assert!(should_exclude("node_modules", &ex));
}

#[test]
fn excluded_paths_by_any_component() {
    let ex = fixed();
    assert!(path_is_excluded("/root/.git/HEAD", &ex));
    assert!(path_is_excluded("/a/node_modules/b/c.md", &ex));
    assert!(!path_is_excluded("/root/docs/x.md", &ex));
    // `.` and `..` are not normal components and are never matched.
    assert!(!path_is_excluded("./docs/x.md", &ex));
    assert!(!path_is_excluded("../docs/x.md", &ex));
    // A hidden file name is itself a component.
    assert!(path_is_excluded("/root/.notes.md", &ex));
}

#[test]
fn tilde_expansion() {
    assert_eq!(expand_tilde("~/docs", Some("/home/u")), "/home/u/docs");
    assert_eq!(expand_tilde("/abs/path", Some("/home/u")), "/abs/path");
    assert_eq!(expand_tilde("~/docs", None), "~/docs");
    assert_eq!(expand_tilde("~", Some("/home/u")), "/home/u");
}

#[test]
fn tilde_is_replaced_textually() {
    // Only the `~` character itself is replaced, as with a literal
    // first-occurrence substitution.
    assert_eq!(expand_tilde("~user/docs", Some("/h")), "/huser/docs");
}

#[test]
fn join_path_inserts_separator() {
    assert_eq!(join_path("/root", "a.md"), "/root/a.md");
    assert_eq!(join_path("", "x"), "/x");
}
