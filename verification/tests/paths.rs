use document_workbench::model::DocumentKind;
use document_workbench::order::path_before;
use document_workbench::paths::{display_path, document_kind, is_supported_document, join, same_path, starts_with};
use document_workbench::panel::{recent_documents_file, settings_file};

#[test]
fn document_kinds_by_extension() {
    assert_eq!(document_kind("a/b.MARKDOWN"), Some(DocumentKind::Markdown));
    assert_eq!(document_kind("b.Htm"), Some(DocumentKind::Html));
    assert_eq!(document_kind("server.log"), Some(DocumentKind::Text));
    assert_eq!(document_kind("notes.text"), Some(DocumentKind::Text));
    assert_eq!(document_kind(".md"), None);
    assert_eq!(document_kind("a.md/.."), None);
    assert_eq!(document_kind("dir/a.md/"), Some(DocumentKind::Markdown));
    assert_eq!(document_kind("a."), None);
    assert_eq!(document_kind(""), None);
    assert!(is_supported_document("x.txt"));
    assert!(!is_supported_document("x.rs"));
}

#[test]
fn paths_compare_by_components() {
    assert!(starts_with("/a/b/c.md", "/a/b"));
    assert!(!starts_with("/a/bc", "/a/b"));
    assert!(starts_with("/a/./b", "/a/b"));
    assert!(!starts_with("a/b", "/a"));
    assert!(same_path("/a//b/", "/a/b"));
    assert!(!same_path("./a", "a"));
}

#[test]
fn display_path_is_relative_under_cwd() {
    assert_eq!(display_path("/home/u/proj/docs/a.md", "/home/u/proj"), "docs/a.md");
    assert_eq!(display_path("/elsewhere/a.md", "/home/u/proj"), "/elsewhere/a.md");
    assert_eq!(display_path("/home/u/proj", "/home/u/proj"), "");
    let cwd = "/home/u/proj";
    let shown = display_path("/home/u/proj/docs/a.md", cwd);
    assert!(same_path(&join(cwd, &shown), "/home/u/proj/docs/a.md"));
}

#[test]
fn join_appends_or_replaces() {
    assert_eq!(join("/a", "b"), "/a/b");
    assert_eq!(join("/a/", "b"), "/a/b");
    assert_eq!(join("/a", "/b"), "/b");
    assert_eq!(join("", "b"), "b");
    assert_eq!(recent_documents_file("/data"), "/data/document-workbench/recent-documents.json");
    assert_eq!(settings_file("/data/"), "/data/document-workbench/state.json");
}

#[test]
fn path_order_follows_components() {
    assert!(path_before("/p/a/x.md", "/p/a.md"));
    assert!(path_before("/p/a.md", "/p/b.md"));
    assert!(!path_before("/p/b.md", "/p/a.md"));
    assert!(!path_before("/p/a.md", "/p//a.md"));
    assert!(path_before("/z", "a"));
}

#[test]
fn display_path_joins_back_onto_the_working_directory() {
    for (p, cwd) in [("/w/docs/a.md", "/w"), ("/w/a.md", "/w/"), ("/w", "/w"), ("/w//x/./b.txt", "/w/x")] {
        let shown = display_path(p, cwd);
        assert!(same_path(&join(cwd, &shown), p), "{p} under {cwd}");
    }
    assert_eq!(display_path("/w/docs/a.md", "/w"), "docs/a.md");
    assert_eq!(join("/w", &display_path("/w/docs/a.md", "/w")), "/w/docs/a.md");
}

#[test]
fn display_path_keeps_the_rest_as_written() {
    assert_eq!(display_path("/a//b", "/"), "a//b");
    assert_eq!(display_path("/w/x/./b.md", "/w"), "x/./b.md");
    assert_eq!(display_path("/w//docs/a.md", "/w/"), "docs/a.md");
}
