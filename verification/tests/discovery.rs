use document_workbench::discovery::{
    discover_candidates, document_entries, finish_cwd_documents, git_status_paths,
    record_document_candidate, validate_document_path, FileFacts, PathFacts,
};
use document_workbench::model::{DocumentKind, DocumentSource};
use document_workbench::walk::{CwdWalk, DirEntryInfo, EntryKind};

fn strings(v: &[&str]) -> Vec<String> {
    v.iter().map(|s| s.to_string()).collect()
}

fn facts(is_symlink: bool, is_file: bool, cwd: &str, path: &str) -> PathFacts {
    PathFacts {
        metadata: Some(FileFacts { is_symlink, is_file }),
        sensitive: Ok(()),
        canonical_cwd: Some(cwd.to_string()),
        canonical_path: Some(path.to_string()),
    }
}

#[test]
fn validation_refuses_symlink_facts() {
    let err = validate_document_path("/t/note.md", "/t", facts(true, false, "/t", "/t/outside.md")).unwrap_err();
    assert!(err.contains("symlinked document"));
}

#[test]
fn validation_refuses_outside_cwd_facts() {
    let err = validate_document_path("/o/note.md", "/c", facts(false, true, "/c", "/o/note.md")).unwrap_err();
    assert!(err.contains("outside cwd"));
}

#[test]
fn validation_errors_in_order() {
    assert_eq!(
        validate_document_path("/c/a.rs", "/c", facts(false, true, "/c", "/c/a.rs")),
        Err("unsupported document type: /c/a.rs".to_string())
    );
    let mut missing = facts(false, true, "/c", "/c/a.md");
    missing.metadata = None;
    assert_eq!(validate_document_path("/c/a.md", "/c", missing), Err("inspect /c/a.md".to_string()));
    assert_eq!(
        validate_document_path("/c/d.md", "/c", facts(false, false, "/c", "/c/d.md")),
        Err("not a file: /c/d.md".to_string())
    );
    let mut sensitive = facts(false, true, "/c", "/c/a.md");
    sensitive.sensitive = Err("sensitive path".to_string());
    assert_eq!(validate_document_path("/c/a.md", "/c", sensitive), Err("sensitive path".to_string()));
    let mut no_cwd = facts(false, true, "/c", "/c/a.md");
    no_cwd.canonical_cwd = None;
    assert_eq!(validate_document_path("/c/a.md", "/c", no_cwd), Err("resolve working directory /c".to_string()));
    let mut no_path = facts(false, true, "/c", "/c/a.md");
    no_path.canonical_path = None;
    assert_eq!(validate_document_path("/c/a.md", "/c", no_path), Err("resolve /c/a.md".to_string()));
    assert_eq!(validate_document_path("/c/a.md", "/c", facts(false, true, "/c", "/c/x/a.md")), Ok(()));
}

#[test]
fn recent_list_moves_the_path_first() {
    assert_eq!(record_document_candidate(strings(&["/a.md"]), "/b.rs"), None);
    let r = record_document_candidate(strings(&["/a.md", "/b.md", "/c.md"]), "/b.md").unwrap();
    assert_eq!(r, strings(&["/b.md", "/a.md", "/c.md"]));
    let many: Vec<String> = (0..150).map(|i| format!("/d/{i}.md")).collect();
    let r = record_document_candidate(many, "/new.md").unwrap();
    assert_eq!(r.len(), 100);
    assert_eq!(r[0], "/new.md");
    assert_eq!(r[1], "/d/0.md");
}

#[test]
fn candidates_come_once_in_source_order() {
    let recent = strings(&["/w/a.md", "/w/gone.md"]);
    let ok = vec![true, false];
    let git = strings(&["/w//a.md", "/w/b.md"]);
    let cwd = strings(&["/w/b.md", "/w/c.md"]);
    let c = discover_candidates(&recent, &ok, &git, &cwd);
    let got: Vec<(DocumentSource, String)> = c.iter().map(|c| (c.source, c.path.clone())).collect();
    assert_eq!(
        got,
        vec![
            (DocumentSource::Recent, "/w/a.md".to_string()),
            (DocumentSource::Git, "/w/b.md".to_string()),
            (DocumentSource::Cwd, "/w/c.md".to_string()),
        ]
    );
    let many: Vec<String> = (0..100).map(|i| format!("/w/{i}.md")).collect();
    assert_eq!(discover_candidates(&Vec::new(), &Vec::new(), &many, &Vec::new()).len(), 80);
    let entries = document_entries(&c, &vec![true, false, true], "/w");
    assert_eq!(entries.len(), 2);
    assert_eq!(entries[0].display_path, "a.md");
    assert_eq!(entries[0].kind, DocumentKind::Markdown);
    assert_eq!(entries[1].path, "/w/c.md");
    assert_eq!(entries[1].source, DocumentSource::Cwd);
}

#[test]
fn git_status_lines_name_paths() {
    let out = " M docs/a.md\nR  old.md -> new.md\n?? x.txt  \nab\n";
    assert_eq!(git_status_paths(out, "/r"), strings(&["/r/docs/a.md", "/r/new.md", "/r/x.txt"]));
    assert_eq!(git_status_paths("", "/r"), Vec::<String>::new());
    assert_eq!(git_status_paths("MM\u{e9}x.md", "/r"), Vec::<String>::new());
}

#[test]
fn cwd_documents_sorted_once() {
    let found = strings(&["/p/b.md", "/p/a.md", "/p/a.md", "/p/a/x.md"]);
    assert_eq!(finish_cwd_documents(&found), strings(&["/p/a/x.md", "/p/a.md", "/p/b.md"]));
    let many: Vec<String> = (0..90).map(|i| format!("/p/{:03}.md", 89 - i)).collect();
    let r = finish_cwd_documents(&many);
    assert_eq!(r.len(), 80);
    assert_eq!(r[0], "/p/000.md");
    assert_eq!(r[79], "/p/079.md");
}

fn entry(name: &str, path: &str, kind: Option<EntryKind>) -> DirEntryInfo {
    DirEntryInfo { name: name.to_string(), path: path.to_string(), kind }
}

#[test]
fn walk_collects_visible_documents_three_levels_deep() {
    let mut walk = CwdWalk::new();
    walk.start("/w".to_string());
    let mut reads = Vec::new();
    while let Some(dir) = walk.next_dir() {
        reads.push(dir.clone());
        let entries = match dir.as_str() {
            "/w" => vec![
                entry(".git", "/w/.git", Some(EntryKind::Dir)),
                entry("a.md", "/w/a.md", Some(EntryKind::File)),
                entry("link.md", "/w/link.md", Some(EntryKind::Symlink)),
                entry("main.rs", "/w/main.rs", Some(EntryKind::File)),
                entry("d1", "/w/d1", Some(EntryKind::Dir)),
                entry("odd.md", "/w/odd.md", None),
            ],
            "/w/d1" => vec![entry("d2", "/w/d1/d2", Some(EntryKind::Dir)), entry("b.txt", "/w/d1/b.txt", Some(EntryKind::File))],
            "/w/d1/d2" => vec![entry("d3", "/w/d1/d2/d3", Some(EntryKind::Dir)), entry("c.log", "/w/d1/d2/c.log", Some(EntryKind::File))],
            _ => vec![entry("deep.md", "/deep.md", Some(EntryKind::File))],
        };
        walk.provide(Some(entries));
    }
    assert_eq!(reads, strings(&["/w", "/w/d1", "/w/d1/d2"]));
    assert_eq!(walk.found(), &strings(&["/w/a.md", "/w/d1/d2/c.log", "/w/d1/b.txt"]));
}

#[test]
fn walk_stops_at_the_limit() {
    let mut walk = CwdWalk::new();
    walk.start("/w".to_string());
    let dir = walk.next_dir().unwrap();
    assert_eq!(dir, "/w");
    let entries: Vec<DirEntryInfo> = (0..100)
        .map(|i| entry(&format!("{i}.md"), &format!("/w/{i}.md"), Some(EntryKind::File)))
        .collect();
    walk.provide(Some(entries));
    assert_eq!(walk.next_dir(), None);
    assert_eq!(walk.found().len(), 80);
    walk.start("/w/docs".to_string());
    assert_eq!(walk.next_dir(), None);
    let mut unreadable = CwdWalk::new();
    unreadable.start("/x".to_string());
    assert_eq!(unreadable.next_dir(), Some("/x".to_string()));
    unreadable.provide(None);
    assert_eq!(unreadable.next_dir(), None);
    assert!(unreadable.into_found().is_empty());
}

#[test]
fn walk_stops_the_parent_once_a_subdirectory_reaches_the_limit() {
    let mut walk = CwdWalk::new();
    walk.start("/w".to_string());
    let mut reads = Vec::new();
    while let Some(dir) = walk.next_dir() {
        reads.push(dir.clone());
        let entries = match dir.as_str() {
            "/w" => Some(vec![
                entry("d1", "/w/d1", Some(EntryKind::Dir)),
                entry("skip", "/w/skip", Some(EntryKind::Dir)),
                entry("z.md", "/w/z.md", Some(EntryKind::File)),
            ]),
            "/w/d1" => Some(
                (0..85)
                    .map(|i| entry(&format!("{i}.md"), &format!("/w/d1/{i}.md"), Some(EntryKind::File)))
                    .collect(),
            ),
            _ => None,
        };
        walk.provide(entries);
    }
    assert_eq!(reads, strings(&["/w", "/w/d1"]));
    let found = walk.into_found();
    assert_eq!(found.len(), 80);
    assert_eq!(found[79], "/w/d1/79.md");
}

#[test]
fn walk_skips_an_unreadable_subdirectory() {
    let mut walk = CwdWalk::new();
    walk.start("/w".to_string());
    let mut reads = Vec::new();
    while let Some(dir) = walk.next_dir() {
        reads.push(dir.clone());
        let entries = match dir.as_str() {
            "/w" => Some(vec![
                entry("locked", "/w/locked", Some(EntryKind::Dir)),
                entry("notes.TXT", "/w/notes.TXT", Some(EntryKind::File)),
                entry("pipe.md", "/w/pipe.md", Some(EntryKind::Other)),
            ]),
            _ => None,
        };
        walk.provide(entries);
    }
    assert_eq!(reads, strings(&["/w", "/w/locked"]));
    assert_eq!(walk.found(), &strings(&["/w/notes.TXT"]));
}
