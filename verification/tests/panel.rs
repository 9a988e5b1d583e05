use document_workbench::model::{DocumentEntry, DocumentKind, DocumentSource, WorkbenchHit, WorkbenchView};
use document_workbench::panel::{
    clamp_document_workbench_width, is_document_workbench_event, panel_layout, split_view,
    status_is_warning, HitAction, LOCAL_ONLY,
};
use document_workbench::state::DocumentWorkbenchState;

fn entry(path: &str, shown: &str, source: DocumentSource) -> DocumentEntry {
    DocumentEntry { path: path.to_string(), display_path: shown.to_string(), kind: DocumentKind::Markdown, source }
}

fn state() -> DocumentWorkbenchState {
    let mut s = DocumentWorkbenchState::with_saved_width(None);
    s.visible = true;
    s.documents = vec![entry("/w/a.md", "a.md", DocumentSource::Recent), entry("/w/b.md", "b.md", DocumentSource::Cwd)];
    s
}

#[test]
fn event_name_and_width_clamp() {
    assert!(is_document_workbench_event("kaku-document-workbench"));
    assert!(!is_document_workbench_event("other"));
    assert_eq!(clamp_document_workbench_width(100, 1000), 420);
    assert_eq!(clamp_document_workbench_width(2000, 1000), 1000);
    assert_eq!(clamp_document_workbench_width(600, 1000), 600);
    assert_eq!(clamp_document_workbench_width(600, 300), 300);
}

#[test]
fn status_warnings() {
    assert!(status_is_warning("save failed: x"));
    assert!(status_is_warning("refused"));
    assert!(!status_is_warning("refusing symlinked document"));
    assert!(!status_is_warning("ready"));
}

#[test]
fn layout_of_the_panel() {
    let l = panel_layout(680, 800, 8, 16, 2, true);
    assert_eq!(l.cols, 85);
    assert_eq!(l.rows, 50);
    assert_eq!(l.content_cols, 81);
    assert_eq!(l.max_docs, 9);
    assert_eq!(l.max_content_lines, 50 - (2 + 2 + 1 + 1 + 1 + 2));
    let small = panel_layout(10, 10, 0, 0, 0, false);
    assert_eq!(small.cols, 42);
    assert_eq!(small.rows, 14);
    assert_eq!(small.max_docs, 4);
    assert_eq!(small.max_content_lines, 8);
}

#[test]
fn split_view_pads_the_source_column() {
    let src = vec!["ab".to_string(), "c".to_string()];
    let prev = vec!["x".to_string()];
    assert_eq!(split_view(&src, &prev, 4, 10), vec!["ab   | x".to_string(), "c    | ".to_string()]);
    assert_eq!(split_view(&src, &prev, 1, 1), vec!["ab | x".to_string()]);
}

#[test]
fn rows_and_summary() {
    let mut s = state();
    s.selected = 1;
    s.buffer = "edited".to_string();
    assert_eq!(s.panel_summary(), "2 docs - dirty - terminal focus");
    assert_eq!(
        s.document_rows(9, 40),
        vec![" ".to_string() + "  [MD] a.md (recent)", ">* [MD] b.md (cwd)".to_string()]
    );
    assert_eq!(s.document_rows(1, 40).len(), 1);
    assert_eq!(s.current_title(40), Some("b.md".to_string()));
    s.status = "a long status".to_string();
    assert_eq!(s.status_line(5), "a lo...");
}

#[test]
fn content_lines_follow_the_view() {
    let mut s = state();
    s.buffer = "x".to_string();
    s.view = WorkbenchView::Source;
    assert_eq!(s.content_lines(40, 5), vec!["   1 x".to_string()]);
    s.view = WorkbenchView::Preview;
    assert_eq!(s.content_lines(40, 5), vec!["x".to_string()]);
    s.view = WorkbenchView::Split;
    assert_eq!(s.content_lines(20, 5), vec!["   1 x     | x".to_string()]);
}

#[test]
fn clicks_on_the_panel() {
    let mut s = state();
    assert!(matches!(s.handle_hit(WorkbenchHit::Save, false, None), HitAction::Nothing));
    assert!(!s.focused);
    assert!(matches!(s.handle_hit(WorkbenchHit::Save, true, None), HitAction::Save));
    assert!(s.focused);
    match s.handle_hit(WorkbenchHit::CopyPath, true, None) {
        HitAction::CopyToClipboard(t) => assert_eq!(t, "/w/a.md"),
        _ => panic!("expected a copy"),
    }
    assert_eq!(s.status, "copied /w/a.md");
    assert!(matches!(s.handle_hit(WorkbenchHit::SelectDocument(1), true, Some("/w".to_string())), HitAction::Load(d) if d == "/w"));
    assert_eq!(s.selected, 1);
    assert!(matches!(s.handle_hit(WorkbenchHit::SelectDocument(7), true, Some("/w".to_string())), HitAction::Nothing));
    assert!(matches!(s.handle_hit(WorkbenchHit::View(WorkbenchView::Preview), true, None), HitAction::Nothing));
    assert_eq!(s.view, WorkbenchView::Preview);
    match s.handle_hit(WorkbenchHit::Reload, true, Some("/w".to_string())) {
        HitAction::Refresh(c) => assert_eq!(c, "/w"),
        _ => panic!("expected a refresh"),
    }
    assert!(matches!(s.handle_hit(WorkbenchHit::Reload, true, None), HitAction::Nothing));
    assert_eq!(s.status, LOCAL_ONLY);
    assert!(s.documents.is_empty());
    assert!(matches!(s.handle_hit(WorkbenchHit::Close, true, None), HitAction::Nothing));
    assert!(!s.visible);
    assert!(matches!(s.handle_hit(WorkbenchHit::ResizeHandle, true, None), HitAction::StartResize));
}

#[test]
fn toggle_blur_and_resize() {
    let mut s = DocumentWorkbenchState::with_saved_width(None);
    assert_eq!(s.toggle_for_pane(Some("/w".to_string())), Some("/w".to_string()));
    assert!(s.visible);
    assert_eq!(s.toggle_for_pane(Some("/w".to_string())), None);
    assert!(!s.visible);
    assert_eq!(s.toggle_for_pane(None), None);
    assert!(s.visible);
    assert_eq!(s.status, LOCAL_ONLY);
    s.focused = true;
    assert!(s.blur());
    assert!(!s.blur());
    s.resize_to(300, 1000, 580);
    assert_eq!(s.width_px, 580);
    s.resize_to(-5, 500, 580);
    assert_eq!(s.width_px, 500);
    s.resize_to(900, 1000, 580);
    assert_eq!(s.width_px, 420);
}
