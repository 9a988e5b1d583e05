use document_workbench::model::DocumentKind;
use document_workbench::paths::document_kind;
use document_workbench::preview::markdown_preview;

#[test]
fn detects_supported_documents() {
    assert_eq!(document_kind("docs/a.md"), Some(DocumentKind::Markdown));
    assert_eq!(document_kind("docs/a.html"), Some(DocumentKind::Html));
    assert_eq!(document_kind("docs/a.rs"), None);
}

#[test]
fn markdown_preview_strips_heading_marks() {
    let preview = markdown_preview("# Title\n\n- item\n```rs\nfn main() {}\n```");
    assert!(preview.contains("Title"));
    assert!(preview.contains("- item"));
    assert!(preview.contains("fn main()"));
}

use document_workbench::keys::{KeyCode, Modifiers};
use document_workbench::state::{DocumentWorkbenchState, KeyOutcome};

#[test]
fn editor_insert_and_backspace_keep_cursor_valid() {
    let mut state = DocumentWorkbenchState::with_saved_width(None);
    state.visible = true;
    state.focused = true;
    state.insert_text("hello");
    assert_eq!(state.buffer, "hello");
    assert!(state.handle_key(KeyCode::Backspace, Modifiers::none()) != KeyOutcome::Ignored);
    assert_eq!(state.buffer, "hell");
}
