use document_workbench::cursor::{line_end, line_start, next_boundary, previous_boundary};
use document_workbench::keys::{edit_action, EditAction, KeyCode, Modifiers};
use document_workbench::model::{DocumentEntry, DocumentKind, DocumentSource, WorkbenchView};
use document_workbench::state::{DocumentWorkbenchState, KeyOutcome, LoadOutcome, SaveOutcome};

fn focused(text: &str, cursor: usize) -> DocumentWorkbenchState {
    let mut state = DocumentWorkbenchState::with_saved_width(None);
    state.visible = true;
    state.focused = true;
    state.buffer = text.to_string();
    state.cursor = cursor;
    state
}

fn ctrl() -> Modifiers {
    Modifiers { ctrl: true, ..Modifiers::none() }
}

fn entry(path: &str, kind: DocumentKind) -> DocumentEntry {
    DocumentEntry {
        path: path.to_string(),
        display_path: path.to_string(),
        kind,
        source: DocumentSource::Cwd,
    }
}

#[test]
fn new_state_defaults() {
    let state = DocumentWorkbenchState::with_saved_width(None);
    assert_eq!(state.width_px, 680);
    assert_eq!(state.view, WorkbenchView::Split);
    assert_eq!(state.status, "ready");
    assert!(!state.visible);
    let saved = DocumentWorkbenchState::with_saved_width(Some(900));
    assert_eq!(saved.width_px, 900);
}

#[test]
fn boundaries_step_over_multibyte_chars() {
    let s = "a\u{e9}\u{1F600}b";
    assert_eq!(s.len(), 8);
    assert_eq!(previous_boundary(s, 3), 1);
    assert_eq!(previous_boundary(s, 4), 3);
    assert_eq!(previous_boundary(s, 0), 0);
    assert_eq!(previous_boundary(s, 100), 7);
    assert_eq!(next_boundary(s, 1), 3);
    assert_eq!(next_boundary(s, 4), 7);
    assert_eq!(next_boundary(s, 7), 8);
    assert_eq!(next_boundary(s, 8), 8);
    assert_eq!(next_boundary("", 0), 0);
}

#[test]
fn line_start_and_end() {
    let s = "ab\ncd";
    assert_eq!(line_start(s, 4), 3);
    assert_eq!(line_start(s, 2), 0);
    assert_eq!(line_start(s, 3), 3);
    assert_eq!(line_start(s, 99), 3);
    assert_eq!(line_end(s, 1), 2);
    assert_eq!(line_end(s, 4), 5);
    assert_eq!(line_end(s, 99), 5);
}

#[test]
fn insert_moves_back_to_a_char_boundary() {
    let mut state = focused("\u{e9}", 1);
    state.insert_text("x");
    assert_eq!(state.buffer, "x\u{e9}");
    assert_eq!(state.cursor, 1);
    let mut end = focused("ab", 50);
    end.insert_text("\u{e9}");
    assert_eq!(end.buffer, "ab\u{e9}");
    assert_eq!(end.cursor, 4);
}

#[test]
fn arrows_home_end_and_delete() {
    let mut state = focused("a\u{e9}c\nxy", 1);
    assert_eq!(state.handle_key(KeyCode::RightArrow, Modifiers::none()), KeyOutcome::Handled);
    assert_eq!(state.cursor, 3);
    state.handle_key(KeyCode::LeftArrow, Modifiers::none());
    assert_eq!(state.cursor, 1);
    state.handle_key(KeyCode::End, Modifiers::none());
    assert_eq!(state.cursor, 4);
    state.handle_key(KeyCode::Char('a'), ctrl());
    assert_eq!(state.cursor, 0);
    state.handle_key(KeyCode::Delete, Modifiers::none());
    assert_eq!(state.buffer, "\u{e9}c\nxy");
    assert_eq!(state.cursor, 0);
    state.handle_key(KeyCode::Backspace, Modifiers::none());
    assert_eq!(state.buffer, "\u{e9}c\nxy");
    state.handle_key(KeyCode::Char('e'), ctrl());
    assert_eq!(state.cursor, 3);
}

#[test]
fn typing_then_backspace_restores_the_text() {
    let mut state = focused("ab", 1);
    state.handle_key(KeyCode::Char('\u{1F600}'), Modifiers::none());
    assert_eq!(state.buffer, "a\u{1F600}b");
    assert_eq!(state.cursor, 5);
    state.handle_key(KeyCode::Backspace, Modifiers::none());
    assert_eq!(state.buffer, "ab");
    assert_eq!(state.cursor, 1);
    state.handle_key(KeyCode::Enter, Modifiers::none());
    assert_eq!(state.buffer, "a\nb");
}

#[test]
fn vertical_moves_keep_the_column() {
    let mut state = focused("abc\nde\nfghij", 2);
    state.handle_key(KeyCode::DownArrow, Modifiers::none());
    assert_eq!(state.cursor, 6);
    state.handle_key(KeyCode::DownArrow, Modifiers::none());
    assert_eq!(state.cursor, 9);
    state.handle_key(KeyCode::DownArrow, Modifiers::none());
    assert_eq!(state.cursor, 9);
    state.handle_key(KeyCode::UpArrow, Modifiers::none());
    assert_eq!(state.cursor, 6);
    state.handle_key(KeyCode::UpArrow, Modifiers::none());
    assert_eq!(state.cursor, 2);
    state.move_cursor_vertical(-5);
    assert_eq!(state.cursor, 2);
}

#[test]
fn keys_when_hidden_or_unfocused_are_ignored() {
    let mut state = focused("ab", 0);
    state.focused = false;
    assert_eq!(state.handle_key(KeyCode::Char('x'), Modifiers::none()), KeyOutcome::Ignored);
    assert_eq!(state.buffer, "ab");
}

#[test]
fn key_bindings() {
    let none = Modifiers::none();
    let alt = Modifiers { alt: true, ..none };
    let sup = Modifiers { super_key: true, ..none };
    assert_eq!(edit_action(KeyCode::Char('s'), ctrl()), EditAction::Save);
    assert_eq!(edit_action(KeyCode::Char('s'), sup), EditAction::Save);
    assert_eq!(edit_action(KeyCode::Char('r'), ctrl()), EditAction::Reload);
    assert_eq!(edit_action(KeyCode::Char('a'), sup), EditAction::Nothing);
    assert_eq!(edit_action(KeyCode::Char('x'), alt), EditAction::Nothing);
    assert_eq!(edit_action(KeyCode::Char('x'), none), EditAction::Insert('x'));
    assert_eq!(edit_action(KeyCode::Escape, ctrl()), EditAction::Nothing);
    assert_eq!(edit_action(KeyCode::Enter, none), EditAction::Insert('\n'));
    assert_eq!(edit_action(KeyCode::Other, none), EditAction::Nothing);
}

#[test]
fn escape_tab_and_paging() {
    let mut state = focused("", 0);
    state.handle_key(KeyCode::Tab, Modifiers::none());
    assert_eq!(state.view, WorkbenchView::Source);
    state.handle_key(KeyCode::PageDown, Modifiers::none());
    assert_eq!(state.scroll_line, 10);
    state.handle_key(KeyCode::PageUp, Modifiers::none());
    state.handle_key(KeyCode::PageUp, Modifiers::none());
    assert_eq!(state.scroll_line, 0);
    assert_eq!(state.handle_key(KeyCode::Escape, Modifiers::none()), KeyOutcome::Handled);
    assert!(!state.focused);
    assert_eq!(state.status, "terminal focus restored");
}

#[test]
fn save_and_reload_keys() {
    let mut state = focused("x", 0);
    assert_eq!(state.handle_key(KeyCode::Char('s'), ctrl()), KeyOutcome::Save);
    assert_eq!(state.handle_key(KeyCode::Char('r'), ctrl()), KeyOutcome::Handled);
    assert_eq!(state.status, "local file pane required");
    state.cwd = Some("/w".to_string());
    assert_eq!(state.handle_key(KeyCode::Char('r'), ctrl()), KeyOutcome::Reload);
    assert_eq!(state.status, "reloaded from disk");
}

#[test]
fn view_cycle_returns_after_three_steps() {
    let v = WorkbenchView::Preview;
    assert_eq!(v.next().next().next(), v);
    assert_eq!(WorkbenchView::Split.next(), WorkbenchView::Source);
    assert_eq!(WorkbenchView::Source.label(), "Source");
    assert_eq!(DocumentKind::Html.label(), "HTML");
    assert_eq!(DocumentSource::Git.label(), "dirty");
}

#[test]
fn loading_saving_and_discarding() {
    let mut state = focused("", 0);
    assert_eq!(state.load_selected(), None);
    assert_eq!(state.status, "no documents found");
    state.documents = vec![entry("/w/a.md", DocumentKind::Markdown)];
    assert_eq!(state.load_selected(), Some("/w/a.md".to_string()));
    state.finish_load("/w/a.md", LoadOutcome::Read("# A".to_string()));
    assert_eq!(state.buffer, "# A");
    assert_eq!(state.status, "loaded /w/a.md");
    assert!(!state.is_dirty());
    state.insert_text("!");
    assert!(state.is_dirty());
    state.discard();
    assert!(!state.is_dirty());
    assert_eq!(state.status, "discarded local edits");
    assert_eq!(state.begin_save(), None);
    assert_eq!(state.status, "local file pane required");
    state.cwd = Some("/w".to_string());
    assert_eq!(state.begin_save(), Some(("/w/a.md".to_string(), "/w".to_string())));
    state.insert_text("?");
    let buffer = state.buffer.clone();
    assert_eq!(state.validated_save(Err("not a file: /w/a.md".to_string())), None);
    assert_eq!(state.status, "not a file: /w/a.md");
    assert_eq!(state.buffer, buffer);
    assert!(state.is_dirty());
    assert_eq!(state.validated_save(Ok(())), Some(buffer.clone()));
    assert!(!state.finish_save("/w/a.md", SaveOutcome::WriteFailed("disk full".to_string())));
    assert_eq!(state.status, "save failed: disk full");
    assert!(state.is_dirty());
    assert!(state.finish_save("/w/a.md", SaveOutcome::Written));
    assert_eq!(state.status, "saved /w/a.md");
    assert!(!state.is_dirty());
    let before = state.buffer.clone();
    assert!(!state.validated_load(Err("refusing symlinked document /w/a.md".to_string())));
    assert_eq!(state.status, "refusing symlinked document /w/a.md");
    assert_eq!(state.buffer, before);
    assert!(state.validated_load(Ok(())));
    state.finish_load("/w/a.md", LoadOutcome::ReadFailed("gone".to_string()));
    assert_eq!(state.buffer, "");
    assert_eq!(state.status, "read failed: gone");
}

#[test]
fn discard_keeps_cursor_inside() {
    let mut state = focused("longer text", 11);
    state.discard();
    assert_eq!(state.buffer, "");
    assert_eq!(state.cursor, 0);
}

#[test]
fn refresh_keeps_the_selected_path() {
    let mut state = focused("", 0);
    state.documents = vec![entry("/w/a.md", DocumentKind::Markdown), entry("/w/b.md", DocumentKind::Markdown)];
    state.selected = 1;
    let docs = vec![
        entry("/w/c.md", DocumentKind::Markdown),
        entry("/w//b.md", DocumentKind::Markdown),
    ];
    assert!(state.refresh("/w".to_string(), Ok(docs)));
    assert_eq!(state.selected, 1);
    assert!(state.refresh("/w".to_string(), Ok(vec![entry("/w/z.txt", DocumentKind::Text)])));
    assert_eq!(state.selected, 0);
    assert!(!state.refresh("/w".to_string(), Err("resolve working directory /w".to_string())));
    assert_eq!(state.status, "refresh failed: resolve working directory /w");
    assert!(state.refresh("/w".to_string(), Ok(Vec::new())));
    assert_eq!(state.selected, 0);
}

#[test]
fn copy_and_open_external() {
    let mut state = focused("", 0);
    state.copy_path();
    assert_eq!(state.status, "no path selected");
    assert_eq!(state.begin_open_external(), None);
    assert_eq!(state.status, "no path selected");
    state.documents = vec![entry("/w/a b.md", DocumentKind::Markdown)];
    state.copy_path();
    assert_eq!(state.status, "copied /w/a b.md");
    let url = state.finish_open_external("/w/a b.md", Ok(()));
    assert_eq!(url, Some("file:///w/a%20b.md".to_string()));
    assert_eq!(state.status, "opened /w/a b.md");
    assert_eq!(state.finish_open_external("rel/a.md", Ok(())), None);
    assert_eq!(state.status, "cannot open rel/a.md");
    assert_eq!(state.finish_open_external("/w/a.md", Err("not a file: /w/a.md".to_string())), None);
    assert_eq!(state.status, "not a file: /w/a.md");
}

#[test]
fn toggle_and_show_unavailable() {
    let mut state = DocumentWorkbenchState::with_saved_width(None);
    assert!(state.toggle());
    assert!(state.visible);
    assert!(!state.toggle());
    assert!(!state.visible);
    state.buffer = "x".to_string();
    state.show_unavailable("no local pane".to_string());
    assert!(state.visible);
    assert_eq!(state.buffer, "");
    assert_eq!(state.status, "no local pane");
    assert!(state.select(3) == false);
}

#[test]
fn keys_with_the_cursor_past_the_end() {
    let none = Modifiers::none();
    let mut state = focused("ab\ncd", 99);
    state.handle_key(KeyCode::End, none);
    assert_eq!(state.cursor, 5);
    let mut state = focused("ab\ncd", 99);
    state.handle_key(KeyCode::Home, none);
    assert_eq!(state.cursor, 3);
    let mut state = focused("ab\ncd", 99);
    state.handle_key(KeyCode::Delete, none);
    assert_eq!((state.buffer.as_str(), state.cursor), ("ab\ncd", 99));
    let mut state = focused("ab\ncd", 99);
    state.handle_key(KeyCode::UpArrow, none);
    assert_eq!(state.cursor, 2);
    let mut state = focused("ab\ncd", 99);
    state.handle_key(KeyCode::DownArrow, none);
    assert_eq!(state.cursor, 4);
}
