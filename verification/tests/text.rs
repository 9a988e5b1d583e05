use document_workbench::model::{DocumentEntry, DocumentKind, DocumentSource};
use document_workbench::preview::{html_preview, markdown_preview, truncate, wrap_line};
use document_workbench::state::DocumentWorkbenchState;

#[test]
fn truncate_marks_the_cut() {
    assert_eq!(truncate("hello", 3), "he...");
    assert_eq!(truncate("hi", 3), "hi");
    assert_eq!(truncate("abc", 3), "ab...");
    assert_eq!(truncate("anything", 0), "");
    assert_eq!(truncate("", 1), "");
    assert_eq!(truncate("x", 1), "...");
    assert_eq!(truncate("\u{e9}\u{e9}\u{e9}", 3), "\u{e9}\u{e9}...");
}

#[test]
fn wrap_line_cuts_at_width_at_least_eight() {
    assert_eq!(wrap_line("", 5), vec![String::new()]);
    assert_eq!(wrap_line("abcdefghij", 3), vec!["abcdefgh".to_string(), "ij".to_string()]);
    assert_eq!(
        wrap_line("abcdefghijklmnopqrst", 10),
        vec!["abcdefghij".to_string(), "klmnopqrst".to_string()]
    );
    let pieces = wrap_line("0123456789abcdefghijklmnop", 9);
    assert_eq!(pieces.concat(), "0123456789abcdefghijklmnop");
    assert!(pieces.iter().all(|p| p.chars().count() <= 9));
}

#[test]
fn html_preview_drops_tags_and_collapses_space() {
    assert_eq!(html_preview("<p>Hello <b>world</b></p>"), "Hello world");
    assert_eq!(html_preview("  a\n\n b  "), "a b");
    assert_eq!(html_preview("x<br>y"), "x y");
    assert_eq!(html_preview("<<a>>"), "");
    assert_eq!(html_preview(""), "");
    assert!(!html_preview("1 < 2 > 0").contains('<'));
}

#[test]
fn markdown_preview_keeps_fenced_code_indented() {
    assert_eq!(markdown_preview("```\n  code\n```\n## Sub\n> quote"), "      code\nSub\nquote\n");
    assert_eq!(markdown_preview("~~~\nx\n"), "    x\n");
    assert_eq!(markdown_preview("# # twice\r\nplain"), "twice\nplain\n");
    assert_eq!(markdown_preview(""), "");
}

fn state_with(text: &str, kind: Option<DocumentKind>) -> DocumentWorkbenchState {
    let mut state = DocumentWorkbenchState::with_saved_width(None);
    state.visible = true;
    state.buffer = text.to_string();
    if let Some(kind) = kind {
        state.documents = vec![DocumentEntry {
            path: "/w/doc".to_string(),
            display_path: "doc".to_string(),
            kind,
            source: DocumentSource::Recent,
        }];
    }
    state
}

#[test]
fn source_lines_number_and_mark_the_cursor() {
    let mut state = state_with("ab\ncd", None);
    state.focused = true;
    state.cursor = 4;
    assert_eq!(state.source_lines(80, 10), vec!["   1 ab".to_string(), "   2 c|d".to_string()]);
    state.focused = false;
    assert_eq!(state.source_lines(80, 1), vec!["   1 ab".to_string()]);
    state.scroll_line = 5;
    assert_eq!(state.source_lines(80, 10), vec!["(empty)".to_string()]);
    let empty = state_with("", None);
    assert_eq!(empty.source_lines(80, 10), vec!["(empty)".to_string()]);
    let narrow = state_with("abcdefgh", None);
    assert_eq!(narrow.source_lines(9, 10), vec!["   1 ab...".to_string()]);
}

#[test]
fn preview_lines_render_and_wrap() {
    let md = state_with("# Title\nbody", Some(DocumentKind::Markdown));
    assert_eq!(md.preview_lines(40, 10), vec!["Title".to_string(), "body".to_string()]);
    assert_eq!(md.preview_lines(40, 1), vec!["Title".to_string()]);
    assert_eq!(md.preview_lines(40, 0), Vec::<String>::new());
    let html = state_with("<h1>Hi</h1>", Some(DocumentKind::Html));
    assert_eq!(html.preview_lines(40, 10), vec!["Hi".to_string()]);
    let text = state_with("0123456789", Some(DocumentKind::Text));
    assert_eq!(text.preview_lines(2, 10), vec!["01234567".to_string(), "89".to_string()]);
    let empty = state_with("", None);
    assert_eq!(empty.preview_lines(40, 10), vec!["(empty preview)".to_string()]);
}

#[test]
fn html_preview_is_normalized_and_stable() {
    let plain = "  two\twords\n and   more ";
    assert_eq!(html_preview(plain), plain.split_whitespace().collect::<Vec<_>>().join(" "));
    for input in ["<p>Hi <b>there</b></p>\n<ul><li>x</li></ul>", plain, "a<b", "x > y"] {
        let once = html_preview(input);
        assert_eq!(once, once.split_whitespace().collect::<Vec<_>>().join(" "));
        assert_eq!(html_preview(&once), once);
    }
}
