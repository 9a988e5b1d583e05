use vstd::prelude::*;
use crate::model::{DocumentEntry, DocumentKind, DocumentSource, WorkbenchHit, WorkbenchView};
use crate::paths::join_spec;
use crate::preview::{decimal, decimal_chars, extend_chars, first_match, find_from, truncate_chars, truncate_spec};
use crate::state::{concat, DocumentWorkbenchState};
use crate::text::{blen, chars_of, string_of};
use crate::paths::join;

verus! {

/// Name of the event that toggles the workbench.
pub const EVENT_NAME: &'static str = "kaku-document-workbench";

/// The panel is never narrower than this (unless the window is).
pub const PANEL_MIN_WIDTH: usize = 420;

/// Status shown when the pane has no local working directory.
pub const LOCAL_ONLY: &'static str = "Document Workbench supports local file panes only";

/// Whether an event name is the workbench's.
pub fn is_document_workbench_event(name: &str) -> (r: bool)
    ensures
        r == (name@ == EVENT_NAME@),
{
    let a = chars_of(name);
    let b = chars_of(EVENT_NAME);
    crate::paths::chars_equal(&a, &b)
}

pub open spec fn clamp_spec(desired: int, max: int) -> int {
    let lo = if PANEL_MIN_WIDTH < max { PANEL_MIN_WIDTH as int } else { max };
    if desired < lo {
        lo
    } else if desired > max {
        max
    } else {
        desired
    }
}

/// The panel width for a wished-for width, given the widest allowed (`max`): kept within
/// `min(PANEL_MIN_WIDTH, max)` and `max`.
pub fn clamp_document_workbench_width(desired: usize, max: usize) -> (r: usize)
    ensures
        r == clamp_spec(desired as int, max as int),
        r <= max,
        r >= desired || r == max,
{
    let lo = if PANEL_MIN_WIDTH < max {
        PANEL_MIN_WIDTH
    } else {
        max
    };
    if desired < lo {
        lo
    } else if desired > max {
        max
    } else {
        desired
    }
}

/// Directory holding the workbench's files, under the application's data directory.
pub fn document_workbench_dir(data_dir: &str) -> (r: String)
    ensures
        r@ == join_spec(data_dir@, "document-workbench"@),
{
    join(data_dir, "document-workbench")
}

/// File listing the recent documents.
pub fn recent_documents_file(data_dir: &str) -> (r: String)
    ensures
        r@ == join_spec(join_spec(data_dir@, "document-workbench"@), "recent-documents.json"@),
{
    let dir = document_workbench_dir(data_dir);
    join(dir.as_str(), "recent-documents.json")
}

/// File holding the workbench settings.
pub fn settings_file(data_dir: &str) -> (r: String)
    ensures
        r@ == join_spec(join_spec(data_dir@, "document-workbench"@), "state.json"@),
{
    let dir = document_workbench_dir(data_dir);
    join(dir.as_str(), "state.json")
}

/// `pat` occurs in `s`.
pub open spec fn contains(s: Seq<char>, pat: Seq<char>) -> bool {
    first_match(s, pat) is Some
}

/// A status is shown as a warning when it tells of a failure or a refusal.
pub fn status_is_warning(status: &str) -> (r: bool)
    ensures
        r == (contains(status@, "failed"@) || contains(status@, "refused"@)),
{
    let v = chars_of(status);
    let failed = chars_of("failed");
    let refused = chars_of("refused");
    assert(v@.skip(0) =~= v@);
    find_from(&v, 0, &failed).is_some() || find_from(&v, 0, &refused).is_some()
}

/// `s` left-aligned in a field of `w` chars (`{:<w}`).
pub open spec fn pad_right(s: Seq<char>, w: nat) -> Seq<char> {
    if s.len() < w {
        s + Seq::new((w - s.len()) as nat, |i: int| ' ')
    } else {
        s
    }
}

/// The split view: source and preview rows side by side, the source column padded to
/// `left_cols`, a ` | ` between them, as many rows as the longer side has (at most `max`).
pub open spec fn split_rows(src: Seq<Seq<char>>, prev: Seq<Seq<char>>, left_cols: nat, max: nat) -> Seq<Seq<char>> {
    let n = if src.len() > prev.len() { src.len() } else { prev.len() };
    let count = if n < max { n } else { max };
    Seq::new(count, |i: int| pad_right(
        if i < src.len() { src[i] } else { Seq::empty() },
        left_cols,
    ) + seq![' ', '|', ' '] + if i < prev.len() { prev[i] } else { Seq::empty() })
}

/// Joins source and preview rows for the split view.
pub fn split_view(src: &Vec<String>, prev: &Vec<String>, left_cols: usize, max: usize) -> (r: Vec<String>)
    ensures
        r.deep_view() == split_rows(src.deep_view(), prev.deep_view(), left_cols as nat, max as nat),
{
    let n = if src.len() > prev.len() {
        src.len()
    } else {
        prev.len()
    };
    let count = if n < max {
        n
    } else {
        max
    };
    let ghost rows = split_rows(src.deep_view(), prev.deep_view(), left_cols as nat, max as nat);
    let mut out: Vec<String> = Vec::new();
    let mut i: usize = 0;
    while i < count
        invariant
            i <= count,
            count == rows.len(),
            rows == split_rows(src.deep_view(), prev.deep_view(), left_cols as nat, max as nat),
            out.deep_view() == rows.take(i as int),
        decreases count - i,
    {
        let mut line: Vec<char> = if i < src.len() {
            chars_of(src[i].as_str())
        } else {
            Vec::new()
        };
        let ghost left = line@;
        if line.len() < left_cols {
            let pad = left_cols - line.len();
            let mut j: usize = 0;
            while j < pad
                invariant
                    j <= pad,
                    line@ == left + Seq::new(j as nat, |q: int| ' '),
                decreases pad - j,
            {
                line.push(' ');
                j = j + 1;
                assert(line@ =~= left + Seq::new(j as nat, |q: int| ' '));
            }
        }
        line.push(' ');
        line.push('|');
        line.push(' ');
        if i < prev.len() {
            let right = chars_of(prev[i].as_str());
            extend_chars(&mut line, &right);
        }
        let ghost before = out.deep_view();
        out.push(string_of(&line));
        proof {
            assert(out.deep_view() =~= before.push(line@));
            assert(line@ =~= rows[i as int]);
            assert(rows.take(i + 1) =~= rows.take(i as int).push(rows[i as int]));
        }
        i = i + 1;
    }
    assert(rows.take(i as int) =~= rows);
    out
}


/// Sizes of the panel in cells, for a panel of the given pixel size.
pub struct PanelLayout {
    pub cols: usize,
    pub rows: usize,
    pub content_cols: usize,
    pub max_docs: usize,
    pub max_content_lines: usize,
}

pub open spec fn sat_sub(a: int, b: int) -> int {
    if a > b { a - b } else { 0 }
}

/// Layout of the panel: at least 42 columns and 14 rows of cells; 4 columns of padding;
/// a quarter of the rows (4 to 9) for the document list; the rest, at least 5, for content,
/// after the two header rows, the listed documents, the separator, the document title
/// (when one is selected), the view tabs and 2 more.
pub fn panel_layout(
    width_px: usize,
    height_px: usize,
    cell_width: usize,
    cell_height: usize,
    doc_count: usize,
    has_current: bool,
) -> (r: PanelLayout)
    ensures
        ({
            let cw: int = if cell_width >= 1 { cell_width as int } else { 1 };
            let chh: int = if cell_height >= 1 { cell_height as int } else { 1 };
            let cols: int = vstd::math::max(width_px as int / cw, 42);
            let rows: int = vstd::math::max(height_px as int / chh, 14);
            let max_docs: int = vstd::math::min(vstd::math::max(rows / 4, 4), 9);
            let shown: int = vstd::math::min(doc_count as int, max_docs);
            let used: int = 2 + shown + 1 + (if has_current { 1int } else { 0 }) + 1 + 2;
            &&& r.cols == cols
            &&& r.rows == rows
            &&& r.content_cols == sat_sub(cols, 4)
            &&& r.max_docs == max_docs
            &&& r.max_content_lines == vstd::math::max(sat_sub(rows, used), 5)
        }),
{
    let cw = if cell_width >= 1 {
        cell_width
    } else {
        1
    };
    let chh = if cell_height >= 1 {
        cell_height
    } else {
        1
    };
    let cols = if width_px / cw > 42 {
        width_px / cw
    } else {
        42
    };
    let rows = if height_px / chh > 14 {
        height_px / chh
    } else {
        14
    };
    let content_cols = if cols > 4 {
        cols - 4
    } else {
        0
    };
    let quarter = rows / 4;
    let max_docs = if quarter < 4 {
        4
    } else if quarter > 9 {
        9
    } else {
        quarter
    };
    let shown = if doc_count < max_docs {
        doc_count
    } else {
        max_docs
    };
    let used = 2 + shown + 1 + (if has_current {
        1
    } else {
        0
    }) + 1 + 2;
    let left = if rows > used {
        rows - used
    } else {
        0
    };
    let max_content_lines = if left > 5 {
        left
    } else {
        5
    };
    PanelLayout { cols, rows, content_cols, max_docs, max_content_lines }
}

/// What the caller does after a click on the panel.
pub enum HitAction {
    Nothing,
    /// Start dragging the panel's edge.
    StartResize,
    /// Put this text on the clipboard.
    CopyToClipboard(String),
    /// Open the selected document outside (see `begin_open_external`).
    OpenExternal,
    /// Save the selected document (see `begin_save`).
    Save,
    /// Find the documents of this working directory again (then `refresh`).
    Refresh(String),
    /// Load the selected document, validated against this working directory (see
    /// `load_selected`).
    Load(String),
}

pub open spec fn row_text(selected: bool, dirty: bool, d: DocumentEntry, content_cols: nat) -> Seq<char> {
    (if selected { ">"@ } else { " "@ }) + (if selected && dirty { "*"@ } else { " "@ }) + " ["@
        + d.kind.label_spec() + "] "@ + truncate_spec(d.display_path@, sat_sub(content_cols as int, 14) as nat)
        + " ("@ + d.source.label_spec() + ")"@
}

/// Appends the chars of `s` to `out`.
fn push_str(out: &mut Vec<char>, s: &str)
    ensures
        final(out)@ == old(out)@ + s@,
{
    let v = chars_of(s);
    extend_chars(out, &v);
}

impl DocumentWorkbenchState {
    /// The summary row: document count, whether the buffer has unsaved edits, and where the
    /// keyboard focus is.
    pub fn panel_summary(&self) -> (r: String)
        ensures
            r@ == decimal(self.documents@.len() as nat) + " docs - "@ + (if self.buffer@ != self.original@ {
                "dirty"@
            } else {
                "saved"@
            }) + " - "@ + (if self.focused { "focused"@ } else { "terminal focus"@ }),
    {
        let mut out = decimal_chars(self.documents.len());
        push_str(&mut out, " docs - ");
        if self.is_dirty() {
            push_str(&mut out, "dirty");
        } else {
            push_str(&mut out, "saved");
        }
        push_str(&mut out, " - ");
        if self.focused {
            push_str(&mut out, "focused");
        } else {
            push_str(&mut out, "terminal focus");
        }
        string_of(&out)
    }

    /// The rows of the document list: the first `max_docs` documents, the selected one marked
    /// with `>` (and `*` when it has unsaved edits), each with its kind, its shown path cut to
    /// fit, and where it was found.
    pub fn document_rows(&self, max_docs: usize, content_cols: usize) -> (r: Vec<String>)
        ensures
            r.deep_view() == Seq::new(
                vstd::math::min(self.documents@.len() as int, max_docs as int) as nat,
                |i: int| row_text(i == self.selected, self.buffer@ != self.original@, self.documents@[i], content_cols as nat),
            ),
    {
        let dirty = self.is_dirty();
        let n = if self.documents.len() < max_docs {
            self.documents.len()
        } else {
            max_docs
        };
        let ghost rows = Seq::new(
            n as nat,
            |i: int| row_text(i == self.selected, self.buffer@ != self.original@, self.documents@[i], content_cols as nat),
        );
        let cut = if content_cols > 14 {
            content_cols - 14
        } else {
            0
        };
        let mut out: Vec<String> = Vec::new();
        let mut i: usize = 0;
        while i < n
            invariant
                i <= n,
                n <= self.documents@.len(),
                dirty == (self.buffer@ != self.original@),
                cut == sat_sub(content_cols as int, 14),
                rows == Seq::new(
                    n as nat,
                    |i: int| row_text(i == self.selected, self.buffer@ != self.original@, self.documents@[i], content_cols as nat),
                ),
                out.deep_view() == rows.take(i as int),
            decreases n - i,
        {
            let d = &self.documents[i];
            let selected = i == self.selected;
            let mut line: Vec<char> = Vec::new();
            push_str(&mut line, if selected { ">" } else { " " });
            push_str(&mut line, if selected && dirty { "*" } else { " " });
            push_str(&mut line, " [");
            push_str(&mut line, d.kind.label());
            push_str(&mut line, "] ");
            let shown = chars_of(d.display_path.as_str());
            let t = truncate_chars(&shown, cut);
            extend_chars(&mut line, &t);
            push_str(&mut line, " (");
            push_str(&mut line, d.source.label());
            push_str(&mut line, ")");
            let ghost before = out.deep_view();
            out.push(string_of(&line));
            proof {
                assert(out.deep_view() =~= before.push(line@));
                assert(line@ =~= rows[i as int]);
                assert(rows.take(i + 1) =~= rows.take(i as int).push(rows[i as int]));
            }
            i = i + 1;
        }
        assert(rows.take(i as int) =~= rows);
        out
    }

    /// Title row of the selected document: its shown path cut to fit.
    pub fn current_title(&self, content_cols: usize) -> (r: Option<String>)
        ensures
            match self.current_spec() {
                Some(d) => r matches Some(t) && t@ == truncate_spec(d.display_path@, sat_sub(content_cols as int, 18) as nat),
                None => r is None,
            },
    {
        match self.current() {
            Some(d) => {
                let cut = if content_cols > 18 {
                    content_cols - 18
                } else {
                    0
                };
                Some(crate::preview::truncate(d.display_path.as_str(), cut))
            },
            None => None,
        }
    }

    /// The status row, cut to fit.
    pub fn status_line(&self, content_cols: usize) -> (r: String)
        ensures
            r@ == truncate_spec(self.status@, content_cols as nat),
    {
        crate::preview::truncate(self.status.as_str(), content_cols)
    }

    /// The content rows for the current view; the split view gives half the columns to
    /// the source and the rest, less 3, to the preview.
    pub fn content_lines(&self, content_cols: usize, max_lines: usize) -> (r: Vec<String>)
        requires
            crate::text::is_boundary(self.buffer@, vstd::math::min(self.cursor as int, crate::text::blen(self.buffer@))),
        ensures
            r.deep_view() == match self.view {
                WorkbenchView::Source => self.source_view(content_cols as nat, max_lines as nat),
                WorkbenchView::Preview => self.preview_view(content_cols as nat, max_lines as nat),
                WorkbenchView::Split => {
                    let left = content_cols / 2;
                    let right = sat_sub(content_cols as int, left + 3) as nat;
                    split_rows(
                        self.source_view(left as nat, max_lines as nat),
                        self.preview_view(right, max_lines as nat),
                        left as nat,
                        max_lines as nat,
                    )
                },
            },
    {
        match self.view {
            WorkbenchView::Source => self.source_lines(content_cols, max_lines),
            WorkbenchView::Preview => self.preview_lines(content_cols, max_lines),
            WorkbenchView::Split => {
                let left = content_cols / 2;
                let right = if content_cols > left + 3 {
                    content_cols - (left + 3)
                } else {
                    0
                };
                let src = self.source_lines(left, max_lines);
                let prev = self.preview_lines(right, max_lines);
                split_view(&src, &prev, left, max_lines)
            },
        }
    }

    /// Shows or hides the panel for a pane: a pane without a local working directory gets
    /// the panel with a note instead. Returns the directory to find documents in when the
    /// panel was just shown.
    pub fn toggle_for_pane(&mut self, cwd: Option<String>) -> (refresh: Option<String>)
        ensures
            match cwd {
                Some(c) => {
                    &&& *final(self) == (DocumentWorkbenchState { visible: !old(self).visible, focused: false, ..*old(self) })
                    &&& (refresh is Some <==> !old(self).visible)
                    &&& refresh matches Some(d) ==> d@ == c@
                },
                None => refresh is None && DocumentWorkbenchState::emptied_for(old(self), final(self), LOCAL_ONLY@),
            },
    {
        match cwd {
            Some(c) => {
                if self.toggle() {
                    Some(c)
                } else {
                    None
                }
            },
            None => {
                self.show_unavailable(LOCAL_ONLY.to_owned());
                None
            },
        }
    }

    /// Gives the keyboard back to the terminal; returns whether the panel had it.
    pub fn blur(&mut self) -> (changed: bool)
        ensures
            changed == old(self).focused,
            *final(self) == (DocumentWorkbenchState { focused: false, ..*old(self) }),
    {
        if self.focused {
            self.focused = false;
            true
        } else {
            false
        }
    }

    /// Resizes the panel to reach from the pointer to the window's right edge, kept within
    /// the allowed widths.
    pub fn resize_to(&mut self, pointer_x: isize, window_width: usize, max_width: usize)
        ensures
            final(self).width_px == clamp_spec(
                sat_sub(window_width as int, if pointer_x > 0 { pointer_x as int } else { 0 }),
                max_width as int,
            ),
            *final(self) == (DocumentWorkbenchState { width_px: final(self).width_px, ..*old(self) }),
    {
        let left: usize = if pointer_x > 0 {
            pointer_x as usize
        } else {
            0
        };
        let desired = if window_width > left {
            window_width - left
        } else {
            0
        };
        self.width_px = clamp_document_workbench_width(desired, max_width);
    }

    /// Handles a click on the panel (only a left press acts): focuses the panel, then acts on
    /// what was hit. `pane_cwd` is the pane's local working directory, if it has one.
    pub fn handle_hit(&mut self, hit: WorkbenchHit, left_press: bool, pane_cwd: Option<String>) -> (r: HitAction)
        ensures
            !left_press ==> r is Nothing && *final(self) == *old(self),
            left_press ==> match hit {
                WorkbenchHit::Panel | WorkbenchHit::Editor => r is Nothing && *final(self) == (DocumentWorkbenchState {
                    focused: true,
                    ..*old(self)
                }),
                WorkbenchHit::ResizeHandle => r is StartResize && *final(self) == (DocumentWorkbenchState {
                    focused: true,
                    ..*old(self)
                }),
                WorkbenchHit::Close => r is Nothing && *final(self) == (DocumentWorkbenchState {
                    visible: false,
                    focused: false,
                    ..*old(self)
                }),
                WorkbenchHit::CopyPath => {
                    &&& *final(self) == (DocumentWorkbenchState {
                        focused: true,
                        status: final(self).status,
                        ..*old(self)
                    })
                    &&& match old(self).current_path_spec() {
                        Some(p) => r matches HitAction::CopyToClipboard(t) && t@ == p && final(self).status@ == "copied "@ + p,
                        None => r is Nothing && final(self).status@ == "no path selected"@,
                    }
                },
                WorkbenchHit::OpenExternal => r is OpenExternal && *final(self) == (DocumentWorkbenchState {
                    focused: true,
                    ..*old(self)
                }),
                WorkbenchHit::Save => r is Save && *final(self) == (DocumentWorkbenchState {
                    focused: true,
                    ..*old(self)
                }),
                WorkbenchHit::Discard => {
                    &&& r is Nothing
                    &&& *final(self) == (DocumentWorkbenchState {
                        focused: true,
                        buffer: final(self).buffer,
                        cursor: final(self).cursor,
                        status: final(self).status,
                        ..*old(self)
                    })
                    &&& final(self).buffer@ == old(self).original@
                    &&& final(self).cursor == vstd::math::min(old(self).cursor as int, blen(old(self).original@))
                    &&& final(self).status@ == "discarded local edits"@
                },
                WorkbenchHit::Reload => match pane_cwd {
                    Some(c) => r matches HitAction::Refresh(d) && d@ == c@ && *final(self) == (DocumentWorkbenchState {
                        focused: true,
                        ..*old(self)
                    }),
                    None => r is Nothing && DocumentWorkbenchState::emptied_for(old(self), final(self), LOCAL_ONLY@),
                },
                WorkbenchHit::View(v) => r is Nothing && *final(self) == (DocumentWorkbenchState {
                    focused: true,
                    view: v,
                    ..*old(self)
                }),
                WorkbenchHit::SelectDocument(idx) => match pane_cwd {
                    Some(c) => {
                        &&& (r is Load <==> idx < old(self).documents@.len())
                        &&& (r is Load || r is Nothing)
                        &&& r matches HitAction::Load(d) ==> d@ == c@
                        &&& *final(self) == (DocumentWorkbenchState {
                            focused: true,
                            selected: if idx < old(self).documents@.len() {
                                idx
                            } else {
                                old(self).selected
                            },
                            ..*old(self)
                        })
                    },
                    None => r is Nothing && DocumentWorkbenchState::emptied_for(old(self), final(self), LOCAL_ONLY@),
                },
            },
    {
        if !left_press {
            return HitAction::Nothing;
        }
        self.focused = true;
        match hit {
            WorkbenchHit::Panel | WorkbenchHit::Editor => HitAction::Nothing,
            WorkbenchHit::ResizeHandle => HitAction::StartResize,
            WorkbenchHit::Close => {
                self.visible = false;
                self.focused = false;
                HitAction::Nothing
            },
            WorkbenchHit::CopyPath => {
                let copied: Option<String> = match self.current_path() {
                    Some(p) => Some(p.to_owned()),
                    None => None,
                };
                self.copy_path();
                match copied {
                    Some(t) => HitAction::CopyToClipboard(t),
                    None => HitAction::Nothing,
                }
            },
            WorkbenchHit::OpenExternal => HitAction::OpenExternal,
            WorkbenchHit::Save => HitAction::Save,
            WorkbenchHit::Discard => {
                self.discard();
                HitAction::Nothing
            },
            WorkbenchHit::Reload => match pane_cwd {
                Some(c) => HitAction::Refresh(c),
                None => {
                    self.show_unavailable(LOCAL_ONLY.to_owned());
                    HitAction::Nothing
                },
            },
            WorkbenchHit::View(v) => {
                self.view = v;
                HitAction::Nothing
            },
            WorkbenchHit::SelectDocument(idx) => match pane_cwd {
                Some(c) => {
                    if self.select(idx) {
                        HitAction::Load(c)
                    } else {
                        HitAction::Nothing
                    }
                },
                None => {
                    self.show_unavailable(LOCAL_ONLY.to_owned());
                    HitAction::Nothing
                },
            },
        }
    }
}

} // verus!
