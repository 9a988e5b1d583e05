use vstd::prelude::*;
use crate::cursor::{
    floor_char_index, floor_index, index_at, index_of_offset, lemma_index_at, line_begin,
    line_end, line_finish, line_start, next_boundary, next_char_index, offset_of,
    previous_boundary, prev_char_index,
};
use crate::keys::{edit_action, edit_action_spec, EditAction, KeyCode, Modifiers};
use crate::model::{DocumentEntry, DocumentKind, WorkbenchView};
use crate::paths::{has_root, path_eq, same_path};
use crate::preview::{
    decimal, html_preview, line_label, lines, lines_of, markdown_preview, pad_left,
    truncate_chars, truncate_spec, views, wrap_line, wrap_spec, markdown_preview_spec,
    html_preview_spec, extend_chars,
};
use crate::text::{
    blen, byte_len, chars_of, is_boundary, lemma_blen_concat, lemma_offset_bounds,
    lemma_offset_inj, lemma_offset_prefix, lemma_offset_step, lemma_offset_strict,
    lemma_offset_zero_full, offset, string_of,
};

verus! {

/// Width of the panel when none was saved.
pub const DEFAULT_WIDTH_PX: usize = 680;

/// `a` followed by `b`.
pub fn concat(a: &str, b: &str) -> (r: String)
    ensures
        r@ == a@ + b@,
{
    let mut s = a.to_owned();
    s.append(b);
    s
}

/// Byte offsets at which the lines of `s` begin: 0, then just past each newline.
pub open spec fn line_starts(s: Seq<char>) -> Seq<int>
    decreases s.len(),
{
    if s.len() == 0 {
        seq![0]
    } else {
        let r = line_starts(s.drop_last());
        if s.last() == '\n' {
            r.push(blen(s))
        } else {
            r
        }
    }
}

pub proof fn lemma_line_starts_head(s: Seq<char>)
    ensures
        line_starts(s).len() >= 1,
        line_starts(s)[0] == 0,
    decreases s.len(),
{
    if s.len() > 0 {
        lemma_line_starts_head(s.drop_last());
    }
}

/// `li` is the last line whose start is at or before byte `cursor`.
pub open spec fn line_index_ok(ls: Seq<int>, cursor: int, li: int) -> bool {
    &&& 0 <= li < ls.len()
    &&& ls[li] <= cursor
    &&& forall|j: int| li < j < ls.len() ==> ls[j] > cursor
}

/// The line `delta` lines away from line `li`, kept within the `count` lines.
pub open spec fn target_line(li: int, delta: int, count: int) -> int {
    if delta < 0 {
        vstd::math::max(li + delta, 0)
    } else {
        vstd::math::min(li + delta, count - 1)
    }
}

/// Byte `col` columns into line `t`, kept before the newline ending it (before the last byte
/// of the buffer on the last line, but never before the line's start).
pub open spec fn column_byte(total: int, ls: Seq<int>, t: int, col: int) -> int {
    let start = ls[t];
    let end = if t + 1 < ls.len() {
        ls[t + 1]
    } else {
        total
    };
    vstd::math::min(start + col, vstd::math::max(if end > 0 { end - 1 } else { 0 }, start))
}

/// Moving `delta` lines from byte `cursor` (at byte column `col`) lands on byte `r`: the
/// greatest char boundary not after the column byte of the target line.
pub open spec fn vertical_move(s: Seq<char>, cursor: int, delta: int, col: int, r: int) -> bool {
    let ls = line_starts(s);
    exists|li: int, k: int|
        #![trigger line_index_ok(ls, cursor, li), offset(s, k)]
        line_index_ok(ls, cursor, li) && floor_char_index(
            s,
            column_byte(blen(s), ls, target_line(li, delta, ls.len() as int), col),
            k,
        ) && r == offset(s, k)
}

/// What became of a key press.
#[derive(Debug, Clone, Copy, PartialEq, Eq, Structural)]
pub enum KeyOutcome {
    /// The panel is hidden or unfocused; the key is for the terminal.
    Ignored,
    /// The workbench consumed the key.
    Handled,
    /// Consumed; the current document is to be saved (see `begin_save`).
    Save,
    /// Consumed; the current document is to be read again (see `load_selected`).
    Reload,
}

/// How reading the selected document went.
pub enum LoadOutcome {
    /// Reading failed with this error text.
    ReadFailed(String),
    /// The file's text.
    Read(String),
}

/// How writing the buffer to the selected document went.
pub enum SaveOutcome {
    /// Writing failed with this error text.
    WriteFailed(String),
    Written,
}

/// Index of the first document whose path equals `p` as a path.
pub open spec fn position_of(docs: Seq<DocumentEntry>, p: Seq<char>) -> Option<int>
    decreases docs.len(),
{
    if docs.len() == 0 {
        None
    } else if path_eq(docs[0].path@, p) {
        Some(0)
    } else {
        match position_of(docs.drop_first(), p) {
            Some(i) => Some(i + 1),
            None => None,
        }
    }
}

proof fn lemma_position_bound(docs: Seq<DocumentEntry>, p: Seq<char>)
    ensures
        position_of(docs, p) matches Some(i) ==> 0 <= i < docs.len(),
    decreases docs.len(),
{
    if docs.len() > 0 {
        lemma_position_bound(docs.drop_first(), p);
    }
}

/// Index of the first document whose path equals `p` as a path.
pub fn find_document(docs: &Vec<DocumentEntry>, p: &str) -> (r: Option<usize>)
    ensures
        match r {
            Some(i) => position_of(docs@, p@) == Some(i as int),
            None => position_of(docs@, p@) is None,
        },
{
    let mut i: usize = 0;
    assert(docs@.skip(0) =~= docs@);
    while i < docs.len()
        invariant
            i <= docs.len(),
            position_of(docs@, p@) == (match position_of(docs@.skip(i as int), p@) {
                Some(j) => Some(j + i),
                None => None::<int>,
            }),
        decreases docs.len() - i,
    {
        assert(docs@.skip(i as int).drop_first() =~= docs@.skip(i + 1));
        if same_path(docs[i].path.as_str(), p) {
            return Some(i);
        }
        i = i + 1;
    }
    None
}

/// The URL `url::Url::from_file_path` makes of an absolute path.
pub uninterp spec fn file_url_spec(path: Seq<char>) -> Seq<char>;

/// `url::Url::from_file_path` on Unix: succeeds exactly for absolute paths (those starting
/// with `/`), giving `file://` followed by the path's components, each after a `/` and
/// percent-encoded. The contract names that text `file_url_spec` rather than spelling out
/// the percent-encoding, and states its `file://` prefix.
#[verifier::external_body]
fn file_url(path: &str) -> (r: Result<String, ()>)
    ensures
        r is Ok <==> has_root(path@),
        r matches Ok(u) ==> u@ == file_url_spec(path@) && seq!['f', 'i', 'l', 'e', ':', '/', '/'].is_prefix_of(u@),
{
    match url::Url::from_file_path(std::path::Path::new(path)) {
        Ok(u) => Ok(u.as_str().to_string()),
        Err(()) => Err(()),
    }
}

/// Number of newlines in `s`.
pub open spec fn count_newlines(s: Seq<char>) -> nat
    decreases s.len(),
{
    if s.len() == 0 {
        0
    } else {
        count_newlines(s.drop_last()) + if s.last() == '\n' {
            1nat
        } else {
            0nat
        }
    }
}

/// `line` with a `|` at byte column `col` (clamped to the line), when that is a char
/// boundary of the line.
pub open spec fn mark_cursor(line: Seq<char>, col: int) -> Seq<char> {
    let c = vstd::math::min(col, blen(line));
    if is_boundary(line, c) {
        line.insert(index_at(line, c), '|')
    } else {
        line
    }
}

/// A source row: the 1-based line number right-aligned in four columns, a space, then the
/// line cut to `width - 6` columns.
pub open spec fn source_row(number: nat, line: Seq<char>, width: nat) -> Seq<char> {
    pad_left(decimal(number), 4) + seq![' '] + truncate_spec(
        line,
        if width >= 6 {
            (width - 6) as nat
        } else {
            0
        },
    )
}

/// The given lines, each wrapped at `width`, one after the other.
pub open spec fn wrapped_lines(ls: Seq<Seq<char>>, width: nat) -> Seq<Seq<char>>
    decreases ls.len(),
{
    if ls.len() == 0 {
        Seq::empty()
    } else {
        wrapped_lines(ls.drop_last(), width) + wrap_spec(ls.last(), width)
    }
}

/// The wrapped lines of a prefix of `ls` lead those of `ls`.
pub proof fn lemma_wrapped_prefix(ls: Seq<Seq<char>>, i: int, n: int)
    requires
        0 <= i <= n <= ls.len(),
    ensures
        forall|w: nat| wrapped_lines(ls.take(i), w).is_prefix_of(wrapped_lines(ls.take(n), w)),
    decreases n - i,
{
    if i < n {
        lemma_wrapped_prefix(ls, i, n - 1);
        assert forall|w: nat| wrapped_lines(ls.take(i), w).is_prefix_of(wrapped_lines(ls.take(n), w)) by {
            assert(ls.take(n).drop_last() =~= ls.take(n - 1));
            assert(wrapped_lines(ls.take(i), w).is_prefix_of(wrapped_lines(ls.take(n - 1), w)));
        }
    }
}

/// State of the document workbench panel: the documents found, the selected one, and an
/// editing buffer with a byte-offset cursor.
pub struct DocumentWorkbenchState {
    pub visible: bool,
    pub focused: bool,
    pub width_px: usize,
    pub selected: usize,
    pub view: WorkbenchView,
    pub documents: Vec<DocumentEntry>,
    pub buffer: String,
    pub original: String,
    pub cursor: usize,
    pub scroll_line: usize,
    pub status: String,
    pub cwd: Option<String>,
}

impl DocumentWorkbenchState {
    /// Text of the document as last loaded or saved.
    pub open spec fn original_text(&self) -> Seq<char> {
        self.original@
    }

    /// Working directory of the pane the documents belong to, if it is a local one.
    pub open spec fn cwd_path(&self) -> Option<Seq<char>> {
        match self.cwd {
            Some(c) => Some(c@),
            None => None,
        }
    }

    /// The buffer holds edits not yet saved.
    pub open spec fn dirty(&self) -> bool {
        self.buffer@ != self.original@
    }

    /// The cursor lies within the buffer.
    pub open spec fn wf(&self) -> bool {
        self.cursor <= blen(self.buffer@)
    }

    /// The cursor lies on a char boundary of the buffer.
    pub open spec fn cursor_ok(&self) -> bool {
        is_boundary(self.buffer@, self.cursor as int)
    }

    /// Char index of the cursor (meaningful when `cursor_ok`).
    pub open spec fn cursor_char(&self) -> int {
        index_at(self.buffer@, self.cursor as int)
    }

    pub open spec fn current_spec(&self) -> Option<DocumentEntry> {
        if self.selected < self.documents@.len() {
            Some(self.documents@[self.selected as int])
        } else {
            None
        }
    }

    pub open spec fn current_path_spec(&self) -> Option<Seq<char>> {
        match self.current_spec() {
            Some(d) => Some(d.path@),
            None => None,
        }
    }

    /// A hidden, empty workbench; its width is the saved one, or the default.
    pub fn with_saved_width(saved: Option<usize>) -> (r: Self)
        ensures
            !r.visible,
            !r.focused,
            r.width_px == (match saved {
                Some(w) => w,
                None => DEFAULT_WIDTH_PX,
            }),
            r.selected == 0,
            r.view == WorkbenchView::Split,
            r.documents@.len() == 0,
            r.buffer@.len() == 0,
            r.original_text().len() == 0,
            r.cursor == 0,
            r.scroll_line == 0,
            r.status@ == "ready"@,
            r.cwd_path() is None,
            r.wf(),
            r.cursor_ok(),
    {
        let width_px = match saved {
            Some(w) => w,
            None => DEFAULT_WIDTH_PX,
        };
        let r = DocumentWorkbenchState {
            visible: false,
            focused: false,
            width_px,
            selected: 0,
            view: WorkbenchView::Split,
            documents: Vec::new(),
            buffer: String::new(),
            original: String::new(),
            cursor: 0,
            scroll_line: 0,
            status: "ready".to_owned(),
            cwd: None,
        };
        proof {
            lemma_offset_zero_full(r.buffer@);
            lemma_index_at(r.buffer@, 0);
        }
        r
    }

    /// The working directory of the pane, if it is a local one.
    pub fn cwd(&self) -> (r: Option<&String>)
        ensures
            match r {
                Some(c) => self.cwd_path() == Some(c@),
                None => self.cwd_path() is None,
            },
    {
        self.cwd.as_ref()
    }

    /// Hides a visible panel; shows a hidden one. Returns whether the panel was just shown,
    /// in which case the documents are to be refreshed.
    pub fn toggle(&mut self) -> (refresh: bool)
        ensures
            refresh == !old(self).visible,
            *final(self) == (DocumentWorkbenchState { visible: !old(self).visible, focused: false, ..*old(self) }),
    {
        if self.visible {
            self.visible = false;
            self.focused = false;
            return false;
        }
        self.visible = true;
        self.focused = false;
        true
    }

    /// `b` is `a` shown with nothing in it and with `status`: no documents, an empty editor,
    /// no working directory; width, selection index and view kept.
    pub open spec fn emptied_for(a: &Self, b: &Self, status: Seq<char>) -> bool {
        &&& b.visible
        &&& !b.focused
        &&& b.documents@.len() == 0
        &&& b.buffer@.len() == 0
        &&& b.original@.len() == 0
        &&& b.cursor == 0
        &&& b.scroll_line == 0
        &&& b.cwd is None
        &&& b.status@ == status
        &&& b.width_px == a.width_px
        &&& b.selected == a.selected
        &&& b.view == a.view
    }

    /// Shows the panel with nothing in it and the given status (for panes that are not local).
    pub fn show_unavailable(&mut self, status: String)
        ensures
            Self::emptied_for(old(self), final(self), status@),
            final(self).wf(),
            final(self).cursor_ok(),
    {
        self.visible = true;
        self.focused = false;
        self.documents.clear();
        self.buffer = String::new();
        self.original = String::new();
        self.cursor = 0;
        self.scroll_line = 0;
        self.cwd = None;
        self.status = status;
        proof {
            lemma_offset_zero_full(self.buffer@);
            lemma_index_at(self.buffer@, 0);
        }
    }

    /// Whether the buffer differs from the text last loaded or saved.
    pub fn is_dirty(&self) -> (r: bool)
        ensures
            r == self.dirty(),
    {
        !(self.buffer == self.original)
    }

    /// The selected document, if the selection names one.
    pub fn current(&self) -> (r: Option<&DocumentEntry>)
        ensures
            match r {
                Some(d) => self.current_spec() == Some(*d),
                None => self.current_spec() is None,
            },
    {
        if self.selected < self.documents.len() {
            Some(&self.documents[self.selected])
        } else {
            None
        }
    }

    /// Path of the selected document.
    pub fn current_path(&self) -> (r: Option<&str>)
        ensures
            match r {
                Some(p) => self.current_path_spec() == Some(p@),
                None => self.current_path_spec() is None,
            },
    {
        match self.current() {
            Some(d) => Some(d.path.as_str()),
            None => None,
        }
    }

    /// Inserts chars at the cursor, first moved back to a char boundary within the buffer;
    /// the cursor ends up just after the inserted chars.
    pub fn insert_chars(&mut self, t: &Vec<char>)
        requires
            blen(old(self).buffer@) + blen(t@) <= usize::MAX,
        ensures
            exists|k: int|
                floor_char_index(
                    old(self).buffer@,
                    vstd::math::min(old(self).cursor as int, blen(old(self).buffer@)),
                    k,
                ) && final(self).buffer@ == old(self).buffer@.take(k) + t@ + old(self).buffer@.skip(k)
                    && final(self).cursor == offset(old(self).buffer@, k) + blen(t@)
                    && final(self).cursor == offset(final(self).buffer@, k + t@.len()),
            final(self).wf(),
            final(self).cursor_ok(),
            final(self).visible == old(self).visible,
            final(self).focused == old(self).focused,
            final(self).width_px == old(self).width_px,
            final(self).selected == old(self).selected,
            final(self).view == old(self).view,
            final(self).documents == old(self).documents,
            final(self).original == old(self).original,
            final(self).scroll_line == old(self).scroll_line,
            final(self).status == old(self).status,
            final(self).cwd == old(self).cwd,
    {
        let v = chars_of(self.buffer.as_str());
        let total = byte_len(self.buffer.as_str());
        let c = if self.cursor < total {
            self.cursor
        } else {
            total
        };
        let k = floor_index(&v, c);
        let start = offset_of(&v, k);
        let mut out: Vec<char> = Vec::new();
        let mut i: usize = 0;
        while i < k
            invariant
                k <= v.len(),
                i <= k,
                out@ == v@.take(i as int),
            decreases k - i,
        {
            out.push(v[i]);
            i = i + 1;
            assert(out@ =~= v@.take(i as int));
        }
        let mut j: usize = 0;
        while j < t.len()
            invariant
                k <= v.len(),
                j <= t.len(),
                out@ == v@.take(k as int) + t@.take(j as int),
            decreases t.len() - j,
        {
            out.push(t[j]);
            j = j + 1;
            assert(out@ =~= v@.take(k as int) + t@.take(j as int));
        }
        assert(t@.take(j as int) =~= t@);
        let ghost mid = out@;
        proof {
            lemma_blen_concat(v@.take(k as int), t@);
            assert(blen(v@.take(k as int)) == start);
            assert(mid.take(mid.len() as int) =~= mid);
        }
        let tl = offset_of(t, t.len());
        proof {
            lemma_offset_zero_full(t@);
        }
        let mut m: usize = k;
        while m < v.len()
            invariant
                k <= m <= v.len(),
                out@ == mid + v@.subrange(k as int, m as int),
                mid == v@.take(k as int) + t@,
            decreases v.len() - m,
        {
            out.push(v[m]);
            m = m + 1;
            assert(out@ =~= mid + v@.subrange(k as int, m as int));
        }
        assert(v@.subrange(k as int, m as int) =~= v@.skip(k as int));
        proof {
            let n = out@;
            assert(n.take(mid.len() as int) =~= mid);
            lemma_blen_concat(mid, v@.skip(k as int));
            lemma_blen_concat(v@.take(k as int), v@.skip(k as int));
            assert(v@.take(k as int) + v@.skip(k as int) =~= v@);
            lemma_offset_zero_full(v@);
            lemma_offset_bounds(v@, k as int);
        }
        self.buffer = string_of(&out);
        self.cursor = start + tl;
        proof {
            let n = self.buffer@;
            lemma_offset_zero_full(n);
            assert(n.take(k + t@.len()) =~= mid);
            assert(offset(n, k + t@.len()) == start + tl);
            assert(floor_char_index(v@, c as int, k as int));
            assert(c == vstd::math::min(old(self).cursor as int, blen(v@)));
            assert(v@ == old(self).buffer@);
            assert(n == v@.take(k as int) + t@ + v@.skip(k as int));
            lemma_index_at(n, k + t@.len());
            lemma_offset_bounds(n, k + t@.len());
        }
    }

    /// `insert_text`: inserts `text` at the cursor (moved back to a char boundary within the
    /// buffer first); the cursor ends up just after it.
    pub fn insert_text(&mut self, text: &str)
        requires
            blen(old(self).buffer@) + blen(text@) <= usize::MAX,
        ensures
            exists|k: int|
                floor_char_index(
                    old(self).buffer@,
                    vstd::math::min(old(self).cursor as int, blen(old(self).buffer@)),
                    k,
                ) && final(self).buffer@ == old(self).buffer@.take(k) + text@ + old(
                    self,
                ).buffer@.skip(k) && final(self).cursor == offset(old(self).buffer@, k) + blen(
                    text@,
                ),
            final(self).wf(),
            final(self).cursor_ok(),
            final(self).visible == old(self).visible,
            final(self).focused == old(self).focused,
            final(self).width_px == old(self).width_px,
            final(self).selected == old(self).selected,
            final(self).view == old(self).view,
            final(self).documents == old(self).documents,
            final(self).original == old(self).original,
            final(self).scroll_line == old(self).scroll_line,
            final(self).status == old(self).status,
            final(self).cwd == old(self).cwd,
    {
        let t = chars_of(text);
        self.insert_chars(&t);
    }

    /// Removes the char before the cursor, if any, and moves the cursor to where it began.
    pub fn delete_backward(&mut self)
        requires
            old(self).cursor_ok(),
        ensures
            ({
                let s = old(self).buffer@;
                let k = old(self).cursor_char();
                if k > 0 {
                    final(self).buffer@ == s.remove(k - 1) && final(self).cursor == offset(s, k - 1)
                } else {
                    final(self).buffer == old(self).buffer && final(self).cursor == old(self).cursor
                }
            }),
            final(self).wf(),
            final(self).cursor_ok(),
            final(self).visible == old(self).visible,
            final(self).focused == old(self).focused,
            final(self).width_px == old(self).width_px,
            final(self).selected == old(self).selected,
            final(self).view == old(self).view,
            final(self).documents == old(self).documents,
            final(self).original == old(self).original,
            final(self).scroll_line == old(self).scroll_line,
            final(self).status == old(self).status,
            final(self).cwd == old(self).cwd,
    {
        let mut v = chars_of(self.buffer.as_str());
        let k = index_of_offset(&v, self.cursor);
        let prev = previous_boundary(self.buffer.as_str(), self.cursor);
        proof {
            let s = v@;
            lemma_offset_zero_full(s);
            lemma_offset_bounds(s, k as int);
            let j = choose|j: int| prev_char_index(s, self.cursor as int, j) && prev == offset(s, j);
            if k > 0 {
                assert(s.len() > 0);
                if j >= k {
                    lemma_offset_strict(s, k as int, j);
                }
                if j + 1 < k {
                    lemma_offset_strict(s, j + 1, k as int);
                }
                assert(j == k - 1);
            }
        }
        if prev < self.cursor {
            let ghost s = v@;
            v.remove(k - 1);
            proof {
                assert(v@ =~= s.remove(k - 1));
                assert(v@.take(k - 1) =~= s.take(k - 1));
                lemma_offset_prefix(s, k - 1, k - 1);
                lemma_offset_prefix(v@, k - 1, k - 1);
                lemma_index_at(v@, k - 1);
                lemma_offset_bounds(v@, k - 1);
            }
            self.buffer = string_of(&v);
            self.cursor = prev;
        }
    }

    /// Removes the char at the cursor, if any; the cursor stays.
    pub fn delete_forward(&mut self)
        requires
            old(self).cursor < blen(old(self).buffer@) ==> old(self).cursor_ok(),
        ensures
            ({
                let s = old(self).buffer@;
                let k = old(self).cursor_char();
                if old(self).cursor < blen(s) {
                    final(self).buffer@ == s.remove(k)
                } else {
                    final(self).buffer == old(self).buffer
                }
            }),
            final(self).cursor == old(self).cursor,
            old(self).wf() ==> final(self).wf(),
            old(self).cursor_ok() ==> final(self).cursor_ok() && final(self).cursor_char() == old(self).cursor_char(),
            final(self).visible == old(self).visible,
            final(self).focused == old(self).focused,
            final(self).width_px == old(self).width_px,
            final(self).selected == old(self).selected,
            final(self).view == old(self).view,
            final(self).documents == old(self).documents,
            final(self).original == old(self).original,
            final(self).scroll_line == old(self).scroll_line,
            final(self).status == old(self).status,
            final(self).cwd == old(self).cwd,
    {
        if self.cursor >= byte_len(self.buffer.as_str()) {
            return;
        }
        let mut v = chars_of(self.buffer.as_str());
        let k = index_of_offset(&v, self.cursor);
        let next = next_boundary(self.buffer.as_str(), self.cursor);
        proof {
            let s = v@;
            lemma_offset_zero_full(s);
            lemma_offset_bounds(s, k as int);
            lemma_index_at(s, k as int);
            let j = choose|j: int| next_char_index(s, self.cursor as int, j) && next == offset(s, j);
            if k < s.len() {
                if j <= k {
                    if j < k {
                        lemma_offset_strict(s, j, k as int);
                    }
                }
                if j - 1 > k {
                    lemma_offset_strict(s, k as int, j - 1);
                }
                assert(j == k + 1);
                lemma_offset_strict(s, k as int, j);
            } else {
                if j < s.len() {
                    lemma_offset_strict(s, j, s.len() as int);
                }
                assert(j == s.len());
            }
        }
        if next > self.cursor {
            let ghost s = v@;
            v.remove(k);
            proof {
                assert(v@ =~= s.remove(k as int));
                assert(v@.take(k as int) =~= s.take(k as int));
                lemma_offset_prefix(s, k as int, k as int);
                lemma_offset_prefix(v@, k as int, k as int);
                lemma_index_at(v@, k as int);
                lemma_offset_bounds(v@, k as int);
            }
            self.buffer = string_of(&v);
        }
    }

    /// Moves the cursor `delta` lines up (negative) or down, keeping its byte column where the
    /// target line allows, then back onto a char boundary.
    pub fn move_cursor_vertical(&mut self, delta: isize)
        requires
            is_boundary(old(self).buffer@, vstd::math::min(old(self).cursor as int, blen(old(self).buffer@))),
            blen(old(self).buffer@) < isize::MAX,
        ensures
            ({
                let s = old(self).buffer@;
                let ls = line_starts(s);
                let col = old(self).cursor - offset(
                    s,
                    line_begin(s, index_at(s, vstd::math::min(old(self).cursor as int, blen(s)))),
                );
                vertical_move(s, old(self).cursor as int, delta as int, col, final(self).cursor as int)
            }),
            final(self).buffer == old(self).buffer,
            final(self).wf(),
            final(self).cursor_ok(),
            final(self).visible == old(self).visible,
            final(self).focused == old(self).focused,
            final(self).width_px == old(self).width_px,
            final(self).selected == old(self).selected,
            final(self).view == old(self).view,
            final(self).documents == old(self).documents,
            final(self).original == old(self).original,
            final(self).scroll_line == old(self).scroll_line,
            final(self).status == old(self).status,
            final(self).cwd == old(self).cwd,
    {
        let ghost s = self.buffer@;
        let cursor = self.cursor;
        let ghost m = vstd::math::min(cursor as int, blen(s));
        proof {
            lemma_offset_zero_full(s);
            crate::cursor::lemma_boundary_index(s, m);
            let k0 = index_at(s, m);
            lemma_offset_bounds(s, k0);
        }
        let ls0 = line_start(self.buffer.as_str(), cursor);
        proof {
            let k0 = index_at(s, m);
            crate::cursor::lemma_line_begin_range(s, k0);
            lemma_offset_bounds(s, k0);
            crate::text::lemma_offset_mono(s, line_begin(s, k0), k0);
        }
        let col = cursor - ls0;
        let v = chars_of(self.buffer.as_str());
        let total = byte_len(self.buffer.as_str());
        let mut ls: Vec<usize> = Vec::new();
        ls.push(0);
        let mut i: usize = 0;
        let mut off: usize = 0;
        assert(v@.take(0) =~= Seq::<char>::empty());
        while i < v.len()
            invariant
                v@ == s,
                total == blen(s),
                i <= v.len(),
                off == offset(s, i as int),
                ls@.len() == line_starts(s.take(i as int)).len(),
                forall|j: int| 0 <= j < ls@.len() ==> ls@[j] == line_starts(s.take(i as int))[j],
                forall|j: int| 0 <= j < ls@.len() ==> ls@[j] <= off,
                ls@.len() <= i + 1,
            decreases v.len() - i,
        {
            proof {
                assert(s.take(i + 1).drop_last() =~= s.take(i as int));
                lemma_offset_step(s, i as int);
                lemma_offset_bounds(s, i + 1);
                crate::text::lemma_width_range(s[i as int]);
            }
            let w = crate::text::char_len(v[i]);
            if v[i] == '\n' {
                ls.push(off + 1);
            }
            off = off + w;
            i = i + 1;
        }
        assert(s.take(i as int) =~= s);
        let ghost lss = line_starts(s);
        proof {
            lemma_line_starts_head(s);
            crate::text::lemma_blen_nonneg(s);
        }
        let mut li: usize = ls.len() - 1;
        while ls[li] > cursor
            invariant
                ls@.len() == lss.len(),
                forall|j: int| 0 <= j < ls@.len() ==> ls@[j] == lss[j],
                ls@.len() <= v@.len() + 1,
                v@.len() <= blen(s),
                blen(s) < isize::MAX,
                ls@.len() >= 1,
                ls@[0] == 0,
                li < ls@.len(),
                forall|j: int| li < j < ls@.len() ==> ls@[j] > cursor,
            decreases li,
        {
            li = li - 1;
        }
        proof {
            assert(line_index_ok(lss, cursor as int, li as int));
        }
        let target: usize = if delta < 0 {
            let back: usize = if delta == isize::MIN {
                (isize::MAX as usize) + 1
            } else {
                (-delta) as usize
            };
            if back <= li {
                li - back
            } else {
                0
            }
        } else {
            let fwd = delta as usize;
            let t = li + fwd;
            if t < ls.len() - 1 {
                t
            } else {
                ls.len() - 1
            }
        };
        proof {
            assert(target as int == target_line(li as int, delta as int, lss.len() as int));
        }
        let start = ls[target];
        let end = if target + 1 < ls.len() {
            ls[target + 1]
        } else {
            total
        };
        let end_m1 = if end > 0 {
            end - 1
        } else {
            0
        };
        let upper = if end_m1 > start {
            end_m1
        } else {
            start
        };
        let b = if col < upper - start {
            start + col
        } else {
            upper
        };
        proof {
            assert(b as int == column_byte(blen(s), lss, target as int, col as int));
        }
        let k = floor_index(&v, b);
        proof {
            lemma_offset_bounds(s, k as int);
        }
        self.cursor = offset_of(&v, k);
        proof {
            lemma_index_at(s, k as int);
            assert(col == cursor - offset(s, line_begin(s, index_at(s, m))));
            assert(line_index_ok(lss, cursor as int, li as int));
            assert(floor_char_index(
                s,
                column_byte(blen(s), lss, target_line(li as int, delta as int, lss.len() as int), col as int),
                k as int,
            ));
            assert(offset(s, k as int) == self.cursor);
            assert(vertical_move(s, cursor as int, delta as int, col as int, self.cursor as int));
        }
    }

    /// The fields that editing leaves alone are equal in `a` and `b`.
    pub open spec fn same_documents(a: &Self, b: &Self) -> bool {
        &&& a.visible == b.visible
        &&& a.width_px == b.width_px
        &&& a.selected == b.selected
        &&& a.documents == b.documents
        &&& a.original == b.original
        &&& a.cwd == b.cwd
    }

    /// What a key bound to `a` needs of the state so that it does not fail.
    pub open spec fn action_requires(&self, a: EditAction) -> bool {
        match a {
            EditAction::Up | EditAction::Down => is_boundary(
                self.buffer@,
                vstd::math::min(self.cursor as int, blen(self.buffer@)),
            ) && blen(self.buffer@) < isize::MAX,
            EditAction::LineStart | EditAction::LineEnd => is_boundary(
                self.buffer@,
                vstd::math::min(self.cursor as int, blen(self.buffer@)),
            ),
            EditAction::Backspace => self.cursor_ok(),
            EditAction::Delete => self.cursor < blen(self.buffer@) ==> self.cursor_ok(),
            EditAction::Insert(_) => blen(self.buffer@) + 4 <= usize::MAX,
            EditAction::PageDown => self.scroll_line + 10 <= usize::MAX,
            _ => true,
        }
    }

    /// Handles a key press while the panel is visible and focused (see `edit_action_spec`
    /// for the bindings). Every action leaves a cursor on a char boundary on one.
    pub fn handle_key(&mut self, key: KeyCode, mods: Modifiers) -> (r: KeyOutcome)
        requires
            old(self).visible && old(self).focused ==> old(self).action_requires(
                edit_action_spec(key, mods),
            ),
        ensures
            !(old(self).visible && old(self).focused) ==> r == KeyOutcome::Ignored && *final(self)
                == *old(self),
            old(self).visible && old(self).focused ==> {
                let a = edit_action_spec(key, mods);
                let s = old(self).buffer@;
                let k = old(self).cursor_char();
                &&& Self::same_documents(final(self), old(self))
                &&& (a == EditAction::Save <==> r == KeyOutcome::Save)
                &&& (r == KeyOutcome::Reload <==> a == EditAction::Reload && old(self).cwd is Some)
                &&& r != KeyOutcome::Ignored
                &&& (old(self).cursor_ok() ==> final(self).cursor_ok())
                &&& (old(self).wf() ==> final(self).wf())
                &&& a != EditAction::Blur ==> final(self).focused
                &&& a != EditAction::CycleView ==> final(self).view == old(self).view
                &&& (a != EditAction::PageUp && a != EditAction::PageDown) ==> final(self).scroll_line
                    == old(self).scroll_line
                &&& (a != EditAction::Blur && a != EditAction::Reload) ==> final(self).status
                    == old(self).status
                &&& (match a {
                    EditAction::Insert(_) | EditAction::Backspace | EditAction::Delete => true,
                    _ => final(self).buffer == old(self).buffer,
                })
                &&& (match a {
                    EditAction::Blur => !final(self).focused && final(self).status@
                        == "terminal focus restored"@ && final(self).cursor == old(self).cursor,
                    EditAction::CycleView => final(self).view == old(self).view.next_spec()
                        && final(self).cursor == old(self).cursor,
                    EditAction::Up | EditAction::Down => vertical_move(
                        s,
                        old(self).cursor as int,
                        if a == EditAction::Up { -1 } else { 1 },
                        old(self).cursor - offset(
                            s,
                            line_begin(s, index_at(s, vstd::math::min(old(self).cursor as int, blen(s)))),
                        ),
                        final(self).cursor as int,
                    ),
                    EditAction::Left => exists|j: int|
                        prev_char_index(s, old(self).cursor as int, j) && final(self).cursor
                            == offset(s, j),
                    EditAction::Right => exists|j: int|
                        next_char_index(s, old(self).cursor as int, j) && final(self).cursor
                            == offset(s, j),
                    EditAction::LineStart => final(self).cursor == offset(
                        s,
                        line_begin(s, index_at(s, vstd::math::min(old(self).cursor as int, blen(s)))),
                    ),
                    EditAction::LineEnd => final(self).cursor == offset(
                        s,
                        line_finish(s, index_at(s, vstd::math::min(old(self).cursor as int, blen(s)))),
                    ),
                    EditAction::PageUp => final(self).scroll_line == (if old(self).scroll_line
                        >= 10 {
                        old(self).scroll_line - 10
                    } else {
                        0
                    }) && final(self).cursor == old(self).cursor,
                    EditAction::PageDown => final(self).scroll_line == old(self).scroll_line + 10
                        && final(self).cursor == old(self).cursor,
                    EditAction::Backspace => if k > 0 {
                        final(self).buffer@ == s.remove(k - 1) && final(self).cursor == offset(
                            s,
                            k - 1,
                        )
                    } else {
                        final(self).buffer == old(self).buffer && final(self).cursor
                            == old(self).cursor
                    },
                    EditAction::Delete => final(self).cursor == old(self).cursor && if old(self).cursor < blen(s) {
                        final(self).buffer@ == s.remove(k)
                    } else {
                        final(self).buffer == old(self).buffer
                    },
                    EditAction::Insert(c) => exists|j: int|
                        floor_char_index(s, vstd::math::min(old(self).cursor as int, blen(s)), j)
                            && final(self).buffer@ == s.take(j) + seq![c] + s.skip(j)
                            && final(self).cursor == offset(final(self).buffer@, j + 1),
                    EditAction::Save => final(self).cursor == old(self).cursor,
                    EditAction::Reload => final(self).cursor == old(self).cursor && (if old(
                        self,
                    ).cwd is Some {
                        final(self).status@ == "reloaded from disk"@
                    } else {
                        final(self).status@ == "local file pane required"@
                    }),
                    EditAction::Nothing => final(self).cursor == old(self).cursor,
                })
            },
    {
        if !self.visible || !self.focused {
            return KeyOutcome::Ignored;
        }
        let ghost before = *self;
        let action = edit_action(key, mods);
        proof {
            if before.cursor_ok() {
                crate::cursor::lemma_boundary_index(before.buffer@, before.cursor as int);
                lemma_offset_bounds(before.buffer@, before.cursor_char());
            }
        }
        match action {
            EditAction::Blur => {
                self.focused = false;
                self.status = "terminal focus restored".to_owned();
                KeyOutcome::Handled
            },
            EditAction::CycleView => {
                self.view = self.view.next();
                KeyOutcome::Handled
            },
            EditAction::Up => {
                self.move_cursor_vertical(-1);
                KeyOutcome::Handled
            },
            EditAction::Down => {
                self.move_cursor_vertical(1);
                KeyOutcome::Handled
            },
            EditAction::Left => {
                let c = previous_boundary(self.buffer.as_str(), self.cursor);
                proof {
                    let s = before.buffer@;
                    let j = choose|j: int| prev_char_index(s, before.cursor as int, j) && c == offset(s, j);
                    lemma_offset_zero_full(s);
                    if s.len() > 0 {
                        lemma_offset_bounds(s, j);
                    }
                    lemma_index_at(s, j);
                    if before.wf() {
                        lemma_offset_bounds(s, j);
                    }
                }
                self.cursor = c;
                KeyOutcome::Handled
            },
            EditAction::Right => {
                let c = next_boundary(self.buffer.as_str(), self.cursor);
                proof {
                    let s = before.buffer@;
                    let j = choose|j: int| next_char_index(s, before.cursor as int, j) && c == offset(s, j);
                    lemma_index_at(s, j);
                    lemma_offset_bounds(s, j);
                }
                self.cursor = c;
                KeyOutcome::Handled
            },
            EditAction::LineStart => {
                let c = line_start(self.buffer.as_str(), self.cursor);
                proof {
                    let s = before.buffer@;
                    let k = index_at(s, vstd::math::min(before.cursor as int, blen(s)));
                    crate::cursor::lemma_boundary_index(s, vstd::math::min(before.cursor as int, blen(s)));
                    crate::cursor::lemma_line_begin_range(s, k);
                    lemma_index_at(s, line_begin(s, k));
                    lemma_offset_bounds(s, line_begin(s, k));
                }
                self.cursor = c;
                KeyOutcome::Handled
            },
            EditAction::LineEnd => {
                let c = line_end(self.buffer.as_str(), self.cursor);
                proof {
                    let s = before.buffer@;
                    let k = index_at(s, vstd::math::min(before.cursor as int, blen(s)));
                    crate::cursor::lemma_boundary_index(s, vstd::math::min(before.cursor as int, blen(s)));
                    crate::cursor::lemma_line_finish_range(s, k);
                    lemma_index_at(s, line_finish(s, k));
                    lemma_offset_bounds(s, line_finish(s, k));
                }
                self.cursor = c;
                KeyOutcome::Handled
            },
            EditAction::PageUp => {
                self.scroll_line = if self.scroll_line >= 10 {
                    self.scroll_line - 10
                } else {
                    0
                };
                KeyOutcome::Handled
            },
            EditAction::PageDown => {
                self.scroll_line = self.scroll_line + 10;
                KeyOutcome::Handled
            },
            EditAction::Backspace => {
                self.delete_backward();
                KeyOutcome::Handled
            },
            EditAction::Delete => {
                self.delete_forward();
                KeyOutcome::Handled
            },
            EditAction::Insert(c) => {
                let mut t: Vec<char> = Vec::new();
                t.push(c);
                proof {
                    crate::text::lemma_blen_single(c);
                    crate::text::lemma_width_range(c);
                }
                self.insert_chars(&t);
                KeyOutcome::Handled
            },
            EditAction::Save => KeyOutcome::Save,
            EditAction::Reload => {
                if self.cwd.is_some() {
                    self.status = "reloaded from disk".to_owned();
                    KeyOutcome::Reload
                } else {
                    self.status = "local file pane required".to_owned();
                    KeyOutcome::Handled
                }
            },
            EditAction::Nothing => KeyOutcome::Handled,
        }
    }

    /// Takes the documents found in `cwd`: the previously selected path stays selected when
    /// it is still there (otherwise the first document), within the list. Returns whether the
    /// selected document is to be loaded; a failed discovery only sets the status.
    pub fn refresh(&mut self, cwd: String, discovered: Result<Vec<DocumentEntry>, String>) -> (load: bool)
        ensures
            final(self).cwd_path() == Some(cwd@),
            load == (discovered is Ok),
            match discovered {
                Ok(docs) => {
                    &&& final(self).documents@ == docs@
                    &&& final(self).selected == (match old(self).current_path_spec() {
                        Some(p) => match position_of(docs@, p) {
                            Some(i) => i,
                            None => 0,
                        },
                        None => 0,
                    })
                    &&& match old(self).current_path_spec() {
                        Some(p) => (exists|i: int| 0 <= i < docs@.len() && path_eq(#[trigger] docs@[i].path@, p))
                            ==> path_eq(final(self).documents@[final(self).selected as int].path@, p),
                        None => true,
                    }
                    &&& final(self).status == old(self).status
                },
                Err(e) => {
                    &&& final(self).status@ == "refresh failed: "@ + e@
                    &&& final(self).documents == old(self).documents
                    &&& final(self).selected == old(self).selected
                },
            },
            final(self).visible == old(self).visible,
            final(self).focused == old(self).focused,
            final(self).width_px == old(self).width_px,
            final(self).view == old(self).view,
            final(self).buffer == old(self).buffer,
            final(self).original == old(self).original,
            final(self).cursor == old(self).cursor,
            final(self).scroll_line == old(self).scroll_line,
    {
        let selected_path: Option<String> = match self.current_path() {
            Some(p) => Some(p.to_owned()),
            None => None,
        };
        self.cwd = Some(cwd);
        match discovered {
            Ok(docs) => {
                let ghost d = docs@;
                let idx: usize = match &selected_path {
                    Some(p) => match find_document(&docs, p.as_str()) {
                        Some(i) => i,
                        None => 0,
                    },
                    None => 0,
                };
                proof {
                    if let Some(p) = selected_path {
                        lemma_position_bound(docs@, p@);
                        crate::laws::law_position_finds_path(docs@, p@);
                    }
                }
                let last = if docs.len() > 0 {
                    docs.len() - 1
                } else {
                    0
                };
                self.selected = if idx < last {
                    idx
                } else {
                    last
                };
                self.documents = docs;
                true
            },
            Err(e) => {
                self.status = concat("refresh failed: ", e.as_str());
                false
            },
        }
    }

    /// Selects document `idx` when there is one; returns whether it is to be loaded.
    pub fn select(&mut self, idx: usize) -> (load: bool)
        ensures
            load == (idx < old(self).documents@.len()),
            final(self).selected == (if load { idx } else { old(self).selected }),
            final(self).visible == old(self).visible,
            final(self).focused == old(self).focused,
            final(self).width_px == old(self).width_px,
            final(self).view == old(self).view,
            final(self).documents == old(self).documents,
            final(self).buffer == old(self).buffer,
            final(self).original == old(self).original,
            final(self).cursor == old(self).cursor,
            final(self).scroll_line == old(self).scroll_line,
            final(self).status == old(self).status,
            final(self).cwd == old(self).cwd,
    {
        if idx < self.documents.len() {
            self.selected = idx;
            true
        } else {
            false
        }
    }

    /// Starts loading the selected document: returns its path, to be validated and read
    /// (then see `finish_load`). With nothing selected, the editor is emptied instead.
    pub fn load_selected(&mut self) -> (path: Option<String>)
        ensures
            match old(self).current_path_spec() {
                Some(p) => path matches Some(q) && q@ == p && *final(self) == *old(self),
                None => {
                    &&& path is None
                    &&& final(self).buffer@.len() == 0
                    &&& final(self).original@.len() == 0
                    &&& final(self).cursor == 0
                    &&& final(self).scroll_line == 0
                    &&& final(self).status@ == "no documents found"@
                    &&& final(self).cursor_ok()
                },
            },
            final(self).visible == old(self).visible,
            final(self).focused == old(self).focused,
            final(self).width_px == old(self).width_px,
            final(self).selected == old(self).selected,
            final(self).view == old(self).view,
            final(self).documents == old(self).documents,
            final(self).cwd == old(self).cwd,
    {
        match self.current_path() {
            Some(p) => Some(p.to_owned()),
            None => {
                self.buffer = String::new();
                self.original = String::new();
                self.cursor = 0;
                self.scroll_line = 0;
                self.status = "no documents found".to_owned();
                proof {
                    lemma_offset_zero_full(self.buffer@);
                    lemma_index_at(self.buffer@, 0);
                }
                None
            },
        }
    }

    /// Takes the verdict on the path `load_selected` returned: returns whether the document
    /// may be read (then read it and see `finish_load`); a rejected path only sets the
    /// status to the reason.
    pub fn validated_load(&mut self, validation: Result<(), String>) -> (read: bool)
        ensures
            read == (validation is Ok),
            match validation {
                Ok(()) => *final(self) == *old(self),
                Err(msg) => final(self).status@ == msg@ && *final(self) == (DocumentWorkbenchState {
                    status: final(self).status,
                    ..*old(self)
                }),
            },
    {
        match validation {
            Ok(()) => true,
            Err(msg) => {
                self.status = msg;
                false
            },
        }
    }

    /// Finishes loading document `path` after it was read: a failed read empties the editor;
    /// a read text becomes both the buffer and the saved text.
    pub fn finish_load(&mut self, path: &str, outcome: LoadOutcome)
        ensures
            match outcome {
                LoadOutcome::ReadFailed(e) => {
                    &&& final(self).status@ == "read failed: "@ + e@
                    &&& final(self).buffer@.len() == 0
                    &&& final(self).original@.len() == 0
                    &&& final(self).cursor == 0
                    &&& final(self).scroll_line == old(self).scroll_line
                    &&& final(self).cursor_ok()
                },
                LoadOutcome::Read(text) => {
                    &&& final(self).status@ == "loaded "@ + path@
                    &&& !final(self).dirty()
                    &&& final(self).buffer@ == text@
                    &&& final(self).original@ == text@
                    &&& final(self).cursor == 0
                    &&& final(self).scroll_line == 0
                    &&& final(self).cursor_ok()
                },
            },
            final(self).visible == old(self).visible,
            final(self).focused == old(self).focused,
            final(self).width_px == old(self).width_px,
            final(self).selected == old(self).selected,
            final(self).view == old(self).view,
            final(self).documents == old(self).documents,
            final(self).cwd == old(self).cwd,
    {
        match outcome {
            LoadOutcome::ReadFailed(e) => {
                self.buffer = String::new();
                self.original = String::new();
                self.cursor = 0;
                self.status = concat("read failed: ", e.as_str());
                proof {
                    lemma_offset_zero_full(self.buffer@);
                    lemma_index_at(self.buffer@, 0);
                }
            },
            LoadOutcome::Read(text) => {
                self.original = text.clone();
                self.buffer = text;
                self.cursor = 0;
                self.scroll_line = 0;
                self.status = concat("loaded ", path);
                proof {
                    lemma_offset_zero_full(self.buffer@);
                    lemma_index_at(self.buffer@, 0);
                }
            },
        }
    }

    /// Starts saving: returns the selected document's path and the working directory, for
    /// validating the path and writing the buffer (then see `finish_save`). Without a
    /// document or a local working directory, only the status says so.
    pub fn begin_save(&mut self) -> (target: Option<(String, String)>)
        ensures
            match (old(self).current_path_spec(), old(self).cwd_path()) {
                (Some(p), Some(c)) => target matches Some((tp, tc)) && tp@ == p && tc@ == c && *final(self) == *old(self),
                (None, _) => target is None && final(self).status@ == "nothing to save"@,
                (Some(_), None) => target is None && final(self).status@ == "local file pane required"@,
            },
            final(self).visible == old(self).visible,
            final(self).focused == old(self).focused,
            final(self).width_px == old(self).width_px,
            final(self).selected == old(self).selected,
            final(self).view == old(self).view,
            final(self).documents == old(self).documents,
            final(self).buffer == old(self).buffer,
            final(self).original == old(self).original,
            final(self).cursor == old(self).cursor,
            final(self).scroll_line == old(self).scroll_line,
            final(self).cwd == old(self).cwd,
    {
        let path = match self.current_path() {
            Some(p) => p.to_owned(),
            None => {
                self.status = "nothing to save".to_owned();
                return None;
            },
        };
        let cwd = match &self.cwd {
            Some(c) => c.clone(),
            None => {
                self.status = "local file pane required".to_owned();
                return None;
            },
        };
        Some((path, cwd))
    }

    /// Takes the verdict on the path `begin_save` returned: returns the text to write to it
    /// (the buffer) when the path passed; a rejected path only sets the status to the reason,
    /// and nothing is to be written.
    pub fn validated_save(&mut self, validation: Result<(), String>) -> (contents: Option<String>)
        ensures
            contents is Some <==> validation is Ok,
            contents matches Some(b) ==> b@ == old(self).buffer@,
            match validation {
                Ok(()) => *final(self) == *old(self),
                Err(msg) => final(self).status@ == msg@ && *final(self) == (DocumentWorkbenchState {
                    status: final(self).status,
                    ..*old(self)
                }),
            },
    {
        match validation {
            Ok(()) => Some(self.buffer.clone()),
            Err(msg) => {
                self.status = msg;
                None
            },
        }
    }

    /// Finishes saving to `path` after the buffer was written or the write failed. Returns
    /// whether it was written, in which case it is now the saved text (and `path` is to be
    /// recorded as a recent document).
    pub fn finish_save(&mut self, path: &str, outcome: SaveOutcome) -> (written: bool)
        ensures
            written == (outcome is Written),
            match outcome {
                SaveOutcome::WriteFailed(e) => final(self).status@ == "save failed: "@ + e@
                    && final(self).original == old(self).original,
                SaveOutcome::Written => final(self).status@ == "saved "@ + path@
                    && final(self).original@ == old(self).buffer@ && !final(self).dirty(),
            },
            final(self).visible == old(self).visible,
            final(self).focused == old(self).focused,
            final(self).width_px == old(self).width_px,
            final(self).selected == old(self).selected,
            final(self).view == old(self).view,
            final(self).documents == old(self).documents,
            final(self).buffer == old(self).buffer,
            final(self).cursor == old(self).cursor,
            final(self).scroll_line == old(self).scroll_line,
            final(self).cwd == old(self).cwd,
    {
        match outcome {
            SaveOutcome::WriteFailed(e) => {
                self.status = concat("save failed: ", e.as_str());
                false
            },
            SaveOutcome::Written => {
                self.original = self.buffer.clone();
                self.status = concat("saved ", path);
                true
            },
        }
    }

    /// Drops the edits: the buffer goes back to the saved text, the cursor is kept within it.
    pub fn discard(&mut self)
        ensures
            final(self).buffer@ == old(self).original@,
            final(self).cursor == vstd::math::min(old(self).cursor as int, blen(old(self).original@)),
            final(self).status@ == "discarded local edits"@,
            final(self).wf(),
            !final(self).dirty(),
            final(self).visible == old(self).visible,
            final(self).focused == old(self).focused,
            final(self).width_px == old(self).width_px,
            final(self).selected == old(self).selected,
            final(self).view == old(self).view,
            final(self).documents == old(self).documents,
            final(self).original == old(self).original,
            final(self).scroll_line == old(self).scroll_line,
            final(self).cwd == old(self).cwd,
    {
        self.buffer = self.original.clone();
        let len = byte_len(self.buffer.as_str());
        if len < self.cursor {
            self.cursor = len;
        }
        self.status = "discarded local edits".to_owned();
    }

    /// Reports the selected path as copied (the copy itself is the caller's).
    pub fn copy_path(&mut self)
        ensures
            match old(self).current_path_spec() {
                Some(p) => final(self).status@ == "copied "@ + p,
                None => final(self).status@ == "no path selected"@,
            },
            final(self).visible == old(self).visible,
            final(self).focused == old(self).focused,
            final(self).width_px == old(self).width_px,
            final(self).selected == old(self).selected,
            final(self).view == old(self).view,
            final(self).documents == old(self).documents,
            final(self).buffer == old(self).buffer,
            final(self).original == old(self).original,
            final(self).cursor == old(self).cursor,
            final(self).scroll_line == old(self).scroll_line,
            final(self).cwd == old(self).cwd,
    {
        let msg = match self.current_path() {
            Some(p) => concat("copied ", p),
            None => "no path selected".to_owned(),
        };
        self.status = msg;
    }

    /// Starts opening the selected document in an outside program: returns its path and the
    /// working directory for validating the path (then see `finish_open_external`).
    pub fn begin_open_external(&mut self) -> (target: Option<(String, String)>)
        ensures
            match (old(self).current_path_spec(), old(self).cwd_path()) {
                (Some(p), Some(c)) => target matches Some((tp, tc)) && tp@ == p && tc@ == c && *final(self) == *old(self),
                (None, _) => target is None && final(self).status@ == "no path selected"@,
                (Some(_), None) => target is None && final(self).status@ == "local file pane required"@,
            },
            final(self).visible == old(self).visible,
            final(self).focused == old(self).focused,
            final(self).width_px == old(self).width_px,
            final(self).selected == old(self).selected,
            final(self).view == old(self).view,
            final(self).documents == old(self).documents,
            final(self).buffer == old(self).buffer,
            final(self).original == old(self).original,
            final(self).cursor == old(self).cursor,
            final(self).scroll_line == old(self).scroll_line,
            final(self).cwd == old(self).cwd,
    {
        let path = match self.current_path() {
            Some(p) => p.to_owned(),
            None => {
                self.status = "no path selected".to_owned();
                return None;
            },
        };
        let cwd = match &self.cwd {
            Some(c) => c.clone(),
            None => {
                self.status = "local file pane required".to_owned();
                return None;
            },
        };
        Some((path, cwd))
    }

    /// Takes the file URL made of `path`: returns the URL to open and reports it opened, or
    /// reports that it cannot be opened.
    pub fn apply_file_url(&mut self, path: &str, url: Result<String, ()>) -> (open: Option<String>)
        ensures
            match url {
                Ok(u) => open == Some(u) && final(self).status@ == "opened "@ + path@,
                Err(()) => open is None && final(self).status@ == "cannot open "@ + path@,
            },
            final(self).visible == old(self).visible,
            final(self).focused == old(self).focused,
            final(self).width_px == old(self).width_px,
            final(self).selected == old(self).selected,
            final(self).view == old(self).view,
            final(self).documents == old(self).documents,
            final(self).buffer == old(self).buffer,
            final(self).original == old(self).original,
            final(self).cursor == old(self).cursor,
            final(self).scroll_line == old(self).scroll_line,
            final(self).cwd == old(self).cwd,
    {
        match url {
            Ok(u) => {
                self.status = concat("opened ", path);
                Some(u)
            },
            Err(()) => {
                self.status = concat("cannot open ", path);
                None
            },
        }
    }

    /// Finishes opening `path` externally once it was validated: a rejected path only sets
    /// the status; otherwise the path's file URL is returned, to be opened.
    pub fn finish_open_external(&mut self, path: &str, validation: Result<(), String>) -> (open: Option<String>)
        ensures
            match validation {
                Err(msg) => open is None && final(self).status@ == msg@,
                Ok(()) => {
                    &&& (open is Some <==> has_root(path@))
                    &&& open matches Some(u) ==> u@ == file_url_spec(path@)
                    &&& if has_root(path@) {
                        final(self).status@ == "opened "@ + path@
                    } else {
                        final(self).status@ == "cannot open "@ + path@
                    }
                },
            },
            final(self).visible == old(self).visible,
            final(self).focused == old(self).focused,
            final(self).width_px == old(self).width_px,
            final(self).selected == old(self).selected,
            final(self).view == old(self).view,
            final(self).documents == old(self).documents,
            final(self).buffer == old(self).buffer,
            final(self).original == old(self).original,
            final(self).cursor == old(self).cursor,
            final(self).scroll_line == old(self).scroll_line,
            final(self).cwd == old(self).cwd,
    {
        match validation {
            Err(msg) => {
                self.status = msg;
                None
            },
            Ok(()) => {
                let url = file_url(path);
                self.apply_file_url(path, url)
            },
        }
    }

    /// Line index of the cursor: the newlines before it.
    pub open spec fn cursor_line(&self) -> nat {
        let s = self.buffer@;
        count_newlines(s.take(index_at(s, vstd::math::min(self.cursor as int, blen(s)))))
    }

    /// Byte column of the cursor within its line.
    pub open spec fn cursor_col(&self) -> int {
        let s = self.buffer@;
        self.cursor - offset(s, line_begin(s, index_at(s, vstd::math::min(self.cursor as int, blen(s)))))
    }

    /// The source rows shown: lines from `scroll_line` on, at most `max_lines` of them, each
    /// numbered and cut to the width; the cursor's line carries a `|` while focused.
    pub open spec fn source_rows(&self, width: nat, max_lines: nat) -> Seq<Seq<char>> {
        let ls = lines_of(self.buffer@);
        let avail: int = if ls.len() > self.scroll_line { ls.len() - self.scroll_line } else { 0 };
        let count: int = vstd::math::min(avail, max_lines as int);
        Seq::new(count as nat, |j: int| {
            let idx = self.scroll_line + j;
            let line = ls[idx];
            source_row(
                (idx + 1) as nat,
                if self.focused && idx == self.cursor_line() {
                    mark_cursor(line, self.cursor_col())
                } else {
                    line
                },
                width,
            )
        })
    }

    /// The source view: `source_rows`, or a single `(empty)` row when there are none.
    pub open spec fn source_view(&self, width: nat, max_lines: nat) -> Seq<Seq<char>> {
        if self.source_rows(width, max_lines).len() == 0 {
            seq!["(empty)"@]
        } else {
            self.source_rows(width, max_lines)
        }
    }

    /// The preview view: the preview text's lines wrapped at `width`, at most `max_lines` of
    /// them; `(empty preview)` when the text has no lines.
    pub open spec fn preview_view(&self, width: nat, max_lines: nat) -> Seq<Seq<char>> {
        let all = wrapped_lines(lines_of(self.preview_text()), width);
        if all.len() == 0 {
            seq!["(empty preview)"@]
        } else {
            all.take(vstd::math::min(all.len() as int, max_lines as int))
        }
    }

    /// The source view.
    pub fn source_lines(&self, width: usize, max_lines: usize) -> (r: Vec<String>)
        requires
            is_boundary(self.buffer@, vstd::math::min(self.cursor as int, blen(self.buffer@))),
        ensures
            r.deep_view() == self.source_view(width as nat, max_lines as nat),
    {
        let ghost s = self.buffer@;
        let v = chars_of(self.buffer.as_str());
        let total = byte_len(self.buffer.as_str());
        let c = if self.cursor < total {
            self.cursor
        } else {
            total
        };
        let k = index_of_offset(&v, c);
        let mut cl: usize = 0;
        let mut i: usize = 0;
        while i < k
            invariant
                k <= v.len(),
                i <= k,
                cl == count_newlines(v@.take(i as int)),
                cl <= i,
            decreases k - i,
        {
            assert(v@.take(i + 1).drop_last() =~= v@.take(i as int));
            if v[i] == '\n' {
                cl = cl + 1;
            }
            i = i + 1;
        }
        let ls0 = line_start(self.buffer.as_str(), self.cursor);
        proof {
            lemma_offset_zero_full(s);
            crate::cursor::lemma_line_begin_range(s, k as int);
            crate::text::lemma_offset_mono(s, line_begin(s, k as int), k as int);
            lemma_offset_bounds(s, k as int);
        }
        let col: usize = self.cursor - ls0;
        let ls = lines(&v);
        let ghost rows = self.source_rows(width as nat, max_lines as nat);
        let inner: usize = if width >= 6 {
            width - 6
        } else {
            0
        };
        let mut out: Vec<String> = Vec::new();
        let mut idx: usize = self.scroll_line;
        while idx < ls.len() && out.len() < max_lines
            invariant
                views(ls@) == lines_of(s),
                s == self.buffer@,
                cl == self.cursor_line(),
                col == self.cursor_col(),
                inner == (if width >= 6 { (width - 6) as nat } else { 0 }),
                rows == self.source_rows(width as nat, max_lines as nat),
                idx >= self.scroll_line,
                out@.len() == idx - self.scroll_line,
                out@.len() <= max_lines,
                out.deep_view() == rows.take(out@.len() as int),
                out@.len() <= rows.len(),
            decreases ls.len() - idx,
        {
            let mut line = ls[idx].clone();
            assert(line@ == views(ls@)[idx as int]);
            if self.focused && idx == cl {
                let line_text = crate::text::string_of(&line);
                let lt = byte_len(line_text.as_str());
                let cc = if col < lt {
                    col
                } else {
                    lt
                };
                match crate::cursor::find_boundary(&line, cc) {
                    Some(bk) => {
                        line.insert(bk, '|');
                    },
                    None => {},
                }
            }
            let label = line_label(idx + 1);
            let mut row: Vec<char> = label;
            row.push(' ');
            let cut = truncate_chars(&line, inner);
            extend_chars(&mut row, &cut);
            let ghost before = out.deep_view();
            out.push(crate::text::string_of(&row));
            proof {
                assert(out.deep_view() =~= before.push(row@));
                assert(row@ == rows[before.len() as int]);
                assert(rows.take(out@.len() as int) =~= rows.take(before.len() as int).push(rows[before.len() as int]));
            }
            idx = idx + 1;
        }
        assert(out@.len() == rows.len());
        assert(rows.take(out@.len() as int) =~= rows);
        if out.len() == 0 {
            out.push("(empty)".to_owned());
            assert(out.deep_view() =~= seq!["(empty)"@]);
        }
        out
    }

    /// The text previewed for the selected document: Markdown and HTML rendered as plain
    /// text, anything else as it is.
    pub open spec fn preview_text(&self) -> Seq<char> {
        match self.current_spec() {
            Some(d) => match d.kind {
                DocumentKind::Markdown => markdown_preview_spec(self.buffer@),
                DocumentKind::Html => html_preview_spec(self.buffer@),
                DocumentKind::Text => self.buffer@,
            },
            None => self.buffer@,
        }
    }

    /// The preview view.
    pub fn preview_lines(&self, width: usize, max_lines: usize) -> (r: Vec<String>)
        ensures
            r.deep_view() == self.preview_view(width as nat, max_lines as nat),
    {
        let text: String = match self.current() {
            Some(d) => match d.kind {
                DocumentKind::Markdown => markdown_preview(self.buffer.as_str()),
                DocumentKind::Html => html_preview(self.buffer.as_str()),
                DocumentKind::Text => self.buffer.clone(),
            },
            None => self.buffer.clone(),
        };
        let ghost all = wrapped_lines(lines_of(self.preview_text()), width as nat);
        let v = chars_of(text.as_str());
        let ls = lines(&v);
        let mut out: Vec<String> = Vec::new();
        let mut i: usize = 0;
        assert(views(ls@).take(0) =~= Seq::<Seq<char>>::empty());
        while i < ls.len()
            invariant
                views(ls@) == lines_of(self.preview_text()),
                all == wrapped_lines(views(ls@), width as nat),
                i <= ls.len(),
                out.deep_view() == wrapped_lines(views(ls@).take(i as int), width as nat),
                out@.len() <= max_lines,
            decreases ls.len() - i,
        {
            proof {
                assert(views(ls@).take(i + 1).drop_last() =~= views(ls@).take(i as int));
                lemma_wrapped_prefix(views(ls@), i as int + 1, ls@.len() as int);
            }
            let line_text = crate::text::string_of(&ls[i]);
            let pieces = wrap_line(line_text.as_str(), width);
            let mut j: usize = 0;
            let ghost base = out.deep_view();
            proof {
                assert(ls@[i as int]@ == views(ls@)[i as int]);
                assert(views(ls@).take(i + 1).last() == views(ls@)[i as int]);
                assert(ls@.len() <= views(ls@).len());
                assert(views(ls@).take(ls@.len() as int) =~= views(ls@));
            }
            while j < pieces.len()
                invariant
                    j <= pieces.len(),
                    i < ls@.len(),
                    base == wrapped_lines(views(ls@).take(i as int), width as nat),
                    pieces.deep_view() == wrap_spec(ls@[i as int]@, width as nat),
                    wrapped_lines(views(ls@).take(i + 1), width as nat) == base + pieces.deep_view(),
                    wrapped_lines(views(ls@).take(i + 1), width as nat).is_prefix_of(all),
                    all == wrapped_lines(views(ls@), width as nat),
                    all == wrapped_lines(lines_of(self.preview_text()), width as nat),
                    out.deep_view() == base + pieces.deep_view().take(j as int),
                    out@.len() <= max_lines,
                decreases pieces.len() - j,
            {
                if out.len() >= max_lines {
                    proof {
                        let w = wrapped_lines(views(ls@).take(i + 1), width as nat);
                        assert(w.len() == base.len() + pieces@.len());
                        assert(all.len() >= w.len());
                        assert(out.deep_view().len() == max_lines);
                        assert forall|q: int| 0 <= q < max_lines implies out.deep_view()[q] == all[q] by {
                            assert(out.deep_view()[q] == w[q]);
                            assert(w[q] == all[q]);
                        }
                        assert(out.deep_view() =~= all.take(max_lines as int));
                    }
                    return out;
                }
                let ghost before = out.deep_view();
                let piece = pieces[j].clone();
                out.push(piece);
                proof {
                    assert(pieces.deep_view()[j as int] == pieces@[j as int]@);
                    assert(out.deep_view() =~= before.push(piece@));
                    assert(pieces.deep_view().take(j + 1) =~= pieces.deep_view().take(j as int).push(pieces.deep_view()[j as int]));
                }
                j = j + 1;
                assert(out.deep_view() =~= base + pieces.deep_view().take(j as int));
            }
            assert(pieces.deep_view().take(j as int) =~= pieces.deep_view());
            i = i + 1;
        }
        assert(views(ls@).take(i as int) =~= views(ls@));
        if out.len() == 0 {
            out.push("(empty preview)".to_owned());
            assert(out.deep_view() =~= seq!["(empty preview)"@]);
        } else {
            assert(all.take(all.len() as int) =~= all);
        }
        out
    }
}

} // verus!
