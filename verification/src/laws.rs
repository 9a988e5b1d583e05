use vstd::prelude::*;
use crate::cursor::{index_at, lemma_boundary_index, lemma_index_at};
use crate::discovery::{first_occurrences, recent_after_use, without_path};
use crate::paths::path_eq;
use crate::preview::{chunks, html_preview_spec, html_strip, is_ws, join_spaces, words_acc, words_of, wrap_spec};
use crate::keys::{edit_action_spec, EditAction, KeyCode, Modifiers};
use crate::model::{DocumentEntry, DocumentKind};
use crate::paths::kind_of_extension;
use crate::preview::{lines_of, markdown_preview_spec, markdown_render, pad_left, decimal, split_lines_acc, strip_repeated, truncate_spec};
use crate::state::{mark_cursor, position_of, DocumentWorkbenchState};
use crate::text::{blen, char_width, is_boundary, lemma_blen_concat, lemma_blen_single, lemma_offset_bounds, offset};

verus! {

/// Typing a char at the cursor and then pressing Backspace gives back the text: the char
/// is inserted at char index `k`, the cursor lands just after it, and removing the char
/// before that cursor restores `s` with the cursor back at its old byte offset.
pub proof fn law_insert_then_backspace(s: Seq<char>, k: int, c: char)
    requires
        0 <= k <= s.len(),
    ensures
        ({
            let t = s.take(k) + seq![c] + s.skip(k);
            &&& index_at(t, offset(t, k + 1)) == k + 1
            &&& t.remove(k) == s
            &&& offset(t, k) == offset(s, k)
        }),
{
    let t = s.take(k) + seq![c] + s.skip(k);
    lemma_index_at(t, k + 1);
    assert(t.remove(k) =~= s);
    assert(t.take(k) =~= s.take(k));
}

/// Wrapping loses and adds nothing: the pieces of a line, put together, are the line; every
/// piece but the last has exactly `max(width, 8)` chars and the last is not empty (unless
/// the line is).
pub proof fn law_wrap_pieces(line: Seq<char>, width: nat)
    ensures
        wrap_spec(line, width).flatten() == line,
        ({
            let w: nat = if width < 8 { 8 } else { width };
            let p = wrap_spec(line, width);
            &&& p.len() >= 1
            &&& forall|i: int| 0 <= i < p.len() - 1 ==> (#[trigger] p[i]).len() == w
            &&& p.last().len() <= w
            &&& line.len() > 0 ==> p.last().len() > 0
        }),
{
    let w: nat = if width < 8 { 8 } else { width };
    lemma_chunks(line, w);
}

proof fn lemma_chunks(s: Seq<char>, w: nat)
    requires
        w > 0,
    ensures
        chunks(s, w).flatten() == s,
        chunks(s, w).len() >= 1,
        forall|i: int| 0 <= i < chunks(s, w).len() - 1 ==> (#[trigger] chunks(s, w)[i]).len() == w,
        chunks(s, w).last().len() <= w,
        s.len() > 0 ==> chunks(s, w).last().len() > 0,
    decreases s.len(),
{
    if s.len() <= w {
        seq![s].lemma_flatten_one_element();
    } else {
        let rest = chunks(s.skip(w as int), w);
        lemma_chunks(s.skip(w as int), w);
        let all = seq![s.take(w as int)] + rest;
        assert(all.drop_first() =~= rest);
        assert(all.flatten() =~= s.take(w as int) + rest.flatten());
        assert(s.take(w as int) + s.skip(w as int) =~= s);
        assert forall|i: int| 0 <= i < all.len() - 1 implies (#[trigger] all[i]).len() == w by {
            if i > 0 {
                assert(all[i] == rest[i - 1]);
            }
        }
        assert(all.last() == rest.last());
    }
}

/// The recent list after using a path starts with that path, holds it once, and keeps at
/// most 100 paths.
pub proof fn law_recent_front(ps: Seq<Seq<char>>, p: Seq<char>)
    ensures
        recent_after_use(ps, p).len() >= 1,
        recent_after_use(ps, p)[0] == p,
        recent_after_use(ps, p).len() <= 100,
        forall|i: int| 1 <= i < recent_after_use(ps, p).len() ==> !path_eq(#[trigger] recent_after_use(ps, p)[i], p),
{
    lemma_without(ps, p);
    let r = seq![p] + without_path(ps, p);
    assert forall|i: int| 1 <= i < recent_after_use(ps, p).len() implies !path_eq(#[trigger] recent_after_use(ps, p)[i], p) by {
        assert(recent_after_use(ps, p)[i] == r[i]);
        assert(r[i] == without_path(ps, p)[i - 1]);
    }
}

proof fn lemma_without(ps: Seq<Seq<char>>, p: Seq<char>)
    ensures
        forall|i: int| 0 <= i < without_path(ps, p).len() ==> !path_eq(#[trigger] without_path(ps, p)[i], p),
    decreases ps.len(),
{
    if ps.len() > 0 {
        lemma_without(ps.drop_last(), p);
        let r = without_path(ps.drop_last(), p);
        let t = without_path(ps, p);
        assert forall|i: int| 0 <= i < t.len() implies !path_eq(#[trigger] t[i], p) by {
            if i < r.len() {
                assert(t[i] == r[i]);
            }
        }
    }
}

/// No two candidate documents name the same path.
pub proof fn law_candidates_distinct(c: Seq<(crate::model::DocumentSource, Seq<char>)>)
    ensures
        forall|i: int, j: int|
            0 <= i < j < first_occurrences(c).len() ==> !path_eq(
                #[trigger] first_occurrences(c)[i].1,
                #[trigger] first_occurrences(c)[j].1,
            ),
    decreases c.len(),
{
    if c.len() > 0 {
        let d = c.drop_last();
        law_candidates_distinct(d);
        let f = first_occurrences(c);
        let g = first_occurrences(d);
        if !crate::discovery::seen_before(c, c.len() - 1, c.last().1) {
            crate::discovery::lemma_first_occ_seen(c, c.len() - 1, c.last().1);
            assert(c.take(c.len() - 1) =~= d);
            assert forall|i: int, j: int| 0 <= i < j < f.len() implies !path_eq(#[trigger] f[i].1, #[trigger] f[j].1) by {
                if j == f.len() - 1 {
                    assert(f[i] == g[i]);
                    if path_eq(f[i].1, f[j].1) {
                        assert(path_eq(g[i].1, c.last().1));
                    }
                } else {
                    assert(f[i] == g[i]);
                    assert(f[j] == g[j]);
                }
            }
        }
    }
}

proof fn lemma_strip_free(s: Seq<char>)
    ensures
        forall|i: int| 0 <= i < html_strip(s).0.len() ==> (#[trigger] html_strip(s).0[i]) != '<'
            && html_strip(s).0[i] != '>',
    decreases s.len(),
{
    if s.len() > 0 {
        lemma_strip_free(s.drop_last());
        let r = html_strip(s.drop_last()).0;
        let t = html_strip(s).0;
        assert forall|i: int| 0 <= i < t.len() implies (#[trigger] t[i]) != '<' && t[i] != '>' by {
            if i < r.len() {
                assert(t[i] == r[i]);
            }
        }
    }
}

proof fn lemma_words_free(s: Seq<char>)
    requires
        forall|i: int| 0 <= i < s.len() ==> (#[trigger] s[i]) != '<' && s[i] != '>',
    ensures
        forall|w: int, i: int|
            0 <= w < words_acc(s).0.len() && 0 <= i < words_acc(s).0[w].len() ==> (#[trigger] words_acc(s).0[w][i]) != '<'
                && words_acc(s).0[w][i] != '>',
        forall|i: int| 0 <= i < words_acc(s).1.len() ==> (#[trigger] words_acc(s).1[i]) != '<' && words_acc(s).1[i] != '>',
    decreases s.len(),
{
    if s.len() > 0 {
        let d = s.drop_last();
        assert forall|i: int| 0 <= i < d.len() implies (#[trigger] d[i]) != '<' && d[i] != '>' by {
            assert(d[i] == s[i]);
        }
        lemma_words_free(d);
        let (done, cur) = words_acc(d);
        let (done2, cur2) = words_acc(s);
        assert(s.last() == s[s.len() - 1]);
        assert forall|w: int, i: int| 0 <= w < done2.len() && 0 <= i < done2[w].len() implies (#[trigger] done2[w][i]) != '<'
            && done2[w][i] != '>' by {
            if w < done.len() {
                assert(done2[w] == done[w]);
            } else {
                assert(done2[w] == cur);
            }
        }
        assert forall|i: int| 0 <= i < cur2.len() implies (#[trigger] cur2[i]) != '<' && cur2[i] != '>' by {
            if i < cur.len() && cur2.len() > 0 {
                if cur2 == cur.push(s.last()) {
                    assert(cur2[i] == cur[i]);
                }
            }
        }
    }
}

proof fn lemma_join_free(ws: Seq<Seq<char>>)
    requires
        forall|w: int, i: int| 0 <= w < ws.len() && 0 <= i < ws[w].len() ==> (#[trigger] ws[w][i]) != '<' && ws[w][i] != '>',
    ensures
        forall|i: int| 0 <= i < join_spaces(ws).len() ==> (#[trigger] join_spaces(ws)[i]) != '<' && join_spaces(ws)[i]
            != '>',
    decreases ws.len(),
{
    if ws.len() > 1 {
        let d = ws.drop_last();
        assert forall|w: int, i: int| 0 <= w < d.len() && 0 <= i < d[w].len() implies (#[trigger] d[w][i]) != '<'
            && d[w][i] != '>' by {
            assert(d[w] == ws[w]);
        }
        lemma_join_free(d);
        let j = join_spaces(ws);
        let a = join_spaces(d);
        assert forall|i: int| 0 <= i < j.len() implies (#[trigger] j[i]) != '<' && j[i] != '>' by {
            if i < a.len() {
                assert(j[i] == a[i]);
            } else if i == a.len() {
                assert(j[i] == ' ');
            } else {
                assert(j[i] == ws.last()[i - a.len() - 1]);
                assert(ws.last() == ws[ws.len() - 1]);
            }
        }
    } else if ws.len() == 1 {
        assert forall|i: int| 0 <= i < join_spaces(ws).len() implies (#[trigger] join_spaces(ws)[i]) != '<' && join_spaces(ws)[i]
            != '>' by {
            assert(join_spaces(ws)[i] == ws[0][i]);
        }
    }
}

/// The HTML preview holds no markup brackets: every `<` opens a dropped tag and every `>`
/// becomes a space.
pub proof fn law_html_preview_has_no_tags(s: Seq<char>)
    ensures
        forall|i: int| 0 <= i < html_preview_spec(s).len() ==> (#[trigger] html_preview_spec(s)[i]) != '<'
            && html_preview_spec(s)[i] != '>',
{
    let t = html_strip(s).0;
    lemma_strip_free(s);
    lemma_words_free(t);
    let (done, cur) = words_acc(t);
    let ws = words_of(t);
    assert forall|w: int, i: int| 0 <= w < ws.len() && 0 <= i < ws[w].len() implies (#[trigger] ws[w][i]) != '<'
        && ws[w][i] != '>' by {
        if w < done.len() {
            assert(ws[w] == done[w]);
        } else {
            assert(ws[w] == cur);
        }
    }
    lemma_join_free(ws);
}

/// A word as `split_whitespace` yields it: not empty, no whitespace in it.
spec fn is_word(w: Seq<char>) -> bool {
    w.len() > 0 && forall|i: int| 0 <= i < w.len() ==> !is_ws(#[trigger] w[i])
}

proof fn lemma_words_are_words(s: Seq<char>)
    ensures
        forall|w: int| 0 <= w < words_acc(s).0.len() ==> is_word(#[trigger] words_acc(s).0[w]),
        forall|i: int| 0 <= i < words_acc(s).1.len() ==> !is_ws(#[trigger] words_acc(s).1[i]),
        forall|w: int| 0 <= w < words_of(s).len() ==> is_word(#[trigger] words_of(s)[w]),
    decreases s.len(),
{
    if s.len() > 0 {
        lemma_words_are_words(s.drop_last());
        let (d0, c0) = words_acc(s.drop_last());
        let (d, c) = words_acc(s);
        assert forall|w: int| 0 <= w < d.len() implies is_word(#[trigger] d[w]) by {
            if w < d0.len() {
                assert(d[w] == d0[w]);
            }
        }
        assert forall|i: int| 0 <= i < c.len() implies !is_ws(#[trigger] c[i]) by {
            if i < c0.len() {
                assert(c[i] == c0[i]);
            }
        }
    }
    let (d, c) = words_acc(s);
    assert forall|w: int| 0 <= w < words_of(s).len() implies is_word(#[trigger] words_of(s)[w]) by {
        if w < d.len() {
            assert(words_of(s)[w] == d[w]);
        }
    }
}

proof fn lemma_words_acc_word(p: Seq<char>, w: Seq<char>)
    requires
        forall|i: int| 0 <= i < w.len() ==> !is_ws(#[trigger] w[i]),
    ensures
        words_acc(p + w).0 == words_acc(p).0,
        words_acc(p + w).1 == words_acc(p).1 + w,
    decreases w.len(),
{
    if w.len() == 0 {
        assert(p + w =~= p);
        assert(words_acc(p).1 + w =~= words_acc(p).1);
    } else {
        let v = w.drop_last();
        assert forall|i: int| 0 <= i < v.len() implies !is_ws(#[trigger] v[i]) by {
            assert(v[i] == w[i]);
        }
        lemma_words_acc_word(p, v);
        assert((p + w).drop_last() =~= p + v);
        assert((p + w).last() == w[w.len() - 1]);
        assert(!is_ws(w[w.len() - 1]));
        assert((words_acc(p).1 + v).push(w.last()) =~= words_acc(p).1 + w);
    }
}

proof fn lemma_words_of_join(ws: Seq<Seq<char>>)
    requires
        forall|w: int| 0 <= w < ws.len() ==> is_word(#[trigger] ws[w]),
    ensures
        ws.len() > 0 ==> words_acc(join_spaces(ws)).0 == ws.drop_last() && words_acc(join_spaces(ws)).1 == ws.last(),
        words_of(join_spaces(ws)) == ws,
    decreases ws.len(),
{
    let e = Seq::<char>::empty();
    if ws.len() == 0 {
        assert(words_of(join_spaces(ws)) =~= ws);
    } else if ws.len() == 1 {
        assert(is_word(ws[0]));
        lemma_words_acc_word(e, ws[0]);
        assert(e + ws[0] =~= ws[0]);
        assert(words_acc(e).1 + ws[0] =~= ws[0]);
        assert(ws.drop_last() =~= Seq::<Seq<char>>::empty());
        assert(words_of(join_spaces(ws)) =~= ws);
    } else {
        let d = ws.drop_last();
        assert forall|w: int| 0 <= w < d.len() implies is_word(#[trigger] d[w]) by {
            assert(d[w] == ws[w]);
        }
        lemma_words_of_join(d);
        assert(is_word(ws[ws.len() - 1]));
        assert(is_word(d[d.len() - 1]));
        let jd = join_spaces(d);
        let p = jd + seq![' '];
        assert(p.drop_last() =~= jd);
        assert(is_ws(' '));
        assert(words_acc(p).0 =~= d);
        assert(words_acc(p).1.len() == 0);
        lemma_words_acc_word(p, ws.last());
        assert(join_spaces(ws) == p + ws.last());
        assert(words_acc(p).1 + ws.last() =~= ws.last());
        assert(d.push(ws.last()) =~= ws);
        assert(words_of(join_spaces(ws)) =~= ws);
    }
}

proof fn lemma_strip_plain(s: Seq<char>)
    requires
        forall|i: int| 0 <= i < s.len() ==> (#[trigger] s[i]) != '<' && s[i] != '>',
    ensures
        html_strip(s).0 == s,
        !html_strip(s).1,
    decreases s.len(),
{
    if s.len() > 0 {
        let d = s.drop_last();
        assert forall|i: int| 0 <= i < d.len() implies (#[trigger] d[i]) != '<' && d[i] != '>' by {
            assert(d[i] == s[i]);
        }
        lemma_strip_plain(d);
        assert(s[s.len() - 1] != '<' && s[s.len() - 1] != '>');
        assert(d.push(s.last()) =~= s);
    }
}

/// On text without `<` or `>` the HTML preview is the text's words joined by single spaces.
pub proof fn law_html_preview_plain_text(s: Seq<char>)
    requires
        forall|i: int| 0 <= i < s.len() ==> (#[trigger] s[i]) != '<' && s[i] != '>',
    ensures
        html_preview_spec(s) == join_spaces(words_of(s)),
{
    lemma_strip_plain(s);
}

/// The HTML preview is normalised (its words joined by single spaces give it back), and
/// previewing it again changes nothing.
pub proof fn law_html_preview_normalized(s: Seq<char>)
    ensures
        join_spaces(words_of(html_preview_spec(s))) == html_preview_spec(s),
        html_preview_spec(html_preview_spec(s)) == html_preview_spec(s),
{
    let r = html_preview_spec(s);
    let ws = words_of(html_strip(s).0);
    lemma_words_are_words(html_strip(s).0);
    lemma_words_of_join(ws);
    law_html_preview_has_no_tags(s);
    law_html_preview_plain_text(r);
}

/// A char key pressed without Ctrl, Super or Alt types that char, whether Shift (or any
/// other modifier) is held or not.
pub proof fn law_plain_char_is_typed(c: char, mods: Modifiers)
    requires
        !mods.ctrl,
        !mods.super_key,
        !mods.alt,
    ensures
        edit_action_spec(KeyCode::Char(c), mods) == EditAction::Insert(c),
{
}

/// Each row of the source view is labelled with the number (counted from 1) of its line in
/// the whole text, right-aligned in four columns and followed by a space; the view shows
/// the lines from the scroll position on, as many as there are and fit; a row without the
/// cursor marker is its line cut to `width - 6` columns.
pub proof fn law_source_rows_numbered(st: DocumentWorkbenchState, width: nat, max_lines: nat)
    ensures
        ({
            let ls = lines_of(st.buffer@);
            let rows = st.source_rows(width, max_lines);
            &&& rows.len() == vstd::math::min(
                if ls.len() > st.scroll_line { ls.len() - st.scroll_line } else { 0 },
                max_lines as int,
            )
            &&& forall|j: int| 0 <= j < rows.len() ==> (pad_left(decimal((st.scroll_line + j + 1) as nat), 4) + seq![' ']).is_prefix_of(#[trigger] rows[j])
            &&& forall|j: int| 0 <= j < rows.len() && !(st.focused && st.scroll_line + j == st.cursor_line()) ==> #[trigger] rows[j]
                == pad_left(decimal((st.scroll_line + j + 1) as nat), 4) + seq![' '] + truncate_spec(
                ls[st.scroll_line + j],
                if width >= 6 { (width - 6) as nat } else { 0 },
            )
            &&& forall|j: int| 0 <= j < rows.len() && st.focused && st.scroll_line + j == st.cursor_line() ==> #[trigger] rows[j]
                == pad_left(decimal((st.scroll_line + j + 1) as nat), 4) + seq![' '] + truncate_spec(
                mark_cursor(ls[st.scroll_line + j], st.cursor_col()),
                if width >= 6 { (width - 6) as nat } else { 0 },
            )
        }),
{
    let rows = st.source_rows(width, max_lines);
    assert forall|j: int| 0 <= j < rows.len() implies (pad_left(decimal((st.scroll_line + j + 1) as nat), 4) + seq![' ']).is_prefix_of(#[trigger] rows[j]) by {
        let lab = pad_left(decimal((st.scroll_line + j + 1) as nat), 4) + seq![' '];
        assert(rows[j].take(lab.len() as int) =~= lab);
    }
}

/// Looking a path up among the documents finds it exactly when some document has that path
/// (compared as paths), and then gives the first such document.
pub proof fn law_position_finds_path(docs: Seq<DocumentEntry>, p: Seq<char>)
    ensures
        (position_of(docs, p) is Some) <==> (exists|i: int| 0 <= i < docs.len() && path_eq(#[trigger] docs[i].path@, p)),
        position_of(docs, p) matches Some(i) ==> {
            &&& 0 <= i < docs.len()
            &&& path_eq(docs[i].path@, p)
            &&& forall|j: int| 0 <= j < i ==> !path_eq(#[trigger] docs[j].path@, p)
        },
    decreases docs.len(),
{
    if docs.len() > 0 {
        let d = docs.drop_first();
        law_position_finds_path(d, p);
        if !path_eq(docs[0].path@, p) {
            if position_of(d, p) is Some {
                let i = position_of(d, p)->0;
                assert(docs[i + 1] == d[i]);
                assert forall|j: int| 0 <= j < i + 1 implies !path_eq(#[trigger] docs[j].path@, p) by {
                    if j > 0 {
                        assert(docs[j] == d[j - 1]);
                    }
                }
            } else {
                assert forall|i: int| 0 <= i < docs.len() implies !path_eq(#[trigger] docs[i].path@, p) by {
                    if i > 0 {
                        assert(docs[i] == d[i - 1]);
                    }
                }
            }
        }
    }
}

/// Each supported extension (lower case) names its own kind: `md` and `markdown` Markdown,
/// `html` and `htm` HTML, `txt`, `text` and `log` plain text; no other extension has a kind.
pub proof fn law_extension_kinds(e: Seq<char>)
    ensures
        kind_of_extension(e) == Some(DocumentKind::Markdown) <==> (e == seq!['m', 'd'] || e == seq!['m', 'a', 'r', 'k', 'd', 'o', 'w', 'n']),
        kind_of_extension(e) == Some(DocumentKind::Html) <==> (e == seq!['h', 't', 'm', 'l'] || e == seq!['h', 't', 'm']),
        kind_of_extension(e) == Some(DocumentKind::Text) <==> (e == seq!['t', 'x', 't'] || e == seq!['t', 'e', 'x', 't']
            || e == seq!['l', 'o', 'g']),
        kind_of_extension(e) is None <==> !(e == seq!['m', 'd'] || e == seq!['m', 'a', 'r', 'k', 'd', 'o', 'w', 'n']
            || e == seq!['h', 't', 'm', 'l'] || e == seq!['h', 't', 'm'] || e == seq!['t', 'x', 't'] || e == seq![
            't',
            'e',
            'x',
            't',
        ] || e == seq!['l', 'o', 'g']),
{
    let md = seq!['m', 'd'];
    let markdown = seq!['m', 'a', 'r', 'k', 'd', 'o', 'w', 'n'];
    let html = seq!['h', 't', 'm', 'l'];
    let htm = seq!['h', 't', 'm'];
    let txt = seq!['t', 'x', 't'];
    let text = seq!['t', 'e', 'x', 't'];
    let log = seq!['l', 'o', 'g'];
    // the seven extensions are distinct
    assert(md != markdown && md != html && md != htm && md != txt && md != text && md != log) by {
        assert(md.len() != markdown.len() && md.len() != html.len() && md.len() != htm.len() && md.len() != txt.len());
        assert(md.len() != text.len() && md.len() != log.len());
    }
    assert(markdown.len() == 8 && html.len() == 4 && htm.len() == 3 && txt.len() == 3 && text.len() == 4 && log.len() == 3);
    assert(htm[0] != txt[0] && htm[0] != log[0] && txt[0] != log[0]);
    assert(html[0] != text[0]);
}

proof fn lemma_no_strip(x: Seq<char>, p: Seq<char>, j: int)
    requires
        0 <= j < p.len(),
        x.len() <= j || x[j] != p[j],
    ensures
        strip_repeated(x, p) == x,
{
    if p.is_prefix_of(x) {
        assert(x[j] == p[j]);
    }
}

proof fn lemma_one_line(s: Seq<char>)
    requires
        forall|i: int| 0 <= i < s.len() ==> s[i] != '\n',
    ensures
        split_lines_acc(s).0.len() == 0,
        split_lines_acc(s).1 == s,
    decreases s.len(),
{
    if s.len() > 0 {
        lemma_one_line(s.drop_last());
        assert(s[s.len() - 1] != '\n');
        assert(s.drop_last().push(s.last()) =~= s);
    }
}

/// Outside a code fence, a heading line (`#` to `####`, then a space) previews as its text
/// alone, when that text does not itself start with `#` or `>`.
pub proof fn law_markdown_heading(n: nat, t: Seq<char>)
    requires
        1 <= n <= 4,
        forall|i: int| 0 <= i < t.len() ==> t[i] != '\n',
        t.len() > 0 ==> t[0] != '#' && t[0] != '>',
    ensures
        markdown_preview_spec(Seq::new(n, |i: int| '#') + seq![' '] + t) == t + seq!['\n'],
{
    let m = Seq::new(n, |i: int| '#') + seq![' '];
    let s = m + t;
    assert forall|i: int| 0 <= i < s.len() implies s[i] != '\n' by {
        if i >= m.len() {
            assert(s[i] == t[i - m.len()]);
        }
    }
    lemma_one_line(s);
    assert(lines_of(s) =~= seq![s]);
    assert(seq![s].drop_last() =~= Seq::<Seq<char>>::empty());
    assert(crate::preview::trim_start(s) == s);
    assert(!crate::preview::is_fence(s)) by {
        assert(s[0] == '#');
    }
    assert(s.skip(m.len() as int) =~= t);
    let h1 = crate::preview::heading_mark(1);
    let h2 = crate::preview::heading_mark(2);
    let h3 = crate::preview::heading_mark(3);
    let h4 = crate::preview::heading_mark(4);
    let q = crate::preview::quote_mark();
    assert(h1 =~= seq!['#', ' ']);
    assert(h2 =~= seq!['#', '#', ' ']);
    assert(h3 =~= seq!['#', '#', '#', ' ']);
    assert(h4 =~= seq!['#', '#', '#', '#', ' ']);
    // on t itself nothing is stripped any more
    lemma_no_strip(t, h1, 0);
    lemma_no_strip(t, h2, 0);
    lemma_no_strip(t, h3, 0);
    lemma_no_strip(t, h4, 0);
    lemma_no_strip(t, q, 0);
    assert(s[n as int] == ' ');
    if n == 1 {
        assert(m =~= h1);
        assert(h1.is_prefix_of(s));
        assert(strip_repeated(s, h1) == strip_repeated(t, h1));
    } else {
        assert(s[1] == '#');
        lemma_no_strip(s, h1, 1);
        if n == 2 {
            assert(m =~= h2);
            assert(h2.is_prefix_of(s));
            assert(strip_repeated(s, h2) == strip_repeated(t, h2));
        } else {
            assert(s[2] == '#');
            lemma_no_strip(s, h2, 2);
            if n == 3 {
                assert(m =~= h3);
                assert(h3.is_prefix_of(s));
                assert(strip_repeated(s, h3) == strip_repeated(t, h3));
            } else {
                assert(s[3] == '#');
                lemma_no_strip(s, h3, 3);
                assert(m =~= h4);
                assert(h4.is_prefix_of(s));
                assert(strip_repeated(s, h4) == strip_repeated(t, h4));
            }
        }
    }
    assert(crate::preview::strip_marks(s) == t);
    let ls = seq![s];
    assert(ls.last() == s);
    assert(markdown_render(ls.drop_last()) == (Seq::<char>::empty(), false));
    assert(markdown_render(ls).0 == Seq::<char>::empty() + crate::preview::strip_marks(s) + seq!['\n']);
    assert(markdown_render(ls).0 =~= t + seq!['\n']);
}

/// The key bindings. With no modifier at all: Escape gives the keyboard back, Tab cycles the
/// view, the arrows, Home and End move, PageUp/PageDown scroll, Backspace and Delete delete,
/// Enter types a newline; with any modifier these keys do nothing. Ctrl or Super with `s`
/// saves and with `r` reloads; Ctrl with `a`/`e` goes to the line's start/end; any other char
/// with Ctrl or Super, or with Alt, does nothing.
pub proof fn law_key_bindings(mods: Modifiers, c: char)
    ensures
        (!mods.shift && !mods.alt && !mods.ctrl && !mods.super_key && !mods.other) ==> {
            &&& edit_action_spec(KeyCode::Escape, mods) == EditAction::Blur
            &&& edit_action_spec(KeyCode::Tab, mods) == EditAction::CycleView
            &&& edit_action_spec(KeyCode::UpArrow, mods) == EditAction::Up
            &&& edit_action_spec(KeyCode::DownArrow, mods) == EditAction::Down
            &&& edit_action_spec(KeyCode::LeftArrow, mods) == EditAction::Left
            &&& edit_action_spec(KeyCode::RightArrow, mods) == EditAction::Right
            &&& edit_action_spec(KeyCode::Home, mods) == EditAction::LineStart
            &&& edit_action_spec(KeyCode::End, mods) == EditAction::LineEnd
            &&& edit_action_spec(KeyCode::PageUp, mods) == EditAction::PageUp
            &&& edit_action_spec(KeyCode::PageDown, mods) == EditAction::PageDown
            &&& edit_action_spec(KeyCode::Backspace, mods) == EditAction::Backspace
            &&& edit_action_spec(KeyCode::Delete, mods) == EditAction::Delete
            &&& edit_action_spec(KeyCode::Enter, mods) == EditAction::Insert('\n')
        },
        (mods.shift || mods.alt || mods.ctrl || mods.super_key || mods.other) ==> {
            &&& edit_action_spec(KeyCode::Escape, mods) == EditAction::Nothing
            &&& edit_action_spec(KeyCode::Tab, mods) == EditAction::Nothing
            &&& edit_action_spec(KeyCode::UpArrow, mods) == EditAction::Nothing
            &&& edit_action_spec(KeyCode::DownArrow, mods) == EditAction::Nothing
            &&& edit_action_spec(KeyCode::LeftArrow, mods) == EditAction::Nothing
            &&& edit_action_spec(KeyCode::RightArrow, mods) == EditAction::Nothing
            &&& edit_action_spec(KeyCode::Home, mods) == EditAction::Nothing
            &&& edit_action_spec(KeyCode::End, mods) == EditAction::Nothing
            &&& edit_action_spec(KeyCode::PageUp, mods) == EditAction::Nothing
            &&& edit_action_spec(KeyCode::PageDown, mods) == EditAction::Nothing
            &&& edit_action_spec(KeyCode::Backspace, mods) == EditAction::Nothing
            &&& edit_action_spec(KeyCode::Delete, mods) == EditAction::Nothing
            &&& edit_action_spec(KeyCode::Enter, mods) == EditAction::Nothing
        },
        edit_action_spec(KeyCode::Other, mods) == EditAction::Nothing,
        (mods.ctrl || mods.super_key) ==> edit_action_spec(KeyCode::Char('s'), mods) == EditAction::Save
            && edit_action_spec(KeyCode::Char('r'), mods) == EditAction::Reload,
        mods.ctrl ==> edit_action_spec(KeyCode::Char('a'), mods) == EditAction::LineStart && edit_action_spec(
            KeyCode::Char('e'),
            mods,
        ) == EditAction::LineEnd,
        (mods.ctrl || mods.super_key) && c != 's' && c != 'r' && !(mods.ctrl && (c == 'a' || c == 'e'))
            ==> edit_action_spec(KeyCode::Char(c), mods) == EditAction::Nothing,
        mods.alt && !mods.ctrl && !mods.super_key ==> edit_action_spec(KeyCode::Char(c), mods) == EditAction::Nothing,
{
}

/// The cursor marker: when the cursor column (kept within the line) falls on a char
/// boundary, a `|` is put there, between the chars before and after it; otherwise the line
/// is shown as it is.
pub proof fn law_mark_cursor(line: Seq<char>, col: int)
    ensures
        ({
            let c = vstd::math::min(col, blen(line));
            &&& is_boundary(line, c) ==> exists|k: int|
                0 <= k <= line.len() && #[trigger] offset(line, k) == c && mark_cursor(line, col) == line.take(k)
                    + seq!['|'] + line.skip(k)
            &&& !is_boundary(line, c) ==> mark_cursor(line, col) == line
        }),
{
    let c = vstd::math::min(col, blen(line));
    if is_boundary(line, c) {
        lemma_boundary_index(line, c);
        let k = index_at(line, c);
        assert(line.insert(k, '|') =~= line.take(k) + seq!['|'] + line.skip(k));
        assert(offset(line, k) == c);
    }
}

/// A row cut to `width` keeps the text when it is shorter than `width`; otherwise it keeps
/// the first `width - 1` chars and ends with `...` (nothing at all for width 0).
pub proof fn law_truncate(text: Seq<char>, width: nat)
    ensures
        width == 0 ==> truncate_spec(text, width).len() == 0,
        0 < width && text.len() < width ==> truncate_spec(text, width) == text,
        0 < width <= text.len() ==> truncate_spec(text, width) == text.take(width - 1) + seq!['.', '.', '.'],
{
}

proof fn lemma_lines_after(p: Seq<char>, b: Seq<char>)
    requires
        forall|i: int| 0 <= i < b.len() ==> b[i] != '\n',
    ensures
        split_lines_acc(p + b).0 == split_lines_acc(p).0,
        split_lines_acc(p + b).1 == split_lines_acc(p).1 + b,
    decreases b.len(),
{
    if b.len() == 0 {
        assert(p + b =~= p);
        assert(split_lines_acc(p).1 + b =~= split_lines_acc(p).1);
    } else {
        let d = b.drop_last();
        lemma_lines_after(p, d);
        assert((p + b).drop_last() =~= p + d);
        assert(b[b.len() - 1] != '\n');
        assert((split_lines_acc(p).1 + d).push(b.last()) =~= split_lines_acc(p).1 + b);
    }
}

/// Outside a code fence, a quote line (`> ` then text) previews as its text alone, when that
/// text does not itself start with `>`.
pub proof fn law_markdown_quote(t: Seq<char>)
    requires
        forall|i: int| 0 <= i < t.len() ==> t[i] != '\n',
        t.len() > 0 ==> t[0] != '>',
    ensures
        markdown_preview_spec(seq!['>', ' '] + t) == t + seq!['\n'],
{
    let s = seq!['>', ' '] + t;
    assert forall|i: int| 0 <= i < s.len() implies s[i] != '\n' by {
        if i >= 2 {
            assert(s[i] == t[i - 2]);
        }
    }
    lemma_one_line(s);
    assert(lines_of(s) =~= seq![s]);
    assert(crate::preview::trim_start(s) == s);
    assert(!crate::preview::is_fence(s)) by {
        assert(s[0] == '>');
    }
    let q = crate::preview::quote_mark();
    lemma_no_strip(s, crate::preview::heading_mark(1), 0);
    lemma_no_strip(s, crate::preview::heading_mark(2), 0);
    lemma_no_strip(s, crate::preview::heading_mark(3), 0);
    lemma_no_strip(s, crate::preview::heading_mark(4), 0);
    assert(q.is_prefix_of(s));
    assert(s.skip(2) =~= t);
    lemma_no_strip(t, q, 0);
    assert(crate::preview::strip_marks(s) == t);
    let ls = seq![s];
    assert(ls.last() == s);
    assert(markdown_render(ls.drop_last()) == (Seq::<char>::empty(), false));
    assert(markdown_render(ls).0 =~= t + seq!['\n']);
}

/// Outside a code fence, a line that starts with none of whitespace, `#`, `>`, a backtick or
/// a tilde previews as itself.
pub proof fn law_markdown_plain_line(t: Seq<char>)
    requires
        t.len() > 0,
        forall|i: int| 0 <= i < t.len() ==> t[i] != '\n',
        !is_ws(t[0]) && t[0] != '#' && t[0] != '>' && t[0] != '`' && t[0] != '~',
    ensures
        markdown_preview_spec(t) == t + seq!['\n'],
{
    lemma_one_line(t);
    assert(lines_of(t) =~= seq![t]);
    assert(crate::preview::trim_start(t) == t);
    assert(!crate::preview::is_fence(t)) by {
        if crate::preview::fence_backticks().is_prefix_of(t) {
            assert(t[0] == '`');
        }
        if crate::preview::fence_tildes().is_prefix_of(t) {
            assert(t[0] == '~');
        }
    }
    lemma_no_strip(t, crate::preview::heading_mark(1), 0);
    lemma_no_strip(t, crate::preview::heading_mark(2), 0);
    lemma_no_strip(t, crate::preview::heading_mark(3), 0);
    lemma_no_strip(t, crate::preview::heading_mark(4), 0);
    lemma_no_strip(t, crate::preview::quote_mark(), 0);
    let ls = seq![t];
    assert(ls.last() == t);
    assert(markdown_render(ls.drop_last()) == (Seq::<char>::empty(), false));
    assert(markdown_render(ls).0 =~= t + seq!['\n']);
}

/// A line inside a code fence is shown indented by four spaces and otherwise as it is, and
/// the fence line itself is not shown.
pub proof fn law_markdown_fenced_line(c: Seq<char>)
    requires
        c.len() > 0,
        forall|i: int| 0 <= i < c.len() ==> c[i] != '\n',
        !is_ws(c[0]) && c[0] != '`' && c[0] != '~',
    ensures
        markdown_preview_spec(seq!['`', '`', '`', '\n'] + c) == seq![' ', ' ', ' ', ' '] + c + seq!['\n'],
{
    let f = seq!['`', '`', '`'];
    let p = seq!['`', '`', '`', '\n'];
    lemma_one_line(f);
    assert(p.drop_last() =~= f);
    assert(crate::preview::strip_cr(f) == f);
    assert(split_lines_acc(p).0 =~= seq![f]);
    assert(split_lines_acc(p).1.len() == 0);
    lemma_lines_after(p, c);
    assert(split_lines_acc(p).1 + c =~= c);
    let ls = seq![f, c];
    assert(lines_of(p + c) =~= ls);
    assert(crate::preview::trim_start(f) == f);
    assert(crate::preview::is_fence(f)) by {
        assert(crate::preview::fence_backticks() =~= f);
    }
    assert(crate::preview::trim_start(c) == c);
    assert(!crate::preview::is_fence(c)) by {
        if crate::preview::fence_backticks().is_prefix_of(c) {
            assert(c[0] == '`');
        }
        if crate::preview::fence_tildes().is_prefix_of(c) {
            assert(c[0] == '~');
        }
    }
    assert(ls.drop_last() =~= seq![f]);
    assert(seq![f].drop_last() =~= Seq::<Seq<char>>::empty());
    assert(markdown_render(Seq::<Seq<char>>::empty()) == (Seq::<char>::empty(), false));
    assert(seq![f].last() == f);
    assert(markdown_render(seq![f]) == (Seq::<char>::empty(), true));
    assert(ls.last() == c);
    assert(crate::preview::code_indent() =~= seq![' ', ' ', ' ', ' ']);
    assert(markdown_render(ls).0 =~= seq![' ', ' ', ' ', ' '] + c + seq!['\n']);
}

proof fn lemma_count_newlines(x: Seq<char>)
    ensures
        crate::state::count_newlines(x) == x.filter(|ch: char| ch == '\n').len(),
    decreases x.len(),
{
    if x.len() > 0 {
        let d = x.drop_last();
        lemma_count_newlines(d);
        assert(d.push(x.last()) =~= x);
        d.lemma_filter_push(x.last(), |ch: char| ch == '\n');
    } else {
        assert(x.filter(|ch: char| ch == '\n') =~= Seq::<char>::empty());
    }
}

/// Where the source view puts the cursor: on the line numbered by the newlines before the
/// cursor (counted from 0), at the cursor's byte distance from the start of that line, which
/// is just after the last newline before the cursor (or the start of the text).
pub proof fn law_cursor_position(st: DocumentWorkbenchState)
    requires
        is_boundary(st.buffer@, vstd::math::min(st.cursor as int, blen(st.buffer@))),
    ensures
        ({
            let s = st.buffer@;
            let k = index_at(s, vstd::math::min(st.cursor as int, blen(s)));
            &&& 0 <= k <= s.len()
            &&& offset(s, k) == vstd::math::min(st.cursor as int, blen(s))
            &&& st.cursor_line() == s.take(k).filter(|ch: char| ch == '\n').len()
            &&& exists|j: int|
                0 <= j <= k && (j == 0 || s[j - 1] == '\n') && (forall|i: int| j <= i < k ==> s[i] != '\n')
                    && st.cursor_col() == st.cursor - #[trigger] offset(s, j)
        }),
{
    let s = st.buffer@;
    let m = vstd::math::min(st.cursor as int, blen(s));
    lemma_boundary_index(s, m);
    let k = index_at(s, m);
    lemma_count_newlines(s.take(k));
    crate::cursor::lemma_line_begin_range(s, k);
    let j = crate::cursor::line_begin(s, k);
    assert(st.cursor_col() == st.cursor - offset(s, j));
}

/// The lines `ls`, each followed by a newline, one after the other.
pub open spec fn newline_joined(ls: Seq<Seq<char>>) -> Seq<char>
    decreases ls.len(),
{
    if ls.len() == 0 {
        Seq::empty()
    } else {
        newline_joined(ls.drop_last()) + ls.last() + seq!['\n']
    }
}

proof fn lemma_split_lines_parts(s: Seq<char>)
    requires
        forall|i: int| 0 <= i < s.len() ==> s[i] != '\r',
    ensures
        newline_joined(split_lines_acc(s).0) + split_lines_acc(s).1 == s,
        forall|i: int| 0 <= i < split_lines_acc(s).1.len() ==> #[trigger] split_lines_acc(s).1[i] != '\n',
        forall|l: int, i: int| 0 <= l < split_lines_acc(s).0.len() && 0 <= i < split_lines_acc(s).0[l].len()
            ==> #[trigger] split_lines_acc(s).0[l][i] != '\n',
        split_lines_acc(s).1.len() == 0 <==> (s.len() == 0 || s.last() == '\n'),
    decreases s.len(),
{
    if s.len() == 0 {
        assert(newline_joined(Seq::<Seq<char>>::empty()) + Seq::<char>::empty() =~= s);
    } else {
        let d = s.drop_last();
        lemma_split_lines_parts(d);
        let (done, cur) = split_lines_acc(d);
        assert(d.push(s.last()) =~= s);
        if s.last() == '\n' {
            if cur.len() > 0 {
                assert(cur.last() == s[s.len() - 2]);
            }
            assert(crate::preview::strip_cr(cur) == cur);
            assert(done.push(cur).drop_last() =~= done);
            assert(newline_joined(done.push(cur)) == newline_joined(done) + cur + seq!['\n']);
            assert(newline_joined(done.push(cur)) + Seq::<char>::empty() =~= s);
            let nd = done.push(cur);
            assert forall|l: int, i: int| 0 <= l < nd.len() && 0 <= i < nd[l].len() implies #[trigger] nd[l][i] != '\n' by {
                if l < done.len() {
                    assert(nd[l] == done[l]);
                }
            }
        } else {
            assert(newline_joined(done) + cur.push(s.last()) =~= (newline_joined(done) + cur).push(s.last()));
        }
    }
}

/// The lines of a text hold no newline, and, with a newline after each, they give back the
/// text (with a newline added when the text does not end with one); texts without `'\r'`.
pub proof fn law_lines_rebuild_text(s: Seq<char>)
    requires
        forall|i: int| 0 <= i < s.len() ==> s[i] != '\r',
    ensures
        forall|l: int, i: int| 0 <= l < lines_of(s).len() && 0 <= i < lines_of(s)[l].len() ==> #[trigger] lines_of(s)[l][i]
            != '\n',
        newline_joined(lines_of(s)) == (if s.len() > 0 && s.last() != '\n' {
            s.push('\n')
        } else {
            s
        }),
{
    lemma_split_lines_parts(s);
    let (done, cur) = split_lines_acc(s);
    if cur.len() == 0 {
        assert(newline_joined(done) + cur =~= newline_joined(done));
    } else {
        let ls = done.push(cur);
        assert(ls.drop_last() =~= done);
        assert(newline_joined(ls) =~= (newline_joined(done) + cur).push('\n'));
        assert forall|l: int, i: int| 0 <= l < ls.len() && 0 <= i < ls[l].len() implies #[trigger] ls[l][i] != '\n' by {
            if l < done.len() {
                assert(ls[l] == done[l]);
            }
        }
    }
}

proof fn lemma_split_no_slash(s: Seq<char>)
    requires
        forall|i: int| 0 <= i < s.len() ==> s[i] != '/',
    ensures
        crate::paths::split_acc(s).0.len() == 0,
        crate::paths::split_acc(s).1 == s,
    decreases s.len(),
{
    if s.len() > 0 {
        lemma_split_no_slash(s.drop_last());
        assert(s[s.len() - 1] != '/');
        assert(s.drop_last().push(s.last()) =~= s);
    }
}

proof fn lemma_last_dot(a: Seq<char>, b: Seq<char>)
    requires
        forall|i: int| 0 <= i < b.len() ==> b[i] != '.',
    ensures
        crate::paths::last_dot(a + seq!['.'] + b) == Some(a.len() as int),
    decreases b.len(),
{
    let s = a + seq!['.'] + b;
    if b.len() == 0 {
        assert(s.last() == '.');
    } else {
        let d = b.drop_last();
        lemma_last_dot(a, d);
        assert(s.drop_last() =~= a + seq!['.'] + d);
        assert(s.last() == b[b.len() - 1]);
    }
}

/// A file name `stem.ext` (no `/`, no other `.`, a non-empty stem) has the kind its
/// extension names once ASCII upper case is lowered: `notes.TXT` is text, `a.Md` Markdown.
pub proof fn law_document_kind_of_name(stem: Seq<char>, ext: Seq<char>)
    requires
        stem.len() > 0,
        forall|i: int| 0 <= i < stem.len() ==> stem[i] != '/' && stem[i] != '.',
        forall|i: int| 0 <= i < ext.len() ==> ext[i] != '/' && ext[i] != '.',
    ensures
        crate::paths::document_kind_spec(stem + seq!['.'] + ext) == kind_of_extension(
            crate::paths::ascii_lower(ext),
        ),
{
    let p = stem + seq!['.'] + ext;
    assert forall|i: int| 0 <= i < p.len() implies p[i] != '/' by {
        if i < stem.len() {
            assert(p[i] == stem[i]);
        } else if i > stem.len() {
            assert(p[i] == ext[i - stem.len() - 1]);
        }
    }
    lemma_split_no_slash(p);
    let segs = crate::paths::segments(p);
    assert(segs =~= seq![p]);
    assert(seq![p].drop_last() =~= Seq::<Seq<char>>::empty());
    assert(p.len() >= 2);
    assert(p != crate::paths::cur_dir()) by {
        if p.len() == 1 {
        }
    }
    assert(crate::paths::keeps_segment(p, 0));
    assert(segs.len() == 1 && segs.last() == p);
    assert(segs.drop_last() =~= Seq::<Seq<char>>::empty());
    assert(crate::paths::kept_segments(segs.drop_last()) =~= Seq::<Seq<char>>::empty());
    assert(crate::paths::kept_segments(segs) =~= seq![p]);
    assert(!crate::paths::has_root(p)) by {
        assert(p[0] == stem[0]);
    }
    assert(crate::paths::path_components(p) =~= seq![p]);
    assert(p != crate::paths::root_dir()) by {
        assert(p.len() != 1 || p[0] != '/');
    }
    assert(p != crate::paths::parent_dir()) by {
        if p.len() == 2 {
            assert(p[1] == '.');
            assert(p[0] == stem[0]);
        }
    }
    assert(p != crate::paths::cur_dir()) by {
        assert(p.len() >= 2);
    }
    assert(crate::paths::file_name_spec(p) == Some(p));
    lemma_last_dot(stem, ext);
    assert(p.skip(stem.len() + 1int) =~= ext);
    assert(crate::paths::extension_spec(p) == Some(ext));
}

/// Lowering ASCII case keeps the length, turns each of `A`..`Z` into its lower-case letter
/// and leaves every other char as it is.
pub proof fn law_ascii_lower(e: Seq<char>)
    ensures
        crate::paths::ascii_lower(e).len() == e.len(),
        forall|i: int| 0 <= i < e.len() && 'A' <= e[i] <= 'Z' ==> (#[trigger] crate::paths::ascii_lower(e)[i]) as u32 == e[i] as u32 + 32
            && 'a' <= crate::paths::ascii_lower(e)[i] <= 'z',
        forall|i: int| 0 <= i < e.len() && !('A' <= e[i] <= 'Z') ==> #[trigger] crate::paths::ascii_lower(e)[i] == e[i],
{
    assert forall|i: int| 0 <= i < e.len() && 'A' <= e[i] <= 'Z' implies (#[trigger] crate::paths::ascii_lower(e)[i]) as u32
        == e[i] as u32 + 32 && 'a' <= crate::paths::ascii_lower(e)[i] <= 'z' by {
        let c = e[i];
        assert(65 <= c as u32 <= 90);
        assert(crate::paths::ascii_lower(e)[i] == ((c as u32) + 32) as char);
    }
}

proof fn lemma_digit(d: nat)
    requires
        d < 10,
    ensures
        crate::preview::digit_char(d) as int == d + 48,
{
    let b: u8 = (d + 48) as u8;
    assert(b as int == d + 48);
    assert((b as char) as int == b as int);
}

/// The number the decimal digits `d` stand for.
pub open spec fn digits_value(d: Seq<char>) -> int
    decreases d.len(),
{
    if d.len() == 0 {
        0
    } else {
        digits_value(d.drop_last()) * 10 + (d.last() as int - '0' as int)
    }
}

/// A row's number is written in decimal: digits `0`-`9` standing for that number, with no
/// leading zero; right-aligned in four columns it is padded with spaces in front.
pub proof fn law_line_number_text(n: nat)
    ensures
        decimal(n).len() >= 1,
        forall|i: int| 0 <= i < decimal(n).len() ==> '0' <= #[trigger] decimal(n)[i] <= '9',
        digits_value(decimal(n)) == n,
        decimal(n).len() > 1 <==> n >= 10,
        decimal(n).len() > 1 ==> decimal(n)[0] != '0',
        pad_left(decimal(n), 4).len() == vstd::math::max(decimal(n).len() as int, 4),
        decimal(n).is_suffix_of(pad_left(decimal(n), 4)),
        forall|i: int| 0 <= i < pad_left(decimal(n), 4).len() - decimal(n).len() ==> #[trigger] pad_left(decimal(n), 4)[i] == ' ',
    decreases n,
{
    let d = decimal(n);
    if n < 10 {
        lemma_digit(n);
        assert(d == seq![crate::preview::digit_char(n)]);
        assert(d.drop_last() =~= Seq::<char>::empty());
        assert(digits_value(d.drop_last()) == 0);
        assert(digits_value(d) == 0 * 10 + (n as int));
    } else {
        law_line_number_text(n / 10);
        lemma_digit(n % 10);
        let h = decimal(n / 10);
        assert(d == h.push(crate::preview::digit_char(n % 10)));
        assert(d.drop_last() =~= h);
        assert forall|i: int| 0 <= i < d.len() implies '0' <= #[trigger] d[i] <= '9' by {
            if i < h.len() {
                assert(d[i] == h[i]);
            }
        }
        assert(d[0] == h[0]);
        if n / 10 < 10 {
            lemma_digit(n / 10);
            assert(h == seq![crate::preview::digit_char(n / 10)]);
            assert(h[0] == crate::preview::digit_char(n / 10));
        }
        assert(digits_value(d) == digits_value(h) * 10 + (n % 10));
        assert(digits_value(h) == n / 10);
        assert((n / 10) * 10 + n % 10 == n) by (nonlinear_arith);
    }
    let p = pad_left(d, 4);
    if d.len() < 4 {
        assert(p.skip(p.len() - d.len()) =~= d);
    } else {
        assert(p.skip(0) =~= d);
    }
}

proof fn lemma_current_line_last(x: Seq<char>)
    ensures
        split_lines_acc(x).1.len() > 0 ==> x.len() > 0 && split_lines_acc(x).1.last() == x.last(),
{
}

/// A `"\r\n"` line ending counts as a newline: the `'\r'` before it is not part of the line.
pub proof fn law_crlf_is_a_newline(x: Seq<char>)
    requires
        x.len() == 0 || x.last() != '\r',
    ensures
        lines_of(x + seq!['\r', '\n']) == lines_of(x + seq!['\n']),
{
    lemma_current_line_last(x);
    let a = x + seq!['\r', '\n'];
    let b = x + seq!['\n'];
    assert(a.drop_last().drop_last() =~= x);
    assert(a.drop_last() =~= x.push('\r'));
    assert(b.drop_last() =~= x);
    let cur = split_lines_acc(x).1;
    let done = split_lines_acc(x).0;
    assert(crate::preview::strip_cr(cur.push('\r')) =~= cur);
    assert(crate::preview::strip_cr(cur) == cur);
    assert(a.last() == '\n' && a.drop_last().last() == '\r' && b.last() == '\n');
    assert(split_lines_acc(a.drop_last()) == (done, cur.push('\r')));
    assert(split_lines_acc(a) == (done.push(cur), Seq::<char>::empty()));
    assert(split_lines_acc(b) == (done.push(cur), Seq::<char>::empty()));
}


proof fn lemma_offset_shift(s: Seq<char>, k: int)
    requires
        s.len() > 0,
        0 <= k <= s.len() - 1,
    ensures
        offset(s, k + 1) == char_width(s[0]) + offset(s.drop_first(), k),
{
    assert(s.take(k + 1) =~= seq![s[0]] + s.drop_first().take(k));
    lemma_blen_concat(seq![s[0]], s.drop_first().take(k));
    lemma_blen_single(s[0]);
}

/// The byte offsets the editor treats as char boundaries are exactly those that
/// `str::is_char_boundary` accepts on the UTF-8 encoding of the text.
pub proof fn law_boundary_matches_str(s: Seq<char>, i: int)
    ensures
        is_boundary(s, i) == vstd::utf8::is_char_boundary(vstd::utf8::encode_utf8(s), i),
    decreases s.len(),
{
    let bytes = vstd::utf8::encode_utf8(s);
    vstd::utf8::encode_utf8_valid_utf8(s);
    crate::text::lemma_offset_zero_full(s);
    if i == 0 {
        assert(offset(s, 0) == 0);
    } else if i < 0 || bytes.len() < i {
        if is_boundary(s, i) {
            let k = choose|k: int| 0 <= k <= s.len() && #[trigger] offset(s, k) == i;
            lemma_offset_bounds(s, k);
        }
    } else {
        assert(s.len() > 0);
        let t = s.drop_first();
        vstd::utf8::encode_utf8_first_scalar(s);
        let l = vstd::utf8::length_of_first_scalar(bytes);
        assert(l == char_width(s[0]));
        assert(vstd::utf8::pop_first_scalar(bytes) =~= vstd::utf8::encode_utf8(t));
        law_boundary_matches_str(t, i - l);
        if is_boundary(s, i) {
            let k = choose|k: int| 0 <= k <= s.len() && #[trigger] offset(s, k) == i;
            assert(k >= 1);
            lemma_offset_shift(s, k - 1);
            assert(offset(t, k - 1) == i - l);
            assert(is_boundary(t, i - l));
        }
        if is_boundary(t, i - l) {
            let k = choose|k: int| 0 <= k <= t.len() && #[trigger] offset(t, k) == i - l;
            lemma_offset_shift(s, k);
            assert(offset(s, k + 1) == i);
            assert(is_boundary(s, i));
        }
    }
}

} // verus!
