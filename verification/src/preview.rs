use vstd::prelude::*;
use crate::text::{chars_of, string_of};

verus! {

/// Unicode `White_Space`, the property behind `char::is_whitespace`.
pub open spec fn is_ws(c: char) -> bool {
    let v = c as u32;
    ||| 0x9 <= v <= 0xd
    ||| v == 0x20
    ||| v == 0x85
    ||| v == 0xa0
    ||| v == 0x1680
    ||| 0x2000 <= v <= 0x200a
    ||| v == 0x2028
    ||| v == 0x2029
    ||| v == 0x202f
    ||| v == 0x205f
    ||| v == 0x3000
}

pub fn is_whitespace(c: char) -> (r: bool)
    ensures
        r == is_ws(c),
{
    let v = c as u32;
    (0x9 <= v && v <= 0xd) || v == 0x20 || v == 0x85 || v == 0xa0 || v == 0x1680 || (0x2000
        <= v && v <= 0x200a) || v == 0x2028 || v == 0x2029 || v == 0x202f || v == 0x205f || v
        == 0x3000
}

/// `s` without its trailing `'\r'`, if it has one.
pub open spec fn strip_cr(s: Seq<char>) -> Seq<char> {
    if s.len() > 0 && s.last() == '\r' {
        s.drop_last()
    } else {
        s
    }
}

/// Lines of `s` that were ended by a newline (each without a `'\r'` that preceded it),
/// and the text after the last newline.
pub open spec fn split_lines_acc(s: Seq<char>) -> (Seq<Seq<char>>, Seq<char>)
    decreases s.len(),
{
    if s.len() == 0 {
        (Seq::empty(), Seq::empty())
    } else {
        let (done, cur) = split_lines_acc(s.drop_last());
        if s.last() == '\n' {
            (done.push(strip_cr(cur)), Seq::empty())
        } else {
            (done, cur.push(s.last()))
        }
    }
}

/// The lines of `s` as `str::lines` yields them: split at `'\n'`, a `'\r'` right before a
/// `'\n'` dropped, and no final empty line after a trailing newline.
pub open spec fn lines_of(s: Seq<char>) -> Seq<Seq<char>> {
    let (done, cur) = split_lines_acc(s);
    if cur.len() == 0 {
        done
    } else {
        done.push(cur)
    }
}

/// `s` with leading whitespace removed.
pub open spec fn trim_start(s: Seq<char>) -> Seq<char>
    decreases s.len(),
{
    if s.len() > 0 && is_ws(s[0]) {
        trim_start(s.drop_first())
    } else {
        s
    }
}

/// `s` with every leading repetition of the non-empty pattern `p` removed.
pub open spec fn strip_repeated(s: Seq<char>, p: Seq<char>) -> Seq<char>
    decreases s.len(),
{
    if p.len() > 0 && p.is_prefix_of(s) {
        strip_repeated(s.skip(p.len() as int), p)
    } else {
        s
    }
}

pub open spec fn fence_backticks() -> Seq<char> {
    seq!['`', '`', '`']
}

pub open spec fn fence_tildes() -> Seq<char> {
    seq!['~', '~', '~']
}

pub open spec fn heading_mark(n: nat) -> Seq<char> {
    Seq::new(n, |i: int| '#').push(' ')
}

pub open spec fn quote_mark() -> Seq<char> {
    seq!['>', ' ']
}

pub open spec fn code_indent() -> Seq<char> {
    seq![' ', ' ', ' ', ' ']
}

/// A Markdown line with heading marks (`# ` to `#### `) and a quote mark (`> `) taken off,
/// in that order, each removed as often as it repeats.
pub open spec fn strip_marks(t: Seq<char>) -> Seq<char> {
    strip_repeated(
        strip_repeated(
            strip_repeated(
                strip_repeated(strip_repeated(t, heading_mark(1)), heading_mark(2)),
                heading_mark(3),
            ),
            heading_mark(4),
        ),
        quote_mark(),
    )
}

pub open spec fn is_fence(t: Seq<char>) -> bool {
    fence_backticks().is_prefix_of(t) || fence_tildes().is_prefix_of(t)
}

/// Preview text of the given Markdown lines, and whether a code fence is left open.
pub open spec fn markdown_render(lines: Seq<Seq<char>>) -> (Seq<char>, bool)
    decreases lines.len(),
{
    if lines.len() == 0 {
        (Seq::empty(), false)
    } else {
        let (out, fence) = markdown_render(lines.drop_last());
        let line = lines.last();
        let t = trim_start(line);
        if is_fence(t) {
            (out, !fence)
        } else if fence {
            (out + code_indent() + line + seq!['\n'], fence)
        } else {
            (out + strip_marks(t) + seq!['\n'], fence)
        }
    }
}

pub open spec fn markdown_preview_spec(s: Seq<char>) -> Seq<char> {
    markdown_render(lines_of(s)).0
}

/// Output of the tag-stripping pass over `s`, and whether it ends inside a tag.
pub open spec fn html_strip(s: Seq<char>) -> (Seq<char>, bool)
    decreases s.len(),
{
    if s.len() == 0 {
        (Seq::empty(), false)
    } else {
        let (out, in_tag) = html_strip(s.drop_last());
        let c = s.last();
        if c == '<' {
            (out, true)
        } else if c == '>' {
            (out.push(' '), false)
        } else if !in_tag {
            (out.push(c), in_tag)
        } else {
            (out, in_tag)
        }
    }
}

/// Whitespace-separated words of `s` that are complete, and the word being read at its end.
pub open spec fn words_acc(s: Seq<char>) -> (Seq<Seq<char>>, Seq<char>)
    decreases s.len(),
{
    if s.len() == 0 {
        (Seq::empty(), Seq::empty())
    } else {
        let (done, cur) = words_acc(s.drop_last());
        if is_ws(s.last()) {
            if cur.len() > 0 {
                (done.push(cur), Seq::empty())
            } else {
                (done, cur)
            }
        } else {
            (done, cur.push(s.last()))
        }
    }
}

/// The maximal runs of non-whitespace chars in `s`, as `str::split_whitespace` yields them.
pub open spec fn words_of(s: Seq<char>) -> Seq<Seq<char>> {
    let (done, cur) = words_acc(s);
    if cur.len() == 0 {
        done
    } else {
        done.push(cur)
    }
}

/// The given words joined by single spaces.
pub open spec fn join_spaces(w: Seq<Seq<char>>) -> Seq<char>
    decreases w.len(),
{
    if w.len() == 0 {
        Seq::empty()
    } else if w.len() == 1 {
        w[0]
    } else {
        join_spaces(w.drop_last()) + seq![' '] + w.last()
    }
}

pub open spec fn html_preview_spec(s: Seq<char>) -> Seq<char> {
    join_spaces(words_of(html_strip(s).0))
}

/// At most `width - 1` chars of `text`; when more were there, the cut is marked by `...`.
pub open spec fn truncate_spec(text: Seq<char>, width: nat) -> Seq<char> {
    if width == 0 {
        Seq::empty()
    } else if text.len() < width {
        text
    } else {
        text.take(width - 1) + seq!['.', '.', '.']
    }
}

/// `s` cut into pieces of `w` chars, the last piece holding the rest.
pub open spec fn chunks(s: Seq<char>, w: nat) -> Seq<Seq<char>>
    decreases s.len(),
{
    if s.len() <= w || w == 0 {
        seq![s]
    } else {
        seq![s.take(w as int)] + chunks(s.skip(w as int), w)
    }
}

/// Wrapping of `line` at `max(width, 8)` chars; an empty line gives one empty piece.
pub open spec fn wrap_spec(line: Seq<char>, width: nat) -> Seq<Seq<char>> {
    let w: nat = if width < 8 { 8 } else { width };
    chunks(line, w)
}

/// The char sequences held by a vector of char vectors.
pub open spec fn views(v: Seq<Vec<char>>) -> Seq<Seq<char>> {
    Seq::new(v.len(), |i: int| v[i]@)
}

/// Appends a slice of chars to a vector.
pub fn extend_chars(out: &mut Vec<char>, s: &Vec<char>)
    ensures
        final(out)@ == old(out)@ + s@,
{
    let mut i: usize = 0;
    let ghost start = out@;
    while i < s.len()
        invariant
            i <= s.len(),
            out@ == start + s@.take(i as int),
        decreases s.len() - i,
    {
        out.push(s[i]);
        i = i + 1;
        assert(out@ =~= start + s@.take(i as int));
    }
    assert(s@.take(i as int) =~= s@);
}

proof fn lemma_split_lines_step(s: Seq<char>, i: int)
    requires
        0 <= i < s.len(),
    ensures
        split_lines_acc(s.take(i + 1)) == ({
            let (done, cur) = split_lines_acc(s.take(i));
            if s[i] == '\n' {
                (done.push(strip_cr(cur)), Seq::<char>::empty())
            } else {
                (done, cur.push(s[i]))
            }
        }),
{
    assert(s.take(i + 1).drop_last() =~= s.take(i));
}

/// The lines of a char sequence.
pub fn lines(v: &Vec<char>) -> (r: Vec<Vec<char>>)
    ensures
        views(r@) == lines_of(v@),
{
    let mut done: Vec<Vec<char>> = Vec::new();
    let mut cur: Vec<char> = Vec::new();
    let mut i: usize = 0;
    while i < v.len()
        invariant
            i <= v.len(),
            split_lines_acc(v@.take(i as int)) == (views(done@), cur@),
        decreases v.len() - i,
    {
        proof {
            lemma_split_lines_step(v@, i as int);
        }
        let c = v[i];
        if c == '\n' {
            let mut line = cur;
            if line.len() > 0 && line[line.len() - 1] == '\r' {
                line.pop();
            }
            let ghost before = views(done@);
            done.push(line);
            assert(views(done@) =~= before.push(line@));
            cur = Vec::new();
        } else {
            cur.push(c);
        }
        i = i + 1;
    }
    assert(v@.take(i as int) =~= v@);
    if cur.len() > 0 {
        let ghost before = views(done@);
        done.push(cur);
        assert(views(done@) =~= before.push(cur@));
    }
    done
}


/// Copy of `v` from index `start` on.
pub fn suffix_from(v: &Vec<char>, start: usize) -> (r: Vec<char>)
    requires
        start <= v.len(),
    ensures
        r@ == v@.skip(start as int),
{
    let mut out: Vec<char> = Vec::new();
    let mut i: usize = start;
    while i < v.len()
        invariant
            start <= i <= v.len(),
            out@ == v@.subrange(start as int, i as int),
        decreases v.len() - i,
    {
        out.push(v[i]);
        i = i + 1;
        assert(out@ =~= v@.subrange(start as int, i as int));
    }
    assert(v@.subrange(start as int, i as int) =~= v@.skip(start as int));
    out
}

/// Whether `p` occurs in `v` at index `start`.
pub fn has_prefix_at(v: &Vec<char>, start: usize, p: &Vec<char>) -> (r: bool)
    requires
        start <= v.len(),
    ensures
        r == p@.is_prefix_of(v@.skip(start as int)),
{
    if p.len() > v.len() - start {
        return false;
    }
    let mut j: usize = 0;
    while j < p.len()
        invariant
            start <= v.len(),
            p.len() <= v.len() - start,
            j <= p.len(),
            forall|k: int| 0 <= k < j ==> p@[k] == v@[start + k],
        decreases p.len() - j,
    {
        if v[start + j] != p[j] {
            assert(v@.skip(start as int)[j as int] == v@[start + j]);
            return false;
        }
        j = j + 1;
    }
    assert(p@ =~= v@.skip(start as int).take(p@.len() as int));
    true
}

/// `v` with leading whitespace removed.
pub fn trim_start_chars(v: &Vec<char>) -> (r: Vec<char>)
    ensures
        r@ == trim_start(v@),
{
    let mut i: usize = 0;
    assert(v@.skip(0) =~= v@);
    while i < v.len() && is_whitespace(v[i])
        invariant
            i <= v.len(),
            trim_start(v@) == trim_start(v@.skip(i as int)),
        decreases v.len() - i,
    {
        assert(v@.skip(i as int).drop_first() =~= v@.skip(i + 1));
        i = i + 1;
    }
    suffix_from(v, i)
}

/// `v` with every leading repetition of `p` removed.
pub fn strip_repeated_chars(v: &Vec<char>, p: &Vec<char>) -> (r: Vec<char>)
    ensures
        r@ == strip_repeated(v@, p@),
{
    let mut i: usize = 0;
    assert(v@.skip(0) =~= v@);
    while p.len() > 0 && has_prefix_at(v, i, p)
        invariant
            i <= v.len(),
            strip_repeated(v@, p@) == strip_repeated(v@.skip(i as int), p@),
        decreases v.len() - i,
    {
        assert(v@.skip(i as int).skip(p@.len() as int) =~= v@.skip(i + p@.len()));
        i = i + p.len();
    }
    suffix_from(v, i)
}

proof fn lemma_render_step(ls: Seq<Vec<char>>, i: int)
    requires
        0 <= i < ls.len(),
    ensures
        views(ls).take(i + 1).drop_last() == views(ls).take(i),
        views(ls).take(i + 1).last() == ls[i]@,
{
    assert(views(ls).take(i + 1).drop_last() =~= views(ls).take(i));
}

/// Plain-text preview of Markdown: fences toggle an indented code block, other lines lose
/// leading whitespace, heading marks and quote marks; every line ends with a newline.
pub fn markdown_preview(input: &str) -> (r: String)
    ensures
        r@ == markdown_preview_spec(input@),
{
    let v = chars_of(input);
    let ls = lines(&v);
    let backticks = vec!['`', '`', '`'];
    let tildes = vec!['~', '~', '~'];
    let h1 = vec!['#', ' '];
    let h2 = vec!['#', '#', ' '];
    let h3 = vec!['#', '#', '#', ' '];
    let h4 = vec!['#', '#', '#', '#', ' '];
    let quote = vec!['>', ' '];
    assert(backticks@ =~= fence_backticks());
    assert(tildes@ =~= fence_tildes());
    assert(h1@ =~= heading_mark(1));
    assert(h2@ =~= heading_mark(2));
    assert(h3@ =~= heading_mark(3));
    assert(h4@ =~= heading_mark(4));
    assert(quote@ =~= quote_mark());
    let mut out: Vec<char> = Vec::new();
    let mut fence = false;
    let mut i: usize = 0;
    while i < ls.len()
        invariant
            i <= ls.len(),
            views(ls@) == lines_of(v@),
            markdown_render(views(ls@).take(i as int)) == (out@, fence),
            backticks@ == fence_backticks(),
            tildes@ == fence_tildes(),
            h1@ == heading_mark(1),
            h2@ == heading_mark(2),
            h3@ == heading_mark(3),
            h4@ == heading_mark(4),
            quote@ == quote_mark(),
        decreases ls.len() - i,
    {
        proof {
            lemma_render_step(ls@, i as int);
        }
        let line = &ls[i];
        let t = trim_start_chars(line);
        let fenced = has_prefix_at(&t, 0, &backticks) || has_prefix_at(&t, 0, &tildes);
        assert(t@.skip(0) =~= t@);
        if fenced {
            fence = !fence;
        } else if fence {
            out.push(' ');
            out.push(' ');
            out.push(' ');
            out.push(' ');
            extend_chars(&mut out, line);
            out.push('\n');
            assert(code_indent() =~= seq![' ', ' ', ' ', ' ']);
        } else {
            let a = strip_repeated_chars(&t, &h1);
            let b = strip_repeated_chars(&a, &h2);
            let c = strip_repeated_chars(&b, &h3);
            let d = strip_repeated_chars(&c, &h4);
            let e = strip_repeated_chars(&d, &quote);
            extend_chars(&mut out, &e);
            out.push('\n');
        }
        i = i + 1;
    }
    assert(views(ls@).take(i as int) =~= views(ls@));
    string_of(&out)
}

/// The first `i + 1` items of `s` are its first `i` items and then item `i`.
pub proof fn lemma_seq_step<A>(s: Seq<A>, i: int)
    requires
        0 <= i < s.len(),
    ensures
        s.take(i + 1).drop_last() == s.take(i),
        s.take(i + 1).last() == s[i],
{
    assert(s.take(i + 1).drop_last() =~= s.take(i));
}

/// Plain-text preview of HTML: tags are dropped (each closing `>` leaves a space) and
/// whitespace runs collapse to single spaces, with none at either end.
pub fn html_preview(input: &str) -> (r: String)
    ensures
        r@ == html_preview_spec(input@),
{
    let v = chars_of(input);
    let mut stripped: Vec<char> = Vec::new();
    let mut in_tag = false;
    let mut i: usize = 0;
    while i < v.len()
        invariant
            i <= v.len(),
            html_strip(v@.take(i as int)) == (stripped@, in_tag),
        decreases v.len() - i,
    {
        proof {
            lemma_seq_step(v@, i as int);
        }
        let c = v[i];
        if c == '<' {
            in_tag = true;
        } else if c == '>' {
            in_tag = false;
            stripped.push(' ');
        } else if !in_tag {
            stripped.push(c);
        }
        i = i + 1;
    }
    assert(v@.take(i as int) =~= v@);
    let ghost text = stripped@;
    let mut done: Vec<Vec<char>> = Vec::new();
    let mut cur: Vec<char> = Vec::new();
    let mut j: usize = 0;
    while j < stripped.len()
        invariant
            j <= stripped.len(),
            text == stripped@,
            words_acc(text.take(j as int)) == (views(done@), cur@),
        decreases stripped.len() - j,
    {
        proof {
            lemma_seq_step(text, j as int);
        }
        let c = stripped[j];
        if is_whitespace(c) {
            if cur.len() > 0 {
                let ghost before = views(done@);
                done.push(cur);
                assert(views(done@) =~= before.push(cur@));
                cur = Vec::new();
            }
        } else {
            cur.push(c);
        }
        j = j + 1;
    }
    assert(text.take(j as int) =~= text);
    if cur.len() > 0 {
        let ghost before = views(done@);
        done.push(cur);
        assert(views(done@) =~= before.push(cur@));
    }
    let mut out: Vec<char> = Vec::new();
    let mut k: usize = 0;
    while k < done.len()
        invariant
            k <= done.len(),
            out@ == join_spaces(views(done@).take(k as int)),
        decreases done.len() - k,
    {
        proof {
            lemma_seq_step(views(done@), k as int);
        }
        if k > 0 {
            out.push(' ');
        }
        extend_chars(&mut out, &done[k]);
        proof {
            if k == 0 {
                assert(views(done@).take(1) =~= seq![done@[0]@]);
                assert(out@ =~= done@[0]@);
            }
        }
        k = k + 1;
    }
    assert(views(done@).take(k as int) =~= views(done@));
    string_of(&out)
}


/// `text` cut to fit a column of `width`: kept whole when shorter than `width` chars,
/// otherwise its first `width - 1` chars followed by `...`; empty when `width` is 0.
pub fn truncate(text: &str, width: usize) -> (r: String)
    ensures
        r@ == truncate_spec(text@, width as nat),
{
    let v = chars_of(text);
    let out = truncate_chars(&v, width);
    string_of(&out)
}

/// `truncate` on a char vector.
pub fn truncate_chars(v: &Vec<char>, width: usize) -> (out: Vec<char>)
    ensures
        out@ == truncate_spec(v@, width as nat),
{
    let mut out: Vec<char> = Vec::new();
    if width == 0 {
        assert(out@ =~= truncate_spec(v@, width as nat));
        return out;
    }
    let mut i: usize = 0;
    while i < v.len()
        invariant
            i <= v.len(),
            i < width,
            out@ == v@.take(i as int),
        decreases v.len() - i,
    {
        if i + 1 >= width {
            out.push('.');
            out.push('.');
            out.push('.');
            assert(out@ =~= v@.take(width - 1) + seq!['.', '.', '.']);
            return out;
        }
        out.push(v[i]);
        i = i + 1;
        assert(out@ =~= v@.take(i as int));
    }
    assert(out@ =~= v@);
    out
}

proof fn lemma_chunks_append(s: Seq<char>, w: nat, piece: Seq<char>)
    requires
        w > 0,
        (s.len() as int) % (w as int) == 0,
        0 < piece.len() <= w,
    ensures
        chunks(s + piece, w) == (if s.len() == 0 {
            Seq::<Seq<char>>::empty()
        } else {
            chunks(s, w)
        }) + seq![piece],
    decreases s.len(),
{
    if s.len() == 0 {
        assert(s + piece =~= piece);
    } else {
        assert(s.len() >= w) by {
            if s.len() < w {
                vstd::arithmetic::div_mod::lemma_small_mod(s.len(), w);
            }
        }
        let rest = s.skip(w as int);
        assert((s + piece).take(w as int) =~= s.take(w as int));
        assert((s + piece).skip(w as int) =~= rest + piece);
        assert((rest.len() as int) % (w as int) == 0) by (nonlinear_arith)
            requires
                rest.len() == s.len() - w,
                (s.len() as int) % (w as int) == 0,
                w > 0,
        ;
        lemma_chunks_append(rest, w, piece);
        if rest.len() == 0 {
            assert(s =~= s.take(w as int));
        }
    }
}

/// `line` wrapped at `max(width, 8)` chars: full pieces of that many chars, then the rest;
/// an empty line gives one empty piece.
pub fn wrap_line(line: &str, width: usize) -> (r: Vec<String>)
    ensures
        r.deep_view() == wrap_spec(line@, width as nat),
{
    let w: usize = if width < 8 { 8 } else { width };
    let v = chars_of(line);
    let mut out: Vec<String> = Vec::new();
    if v.len() == 0 {
        out.push(String::new());
        assert(out.deep_view() =~= seq![Seq::<char>::empty()]);
        assert(v@ =~= Seq::<char>::empty());
        assert(chunks(line@, w as nat) == seq![line@]);
        return out;
    }
    let mut current: Vec<char> = Vec::new();
    let mut i: usize = 0;
    while i < v.len()
        invariant
            w >= 8,
            w == (if width < 8 { 8 } else { width }),
            0 < v.len(),
            i <= v.len(),
            i > 0 ==> 0 < current@.len() <= w,
            i == 0 ==> current@.len() == 0,
            (i - current@.len()) % (w as int) == 0,
            0 <= i - current@.len(),
            current@ == v@.subrange(i - current@.len(), i as int),
            i - current@.len() == 0 ==> out.deep_view().len() == 0,
            i - current@.len() > 0 ==> out.deep_view() == chunks(v@.take(i - current@.len()), w as nat),
        decreases v.len() - i,
    {
        if current.len() >= w {
            let ghost base = v@.take(i - current@.len());
            proof {
                lemma_chunks_append(base, w as nat, current@);
                assert(base + current@ =~= v@.take(i as int));
            }
            let ghost before = out.deep_view();
            let s = string_of(&current);
            out.push(s);
            assert(out.deep_view() =~= before.push(current@));
            assert(before.push(current@) =~= (if base.len() == 0 { Seq::<Seq<char>>::empty() } else { chunks(base, w as nat) }) + seq![current@]);
            current = Vec::new();
            assert(v@.subrange(i as int, i as int) =~= current@);
            proof {
                vstd::arithmetic::div_mod::lemma_mod_add_multiples_vanish(
                    i - w as int,
                    w as int,
                );
            }
        }
        current.push(v[i]);
        i = i + 1;
        assert(current@ =~= v@.subrange(i - current@.len(), i as int));
    }
    let ghost base = v@.take(i - current@.len());
    proof {
        lemma_chunks_append(base, w as nat, current@);
        assert(base + current@ =~= v@);
        assert(v@.take(i as int) =~= v@);
    }
    let ghost before = out.deep_view();
    let s = string_of(&current);
    out.push(s);
    assert(out.deep_view() =~= before.push(current@));
    assert(before.push(current@) =~= (if base.len() == 0 { Seq::<Seq<char>>::empty() } else { chunks(base, w as nat) }) + seq![current@]);
    out
}


/// The char of decimal digit `d`.
pub open spec fn digit_char(d: nat) -> char {
    ((d + 48) as u8) as char
}

/// Decimal digits of `n`, most significant first.
pub open spec fn decimal(n: nat) -> Seq<char>
    decreases n,
{
    if n < 10 {
        seq![digit_char(n)]
    } else {
        decimal(n / 10).push(digit_char(n % 10))
    }
}

/// `d` right-aligned in a field of `w` chars (`{:>w}`).
pub open spec fn pad_left(d: Seq<char>, w: nat) -> Seq<char> {
    if d.len() < w {
        Seq::new((w - d.len()) as nat, |i: int| ' ') + d
    } else {
        d
    }
}

/// Decimal digits of `n`.
pub fn decimal_chars(n: usize) -> (r: Vec<char>)
    ensures
        r@ == decimal(n as nat),
    decreases n,
{
    let d = ((n % 10) as u8 + 48) as char;
    assert(d == digit_char((n % 10) as nat));
    if n < 10 {
        let mut v: Vec<char> = Vec::new();
        v.push(d);
        assert(v@ =~= seq![digit_char(n as nat)]);
        v
    } else {
        let mut v = decimal_chars(n / 10);
        v.push(d);
        v
    }
}

/// `n` right-aligned in four columns, as `{:>4}` writes it.
pub fn line_label(n: usize) -> (r: Vec<char>)
    ensures
        r@ == pad_left(decimal(n as nat), 4),
{
    let d = decimal_chars(n);
    if d.len() >= 4 {
        return d;
    }
    let mut out: Vec<char> = Vec::new();
    let pad = 4 - d.len();
    let mut i: usize = 0;
    while i < pad
        invariant
            i <= pad,
            out@ == Seq::new(i as nat, |j: int| ' '),
        decreases pad - i,
    {
        out.push(' ');
        i = i + 1;
        assert(out@ =~= Seq::new(i as nat, |j: int| ' '));
    }
    extend_chars(&mut out, &d);
    out
}


/// `s` with trailing whitespace removed.
pub open spec fn trim_end(s: Seq<char>) -> Seq<char>
    decreases s.len(),
{
    if s.len() > 0 && is_ws(s.last()) {
        trim_end(s.drop_last())
    } else {
        s
    }
}

/// `s` with whitespace removed at both ends (`str::trim`).
pub open spec fn trim(s: Seq<char>) -> Seq<char> {
    trim_end(trim_start(s))
}

/// `v` with whitespace removed at both ends.
pub fn trim_chars(v: &Vec<char>) -> (r: Vec<char>)
    ensures
        r@ == trim(v@),
{
    let mut t = trim_start_chars(v);
    let ghost start = t@;
    while t.len() > 0 && is_whitespace(t[t.len() - 1])
        invariant
            trim_end(start) == trim_end(t@),
        decreases t.len(),
    {
        t.pop();
    }
    t
}

/// Index of the first occurrence of the non-empty `pat` in `s`.
pub open spec fn first_match(s: Seq<char>, pat: Seq<char>) -> Option<int>
    decreases s.len(),
{
    if pat.is_prefix_of(s) {
        Some(0)
    } else if s.len() == 0 {
        None
    } else {
        match first_match(s.drop_first(), pat) {
            Some(i) => Some(i + 1),
            None => None,
        }
    }
}

/// The last piece of `s` split at the non-empty `pat` (`str::split(pat).last()`).
pub open spec fn after_last_match(s: Seq<char>, pat: Seq<char>) -> Seq<char>
    decreases s.len(),
{
    if pat.len() == 0 {
        s
    } else {
        match first_match(s, pat) {
            Some(i) => if 0 <= i && i + pat.len() <= s.len() {
                after_last_match(s.skip(i + pat.len()), pat)
            } else {
                s
            },
            None => s,
        }
    }
}

pub proof fn lemma_first_match_bounds(s: Seq<char>, pat: Seq<char>)
    ensures
        first_match(s, pat) matches Some(i) ==> 0 <= i && i + pat.len() <= s.len(),
    decreases s.len(),
{
    if !pat.is_prefix_of(s) && s.len() > 0 {
        lemma_first_match_bounds(s.drop_first(), pat);
    }
}

/// Index of the first occurrence of `pat` in `v` at or after `start`.
pub fn find_from(v: &Vec<char>, start: usize, pat: &Vec<char>) -> (r: Option<usize>)
    requires
        start <= v.len(),
    ensures
        match (r, first_match(v@.skip(start as int), pat@)) {
            (Some(i), Some(j)) => i == start + j,
            (None, None) => true,
            _ => false,
        },
{
    let mut i: usize = start;
    while i < v.len() && !has_prefix_at(v, i, pat)
        invariant
            start <= i <= v.len(),
            first_match(v@.skip(start as int), pat@) == (match first_match(v@.skip(i as int), pat@) {
                Some(j) => Some(j + (i - start)),
                None => None::<int>,
            }),
        decreases v.len() - i,
    {
        assert(v@.skip(i as int).drop_first() =~= v@.skip(i + 1));
        i = i + 1;
    }
    if i < v.len() || has_prefix_at(v, i, pat) {
        Some(i)
    } else {
        assert(v@.skip(i as int).len() == 0);
        None
    }
}

/// The last piece of `v` split at the non-empty `pat`.
pub fn last_piece(v: &Vec<char>, pat: &Vec<char>) -> (r: Vec<char>)
    requires
        pat.len() > 0,
    ensures
        r@ == after_last_match(v@, pat@),
{
    let mut start: usize = 0;
    assert(v@.skip(0) =~= v@);
    loop
        invariant
            start <= v.len(),
            pat.len() > 0,
            after_last_match(v@, pat@) == after_last_match(v@.skip(start as int), pat@),
        decreases v.len() - start,
    {
        proof {
            lemma_first_match_bounds(v@.skip(start as int), pat@);
        }
        match find_from(v, start, pat) {
            Some(i) => {
                assert(v@.skip(start as int).skip(i - start + pat@.len()) =~= v@.skip(i + pat@.len()));
                start = i + pat.len();
            },
            None => {
                return suffix_from(v, start);
            },
        }
    }
}

} // verus!
