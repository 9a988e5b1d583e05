use vstd::prelude::*;
use crate::model::DocumentKind;
use crate::preview::{lemma_seq_step, views};
use crate::text::{chars_of, string_of};

verus! {

/// The pieces of `s` between `'/'` separators that are complete, and the piece being read.
pub open spec fn split_acc(s: Seq<char>) -> (Seq<Seq<char>>, Seq<char>)
    decreases s.len(),
{
    if s.len() == 0 {
        (Seq::empty(), Seq::empty())
    } else {
        let (done, cur) = split_acc(s.drop_last());
        if s.last() == '/' {
            (done.push(cur), Seq::empty())
        } else {
            (done, cur.push(s.last()))
        }
    }
}

/// The pieces of `s` between `'/'` separators (one more than there are separators).
pub open spec fn segments(s: Seq<char>) -> Seq<Seq<char>> {
    split_acc(s).0.push(split_acc(s).1)
}

pub open spec fn cur_dir() -> Seq<char> {
    seq!['.']
}

pub open spec fn parent_dir() -> Seq<char> {
    seq!['.', '.']
}

/// The component that stands for the root of an absolute path.
pub open spec fn root_dir() -> Seq<char> {
    seq!['/']
}

/// Segment number `i` is a component: it is not empty, and it is not `.` unless it comes first.
pub open spec fn keeps_segment(seg: Seq<char>, i: int) -> bool {
    seg.len() > 0 && (seg != cur_dir() || i == 0)
}

pub open spec fn kept_segments(segs: Seq<Seq<char>>) -> Seq<Seq<char>>
    decreases segs.len(),
{
    if segs.len() == 0 {
        Seq::empty()
    } else {
        let r = kept_segments(segs.drop_last());
        if keeps_segment(segs.last(), segs.len() - 1) {
            r.push(segs.last())
        } else {
            r
        }
    }
}

pub open spec fn has_root(s: Seq<char>) -> bool {
    s.len() > 0 && s[0] == '/'
}

/// The components of a Unix path as `Path::components` yields them: the root (written `/`)
/// for an absolute path, then every non-empty segment, where `.` is dropped except at the start.
pub open spec fn path_components(s: Seq<char>) -> Seq<Seq<char>> {
    (if has_root(s) {
        seq![root_dir()]
    } else {
        Seq::<Seq<char>>::empty()
    }) + kept_segments(segments(s))
}

/// Paths are equal as `Path`s: they have the same components.
pub open spec fn path_eq(a: Seq<char>, b: Seq<char>) -> bool {
    path_components(a) == path_components(b)
}

/// `base` is a leading run of the components of `p`, as `Path::starts_with` decides.
pub open spec fn path_starts_with(p: Seq<char>, base: Seq<char>) -> bool {
    path_components(base).is_prefix_of(path_components(p))
}

/// The text `Path::strip_prefix` leaves of `path` after the components of `base`.
pub uninterp spec fn strip_prefix_spec(path: Seq<char>, base: Seq<char>) -> Seq<char>;

/// How the workbench names `p` for the user: what is left of `p` after `cwd` when `p` lies
/// under it, otherwise `p` itself.
pub open spec fn display_path_spec(p: Seq<char>, cwd: Seq<char>) -> Seq<char> {
    if path_starts_with(p, cwd) {
        strip_prefix_spec(p, cwd)
    } else {
        p
    }
}

/// `Path::join` on Unix: an absolute `rel` replaces `base`; otherwise `rel` is appended,
/// with a `'/'` in between unless `base` is empty or already ends with one.
pub open spec fn join_spec(base: Seq<char>, rel: Seq<char>) -> Seq<char> {
    if has_root(rel) {
        rel
    } else if base.len() > 0 && base.last() != '/' {
        base + seq!['/'] + rel
    } else {
        base + rel
    }
}

/// The last component of `p` when it is a normal name (not the root, `.` or `..`).
pub open spec fn file_name_spec(p: Seq<char>) -> Option<Seq<char>> {
    let c = path_components(p);
    if c.len() == 0 {
        None
    } else if c.last() == root_dir() || c.last() == cur_dir() || c.last() == parent_dir() {
        None
    } else {
        Some(c.last())
    }
}

/// Index of the last `'.'` in `s`, if any.
pub open spec fn last_dot(s: Seq<char>) -> Option<int>
    decreases s.len(),
{
    if s.len() == 0 {
        None
    } else if s.last() == '.' {
        Some(s.len() - 1)
    } else {
        last_dot(s.drop_last())
    }
}

/// `Path::extension`: the part of the file name after its last `'.'`, unless the name has no
/// `'.'`, or its only `'.'` is its first char.
pub open spec fn extension_spec(p: Seq<char>) -> Option<Seq<char>> {
    match file_name_spec(p) {
        None => None,
        Some(name) => match last_dot(name) {
            None => None,
            Some(i) => if i == 0 {
                None
            } else {
                Some(name.skip(i + 1))
            },
        },
    }
}

/// ASCII upper-case letters mapped to lower case, other chars kept.
pub open spec fn ascii_lower(s: Seq<char>) -> Seq<char> {
    Seq::new(s.len(), |i: int| if 'A' <= s[i] <= 'Z' { ((s[i] as u32) + 32) as char } else { s[i] })
}

pub open spec fn kind_of_extension(e: Seq<char>) -> Option<DocumentKind> {
    if e == seq!['m', 'd'] || e == seq!['m', 'a', 'r', 'k', 'd', 'o', 'w', 'n'] {
        Some(DocumentKind::Markdown)
    } else if e == seq!['h', 't', 'm', 'l'] || e == seq!['h', 't', 'm'] {
        Some(DocumentKind::Html)
    } else if e == seq!['t', 'x', 't'] || e == seq!['t', 'e', 'x', 't'] || e == seq!['l', 'o', 'g'] {
        Some(DocumentKind::Text)
    } else {
        None
    }
}

/// The kind of document a path names, by its extension (ASCII case ignored):
/// `md`/`markdown`, `html`/`htm`, `txt`/`text`/`log`.
pub open spec fn document_kind_spec(p: Seq<char>) -> Option<DocumentKind> {
    match extension_spec(p) {
        None => None,
        Some(e) => kind_of_extension(ascii_lower(e)),
    }
}

proof fn lemma_kept_push(segs: Seq<Seq<char>>, x: Seq<char>)
    ensures
        kept_segments(segs.push(x)) == (if keeps_segment(x, segs.len() as int) {
            kept_segments(segs).push(x)
        } else {
            kept_segments(segs)
        }),
{
    assert(segs.push(x).drop_last() =~= segs);
}

/// Keeps `cur` as a component when segment number `idx` qualifies.
fn keep_into(comps: &mut Vec<Vec<char>>, cur: Vec<char>, idx: usize)
    ensures
        views(final(comps)@) == (if keeps_segment(cur@, idx as int) {
            views(old(comps)@).push(cur@)
        } else {
            views(old(comps)@)
        }),
{
    let keep = cur.len() > 0 && !(cur.len() == 1 && cur[0] == '.');
    proof {
        if cur@ == cur_dir() {
            assert(cur@.len() == 1 && cur@[0] == '.');
        }
        if cur@.len() == 1 && cur@[0] == '.' {
            assert(cur@ =~= cur_dir());
        }
    }
    if keep || (idx == 0 && cur.len() > 0) {
        let ghost before = views(comps@);
        comps.push(cur);
        assert(views(comps@) =~= before.push(cur@));
    }
}

/// The components of a path.
pub fn components(p: &Vec<char>) -> (r: Vec<Vec<char>>)
    ensures
        views(r@) == path_components(p@),
{
    let mut comps: Vec<Vec<char>> = Vec::new();
    let rooted = p.len() > 0 && p[0] == '/';
    if rooted {
        let root = vec!['/'];
        assert(root@ =~= root_dir());
        comps.push(root);
    }
    let ghost head = views(comps@);
    assert(head =~= (if has_root(p@) {
        seq![root_dir()]
    } else {
        Seq::<Seq<char>>::empty()
    }));
    let mut cur: Vec<char> = Vec::new();
    let mut idx: usize = 0;
    let mut i: usize = 0;
    while i < p.len()
        invariant
            i <= p.len(),
            idx <= i,
            split_acc(p@.take(i as int)).1 == cur@,
            split_acc(p@.take(i as int)).0.len() == idx,
            views(comps@) == head + kept_segments(split_acc(p@.take(i as int)).0),
        decreases p.len() - i,
    {
        proof {
            lemma_seq_step(p@, i as int);
        }
        let c = p[i];
        if c == '/' {
            let ghost done = split_acc(p@.take(i as int)).0;
            proof {
                lemma_kept_push(done, cur@);
            }
            let piece = cur;
            keep_into(&mut comps, piece, idx);
            assert(views(comps@) =~= head + kept_segments(done.push(piece@)));
            cur = Vec::new();
            idx = idx + 1;
        } else {
            cur.push(c);
        }
        i = i + 1;
    }
    assert(p@.take(i as int) =~= p@);
    let ghost done = split_acc(p@).0;
    proof {
        lemma_kept_push(done, cur@);
    }
    let piece = cur;
    keep_into(&mut comps, piece, idx);
    assert(views(comps@) =~= head + kept_segments(segments(p@)));
    comps
}

/// Whether two char vectors are equal.
pub fn chars_equal(a: &Vec<char>, b: &Vec<char>) -> (r: bool)
    ensures
        r == (a@ == b@),
{
    if a.len() != b.len() {
        return false;
    }
    let mut i: usize = 0;
    while i < a.len()
        invariant
            a.len() == b.len(),
            i <= a.len(),
            forall|j: int| 0 <= j < i ==> a@[j] == b@[j],
        decreases a.len() - i,
    {
        if a[i] != b[i] {
            return false;
        }
        i = i + 1;
    }
    assert(a@ =~= b@);
    true
}

/// Whether the components `a` form a leading run of the components `b`.
fn components_prefix(a: &Vec<Vec<char>>, b: &Vec<Vec<char>>) -> (r: bool)
    ensures
        r == views(a@).is_prefix_of(views(b@)),
{
    if a.len() > b.len() {
        return false;
    }
    let mut i: usize = 0;
    while i < a.len()
        invariant
            a.len() <= b.len(),
            i <= a.len(),
            forall|j: int| 0 <= j < i ==> a@[j]@ == b@[j]@,
        decreases a.len() - i,
    {
        if !chars_equal(&a[i], &b[i]) {
            assert(views(b@).take(a@.len() as int)[i as int] == b@[i as int]@);
            return false;
        }
        i = i + 1;
    }
    assert(views(a@) =~= views(b@).take(a@.len() as int));
    true
}

/// `Path::starts_with`: the components of `base` lead those of `p`.
pub fn starts_with(p: &str, base: &str) -> (r: bool)
    ensures
        r == path_starts_with(p@, base@),
{
    let pv = chars_of(p);
    let bv = chars_of(base);
    let pc = components(&pv);
    let bc = components(&bv);
    components_prefix(&bc, &pc)
}

/// `Path` equality: the two paths have the same components.
pub fn same_path(a: &str, b: &str) -> (r: bool)
    ensures
        r == path_eq(a@, b@),
{
    let av = chars_of(a);
    let bv = chars_of(b);
    let ac = components(&av);
    let bc = components(&bv);
    let r = components_prefix(&ac, &bc) && ac.len() == bc.len();
    proof {
        if r {
            assert(views(ac@) =~= views(bc@));
        }
    }
    r
}

/// `Path::strip_prefix` (its result read back as text). As its documentation states, it
/// succeeds exactly when `base` is a prefix of `path` in the sense of `Path::starts_with`,
/// and the path it returns, joined onto `base`, yields `path`. The contract names the text
/// it returns (`strip_prefix_spec`) rather than spelling out how std trims the separators
/// and `.` left after the prefix.
#[verifier::external_body]
fn strip_prefix(path: &str, base: &str) -> (r: Option<String>)
    ensures
        r is Some <==> path_starts_with(path@, base@),
        r matches Some(t) ==> t@ == strip_prefix_spec(path@, base@) && path_eq(join_spec(base@, t@), path@),
{
    match std::path::Path::new(path).strip_prefix(base) {
        Ok(rest) => Some(rest.to_string_lossy().into_owned()),
        Err(_) => None,
    }
}

/// How the workbench names a document: relative to `cwd` when it lies under it. Joined onto
/// `cwd`, that name gives the document's path back.
pub fn display_path(path: &str, cwd: &str) -> (r: String)
    ensures
        r@ == display_path_spec(path@, cwd@),
        path_starts_with(path@, cwd@) ==> path_eq(join_spec(cwd@, r@), path@),
{
    match strip_prefix(path, cwd) {
        Some(rest) => rest,
        None => path.to_owned(),
    }
}

/// `Path::join` on Unix.
pub fn join(base: &str, rel: &str) -> (r: String)
    ensures
        r@ == join_spec(base@, rel@),
{
    let bv = chars_of(base);
    let rv = chars_of(rel);
    if rv.len() > 0 && rv[0] == '/' {
        return string_of(&rv);
    }
    let mut out = bv.clone();
    assert(out@ =~= bv@);
    if bv.len() > 0 && bv[bv.len() - 1] != '/' {
        out.push('/');
    }
    let mut j: usize = 0;
    let ghost start = out@;
    while j < rv.len()
        invariant
            j <= rv.len(),
            out@ == start + rv@.take(j as int),
        decreases rv.len() - j,
    {
        out.push(rv[j]);
        j = j + 1;
        assert(out@ =~= start + rv@.take(j as int));
    }
    assert(rv@.take(j as int) =~= rv@);
    string_of(&out)
}

/// `Path::extension`.
pub fn extension(path: &str) -> (r: Option<Vec<char>>)
    ensures
        match r {
            None => extension_spec(path@) is None,
            Some(e) => extension_spec(path@) == Some(e@),
        },
{
    let pv = chars_of(path);
    let pc = components(&pv);
    if pc.len() == 0 {
        return None;
    }
    let name = &pc[pc.len() - 1];
    let is_root = name.len() == 1 && name[0] == '/';
    let is_cur = name.len() == 1 && name[0] == '.';
    let is_parent = name.len() == 2 && name[0] == '.' && name[1] == '.';
    proof {
        let l = views(pc@).last();
        assert(l == name@);
        if l == root_dir() || l == cur_dir() {
            assert(l.len() == 1 && l[0] == l[0]);
        }
        if l == parent_dir() {
            assert(l.len() == 2);
        }
        if is_root {
            assert(name@ =~= root_dir());
        }
        if is_cur {
            assert(name@ =~= cur_dir());
        }
        if is_parent {
            assert(name@ =~= parent_dir());
        }
    }
    if is_root || is_cur || is_parent {
        return None;
    }
    let mut i: usize = name.len();
    assert(name@.take(name@.len() as int) =~= name@);
    while i > 0 && name[i - 1] != '.'
        invariant
            i <= name.len(),
            last_dot(name@) == last_dot(name@.take(i as int)),
        decreases i,
    {
        assert(name@.take(i as int).drop_last() =~= name@.take(i - 1));
        i = i - 1;
    }
    assert(name@.take(name@.len() as int) =~= name@);
    if i == 0 {
        assert(name@.take(0) =~= Seq::<char>::empty());
        return None;
    }
    assert(name@.take(i as int).drop_last() =~= name@.take(i - 1));
    if i == 1 {
        return None;
    }
    Some(suffix_chars(name, i))
}

fn suffix_chars(v: &Vec<char>, start: usize) -> (r: Vec<char>)
    requires
        start <= v.len(),
    ensures
        r@ == v@.skip(start as int),
{
    crate::preview::suffix_from(v, start)
}

/// The kind of document a path names, by its extension.
pub fn document_kind(path: &str) -> (r: Option<DocumentKind>)
    ensures
        r == document_kind_spec(path@),
{
    match extension(path) {
        None => None,
        Some(e) => {
            let mut low: Vec<char> = Vec::new();
            let mut i: usize = 0;
            while i < e.len()
                invariant
                    i <= e.len(),
                    low@ == ascii_lower(e@).take(i as int),
                decreases e.len() - i,
            {
                let c = e[i];
                let d = if 'A' <= c && c <= 'Z' {
                    ((c as u32) + 32) as u8 as char
                } else {
                    c
                };
                proof {
                    if 'A' <= c && c <= 'Z' {
                        assert(((c as u32) + 32) as u8 as char == ((c as u32) + 32) as char);
                    }
                }
                low.push(d);
                i = i + 1;
                assert(low@ =~= ascii_lower(e@).take(i as int));
            }
            assert(ascii_lower(e@).take(i as int) =~= ascii_lower(e@));
            kind_of_chars(&low)
        },
    }
}

fn is_word(v: &Vec<char>, w: &Vec<char>) -> (r: bool)
    ensures
        r == (v@ == w@),
{
    chars_equal(v, w)
}

fn kind_of_chars(e: &Vec<char>) -> (r: Option<DocumentKind>)
    ensures
        r == kind_of_extension(e@),
{
    let md = vec!['m', 'd'];
    let markdown = vec!['m', 'a', 'r', 'k', 'd', 'o', 'w', 'n'];
    let html = vec!['h', 't', 'm', 'l'];
    let htm = vec!['h', 't', 'm'];
    let txt = vec!['t', 'x', 't'];
    let text = vec!['t', 'e', 'x', 't'];
    let log = vec!['l', 'o', 'g'];
    assert(md@ =~= seq!['m', 'd']);
    assert(markdown@ =~= seq!['m', 'a', 'r', 'k', 'd', 'o', 'w', 'n']);
    assert(html@ =~= seq!['h', 't', 'm', 'l']);
    assert(htm@ =~= seq!['h', 't', 'm']);
    assert(txt@ =~= seq!['t', 'x', 't']);
    assert(text@ =~= seq!['t', 'e', 'x', 't']);
    assert(log@ =~= seq!['l', 'o', 'g']);
    if is_word(e, &md) || is_word(e, &markdown) {
        Some(DocumentKind::Markdown)
    } else if is_word(e, &html) || is_word(e, &htm) {
        Some(DocumentKind::Html)
    } else if is_word(e, &txt) || is_word(e, &text) || is_word(e, &log) {
        Some(DocumentKind::Text)
    } else {
        None
    }
}

/// Whether the workbench can show the document a path names.
pub fn is_supported_document(path: &str) -> (r: bool)
    ensures
        r == (document_kind_spec(path@) is Some),
{
    document_kind(path).is_some()
}


} // verus!
