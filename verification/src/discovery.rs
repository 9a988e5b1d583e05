use vstd::prelude::*;
use crate::model::{DocumentEntry, DocumentKind, DocumentSource};
use crate::paths::{
    display_path, display_path_spec, document_kind, document_kind_spec, is_supported_document,
    join, join_spec, path_eq, path_starts_with, same_path, starts_with,
};
use crate::state::concat;
use crate::order::{lemma_path_order, path_before, path_less};
use crate::cursor::{find_boundary, index_at};
use crate::preview::{after_last_match, last_piece, lines, lines_of, suffix_from, trim, trim_chars, views};
use crate::text::{chars_of, is_boundary, string_of};

verus! {

/// At most this many documents are remembered as recent.
pub const MAX_RECENT_DOCUMENTS: usize = 100;

/// At most this many documents are offered.
pub const MAX_DISCOVERED_DOCUMENTS: usize = 80;

/// `ps` without the paths equal to `p` (as paths), in order.
pub open spec fn without_path(ps: Seq<Seq<char>>, p: Seq<char>) -> Seq<Seq<char>>
    decreases ps.len(),
{
    if ps.len() == 0 {
        Seq::empty()
    } else {
        let r = without_path(ps.drop_last(), p);
        if path_eq(ps.last(), p) {
            r
        } else {
            r.push(ps.last())
        }
    }
}

/// The recent list after using `p`: `p` first, then the others in their order, at most
/// `MAX_RECENT_DOCUMENTS` in all.
pub open spec fn recent_after_use(ps: Seq<Seq<char>>, p: Seq<char>) -> Seq<Seq<char>> {
    let r = seq![p] + without_path(ps, p);
    if r.len() > MAX_RECENT_DOCUMENTS {
        r.take(MAX_RECENT_DOCUMENTS as int)
    } else {
        r
    }
}

/// The recent-documents list to store after `path` was saved: `None` when `path` is not a
/// supported document (nothing is stored), otherwise `path` moved or added to the front.
pub fn record_document_candidate(paths: Vec<String>, path: &str) -> (r: Option<Vec<String>>)
    ensures
        match r {
            None => document_kind_spec(path@) is None,
            Some(v) => document_kind_spec(path@) is Some && v.deep_view() == recent_after_use(
                paths.deep_view(),
                path@,
            ),
        },
{
    if !is_supported_document(path) {
        return None;
    }
    let mut out: Vec<String> = Vec::new();
    out.push(path.to_owned());
    let ghost ps = paths.deep_view();
    let mut i: usize = 0;
    assert(ps.take(0) =~= Seq::<Seq<char>>::empty());
    assert(out.deep_view() =~= seq![path@] + without_path(ps.take(0), path@));
    while i < paths.len()
        invariant
            ps == paths.deep_view(),
            i <= paths.len(),
            out.deep_view() == seq![path@] + without_path(ps.take(i as int), path@),
        decreases paths.len() - i,
    {
        assert(ps.take(i + 1).drop_last() =~= ps.take(i as int));
        assert(ps.take(i + 1).last() == paths@[i as int]@);
        if !same_path(paths[i].as_str(), path) {
            let ghost before = out.deep_view();
            out.push(paths[i].clone());
            assert(out.deep_view() =~= before.push(paths@[i as int]@));
        }
        i = i + 1;
    }
    assert(ps.take(i as int) =~= ps);
    if out.len() > MAX_RECENT_DOCUMENTS {
        let ghost before = out.deep_view();
        out.truncate(MAX_RECENT_DOCUMENTS);
        assert(out.deep_view() =~= before.take(MAX_RECENT_DOCUMENTS as int));
    }
    Some(out)
}

/// What the file system says of a document path.
pub struct FileFacts {
    pub is_symlink: bool,
    pub is_file: bool,
}

/// Everything `validate_document_path` needs to know of the file system, each `None` where
/// the query failed: the path's own metadata (symlinks not followed), the canonical working
/// directory, the canonical path; and the verdict of the sensitive-path check.
pub struct PathFacts {
    pub metadata: Option<FileFacts>,
    pub sensitive: Result<(), String>,
    pub canonical_cwd: Option<String>,
    pub canonical_path: Option<String>,
}

/// The verdict on a document path, checks in order: a supported document type, metadata
/// available, not a symlink, a regular file, not sensitive, both paths resolvable, and the
/// resolved path under the resolved working directory.
pub open spec fn validation_spec(path: Seq<char>, cwd: Seq<char>, facts: PathFacts) -> Result<(), Seq<char>> {
    if document_kind_spec(path) is None {
        Err("unsupported document type: "@ + path)
    } else {
        match facts.metadata {
            None => Err("inspect "@ + path),
            Some(m) => if m.is_symlink {
                Err("refusing symlinked document "@ + path)
            } else if !m.is_file {
                Err("not a file: "@ + path)
            } else {
                match facts.sensitive {
                    Err(e) => Err(e@),
                    Ok(()) => match facts.canonical_cwd {
                        None => Err("resolve working directory "@ + cwd),
                        Some(cc) => match facts.canonical_path {
                            None => Err("resolve "@ + path),
                            Some(cp) => if path_starts_with(cp@, cc@) {
                                Ok(())
                            } else {
                                Err("refusing document outside cwd: "@ + path)
                            },
                        },
                    },
                }
            },
        }
    }
}

/// Whether a document at `path` may be shown, edited or opened from working directory `cwd`.
pub fn validate_document_path(path: &str, cwd: &str, facts: PathFacts) -> (r: Result<(), String>)
    ensures
        match (r, validation_spec(path@, cwd@, facts)) {
            (Ok(()), Ok(())) => true,
            (Err(m), Err(e)) => m@ == e,
            _ => false,
        },
{
    if !is_supported_document(path) {
        return Err(concat("unsupported document type: ", path));
    }
    let meta = match facts.metadata {
        None => {
            return Err(concat("inspect ", path));
        },
        Some(m) => m,
    };
    if meta.is_symlink {
        return Err(concat("refusing symlinked document ", path));
    }
    if !meta.is_file {
        return Err(concat("not a file: ", path));
    }
    if let Err(e) = facts.sensitive {
        return Err(e);
    }
    let canonical_cwd = match facts.canonical_cwd {
        None => {
            return Err(concat("resolve working directory ", cwd));
        },
        Some(c) => c,
    };
    let canonical_path = match facts.canonical_path {
        None => {
            return Err(concat("resolve ", path));
        },
        Some(c) => c,
    };
    if !starts_with(canonical_path.as_str(), canonical_cwd.as_str()) {
        return Err(concat("refusing document outside cwd: ", path));
    }
    Ok(())
}


/// A found path and where it was found.
pub struct Candidate {
    pub source: DocumentSource,
    pub path: String,
}

/// Source and path text of each candidate.
pub open spec fn cviews(c: Seq<Candidate>) -> Seq<(DocumentSource, Seq<char>)> {
    Seq::new(c.len(), |i: int| (c[i].source, c[i].path@))
}

/// Some path among the first `n` of `c` equals `p` as a path.
pub open spec fn seen_before(c: Seq<(DocumentSource, Seq<char>)>, n: int, p: Seq<char>) -> bool {
    exists|j: int| 0 <= j < n && path_eq(#[trigger] c[j].1, p)
}

/// The candidates whose path was not already offered by an earlier one, in order.
pub open spec fn first_occurrences(c: Seq<(DocumentSource, Seq<char>)>) -> Seq<(DocumentSource, Seq<char>)>
    decreases c.len(),
{
    if c.len() == 0 {
        Seq::empty()
    } else {
        let r = first_occurrences(c.drop_last());
        if seen_before(c, c.len() - 1, c.last().1) {
            r
        } else {
            r.push(c.last())
        }
    }
}

/// The paths of `ps` whose flag in `ok` is set, in order.
pub open spec fn kept_paths(ps: Seq<Seq<char>>, ok: Seq<bool>) -> Seq<Seq<char>>
    decreases ps.len(),
{
    if ps.len() == 0 {
        Seq::empty()
    } else {
        let r = kept_paths(ps.drop_last(), ok);
        if ok[ps.len() - 1] {
            r.push(ps.last())
        } else {
            r
        }
    }
}

pub open spec fn tagged(ps: Seq<Seq<char>>, src: DocumentSource) -> Seq<(DocumentSource, Seq<char>)> {
    Seq::new(ps.len(), |i: int| (src, ps[i]))
}

/// The candidate documents: recent paths that validated, then paths with uncommitted
/// changes, then paths found under the working directory; each path once (the first time
/// it comes, compared as paths); at most `MAX_DISCOVERED_DOCUMENTS`.
pub open spec fn candidates_spec(
    recent: Seq<Seq<char>>,
    recent_ok: Seq<bool>,
    git: Seq<Seq<char>>,
    cwd: Seq<Seq<char>>,
) -> Seq<(DocumentSource, Seq<char>)> {
    let f = first_occurrences(
        tagged(kept_paths(recent, recent_ok), DocumentSource::Recent) + tagged(git, DocumentSource::Git)
            + tagged(cwd, DocumentSource::Cwd),
    );
    if f.len() > MAX_DISCOVERED_DOCUMENTS {
        f.take(MAX_DISCOVERED_DOCUMENTS as int)
    } else {
        f
    }
}

pub proof fn lemma_first_occ_seen(c: Seq<(DocumentSource, Seq<char>)>, n: int, p: Seq<char>)
    requires
        0 <= n <= c.len(),
    ensures
        seen_before(c, n, p) <==> (exists|j: int|
            0 <= j < first_occurrences(c.take(n)).len() && path_eq(
                #[trigger] first_occurrences(c.take(n))[j].1,
                p,
            )),
    decreases n,
{
    let f = first_occurrences(c.take(n));
    if n > 0 {
        let t = c.take(n);
        assert(t.drop_last() =~= c.take(n - 1));
        lemma_first_occ_seen(c, n - 1, p);
        let g = first_occurrences(c.take(n - 1));
        assert(seen_before(t, n - 1, t.last().1) == seen_before(c, n - 1, c[n - 1].1)) by {
            if seen_before(t, n - 1, t.last().1) {
                let j = choose|j: int| 0 <= j < n - 1 && path_eq(#[trigger] t[j].1, t.last().1);
                assert(c[j] == t[j]);
            }
            if seen_before(c, n - 1, c[n - 1].1) {
                let j = choose|j: int| 0 <= j < n - 1 && path_eq(#[trigger] c[j].1, c[n - 1].1);
                assert(c[j] == t[j]);
            }
        }
        if seen_before(c, n, p) {
            let j = choose|j: int| 0 <= j < n && path_eq(#[trigger] c[j].1, p);
            if j < n - 1 {
                assert(seen_before(c, n - 1, p));
                let q = choose|q: int| 0 <= q < g.len() && path_eq(#[trigger] g[q].1, p);
                assert(f.len() >= g.len());
                assert(f[q] == g[q]);
            } else {
                if seen_before(c, n - 1, c[n - 1].1) {
                    let q = choose|q: int| 0 <= q < g.len() && path_eq(#[trigger] g[q].1, c[n - 1].1);
                    assert(f[q] == g[q]);
                    assert(path_eq(f[q].1, p));
                } else {
                    assert(f[f.len() - 1] == c[n - 1]);
                }
            }
        }
        if exists|j: int| 0 <= j < f.len() && path_eq(#[trigger] f[j].1, p) {
            let j = choose|j: int| 0 <= j < f.len() && path_eq(#[trigger] f[j].1, p);
            if j < g.len() {
                assert(f[j] == g[j]);
                assert(seen_before(c, n - 1, p));
                let q = choose|q: int| 0 <= q < n - 1 && path_eq(#[trigger] c[q].1, p);
                assert(seen_before(c, n, p));
            } else {
                assert(f[j] == c[n - 1]);
                assert(seen_before(c, n, p));
            }
        }
    }
}

/// Whether some candidate's path equals `p` as a path.
fn offered(out: &Vec<Candidate>, p: &str) -> (r: bool)
    ensures
        r == exists|j: int| 0 <= j < out@.len() && path_eq(#[trigger] cviews(out@)[j].1, p@),
{
    let mut i: usize = 0;
    while i < out.len()
        invariant
            i <= out.len(),
            forall|j: int| 0 <= j < i ==> !path_eq(#[trigger] cviews(out@)[j].1, p@),
        decreases out.len() - i,
    {
        if same_path(out[i].path.as_str(), p) {
            assert(cviews(out@)[i as int].1 == out@[i as int].path@);
            return true;
        }
        i = i + 1;
    }
    false
}

/// Appends the paths of `ps` with source `src`, each path not offered before.
fn offer_all(
    out: &mut Vec<Candidate>,
    ps: &Vec<String>,
    src: DocumentSource,
    Ghost(seq_before): Ghost<Seq<(DocumentSource, Seq<char>)>>,
)
    requires
        cviews(old(out)@) == first_occurrences(seq_before),
    ensures
        cviews(final(out)@) == first_occurrences(seq_before + tagged(ps.deep_view(), src)),
{
    let ghost all = seq_before + tagged(ps.deep_view(), src);
    let mut i: usize = 0;
    assert(all.take(seq_before.len() as int) =~= seq_before);
    while i < ps.len()
        invariant
            i <= ps.len(),
            all == seq_before + tagged(ps.deep_view(), src),
            cviews(out@) == first_occurrences(all.take(seq_before.len() + i)),
        decreases ps.len() - i,
    {
        let ghost n: int = seq_before.len() + i;
        proof {
            lemma_first_occ_seen(all, n, ps@[i as int]@);
            assert(all.take(n + 1).drop_last() =~= all.take(n));
            assert(all[n] == (src, ps@[i as int]@));
            assert(all.take(n + 1).last() == all[n]);
            assert(seen_before(all.take(n + 1), n, all[n].1) == seen_before(all, n, all[n].1)) by {
                if seen_before(all.take(n + 1), n, all[n].1) {
                    let j = choose|j: int| 0 <= j < n && path_eq(#[trigger] all.take(n + 1)[j].1, all[n].1);
                    assert(all.take(n + 1)[j] == all[j]);
                }
                if seen_before(all, n, all[n].1) {
                    let j = choose|j: int| 0 <= j < n && path_eq(#[trigger] all[j].1, all[n].1);
                    assert(all.take(n + 1)[j] == all[j]);
                }
            }
        }
        if !offered(out, ps[i].as_str()) {
            let ghost before = cviews(out@);
            out.push(Candidate { source: src, path: ps[i].clone() });
            assert(cviews(out@) =~= before.push((src, ps@[i as int]@)));
        }
        i = i + 1;
    }
    assert(all.take(seq_before.len() + i) =~= all);
}

/// The candidate documents, from the recent paths (with whether each validated), the paths
/// with uncommitted changes and the paths found under the working directory.
pub fn discover_candidates(
    recent: &Vec<String>,
    recent_ok: &Vec<bool>,
    git: &Vec<String>,
    cwd: &Vec<String>,
) -> (r: Vec<Candidate>)
    requires
        recent_ok@.len() == recent@.len(),
    ensures
        cviews(r@) == candidates_spec(
            recent.deep_view(),
            recent_ok@,
            git.deep_view(),
            cwd.deep_view(),
        ),
{
    let mut valid: Vec<String> = Vec::new();
    let mut i: usize = 0;
    assert(recent.deep_view().take(0) =~= Seq::<Seq<char>>::empty());
    while i < recent.len()
        invariant
            i <= recent.len(),
            recent_ok@.len() == recent@.len(),
            valid.deep_view() == kept_paths(recent.deep_view().take(i as int), recent_ok@),
        decreases recent.len() - i,
    {
        assert(recent.deep_view().take(i + 1).drop_last() =~= recent.deep_view().take(i as int));
        if recent_ok[i] {
            let ghost before = valid.deep_view();
            valid.push(recent[i].clone());
            assert(valid.deep_view() =~= before.push(recent@[i as int]@));
        }
        i = i + 1;
    }
    assert(recent.deep_view().take(i as int) =~= recent.deep_view());
    let mut out: Vec<Candidate> = Vec::new();
    let ghost empty = Seq::<(DocumentSource, Seq<char>)>::empty();
    assert(cviews(out@) =~= first_occurrences(empty));
    offer_all(&mut out, &valid, DocumentSource::Recent, Ghost(empty));
    let ghost a = empty + tagged(valid.deep_view(), DocumentSource::Recent);
    offer_all(&mut out, git, DocumentSource::Git, Ghost(a));
    let ghost b = a + tagged(git.deep_view(), DocumentSource::Git);
    offer_all(&mut out, cwd, DocumentSource::Cwd, Ghost(b));
    proof {
        assert(empty + tagged(valid.deep_view(), DocumentSource::Recent) =~= tagged(
            kept_paths(recent.deep_view(), recent_ok@),
            DocumentSource::Recent,
        ));
    }
    if out.len() > MAX_DISCOVERED_DOCUMENTS {
        let ghost before = cviews(out@);
        out.truncate(MAX_DISCOVERED_DOCUMENTS);
        assert(cviews(out@) =~= before.take(MAX_DISCOVERED_DOCUMENTS as int));
    }
    out
}


/// Path, shown path, kind and source of each entry.
pub open spec fn eviews(e: Seq<DocumentEntry>) -> Seq<(Seq<char>, Seq<char>, DocumentKind, DocumentSource)> {
    Seq::new(e.len(), |i: int| (e[i].path@, e[i].display_path@, e[i].kind, e[i].source))
}

/// The entries made of the candidates that validated and name a supported document.
pub open spec fn entries_spec(
    c: Seq<(DocumentSource, Seq<char>)>,
    ok: Seq<bool>,
    cwd: Seq<char>,
) -> Seq<(Seq<char>, Seq<char>, DocumentKind, DocumentSource)>
    decreases c.len(),
{
    if c.len() == 0 {
        Seq::empty()
    } else {
        let r = entries_spec(c.drop_last(), ok, cwd);
        let (src, p) = c.last();
        if ok[c.len() - 1] && document_kind_spec(p) is Some {
            r.push((p, display_path_spec(p, cwd), document_kind_spec(p).unwrap(), src))
        } else {
            r
        }
    }
}

/// The document list: each candidate that validated (per `ok`) and names a supported
/// document, with its kind and its path as shown relative to `cwd`.
pub fn document_entries(cands: &Vec<Candidate>, ok: &Vec<bool>, cwd: &str) -> (r: Vec<DocumentEntry>)
    requires
        ok@.len() == cands@.len(),
    ensures
        eviews(r@) == entries_spec(cviews(cands@), ok@, cwd@),
{
    let mut out: Vec<DocumentEntry> = Vec::new();
    let ghost c = cviews(cands@);
    let mut i: usize = 0;
    assert(c.take(0) =~= Seq::<(DocumentSource, Seq<char>)>::empty());
    while i < cands.len()
        invariant
            i <= cands.len(),
            ok@.len() == cands@.len(),
            c == cviews(cands@),
            eviews(out@) == entries_spec(c.take(i as int), ok@, cwd@),
        decreases cands.len() - i,
    {
        assert(c.take(i + 1).drop_last() =~= c.take(i as int));
        assert(c.take(i + 1).last() == c[i as int]);
        let cand = &cands[i];
        if ok[i] {
            match document_kind(cand.path.as_str()) {
                Some(kind) => {
                    let ghost before = eviews(out@);
                    let shown = display_path(cand.path.as_str(), cwd);
                    out.push(DocumentEntry { display_path: shown, path: cand.path.clone(), kind, source: cand.source });
                    assert(eviews(out@) =~= before.push((cand.path@, shown@, kind, cand.source)));
                },
                None => {},
            }
        }
        i = i + 1;
    }
    assert(c.take(i as int) =~= c);
    out
}


pub open spec fn rename_arrow() -> Seq<char> {
    seq![' ', '-', '>', ' ']
}

/// The path named by a line of `git status --short`: the text after the two status
/// columns and their separator (byte 3 on, when that is a char boundary), trimmed, and for
/// a rename the part after the last ` -> `.
pub open spec fn git_line_path(line: Seq<char>) -> Option<Seq<char>> {
    if is_boundary(line, 3) {
        Some(after_last_match(trim(line.skip(index_at(line, 3))), rename_arrow()))
    } else {
        None
    }
}

/// The paths named in `git status --short` output, each joined to `cwd`.
pub open spec fn git_paths_spec(ls: Seq<Seq<char>>, cwd: Seq<char>) -> Seq<Seq<char>>
    decreases ls.len(),
{
    if ls.len() == 0 {
        Seq::empty()
    } else {
        let r = git_paths_spec(ls.drop_last(), cwd);
        match git_line_path(ls.last()) {
            Some(p) => r.push(join_spec(cwd, p)),
            None => r,
        }
    }
}

/// The path named by one line of `git status --short`.
pub fn git_line_path_of(line: &Vec<char>) -> (r: Option<Vec<char>>)
    ensures
        match r {
            Some(p) => git_line_path(line@) == Some(p@),
            None => git_line_path(line@) is None,
        },
{
    match find_boundary(line, 3) {
        None => None,
        Some(k) => {
            let rest = suffix_from(line, k);
            let t = trim_chars(&rest);
            let arrow = vec![' ', '-', '>', ' '];
            assert(arrow@ =~= rename_arrow());
            Some(last_piece(&t, &arrow))
        },
    }
}

/// The paths that `git status --short` output names, joined to `cwd` (they still need
/// validating).
pub fn git_status_paths(stdout: &str, cwd: &str) -> (r: Vec<String>)
    ensures
        r.deep_view() == git_paths_spec(lines_of(stdout@), cwd@),
{
    let v = chars_of(stdout);
    let ls = lines(&v);
    let mut out: Vec<String> = Vec::new();
    let mut i: usize = 0;
    assert(views(ls@).take(0) =~= Seq::<Seq<char>>::empty());
    while i < ls.len()
        invariant
            i <= ls.len(),
            views(ls@) == lines_of(stdout@),
            out.deep_view() == git_paths_spec(views(ls@).take(i as int), cwd@),
        decreases ls.len() - i,
    {
        assert(views(ls@).take(i + 1).drop_last() =~= views(ls@).take(i as int));
        assert(views(ls@).take(i + 1).last() == ls@[i as int]@);
        match git_line_path_of(&ls[i]) {
            Some(p) => {
                let ghost before = out.deep_view();
                let ps = string_of(&p);
                let full = join(cwd, ps.as_str());
                out.push(full);
                assert(out.deep_view() =~= before.push(full@));
            },
            None => {},
        }
        i = i + 1;
    }
    assert(views(ls@).take(i as int) =~= views(ls@));
    out
}


/// `x` occurs in `ps` with no path equal to it before it.
pub open spec fn first_of_class(ps: Seq<Seq<char>>, x: Seq<char>) -> bool {
    exists|k: int|
        0 <= k < ps.len() && ps[k] == x && forall|j: int| 0 <= j < k ==> !path_eq(#[trigger] ps[j], x)
}

/// `r` is `ps` sorted as paths with repeats dropped (the first of equal paths kept), cut to
/// `max` paths: strictly increasing, each a first occurrence, and every path of `ps` either
/// equal to one in `r` or, when `r` was cut, after all of them.
pub open spec fn sorted_distinct_prefix(ps: Seq<Seq<char>>, r: Seq<Seq<char>>, max: nat) -> bool {
    &&& r.len() <= max
    &&& forall|i: int, j: int| 0 <= i < j < r.len() ==> path_less(r[i], r[j])
    &&& forall|i: int| 0 <= i < r.len() ==> first_of_class(ps, #[trigger] r[i])
    &&& covers(ps, r, max)
}

/// Some path of `r` equals `p` as a path.
pub open spec fn has_equal(r: Seq<Seq<char>>, p: Seq<char>) -> bool {
    exists|i: int| 0 <= i < r.len() && path_eq(#[trigger] r[i], p)
}

/// Every path of `ps` equals one in `r`, or, when `r` holds `max` paths, comes after its last.
pub open spec fn covers(ps: Seq<Seq<char>>, r: Seq<Seq<char>>, max: nat) -> bool {
    forall|k: int|
        0 <= k < ps.len() ==> has_equal(r, #[trigger] ps[k]) || (r.len() == max && path_less(
            r[max - 1],
            ps[k],
        ))
}

/// Path `x` is still to be output after `out`: it is after the last path output.
pub open spec fn above_last(out: Seq<Seq<char>>, x: Seq<char>) -> bool {
    out.len() == 0 || path_less(out.last(), x)
}

/// The paths found under the working directory, sorted as paths, each once, at most
/// `MAX_DISCOVERED_DOCUMENTS` of them.
pub fn finish_cwd_documents(found: &Vec<String>) -> (r: Vec<String>)
    ensures
        sorted_distinct_prefix(found.deep_view(), r.deep_view(), MAX_DISCOVERED_DOCUMENTS as nat),
{
    let ghost ps = found.deep_view();
    let mut out: Vec<String> = Vec::new();
    loop
        invariant
            ps == found.deep_view(),
            out@.len() <= MAX_DISCOVERED_DOCUMENTS,
            forall|i: int, j: int| 0 <= i < j < out@.len() ==> path_less(out.deep_view()[i], out.deep_view()[j]),
            forall|i: int| 0 <= i < out@.len() ==> first_of_class(ps, #[trigger] out.deep_view()[i]),
            forall|k: int|
                0 <= k < ps.len() ==> has_equal(out.deep_view(), #[trigger] ps[k]) || above_last(
                    out.deep_view(),
                    ps[k],
                ),
        ensures
            sorted_distinct_prefix(ps, out.deep_view(), MAX_DISCOVERED_DOCUMENTS as nat),
        decreases MAX_DISCOVERED_DOCUMENTS - out@.len(),
    {
        let ghost o = out.deep_view();
        if out.len() >= MAX_DISCOVERED_DOCUMENTS {
            proof {
                assert forall|k: int| 0 <= k < ps.len() implies has_equal(o, #[trigger] ps[k])
                    || (o.len() == MAX_DISCOVERED_DOCUMENTS && path_less(o[MAX_DISCOVERED_DOCUMENTS - 1], ps[k])) by {
                    assert(o.last() == o[MAX_DISCOVERED_DOCUMENTS - 1]);
                }
            }
            break;
        }
        let mut best: Option<usize> = None;
        let mut k: usize = 0;
        while k < found.len()
            invariant
                ps == found.deep_view(),
                o == out.deep_view(),
                k <= found.len(),
                match best {
                    Some(b) => b < k && above_last(o, ps[b as int]) && forall|q: int|
                        0 <= q < k && above_last(o, #[trigger] ps[q]) ==> !path_less(ps[q], ps[b as int])
                            && (path_eq(ps[q], ps[b as int]) ==> b <= q),
                    None => forall|q: int| 0 <= q < k ==> !above_last(o, #[trigger] ps[q]),
                },
            decreases found.len() - k,
        {
            assert(ps[k as int] == found@[k as int]@);
            proof {
                lemma_path_order(ps[k as int], ps[k as int], ps[k as int]);
            }
            let qualifies = out.len() == 0 || path_before(out[out.len() - 1].as_str(), found[k].as_str());
            proof {
                if out@.len() > 0 {
                    assert(o.last() == out@[out@.len() - 1]@);
                }
            }
            if qualifies {
                match best {
                    None => {
                        best = Some(k);
                    },
                    Some(b) => {
                        assert(ps[b as int] == found@[b as int]@);
                        if path_before(found[k].as_str(), found[b].as_str()) {
                            proof {
                                assert forall|q: int| 0 <= q < k + 1 && above_last(o, #[trigger] ps[q]) implies !path_less(ps[q], ps[k as int])
                                    && (path_eq(ps[q], ps[k as int]) ==> k <= q) by {
                                    lemma_path_order(ps[q], ps[b as int], ps[k as int]);
                                    lemma_path_order(ps[k as int], ps[b as int], ps[q]);
                                    lemma_path_order(ps[q], ps[k as int], ps[b as int]);
                                    lemma_path_order(ps[k as int], ps[q], ps[k as int]);
                                }
                            }
                            best = Some(k);
                        } else {
                            proof {
                                lemma_path_order(ps[k as int], ps[b as int], ps[k as int]);
                            }
                        }
                    },
                }
            }
            k = k + 1;
        }
        match best {
            None => {
                proof {
                    assert forall|q: int| 0 <= q < ps.len() implies has_equal(o, #[trigger] ps[q]) by {
                        assert(!above_last(o, ps[q]));
                    }
                }
                break;
            },
            Some(m) => {
                let ghost x = ps[m as int];
                proof {
                    // the chosen path is the first of its class
                    assert forall|j: int| 0 <= j < m implies !path_eq(#[trigger] ps[j], x) by {
                        if path_eq(ps[j], x) {
                            if o.len() > 0 {
                                lemma_path_order(x, ps[j], o.last());
                                lemma_path_order(o.last(), x, ps[j]);
                            }
                            assert(above_last(o, ps[j]));
                        }
                    }
                    assert(first_of_class(ps, x));
                }
                let item = found[m].clone();
                out.push(item);
                proof {
                    let n = out.deep_view();
                    assert(n =~= o.push(x));
                    assert forall|i: int, j: int| 0 <= i < j < n.len() implies path_less(n[i], n[j]) by {
                        if j == n.len() - 1 && i < j {
                            if o.len() > 0 && i < o.len() - 1 {
                                lemma_path_order(n[i], o.last(), x);
                            }
                        }
                    }
                    assert forall|i: int| 0 <= i < n.len() implies first_of_class(ps, #[trigger] n[i]) by {
                        if i < o.len() {
                            assert(n[i] == o[i]);
                        }
                    }
                    assert forall|q: int| 0 <= q < ps.len() implies has_equal(n, #[trigger] ps[q])
                        || above_last(n, ps[q]) by {
                        if has_equal(o, ps[q]) {
                            let i = choose|i: int| 0 <= i < o.len() && path_eq(#[trigger] o[i], ps[q]);
                            assert(n[i] == o[i]);
                        } else {
                            assert(above_last(o, ps[q]));
                            assert(!path_less(ps[q], x));
                            lemma_path_order(x, ps[q], x);
                            if path_eq(x, ps[q]) {
                                assert(n[o.len() as int] == x);
                            }
                        }
                    }
                }
            },
        }
    }
    out
}

} // verus!
