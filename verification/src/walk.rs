use vstd::prelude::*;
use crate::discovery::MAX_DISCOVERED_DOCUMENTS;
use crate::paths::{document_kind_spec, is_supported_document};

verus! {

/// Directories deeper than this below the starting one are not read.
pub const MAX_WALK_DEPTH: usize = 2;

/// The file type of a directory entry (symlinks not followed).
#[derive(Debug, Clone, Copy, PartialEq, Eq, Structural)]
pub enum EntryKind {
    Dir,
    File,
    Symlink,
    Other,
}

/// A directory entry: its file name, its path, and its type (`None` when the type could not
/// be read).
pub struct DirEntryInfo {
    pub name: String,
    pub path: String,
    pub kind: Option<EntryKind>,
}

/// A directory entry as a value: name, path and type.
pub open spec fn entry_view(e: DirEntryInfo) -> (Seq<char>, Seq<char>, Option<EntryKind>) {
    (e.name@, e.path@, e.kind)
}

/// A directory listing as a value (`None`: the directory could not be read).
pub open spec fn listing_view(l: Option<Vec<DirEntryInfo>>) -> Option<Seq<(Seq<char>, Seq<char>, Option<EntryKind>)>> {
    match l {
        None => None,
        Some(es) => Some(es@.map_values(|e: DirEntryInfo| entry_view(e))),
    }
}

/// Where a walk stands: the documents found, the listings not read yet (in the order the
/// directories are asked for), and the directories asked for so far.
pub struct WalkProgress {
    pub found: Seq<Seq<char>>,
    pub listings: Seq<Option<Seq<(Seq<char>, Seq<char>, Option<EntryKind>)>>>,
    pub asked: Seq<Seq<char>>,
}

/// A file name that starts with a dot.
pub open spec fn is_hidden(name: Seq<char>) -> bool {
    name.len() > 0 && name[0] == '.'
}

/// Size of the next listing, bounding the walk of its entries.
pub open spec fn next_listing_size(st: WalkProgress) -> int {
    if st.listings.len() > 0 {
        match st.listings[0] {
            Some(es) => es.len() + 1int,
            None => 0,
        }
    } else {
        0
    }
}

/// Walking directory `dir` at `depth`: unless it is too deep or enough documents were found,
/// the directory is asked for, its listing taken, and its entries walked.
pub open spec fn walk_dir(dir: Seq<char>, depth: int, st: WalkProgress) -> WalkProgress
    decreases MAX_WALK_DEPTH + 1 - depth, next_listing_size(st),
{
    if depth > MAX_WALK_DEPTH || st.found.len() >= MAX_DISCOVERED_DOCUMENTS || st.listings.len() == 0 {
        st
    } else {
        let st1 = WalkProgress { found: st.found, listings: st.listings.drop_first(), asked: st.asked.push(dir) };
        match st.listings[0] {
            None => st1,
            Some(es) => walk_entries(es, 0, depth, st1),
        }
    }
}

/// One entry of a directory at `depth`: hidden entries, entries of unknown type and symlinks
/// are skipped, directories walked one level deeper, supported documents collected.
pub open spec fn entry_step(e: (Seq<char>, Seq<char>, Option<EntryKind>), depth: int, st: WalkProgress) -> WalkProgress
    decreases MAX_WALK_DEPTH + 1 - depth, 0int,
{
    if depth > MAX_WALK_DEPTH || is_hidden(e.0) {
        st
    } else {
        match e.2 {
            Some(EntryKind::Dir) => walk_dir(e.1, depth + 1, st),
            Some(EntryKind::File) => if document_kind_spec(e.1) is Some {
                WalkProgress { found: st.found.push(e.1), listings: st.listings, asked: st.asked }
            } else {
                st
            },
            _ => st,
        }
    }
}

/// Walking the entries of a directory at `depth` from entry `i` on, one after the other;
/// the walk stops once enough documents were found.
pub open spec fn walk_entries(
    es: Seq<(Seq<char>, Seq<char>, Option<EntryKind>)>,
    i: int,
    depth: int,
    st: WalkProgress,
) -> WalkProgress
    decreases MAX_WALK_DEPTH + 1 - depth, es.len() - i,
{
    if i < 0 || i >= es.len() || depth > MAX_WALK_DEPTH || st.found.len() >= MAX_DISCOVERED_DOCUMENTS {
        st
    } else {
        walk_entries(es, i + 1, depth, entry_step(es[i], depth, st))
    }
}

/// The whole walk from `root`, starting with the documents `found`, given the listings of
/// the directories in the order they are asked for.
pub open spec fn walk_spec(
    root: Seq<char>,
    found: Seq<Seq<char>>,
    listings: Seq<Option<Seq<(Seq<char>, Seq<char>, Option<EntryKind>)>>>,
) -> WalkProgress {
    walk_dir(root, 0, WalkProgress { found, listings, asked: seq![] })
}

struct WalkFrame {
    entries: Vec<DirEntryInfo>,
    next: usize,
    depth: usize,
}

spec fn frame_entries(f: WalkFrame) -> Seq<(Seq<char>, Seq<char>, Option<EntryKind>)> {
    f.entries@.map_values(|e: DirEntryInfo| entry_view(e))
}

/// What is left of the open directories, innermost last, applied to `st`.
spec fn resume(frames: Seq<WalkFrame>, st: WalkProgress) -> WalkProgress
    decreases frames.len(),
{
    if frames.len() == 0 {
        st
    } else {
        let f = frames.last();
        resume(frames.drop_last(), walk_entries(frame_entries(f), f.next as int, f.depth as int, st))
    }
}

/// A depth-first walk collecting the documents below a directory. The caller reads the
/// directories it asks for (`next_dir`) and hands their entries back (`provide`).
pub struct CwdWalk {
    frames: Vec<WalkFrame>,
    pending: Option<(String, usize)>,
    found: Vec<String>,
    root: Ghost<Seq<char>>,
    start_found: Ghost<Seq<Seq<char>>>,
    listings: Ghost<Seq<Option<Seq<(Seq<char>, Seq<char>, Option<EntryKind>)>>>>,
    asked: Ghost<Seq<Seq<char>>>,
    started: Ghost<bool>,
}

/// Total entries still to visit in the frames, plus one per frame.
spec fn work(frames: Seq<WalkFrame>) -> int
    decreases frames.len(),
{
    if frames.len() == 0 {
        0
    } else {
        work(frames.drop_last()) + 1 + (frames.last().entries@.len() - frames.last().next)
    }
}

proof fn lemma_work_nonneg(frames: Seq<WalkFrame>)
    requires
        forall|i: int| 0 <= i < frames.len() ==> #[trigger] frames[i].next <= frames[i].entries@.len(),
    ensures
        work(frames) >= 0,
    decreases frames.len(),
{
    if frames.len() > 0 {
        assert forall|i: int| 0 <= i < frames.drop_last().len() implies #[trigger] frames.drop_last()[i].next
            <= frames.drop_last()[i].entries@.len() by {
            assert(frames.drop_last()[i] == frames[i]);
        }
        lemma_work_nonneg(frames.drop_last());
    }
}

proof fn lemma_push(rest: Seq<WalkFrame>, f: WalkFrame, st: WalkProgress)
    ensures
        work(rest.push(f)) == work(rest) + 1 + (f.entries@.len() - f.next),
        resume(rest.push(f), st) == resume(rest, walk_entries(frame_entries(f), f.next as int, f.depth as int, st)),
{
    assert(rest.push(f).drop_last() =~= rest);
}

/// A frame whose entries are all visited, or that cannot add to enough documents, leaves
/// the state as it is.
proof fn lemma_frame_done(f: WalkFrame, st: WalkProgress)
    requires
        f.next >= f.entries@.len() || st.found.len() >= MAX_DISCOVERED_DOCUMENTS,
    ensures
        walk_entries(frame_entries(f), f.next as int, f.depth as int, st) == st,
{
}

impl CwdWalk {
    /// The documents found so far, in the order found.
    pub closed spec fn found_view(&self) -> Seq<Seq<char>> {
        self.found.deep_view()
    }

    /// The directory this walk started from.
    pub closed spec fn root(&self) -> Seq<char> {
        self.root@
    }

    /// The documents already found when this walk started.
    pub closed spec fn start_found(&self) -> Seq<Seq<char>> {
        self.start_found@
    }

    /// The listings handed over since this walk started, in order.
    pub closed spec fn listings(&self) -> Seq<Option<Seq<(Seq<char>, Seq<char>, Option<EntryKind>)>>> {
        self.listings@
    }

    /// The directories asked for and listed since this walk started, in order.
    pub closed spec fn asked(&self) -> Seq<Seq<char>> {
        self.asked@
    }

    /// Whether a walk was started.
    pub closed spec fn started(&self) -> bool {
        self.started@
    }

    /// The directory whose listing is awaited, if any.
    pub closed spec fn pending_dir(&self) -> Option<Seq<char>> {
        match self.pending {
            Some((d, _)) => Some(d@),
            None => None,
        }
    }

    /// At most `MAX_DISCOVERED_DOCUMENTS` were found, each a supported document.
    pub open spec fn found_ok(&self) -> bool {
        &&& self.found_view().len() <= MAX_DISCOVERED_DOCUMENTS
        &&& forall|i: int| 0 <= i < self.found_view().len() ==> document_kind_spec(#[trigger] self.found_view()[i]) is Some
    }

    /// Where the walk stands, with `rest` the listings still to come.
    closed spec fn progress(&self, rest: Seq<Option<Seq<(Seq<char>, Seq<char>, Option<EntryKind>)>>>) -> WalkProgress {
        WalkProgress { found: self.found.deep_view(), listings: rest, asked: self.asked@ }
    }

    /// How the walk ends from here, with `rest` the listings still to come.
    closed spec fn outcome(&self, rest: Seq<Option<Seq<(Seq<char>, Seq<char>, Option<EntryKind>)>>>) -> WalkProgress {
        match self.pending {
            Some((d, depth)) => resume(self.frames@, walk_dir(d@, depth as int, self.progress(rest))),
            None => resume(self.frames@, self.progress(rest)),
        }
    }

    /// The walk from its start, given the listings so far and then `rest`, ends as the walk
    /// from here does.
    closed spec fn on_track(&self, rest: Seq<Option<Seq<(Seq<char>, Seq<char>, Option<EntryKind>)>>>) -> bool {
        walk_spec(self.root@, self.start_found@, self.listings@ + rest) == self.outcome(rest)
    }

    proof fn lemma_found_ok(&self)
        requires
            self.wf(),
        ensures
            self.found_ok(),
    {
    }

    /// The documents found so far.
    pub fn found(&self) -> (r: &Vec<String>)
        ensures
            r.deep_view() == self.found_view(),
    {
        &self.found
    }

    /// The documents found, ending the walk.
    pub fn into_found(self) -> (r: Vec<String>)
        ensures
            r.deep_view() == self.found_view(),
    {
        self.found
    }

    /// The walk's invariant: every frame within its entries and the depth limit, at most
    /// `MAX_DISCOVERED_DOCUMENTS` documents found, each a supported document, and the walk on
    /// track with `walk_spec` whatever listings come next.
    pub closed spec fn wf(&self) -> bool {
        &&& self.wf_base()
        &&& (self.found@.len() >= MAX_DISCOVERED_DOCUMENTS && self.frames@.len() > 0 ==> self.frames@.last().next
            == self.frames@.last().entries@.len())
        &&& self.wf_track()
    }

    /// Once started, the walk is on track whatever listings come next.
    closed spec fn wf_track(&self) -> bool {
        &&& self.started@ ==> forall|rest: Seq<Option<Seq<(Seq<char>, Seq<char>, Option<EntryKind>)>>>| #[trigger] self.on_track(rest)
        &&& !self.started@ ==> self.pending is None && self.frames@.len() == 0
    }

    /// Bounds of the frames and of what was found.
    closed spec fn wf_base(&self) -> bool {
        &&& forall|i: int| 0 <= i < self.frames@.len() ==> #[trigger] self.frames@[i].next
            <= self.frames@[i].entries@.len() && self.frames@[i].depth <= MAX_WALK_DEPTH
        &&& self.found@.len() <= MAX_DISCOVERED_DOCUMENTS
        &&& forall|i: int| 0 <= i < self.found@.len() ==> document_kind_spec(#[trigger] self.found@[i]@) is Some
        &&& match self.pending {
            Some((_, d)) => d <= MAX_WALK_DEPTH && self.found@.len() < MAX_DISCOVERED_DOCUMENTS,
            None => true,
        }
    }

    /// A directory listing is awaited.
    pub closed spec fn awaiting(&self) -> bool {
        self.pending is Some
    }

    /// Nothing is left to walk.
    pub closed spec fn idle(&self) -> bool {
        self.pending is None && self.frames@.len() == 0
    }

    /// A walk that found nothing yet.
    pub fn new() -> (r: CwdWalk)
        ensures
            r.wf(),
            r.idle(),
            r.found_view().len() == 0,
            !r.started(),
    {
        let r = CwdWalk {
            frames: Vec::new(),
            pending: None,
            found: Vec::new(),
            root: Ghost(Seq::empty()),
            start_found: Ghost(Seq::empty()),
            listings: Ghost(Seq::empty()),
            asked: Ghost(Seq::empty()),
            started: Ghost(false),
        };
        r
    }

    /// Starts collecting the documents below `dir` (adding to those already found).
    pub fn start(&mut self, dir: String)
        requires
            old(self).wf(),
            old(self).idle(),
        ensures
            final(self).wf(),
            final(self).started(),
            final(self).found_view() == old(self).found_view(),
            final(self).root() == dir@,
            final(self).start_found() == old(self).found_view(),
            final(self).listings().len() == 0,
            final(self).asked().len() == 0,
            final(self).awaiting() <==> old(self).found_view().len() < MAX_DISCOVERED_DOCUMENTS,
            final(self).awaiting() ==> final(self).pending_dir() == Some(dir@),
            !final(self).awaiting() ==> final(self).idle(),
    {
        let ghost d = dir@;
        if self.found.len() < MAX_DISCOVERED_DOCUMENTS {
            self.pending = Some((dir, 0));
        }
        self.root = Ghost(d);
        self.start_found = Ghost(self.found.deep_view());
        self.listings = Ghost(Seq::empty());
        self.asked = Ghost(Seq::empty());
        self.started = Ghost(true);
        proof {
            assert forall|rest: Seq<Option<Seq<(Seq<char>, Seq<char>, Option<EntryKind>)>>>| #[trigger] self.on_track(rest) by {
                assert(self.listings@ + rest =~= rest);
            }
        }
    }

    /// After a directory walk returned into the frame below it: stop that frame too when
    /// enough documents were found.
    fn after_return(&mut self)
        requires
            old(self).wf_base(),
            old(self).wf_track(),
            old(self).pending is None,
        ensures
            final(self).wf(),
            final(self).pending is None,
            final(self).found == old(self).found,
            final(self).root == old(self).root,
            final(self).start_found == old(self).start_found,
            final(self).listings == old(self).listings,
            final(self).asked == old(self).asked,
            final(self).started == old(self).started,
            final(self).frames@.len() == old(self).frames@.len(),
            work(final(self).frames@) <= work(old(self).frames@),
    {
        if self.frames.len() > 0 && self.found.len() >= MAX_DISCOVERED_DOCUMENTS {
            let ghost s0 = *self;
            let top = self.frames.len() - 1;
            let mut f = self.frames.pop().unwrap();
            let ghost rest = self.frames@;
            let ghost f0 = f;
            f.next = f.entries.len();
            self.frames.push(f);
            proof {
                assert(s0.frames@ =~= rest.push(f0));
                assert(self.frames@ =~= rest.push(f));
                lemma_push(rest, f0, s0.progress(Seq::empty()));
                lemma_push(rest, f, s0.progress(Seq::empty()));
                assert forall|i: int| 0 <= i < self.frames@.len() implies #[trigger] self.frames@[i].next
                    <= self.frames@[i].entries@.len() && self.frames@[i].depth <= MAX_WALK_DEPTH by {
                    if i < top {
                        assert(self.frames@[i] == s0.frames@[i]);
                    } else {
                        assert(s0.frames@[i] == f0);
                    }
                }
                if self.started@ {
                    assert forall|r: Seq<Option<Seq<(Seq<char>, Seq<char>, Option<EntryKind>)>>>| #[trigger] self.on_track(r) by {
                        assert(s0.on_track(r));
                        let p = s0.progress(r);
                        assert(self.progress(r) == p);
                        lemma_push(rest, f0, p);
                        lemma_push(rest, f, p);
                        lemma_frame_done(f0, p);
                        lemma_frame_done(f, p);
                    }
                }
            }
        }
    }
    /// Walks on until a directory is to be read, and returns it; `None` when the walk is
    /// over, and then what was found is what `walk_spec` gives for the listings handed over.
    pub fn next_dir(&mut self) -> (r: Option<String>)
        requires
            old(self).wf(),
        ensures
            final(self).wf(),
            r is Some <==> final(self).awaiting(),
            r matches Some(d) ==> final(self).pending_dir() == Some(d@),
            r is None ==> final(self).idle(),
            final(self).root() == old(self).root(),
            final(self).start_found() == old(self).start_found(),
            final(self).listings() == old(self).listings(),
            final(self).asked() == old(self).asked(),
            final(self).started() == old(self).started(),
            old(self).found_view().is_prefix_of(final(self).found_view()),
            final(self).found_ok(),
            r is None && final(self).started() ==> ({
                let w = walk_spec(final(self).root(), final(self).start_found(), final(self).listings());
                &&& w.found == final(self).found_view()
                &&& w.asked == final(self).asked()
                &&& w.listings.len() == 0
            }),
    {
        loop
            invariant
                self.wf(),
                self.root == old(self).root,
                self.start_found == old(self).start_found,
                self.listings == old(self).listings,
                self.asked == old(self).asked,
                self.started == old(self).started,
                old(self).found.deep_view().is_prefix_of(self.found.deep_view()),
            decreases work(self.frames@) + (if self.pending is Some { 0int } else { 1int }),
        {
            proof {
                lemma_work_nonneg(self.frames@);
            }
            if let Some((d, _)) = &self.pending {
                proof {
                    self.lemma_found_ok();
                }
                return Some(d.clone());
            }
            if self.frames.len() == 0 {
                proof {
                    self.lemma_found_ok();
                    if self.started@ {
                        assert(self.on_track(Seq::empty()));
                        assert(self.listings@ + Seq::empty() =~= self.listings@);
                    }
                }
                return None;
            }
            let ghost s0 = *self;
            let ghost before = self.frames@;
            let top = self.frames.len() - 1;
            let mut f = self.frames.pop().unwrap();
            let ghost rest = self.frames@;
            let ghost f0 = f;
            proof {
                assert(rest =~= before.drop_last());
                assert(f == before[top as int]);
                assert(before =~= rest.push(f));
                lemma_push(rest, f, s0.progress(Seq::empty()));
                assert forall|i: int| 0 <= i < rest.len() implies #[trigger] rest[i].next <= rest[i].entries@.len() by {
                    assert(rest[i] == before[i]);
                }
                lemma_work_nonneg(rest);
                assert(before.last() == before[top as int]);
                assert(before[top as int].next <= before[top as int].entries@.len());
                assert(f.depth <= MAX_WALK_DEPTH);
                assert(self.started@);
            }
            if f.next >= f.entries.len() {
                // this directory is done; its caller resumes
                proof {
                    assert forall|i: int| 0 <= i < self.frames@.len() implies #[trigger] self.frames@[i].next
                        <= self.frames@[i].entries@.len() && self.frames@[i].depth <= MAX_WALK_DEPTH by {
                        assert(self.frames@[i] == before[i]);
                    }
                    assert forall|r: Seq<Option<Seq<(Seq<char>, Seq<char>, Option<EntryKind>)>>>| #[trigger] self.on_track(r) by {
                        assert(s0.on_track(r));
                        let p = s0.progress(r);
                        assert(self.progress(r) == p);
                        lemma_push(rest, f0, p);
                        lemma_frame_done(f0, p);
                    }
                }
                self.after_return();
                assert(work(self.frames@) < work(before));
                proof {
                    lemma_work_nonneg(self.frames@);
                }
            } else {
                proof {
                    assert(self.found@.len() < MAX_DISCOVERED_DOCUMENTS);
                }
                let i = f.next;
                f.next = f.next + 1;
                let e = &f.entries[i];
                let ghost ev = frame_entries(f0)[i as int];
                assert(ev == entry_view(f.entries@[i as int]));
                let hidden = starts_with_dot(e.name.as_str());
                let mut check = true;
                let mut descend: Option<(String, usize)> = None;
                if hidden {
                    check = false;
                } else {
                    match e.kind {
                        None => {
                            check = false;
                        },
                        Some(EntryKind::Symlink) => {
                            check = false;
                        },
                        Some(EntryKind::Dir) => {
                            if f.depth + 1 <= MAX_WALK_DEPTH {
                                descend = Some((e.path.clone(), f.depth + 1));
                                check = false;
                            }
                        },
                        Some(EntryKind::File) => {
                            if is_supported_document(e.path.as_str()) {
                                let ghost fb = self.found.deep_view();
                                self.found.push(e.path.clone());
                                assert(self.found.deep_view() =~= fb.push(e.path@));
                                assert(old(self).found.deep_view().is_prefix_of(self.found.deep_view()));
                            }
                        },
                        Some(EntryKind::Other) => {},
                    }
                }
                if check && self.found.len() >= MAX_DISCOVERED_DOCUMENTS {
                    f.next = f.entries.len();
                }
                self.frames.push(f);
                if descend.is_some() {
                    self.pending = descend;
                }
                proof {
                    assert(self.frames@ =~= rest.push(f));
                    assert(frame_entries(f) == frame_entries(f0));
                    lemma_push(rest, f, s0.progress(Seq::empty()));
                    assert forall|j: int| 0 <= j < self.frames@.len() implies #[trigger] self.frames@[j].next
                        <= self.frames@[j].entries@.len() && self.frames@[j].depth <= MAX_WALK_DEPTH by {
                        if j < top {
                            assert(self.frames@[j] == before[j]);
                            assert(before[j].next <= before[j].entries@.len());
                        }
                    }
                    assert forall|r: Seq<Option<Seq<(Seq<char>, Seq<char>, Option<EntryKind>)>>>| #[trigger] self.on_track(r) by {
                        assert(s0.on_track(r));
                        let p0 = s0.progress(r);
                        let es = frame_entries(f0);
                        lemma_push(rest, f0, p0);
                        assert(walk_entries(es, i as int, f0.depth as int, p0) == walk_entries(
                            es,
                            i + 1,
                            f0.depth as int,
                            entry_step(ev, f0.depth as int, p0),
                        ));
                        let p1 = self.progress(r);
                        lemma_push(rest, f, p1);
                        match self.pending {
                            Some((dd, dp)) => {
                                lemma_push(rest, f, walk_dir(dd@, dp as int, p1));
                                assert(p1 == p0);
                            },
                            None => {
                                lemma_push(rest, f, p1);
                                if f.next == f.entries@.len() {
                                    lemma_frame_done(f, p1);
                                    assert(walk_entries(es, i + 1, f0.depth as int, p1) == p1);
                                }
                            },
                        }
                    }
                }
                assert(work(self.frames@) < work(before));
                proof {
                    lemma_work_nonneg(self.frames@);
                }
            }
        }
    }

    /// Hands over the entries of the directory asked for (`None` when it could not be read).
    pub fn provide(&mut self, entries: Option<Vec<DirEntryInfo>>)
        requires
            old(self).wf(),
            old(self).awaiting(),
        ensures
            final(self).wf(),
            !final(self).awaiting(),
            final(self).found_view() == old(self).found_view(),
            final(self).root() == old(self).root(),
            final(self).start_found() == old(self).start_found(),
            final(self).started() == old(self).started(),
            final(self).listings() == old(self).listings().push(listing_view(entries)),
            final(self).asked() == old(self).asked().push(old(self).pending_dir()->0),
    {
        let ghost s0 = *self;
        let ghost lv = listing_view(entries);
        let (d, depth) = self.pending.take().unwrap();
        self.listings = Ghost(self.listings@.push(lv));
        self.asked = Ghost(self.asked@.push(d@));
        proof {
            assert(self.started@);
        }
        match entries {
            None => {
                proof {
                    assert forall|r: Seq<Option<Seq<(Seq<char>, Seq<char>, Option<EntryKind>)>>>| #[trigger] self.on_track(r) by {
                        let r2 = seq![lv] + r;
                        assert(s0.on_track(r2));
                        assert(self.listings@ + r =~= s0.listings@ + r2);
                        assert(r2.drop_first() =~= r);
                        assert(r2[0] == lv);
                    }
                }
                self.after_return();
            },
            Some(es) => {
                let ghost before = self.frames@;
                let fr = WalkFrame { entries: es, next: 0, depth };
                let ghost frg = fr;
                self.frames.push(fr);
                proof {
                    assert(self.frames@ =~= before.push(frg));
                    assert forall|j: int| 0 <= j < self.frames@.len() implies #[trigger] self.frames@[j].next
                        <= self.frames@[j].entries@.len() && self.frames@[j].depth <= MAX_WALK_DEPTH by {
                        if j < before.len() {
                            assert(self.frames@[j] == before[j]);
                        }
                    }
                    assert forall|r: Seq<Option<Seq<(Seq<char>, Seq<char>, Option<EntryKind>)>>>| #[trigger] self.on_track(r) by {
                        let r2 = seq![lv] + r;
                        assert(s0.on_track(r2));
                        assert(self.listings@ + r =~= s0.listings@ + r2);
                        assert(r2.drop_first() =~= r);
                        assert(r2[0] == lv);
                        assert(lv == Some(frame_entries(frg)));
                        lemma_push(before, frg, self.progress(r));
                    }
                }
            },
        }
    }
}

/// Whether `s` begins with `.`.
fn starts_with_dot(s: &str) -> (r: bool)
    ensures
        r == is_hidden(s@),
{
    let v = crate::text::chars_of(s);
    v.len() > 0 && v[0] == '.'
}

} // verus!
