//! The breadth-first traversal of a directory tree, as a state machine.
//!
//! The caller does the file-system work: it asks for the next directory to
//! list, lists it, and hands each entry over as an `EntryInfo`. The traversal
//! decides what is counted, what is queued, when the scan stops for a
//! cancellation, and when a progress snapshot is due. Symbolic links are never
//! counted and never followed, which also keeps link cycles out of the scan.
use std::collections::VecDeque;
use vstd::prelude::*;
use crate::top::{
    entries_view, lemma_offered, lemma_top_of_bounded, offered, push_top, sorted_desc, top_of,
    EntryView, FileEntry,
};

verus! {

/// The least time, in milliseconds, between two progress snapshots.
pub const EMIT_INTERVAL_MS: u64 = 200;

/// How many of the largest files a scan ranks unless told otherwise.
pub const DEFAULT_TOP_N: usize = 50;

/// What a scan reports: while it runs, and once more when it ends.
pub struct ProgressPayload {
    pub scan_id: u64,
    pub scanned_files: u64,
    pub scanned_bytes: u64,
    pub current_path: String,
    pub top_files: Vec<FileEntry>,
}

/// One entry of a listed directory, as the file system described it.
pub enum EntryInfo {
    /// Its file type could not be read.
    Unreadable,
    /// A symbolic link, to whatever it points at.
    Symlink,
    /// A directory, by path.
    Directory(String),
    /// A regular file, by path, with its size in bytes.
    File(String, u64),
    /// Anything else with a path: a special file, or a regular file whose
    /// size could not be read.
    Other(String),
}

/// `a + b`, held at `u64::MAX` rather than wrapping round.
pub open spec fn sat_add(a: u64, b: u64) -> u64 {
    if a + b > u64::MAX {
        u64::MAX
    } else {
        (a + b) as u64
    }
}

/// `x`, held at `u64::MAX`.
pub open spec fn capped(x: int) -> u64 {
    if x > u64::MAX {
        u64::MAX
    } else {
        x as u64
    }
}

/// The total size of the files in `s`.
pub open spec fn size_sum(s: Seq<EntryView>) -> int
    decreases s.len(),
{
    if s.len() == 0 {
        0
    } else {
        size_sum(s.drop_last()) + s.last().1
    }
}

proof fn lemma_size_sum_nonneg(s: Seq<EntryView>)
    ensures
        size_sum(s) >= 0,
    decreases s.len(),
{
    if s.len() > 0 {
        lemma_size_sum_nonneg(s.drop_last());
    }
}

/// The paths of a sequence of strings, as characters.
pub open spec fn paths_view(v: Seq<String>) -> Seq<Seq<char>> {
    v.map_values(|s: String| s@)
}

/// A scan in progress.
pub struct Traversal {
    scan_id: u64,
    top_n: usize,
    pending: VecDeque<String>,
    top: Vec<FileEntry>,
    scanned_files: u64,
    scanned_bytes: u64,
    current_path: String,
    cancelled: bool,
    counted: Ghost<Seq<EntryView>>,
}

impl Traversal {
    pub closed spec fn id(&self) -> u64 {
        self.scan_id
    }

    pub closed spec fn limit(&self) -> nat {
        self.top_n as nat
    }

    /// The directories still to be listed, oldest first.
    pub closed spec fn queue(&self) -> Seq<Seq<char>> {
        paths_view(self.pending@)
    }

    /// The regular files counted so far, in the order they were seen.
    pub closed spec fn counted(&self) -> Seq<EntryView> {
        self.counted@
    }

    /// The current ranking, largest first.
    pub closed spec fn ranking(&self) -> Seq<EntryView> {
        entries_view(self.top@)
    }

    pub closed spec fn files(&self) -> u64 {
        self.scanned_files
    }

    pub closed spec fn bytes(&self) -> u64 {
        self.scanned_bytes
    }

    pub closed spec fn current(&self) -> Seq<char> {
        self.current_path@
    }

    pub closed spec fn is_cancelled(&self) -> bool {
        self.cancelled
    }

    /// The ranking is what offering every counted file in turn gives.
    pub closed spec fn wf(&self) -> bool {
        &&& entries_view(self.top@) == top_of(self.counted@, self.top_n as nat)
        &&& sorted_desc(entries_view(self.top@))
        &&& self.top@.len() <= self.top_n
        &&& self.scanned_files == capped(self.counted@.len() as int)
        &&& self.scanned_bytes == capped(size_sum(self.counted@))
    }

    /// A scan of `root`, which has not listed anything yet.
    pub fn new(root: String, scan_id: u64, top_n: usize) -> (r: Traversal)
        ensures
            r.wf(),
            r.id() == scan_id,
            r.limit() == top_n,
            r.queue() == seq![root@],
            r.counted() == Seq::<EntryView>::empty(),
            r.ranking() == Seq::<EntryView>::empty(),
            r.files() == 0,
            r.bytes() == 0,
            r.current() == Seq::<char>::empty(),
            !r.is_cancelled(),
    {
        let mut pending: VecDeque<String> = VecDeque::new();
        let ghost root_view = root@;
        pending.push_back(root);
        let r = Traversal {
            scan_id,
            top_n,
            pending,
            top: Vec::new(),
            scanned_files: 0,
            scanned_bytes: 0,
            current_path: String::new(),
            cancelled: false,
            counted: Ghost(Seq::empty()),
        };
        assert(r.queue() =~= seq![root_view]);
        assert(entries_view(r.top@) =~= Seq::<EntryView>::empty());
        r
    }

    /// The next directory to list. Once a cancellation has been asked for,
    /// or was seen before, the scan stops for good and there is none; else
    /// the oldest queued directory leaves the queue, if there is one.
    pub fn next_directory(&mut self, cancel_requested: bool) -> (r: Option<String>)
        requires
            old(self).wf(),
        ensures
            final(self).wf(),
            final(self).is_cancelled() == (old(self).is_cancelled() || cancel_requested),
            final(self).is_cancelled() ==> r is None && final(self).queue() == old(self).queue(),
            !final(self).is_cancelled() && old(self).queue().len() == 0 ==> r is None
                && final(self).queue() == old(self).queue(),
            !final(self).is_cancelled() && old(self).queue().len() > 0 ==> r is Some && r->0@
                == old(self).queue()[0] && final(self).queue() == old(self).queue().drop_first(),
            final(self).id() == old(self).id(),
            final(self).limit() == old(self).limit(),
            final(self).counted() == old(self).counted(),
            final(self).ranking() == old(self).ranking(),
            final(self).files() == old(self).files(),
            final(self).bytes() == old(self).bytes(),
            final(self).current() == old(self).current(),
    {
        if self.cancelled || cancel_requested {
            self.cancelled = true;
            return None;
        }
        let ghost q = self.pending@;
        let r = self.pending.pop_front();
        proof {
            if q.len() > 0 {
                assert(paths_view(self.pending@) =~= paths_view(q).drop_first());
            }
        }
        r
    }

    /// Whether to go on to the next entry of the directory being listed. A
    /// cancellation asked for now or before stops the scan for good.
    pub fn keep_going(&mut self, cancel_requested: bool) -> (r: bool)
        requires
            old(self).wf(),
        ensures
            final(self).wf(),
            r == !(old(self).is_cancelled() || cancel_requested),
            final(self).is_cancelled() == !r,
            final(self).id() == old(self).id(),
            final(self).limit() == old(self).limit(),
            final(self).queue() == old(self).queue(),
            final(self).counted() == old(self).counted(),
            final(self).ranking() == old(self).ranking(),
            final(self).files() == old(self).files(),
            final(self).bytes() == old(self).bytes(),
            final(self).current() == old(self).current(),
    {
        if cancel_requested {
            self.cancelled = true;
        }
        !self.cancelled
    }

    /// Takes in one entry of the directory being listed, `since_emit_ms`
    /// milliseconds after the last progress snapshot, and says whether a
    /// progress snapshot is due now.
    ///
    /// A symbolic link or an unreadable entry changes nothing. A directory
    /// becomes the current path and joins the end of the queue. Any other
    /// entry becomes the current path; a regular file with a known size is
    /// also counted, adds its size to the bytes, and is offered to the
    /// ranking. A snapshot is due only after a counted file, and only once
    /// the interval has passed. Counters stop at `u64::MAX`. After a
    /// cancellation nothing changes and no snapshot is due.
    pub fn visit(&mut self, entry: EntryInfo, since_emit_ms: u64) -> (emit: bool)
        requires
            old(self).wf(),
        ensures
            final(self).wf(),
            final(self).id() == old(self).id(),
            final(self).limit() == old(self).limit(),
            final(self).is_cancelled() == old(self).is_cancelled(),
            old(self).is_cancelled() ==> !emit && *final(self) == *old(self),
            !old(self).is_cancelled() ==> match entry {
                EntryInfo::Unreadable | EntryInfo::Symlink => {
                    &&& !emit
                    &&& *final(self) == *old(self)
                },
                EntryInfo::Directory(p) => {
                    &&& !emit
                    &&& final(self).queue() == old(self).queue().push(p@)
                    &&& final(self).current() == p@
                    &&& final(self).counted() == old(self).counted()
                    &&& final(self).ranking() == old(self).ranking()
                    &&& final(self).files() == old(self).files()
                    &&& final(self).bytes() == old(self).bytes()
                },
                EntryInfo::Other(p) => {
                    &&& !emit
                    &&& final(self).queue() == old(self).queue()
                    &&& final(self).current() == p@
                    &&& final(self).counted() == old(self).counted()
                    &&& final(self).ranking() == old(self).ranking()
                    &&& final(self).files() == old(self).files()
                    &&& final(self).bytes() == old(self).bytes()
                },
                EntryInfo::File(p, size) => {
                    &&& emit == (since_emit_ms >= EMIT_INTERVAL_MS)
                    &&& final(self).queue() == old(self).queue()
                    &&& final(self).current() == p@
                    &&& final(self).counted() == old(self).counted().push((p@, size))
                    &&& final(self).ranking() == offered(
                        old(self).ranking(),
                        (p@, size),
                        old(self).limit(),
                    )
                    &&& final(self).files() == sat_add(old(self).files(), 1)
                    &&& final(self).bytes() == sat_add(old(self).bytes(), size)
                },
            },
    {
        if self.cancelled {
            return false;
        }
        match entry {
            EntryInfo::Unreadable => false,
            EntryInfo::Symlink => false,
            EntryInfo::Directory(p) => {
                let ghost q = self.pending@;
                self.current_path = p.clone();
                self.pending.push_back(p);
                assert(paths_view(self.pending@) =~= paths_view(q).push(self.current_path@));
                false
            },
            EntryInfo::Other(p) => {
                self.current_path = p;
                false
            },
            EntryInfo::File(p, size) => {
                let ghost e: EntryView = (p@, size);
                let ghost before = self.counted@;
                proof {
                    lemma_offered(entries_view(self.top@), e, self.top_n as nat);
                }
                self.current_path = p.clone();
                self.scanned_files = self.scanned_files.saturating_add(1);
                self.scanned_bytes = self.scanned_bytes.saturating_add(size);
                push_top(&mut self.top, FileEntry::new(p, size), self.top_n);
                self.counted = Ghost(before.push(e));
                proof {
                    assert(self.counted@.drop_last() =~= before);
                    assert(self.counted@.last() == e);
                    assert(size_sum(before) >= 0) by {
                        lemma_size_sum_nonneg(before);
                    }
                    assert(size_sum(self.counted@) == size_sum(before) + size);
                }
                since_emit_ms >= EMIT_INTERVAL_MS
            },
        }
    }

    /// What the scan has found so far.
    pub fn snapshot(&self) -> (r: ProgressPayload)
        requires
            self.wf(),
        ensures
            r.scan_id == self.id(),
            r.scanned_files == self.files(),
            r.scanned_bytes == self.bytes(),
            r.current_path@ == self.current(),
            entries_view(r.top_files@) == self.ranking(),
            entries_view(r.top_files@) == top_of(self.counted(), self.limit()),
            sorted_desc(entries_view(r.top_files@)),
            r.top_files@.len() <= self.limit(),
            r.scanned_files == capped(self.counted().len() as int),
            r.scanned_bytes == capped(size_sum(self.counted())),
    {
        let mut top_files: Vec<FileEntry> = Vec::new();
        let mut i: usize = 0;
        while i < self.top.len()
            invariant
                0 <= i <= self.top@.len(),
                entries_view(top_files@) == entries_view(self.top@).take(i as int),
            decreases self.top@.len() - i,
        {
            let d = self.top[i].duplicate();
            let ghost prev = top_files@;
            top_files.push(d);
            proof {
                assert(top_files@ == prev.push(d));
                assert(entries_view(top_files@) =~= entries_view(prev).push(d@));
            }
            i = i + 1;
            assert(entries_view(top_files@) =~= entries_view(self.top@).take(i as int));
        }
        assert(entries_view(self.top@).take(i as int) =~= entries_view(self.top@));
        ProgressPayload {
            scan_id: self.scan_id,
            scanned_files: self.scanned_files,
            scanned_bytes: self.scanned_bytes,
            current_path: self.current_path.clone(),
            top_files,
        }
    }

    /// Ends the scan: the completion snapshot, and whether the scan was
    /// cancelled. The scan is used up, so nothing more is reported of it.
    pub fn finish(self) -> (r: (ProgressPayload, bool))
        requires
            self.wf(),
        ensures
            r.0.scan_id == self.id(),
            r.0.scanned_files == self.files(),
            r.0.scanned_bytes == self.bytes(),
            r.0.current_path@ == self.current(),
            entries_view(r.0.top_files@) == self.ranking(),
            entries_view(r.0.top_files@) == top_of(self.counted(), self.limit()),
            sorted_desc(entries_view(r.0.top_files@)),
            r.0.scanned_files == capped(self.counted().len() as int),
            r.0.scanned_bytes == capped(size_sum(self.counted())),
            r.1 == self.is_cancelled(),
    {
        let payload = self.snapshot();
        (payload, self.cancelled)
    }
}

/// The report of a scan whose root is a single regular file of `size`
/// bytes: that one file counted, and ranked if the ranking has room.
pub fn single_file_snapshot(path: String, size: u64, scan_id: u64, top_n: usize) -> (r:
    ProgressPayload)
    ensures
        r.scan_id == scan_id,
        r.scanned_files == 1,
        r.scanned_bytes == size,
        r.current_path@ == path@,
        entries_view(r.top_files@) == top_of(seq![(path@, size)], top_n as nat),
        top_n > 0 ==> entries_view(r.top_files@) == seq![(path@, size)],
        top_n == 0 ==> r.top_files@.len() == 0,
{
    let mut top_files: Vec<FileEntry> = Vec::new();
    let ghost e: EntryView = (path@, size);
    proof {
        assert(entries_view(top_files@) =~= Seq::<EntryView>::empty());
        assert(seq![e].drop_last() =~= Seq::<EntryView>::empty());
        lemma_offered(Seq::<EntryView>::empty(), e, top_n as nat);
        lemma_top_of_bounded(seq![e], top_n as nat);
        assert(seq![e].last() == e);
        assert(top_of(seq![e], top_n as nat) == offered(
            top_of(Seq::<EntryView>::empty(), top_n as nat),
            e,
            top_n as nat,
        ));
    }
    let current_path = path.clone();
    push_top(&mut top_files, FileEntry::new(path, size), top_n);
    proof {
        if top_n > 0 {
            assert(Seq::<EntryView>::empty().insert(0, e) =~= seq![e]);
        }
    }
    ProgressPayload { scan_id, scanned_files: 1, scanned_bytes: size, current_path, top_files }
}

} // verus!
