use vstd::prelude::*;
use crate::error::{FsErrorKind, TenantError};
use crate::id::TimelineId;
use crate::lineage::{entry_ids, TimelineEntry};
use crate::metadata::{parse_metadata, TimelineMetadata};

verus! {

/// A timeline's directory: its id and the metadata file inside it, if written.
pub struct TimelineDir {
    pub timeline_id: TimelineId,
    pub metadata: Option<Vec<u8>>,
}

/// What a timelines directory holds: the timeline directories, each with the bytes of its
/// metadata file if there is one, and the uninit marks beside them.
pub struct DirView {
    pub dirs: Seq<(TimelineId, Option<Seq<u8>>)>,
    pub marks: Seq<TimelineId>,
}

pub open spec fn dir_entry_view(d: TimelineDir) -> (TimelineId, Option<Seq<u8>>) {
    (
        d.timeline_id,
        match d.metadata {
            Some(m) => Some(m@),
            None => None,
        },
    )
}

impl DirView {
    pub open spec fn dir_ids(self) -> Seq<TimelineId> {
        self.dirs.map_values(|e: (TimelineId, Option<Seq<u8>>)| e.0)
    }

    pub open spec fn has_dir(self, id: TimelineId) -> bool {
        self.dir_ids().contains(id)
    }

    pub open spec fn has_mark(self, id: TimelineId) -> bool {
        self.marks.contains(id)
    }

    /// Each timeline directory and each uninit mark appears once.
    pub open spec fn wf(self) -> bool {
        self.dir_ids().no_duplicates() && self.marks.no_duplicates()
    }

    /// The metadata bytes of the directory of `id`, if it exists and holds them.
    pub open spec fn metadata_of(self, id: TimelineId) -> Option<Seq<u8>> {
        if self.has_dir(id) {
            self.dirs[self.dir_ids().index_of(id)].1
        } else {
            None
        }
    }

    /// Same directories as `other`, the metadata of `id` aside.
    pub open spec fn same_dirs_except_metadata(self, other: DirView, id: TimelineId) -> bool {
        &&& forall|x: TimelineId| self.has_dir(x) == other.has_dir(x)
        &&& forall|x: TimelineId| x != id ==> self.metadata_of(x) == other.metadata_of(x)
    }

    /// Same directories as `other` with their metadata, except for `id`.
    pub open spec fn same_dirs_except(self, other: DirView, id: TimelineId) -> bool {
        &&& forall|x: TimelineId| x != id ==> self.has_dir(x) == other.has_dir(x)
        &&& forall|x: TimelineId| x != id ==> self.metadata_of(x) == other.metadata_of(x)
    }

    /// Same uninit marks as `other`, except for `id`.
    pub open spec fn same_marks_except(self, other: DirView, id: TimelineId) -> bool {
        forall|x: TimelineId| x != id ==> self.has_mark(x) == other.has_mark(x)
    }
}

/// A tenant's `timelines` directory: timeline directories and uninit marks.
pub struct TimelinesDir {
    dirs: Vec<TimelineDir>,
    uninit_marks: Vec<TimelineId>,
}

impl View for TimelinesDir {
    type V = DirView;

    closed spec fn view(&self) -> DirView {
        DirView { dirs: self.dirs@.map_values(|d: TimelineDir| dir_entry_view(d)),
            marks: self.uninit_marks@ }
    }
}

/// Treats "not found" as success, as cleanup does.
pub fn ignore_absent_files(result: Result<(), FsErrorKind>) -> (r: Result<(), FsErrorKind>)
    ensures
        r == match result {
            Err(FsErrorKind::NotFound) => Ok(()),
            other => other,
        },
{
    match result {
        Err(FsErrorKind::NotFound) => Ok(()),
        other => other,
    }
}

impl TimelinesDir {
    proof fn lemma_view_ids(&self)
        ensures
            self@.dir_ids().len() == self.dirs@.len(),
            self@.dirs.len() == self.dirs@.len(),
            forall|i: int|
                0 <= i < self.dirs@.len() ==> #[trigger] self@.dir_ids()[i]
                    == self.dirs@[i].timeline_id,
            forall|i: int|
                0 <= i < self.dirs@.len() ==> #[trigger] self@.dirs[i] == dir_entry_view(
                    self.dirs@[i],
                ),
    {
    }

    /// An empty directory.
    pub fn new() -> (r: TimelinesDir)
        ensures
            r@.dirs.len() == 0,
            r@.marks.len() == 0,
            r@.wf(),
    {
        let r = TimelinesDir { dirs: Vec::new(), uninit_marks: Vec::new() };
        assert(r@.dir_ids() =~= Seq::<TimelineId>::empty());
        r
    }

    fn find_dir(&self, id: TimelineId) -> (r: Option<usize>)
        ensures
            match r {
                Some(i) => i < self.dirs@.len() && self.dirs@[i as int].timeline_id == id
                    && self@.has_dir(id),
                None => !self@.has_dir(id),
            },
    {
        proof {
            self.lemma_view_ids();
        }
        let mut i: usize = 0;
        while i < self.dirs.len()
            invariant
                i <= self.dirs@.len(),
                forall|k: int| 0 <= k < i ==> self.dirs@[k].timeline_id != id,
            decreases self.dirs@.len() - i,
        {
            if self.dirs[i].timeline_id == id {
                proof {
                    assert(self@.dir_ids()[i as int] == id);
                }
                return Some(i);
            }
            i = i + 1;
        }
        proof {
            if self@.has_dir(id) {
                let k = choose|k: int| 0 <= k < self@.dir_ids().len() && self@.dir_ids()[k] == id;
                assert(self.dirs@[k].timeline_id == id);
            }
        }
        None
    }

    fn find_mark(&self, id: TimelineId) -> (r: Option<usize>)
        ensures
            match r {
                Some(i) => i < self.uninit_marks@.len() && self.uninit_marks@[i as int] == id,
                None => !self@.has_mark(id),
            },
    {
        let mut i: usize = 0;
        while i < self.uninit_marks.len()
            invariant
                i <= self.uninit_marks@.len(),
                forall|k: int| 0 <= k < i ==> self.uninit_marks@[k] != id,
            decreases self.uninit_marks@.len() - i,
        {
            if self.uninit_marks[i] == id {
                return Some(i);
            }
            i = i + 1;
        }
        None
    }

    /// Whether the directory of timeline `id` exists.
    pub fn has_timeline_dir(&self, id: TimelineId) -> (r: bool)
        ensures
            r == self@.has_dir(id),
    {
        self.find_dir(id).is_some()
    }

    /// Whether the uninit mark of timeline `id` exists.
    pub fn has_uninit_mark(&self, id: TimelineId) -> (r: bool)
        ensures
            r == self@.has_mark(id),
    {
        self.find_mark(id).is_some()
    }

    /// Creates the uninit mark of `id`; fails if it exists.
    pub fn create_uninit_mark(&mut self, id: TimelineId) -> (r: Result<(), FsErrorKind>)
        requires
            old(self)@.wf(),
        ensures
            final(self)@.wf(),
            old(self)@.has_mark(id) ==> r == Err::<(), FsErrorKind>(FsErrorKind::AlreadyExists)
                && final(self)@ == old(self)@,
            !old(self)@.has_mark(id) ==> r is Ok && final(self)@.dirs == old(self)@.dirs
                && final(self)@.marks == old(self)@.marks.push(id),
    {
        if self.find_mark(id).is_some() {
            return Err(FsErrorKind::AlreadyExists);
        }
        let ghost before = self.uninit_marks@;
        self.uninit_marks.push(id);
        proof {
            lemma_push_no_dup(before, id);
        }
        Ok(())
    }

    /// Removes the uninit mark of `id`; fails with `NotFound` if it is absent.
    pub fn remove_uninit_mark(&mut self, id: TimelineId) -> (r: Result<(), FsErrorKind>)
        requires
            old(self)@.wf(),
        ensures
            final(self)@.wf(),
            final(self)@.dirs == old(self)@.dirs,
            !final(self)@.has_mark(id),
            final(self)@.same_marks_except(old(self)@, id),
            r is Ok <==> old(self)@.has_mark(id),
            r is Err ==> r == Err::<(), FsErrorKind>(FsErrorKind::NotFound) && final(self)@
                == old(self)@,
    {
        match self.find_mark(id) {
            None => Err(FsErrorKind::NotFound),
            Some(i) => {
                let ghost before = self.uninit_marks@;
                self.uninit_marks.remove(i);
                proof {
                    assert(self.uninit_marks@ == before.remove(i as int));
                    assert forall|x: TimelineId| x != id implies self@.has_mark(x) == old(
                        self,
                    )@.has_mark(x) by {
                        if before.contains(x) {
                            let k = choose|k: int| 0 <= k < before.len() && before[k] == x;
                            if k < i {
                                assert(self.uninit_marks@[k] == x);
                            } else {
                                assert(self.uninit_marks@[k - 1] == x);
                            }
                        }
                    }
                    if self@.has_mark(id) {
                        let k = choose|k: int|
                            0 <= k < self.uninit_marks@.len() && self.uninit_marks@[k] == id;
                        if k < i {
                            assert(before[k] == id);
                        } else {
                            assert(before[k + 1] == id);
                        }
                    }
                    assert(self.uninit_marks@.no_duplicates()) by {
                        assert forall|a: int, b: int|
                            0 <= a < b < self.uninit_marks@.len() implies self.uninit_marks@[a]
                            != self.uninit_marks@[b] by {
                            let a2 = if a < i { a } else { a + 1 };
                            let b2 = if b < i { b } else { b + 1 };
                            assert(before[a2] == self.uninit_marks@[a]);
                            assert(before[b2] == self.uninit_marks@[b]);
                        }
                    }
                }
                Ok(())
            },
        }
    }

    /// Creates the directory of `id`, without metadata; succeeds if it exists.
    pub fn create_dir_all(&mut self, id: TimelineId)
        requires
            old(self)@.wf(),
        ensures
            final(self)@.wf(),
            final(self)@.has_dir(id),
            final(self)@.marks == old(self)@.marks,
            old(self)@.has_dir(id) ==> final(self)@ == old(self)@,
            forall|x: TimelineId| x != id ==> final(self)@.has_dir(x) == old(self)@.has_dir(x),
            forall|x: TimelineId|
                x != id ==> final(self)@.metadata_of(x) == old(self)@.metadata_of(x),
            !old(self)@.has_dir(id) ==> final(self)@.metadata_of(id).is_none(),
    {
        if self.find_dir(id).is_some() {
            return;
        }
        let ghost before = self@;
        self.dirs.push(TimelineDir { timeline_id: id, metadata: None });
        proof {
            self.lemma_view_ids();
            let n = before.dirs.len();
            assert(self@.dirs =~= before.dirs.push((id, None)));
            assert(self@.dir_ids() =~= before.dir_ids().push(id));
            assert forall|x: TimelineId| x != id implies self@.has_dir(x) == before.has_dir(x) by {
                if before.has_dir(x) {
                    let k = before.dir_ids().index_of(x);
                    assert(self@.dir_ids()[k] == x);
                }
                if self@.has_dir(x) {
                    let k = self@.dir_ids().index_of(x);
                    assert(k < n);
                    assert(before.dir_ids()[k] == x);
                }
            }
            assert(self@.dir_ids()[n as int] == id);
            lemma_push_no_dup(before.dir_ids(), id);
            assert forall|x: TimelineId| x != id implies self@.metadata_of(x) == before.metadata_of(
                x,
            ) by {
                if before.has_dir(x) {
                    lemma_index_of_push(before.dir_ids(), id, x);
                }
            }
            lemma_index_of_push(before.dir_ids(), id, id);
        }
    }

    /// Removes the directory of `id` with everything in it.
    pub fn remove_dir_all(&mut self, id: TimelineId) -> (r: Result<(), FsErrorKind>)
        requires
            old(self)@.wf(),
        ensures
            final(self)@.wf(),
            !final(self)@.has_dir(id),
            final(self)@.marks == old(self)@.marks,
            final(self)@.same_dirs_except(old(self)@, id),
            r is Ok <==> old(self)@.has_dir(id),
            r is Err ==> r == Err::<(), FsErrorKind>(FsErrorKind::NotFound) && final(self)@
                == old(self)@,
    {
        match self.find_dir(id) {
            None => Err(FsErrorKind::NotFound),
            Some(i) => {
                let ghost before = self@;
                let ghost bdirs = self.dirs@;
                self.dirs.remove(i);
                proof {
                    self.lemma_view_ids();
                    let bi = before.dir_ids();
                    let ai = self@.dir_ids();
                    assert(ai =~= bi.remove(i as int));
                    assert(self@.dirs =~= before.dirs.remove(i as int));
                    lemma_remove_facts(bi, i as int);
                    lemma_remove_facts_meta(before.dirs, i as int);
                }
                Ok(())
            },
        }
    }

    /// Writes the metadata file of `id`; fails with `NotFound` if its directory is absent.
    pub fn write_metadata(&mut self, id: TimelineId, bytes: Vec<u8>) -> (r: Result<
        (),
        FsErrorKind,
    >)
        requires
            old(self)@.wf(),
        ensures
            final(self)@.wf(),
            final(self)@.marks == old(self)@.marks,
            r is Ok <==> old(self)@.has_dir(id),
            r is Ok ==> final(self)@.metadata_of(id) == Some(bytes@),
            final(self)@.same_dirs_except_metadata(old(self)@, id),
            r is Err ==> r == Err::<(), FsErrorKind>(FsErrorKind::NotFound) && final(self)@
                == old(self)@,
    {
        match self.find_dir(id) {
            None => Err(FsErrorKind::NotFound),
            Some(i) => {
                let ghost before = self@;
                self.dirs.set(i, TimelineDir { timeline_id: id, metadata: Some(bytes) });
                proof {
                    self.lemma_view_ids();
                    assert(self@.dir_ids() =~= before.dir_ids());
                    assert(self@.dirs =~= before.dirs.update(i as int, (id, Some(bytes@))));
                    assert(before.dir_ids().index_of(id) == i as int) by {
                        lemma_index_of_unique(before.dir_ids(), i as int);
                    }
                    assert forall|x: TimelineId| x != id implies self@.metadata_of(x)
                        == before.metadata_of(x) by {
                        if before.has_dir(x) {
                            let k = before.dir_ids().index_of(x);
                            assert(k != i);
                        }
                    }
                }
                Ok(())
            },
        }
    }

    /// The bytes of the metadata file of `id`.
    pub fn read_metadata(&self, id: TimelineId) -> (r: Result<Vec<u8>, FsErrorKind>)
        requires
            self@.wf(),
        ensures
            match r {
                Ok(b) => self@.metadata_of(id) == Some(b@),
                Err(e) => e == FsErrorKind::NotFound && self@.metadata_of(id).is_none(),
            },
    {
        match self.find_dir(id) {
            None => Err(FsErrorKind::NotFound),
            Some(i) => {
                proof {
                    self.lemma_view_ids();
                    lemma_index_of_unique(self@.dir_ids(), i as int);
                }
                match &self.dirs[i].metadata {
                    Some(m) => Ok(m.clone()),
                    None => Err(FsErrorKind::NotFound),
                }
            },
        }
    }

    /// Removes every timeline left uncommitted by a crash: for each uninit mark, the timeline's
    /// directory first, then the mark.
    pub fn remove_uninit_timelines(&mut self)
        requires
            old(self)@.wf(),
        ensures
            final(self)@.wf(),
            final(self)@.marks.len() == 0,
            forall|x: TimelineId| #[trigger] final(self)@.has_dir(x) == (old(self)@.has_dir(x)
                && !old(self)@.has_mark(x)),
            forall|x: TimelineId| !old(self)@.has_mark(x)
                ==> #[trigger] final(self)@.metadata_of(x) == old(self)@.metadata_of(x),
    {
        while self.uninit_marks.len() > 0
            invariant
                self@.wf(),
                forall|x: TimelineId| self@.has_mark(x) ==> old(self)@.has_mark(x),
                forall|x: TimelineId| #[trigger] self@.has_dir(x) == (old(self)@.has_dir(x)
                    && !(old(self)@.has_mark(x) && !self@.has_mark(x))),
                forall|x: TimelineId| !old(self)@.has_mark(x)
                    ==> #[trigger] self@.metadata_of(x) == old(self)@.metadata_of(x),
            decreases self.uninit_marks@.len(),
        {
            let id = self.uninit_marks[self.uninit_marks.len() - 1];
            proof {
                assert(self@.marks[self@.marks.len() - 1] == id);
                assert(self@.has_mark(id));
            }
            let ghost before = self@;
            let _ = self.remove_dir_all(id);
            let ghost mid = self@;
            let _ = self.remove_uninit_mark(id);
            proof {
                assert(!self@.has_mark(id));
                assert(self@.marks.len() < before.marks.len()) by {
                    assert(self@.marks.no_duplicates());
                    assert forall|k: int| 0 <= k < self@.marks.len()
                        implies before.marks.subrange(0,
                        before.marks.len() - 1).contains(#[trigger] self@.marks[k]) by {
                        let x = self@.marks[k];
                        assert(self@.has_mark(x));
                        assert(before.has_mark(x));
                        let j = before.marks.index_of(x);
                        assert(j != before.marks.len() - 1);
                        assert(before.marks.subrange(0, before.marks.len() - 1)[j] == x);
                    }
                    lemma_unique_subset_len(self@.marks, before.marks.subrange(0,
                        before.marks.len() - 1));
                }
                assert forall|x: TimelineId| #[trigger] self@.has_dir(x)
                    == (old(self)@.has_dir(x) && !(old(self)@.has_mark(x)
                    && !self@.has_mark(x))) by {
                    assert(self@.has_dir(x) == mid.has_dir(x));
                }
                assert forall|x: TimelineId| !old(self)@.has_mark(x)
                    implies #[trigger] self@.metadata_of(x) == old(self)@.metadata_of(x) by {
                    assert(self@.metadata_of(x) == mid.metadata_of(x));
                }
            }
        }
    }

    /// The parsed metadata of every timeline directory, in directory order. Fails on a
    /// directory without a metadata file, or whose metadata file does not parse.
    pub fn load_timelines_metadata(&self) -> (r: Result<Vec<TimelineEntry>, TenantError>)
        requires
            self@.wf(),
        ensures
            match r {
                Ok(v) => {
                    &&& entry_ids(v@) == self@.dir_ids()
                    &&& forall|k: int| 0 <= k < v@.len()
                        ==> match self@.metadata_of(#[trigger] v@[k].0) {
                        Some(b) => parse_metadata(b) == Ok::<TimelineMetadata,
                            TenantError>(v@[k].1),
                        None => false,
                    }
                },
                Err(e) => exists|x: TimelineId| #[trigger] self@.has_dir(x)
                    && match self@.metadata_of(x) {
                    Some(b) => parse_metadata(b) == Err::<TimelineMetadata, TenantError>(e),
                    None => e == TenantError::Io { timeline_id: x, kind: FsErrorKind::NotFound },
                },
            },
    {
        let ids = self.timeline_dir_ids();
        let mut v: Vec<TimelineEntry> = Vec::new();
        let mut i: usize = 0;
        while i < ids.len()
            invariant
                self@.wf(),
                ids@ == self@.dir_ids(),
                i <= ids@.len(),
                entry_ids(v@) =~= ids@.subrange(0, i as int),
                forall|k: int| 0 <= k < v@.len() ==> match self@.metadata_of(#[trigger] v@[k].0) {
                    Some(b) => parse_metadata(b) == Ok::<TimelineMetadata, TenantError>(v@[k].1),
                    None => false,
                },
            decreases ids@.len() - i,
        {
            let id = ids[i];
            proof {
                assert(self@.dir_ids()[i as int] == id);
                assert(self@.has_dir(id));
            }
            let bytes = match self.read_metadata(id) {
                Ok(b) => b,
                Err(kind) => {
                    return Err(TenantError::Io { timeline_id: id, kind });
                },
            };
            let m = TimelineMetadata::from_bytes(bytes.as_slice())?;
            let ghost before = v@;
            v.push((id, m));
            proof {
                assert(entry_ids(v@) =~= entry_ids(before).push(id));
                assert(ids@.subrange(0, i + 1) =~= ids@.subrange(0, i as int).push(id));
            }
            i = i + 1;
        }
        proof {
            assert(ids@.subrange(0, i as int) =~= ids@);
        }
        Ok(v)
    }

    /// The ids of the timeline directories, in directory order.
    pub fn timeline_dir_ids(&self) -> (r: Vec<TimelineId>)
        ensures
            r@ == self@.dir_ids(),
    {
        proof {
            self.lemma_view_ids();
        }
        let mut r: Vec<TimelineId> = Vec::new();
        let mut i: usize = 0;
        while i < self.dirs.len()
            invariant
                i <= self.dirs@.len(),
                self@.dir_ids().len() == self.dirs@.len(),
                forall|k: int| 0 <= k < self.dirs@.len()
                    ==> #[trigger] self@.dir_ids()[k] == self.dirs@[k].timeline_id,
                r@ =~= self@.dir_ids().subrange(0, i as int),
            decreases self.dirs@.len() - i,
        {
            r.push(self.dirs[i].timeline_id);
            i = i + 1;
        }
        r
    }

    /// The ids of the uninit marks, in directory order.
    pub fn uninit_mark_ids(&self) -> (r: Vec<TimelineId>)
        ensures
            r@ == self@.marks,
    {
        self.uninit_marks.clone()
    }
}

/// A sequence without duplicates whose elements all occur in `b` is no longer than `b`.
pub proof fn lemma_unique_subset_len(a: Seq<TimelineId>, b: Seq<TimelineId>)
    requires
        a.no_duplicates(),
        forall|k: int| 0 <= k < a.len() ==> b.contains(#[trigger] a[k]),
    ensures
        a.len() <= b.len(),
{
    a.unique_seq_to_set();
    assert(a.to_set().subset_of(b.to_set())) by {
        assert forall|x: TimelineId| a.to_set().contains(x) implies b.to_set().contains(x) by {
            let k = a.index_of(x);
            assert(b.contains(a[k]));
        }
    }
    vstd::set_lib::lemma_len_subset(a.to_set(), b.to_set());
    b.lemma_cardinality_of_set();
}

pub proof fn lemma_push_no_dup(s: Seq<TimelineId>, x: TimelineId)
    requires
        s.no_duplicates(),
        !s.contains(x),
    ensures
        s.push(x).no_duplicates(),
{
    let t = s.push(x);
    assert forall|a: int, b: int| 0 <= a < b < t.len() implies t[a] != t[b] by {
        if b == s.len() {
            assert(s[a] == t[a]);
        }
    }
}

pub proof fn lemma_index_of_unique(s: Seq<TimelineId>, i: int)
    requires
        s.no_duplicates(),
        0 <= i < s.len(),
    ensures
        s.index_of(s[i]) == i,
        s.contains(s[i]),
{
    assert(s.contains(s[i]));
    let k = s.index_of(s[i]);
    assert(s[k] == s[i]);
}

pub proof fn lemma_index_of_push(s: Seq<TimelineId>, y: TimelineId, x: TimelineId)
    requires
        s.push(y).no_duplicates(),
        s.contains(x) || x == y,
    ensures
        s.push(y).contains(x),
        s.contains(x) ==> s.push(y).index_of(x) == s.index_of(x),
        x == y ==> s.push(y).index_of(x) == s.len(),
{
    let t = s.push(y);
    if s.contains(x) {
        let k = s.index_of(x);
        assert(t[k] == x);
        lemma_index_of_unique(t, k);
        assert(t[s.len() as int] == y);
    } else {
        assert(t[s.len() as int] == y);
        lemma_index_of_unique(t, s.len() as int);
    }
}

pub proof fn lemma_remove_facts(s: Seq<TimelineId>, i: int)
    requires
        s.no_duplicates(),
        0 <= i < s.len(),
    ensures
        s.remove(i).no_duplicates(),
        !s.remove(i).contains(s[i]),
        forall|x: TimelineId| x != s[i] ==> s.remove(i).contains(x) == s.contains(x),
        forall|x: TimelineId|
            x != s[i] && s.contains(x) ==> s.remove(i).index_of(x) == if s.index_of(x) < i {
                s.index_of(x)
            } else {
                s.index_of(x) - 1
            },
{
    let t = s.remove(i);
    assert forall|a: int, b: int| 0 <= a < b < t.len() implies t[a] != t[b] by {
        let a2 = if a < i { a } else { a + 1 };
        let b2 = if b < i { b } else { b + 1 };
        assert(s[a2] == t[a]);
        assert(s[b2] == t[b]);
    }
    if t.contains(s[i]) {
        let k = t.index_of(s[i]);
        let k2 = if k < i { k } else { k + 1 };
        assert(s[k2] == s[i]);
    }
    assert forall|x: TimelineId| x != s[i] implies t.contains(x) == s.contains(x) by {
        if s.contains(x) {
            let k = s.index_of(x);
            if k < i {
                assert(t[k] == x);
            } else {
                assert(t[k - 1] == x);
            }
        }
        if t.contains(x) {
            let k = t.index_of(x);
            let k2 = if k < i { k } else { k + 1 };
            assert(s[k2] == x);
        }
    }
    assert forall|x: TimelineId| x != s[i] && s.contains(x) implies t.index_of(x) == if s.index_of(
        x,
    ) < i {
        s.index_of(x)
    } else {
        s.index_of(x) - 1
    } by {
        let k = s.index_of(x);
        if k < i {
            assert(t[k] == x);
            lemma_index_of_unique(t, k);
        } else {
            assert(t[k - 1] == x);
            lemma_index_of_unique(t, k - 1);
        }
    }
}

proof fn lemma_remove_facts_meta(d: Seq<(TimelineId, Option<Seq<u8>>)>, i: int)
    requires
        (DirView { dirs: d, marks: Seq::empty() }).dir_ids().no_duplicates(),
        0 <= i < d.len(),
    ensures
        ({
            let before = DirView { dirs: d, marks: Seq::empty() };
            let after = DirView { dirs: d.remove(i), marks: Seq::empty() };
            forall|x: TimelineId| x != d[i].0 ==> after.metadata_of(x) == before.metadata_of(x)
        }),
{
    let before = DirView { dirs: d, marks: Seq::empty() };
    let after = DirView { dirs: d.remove(i), marks: Seq::empty() };
    assert(after.dir_ids() =~= before.dir_ids().remove(i));
    lemma_remove_facts(before.dir_ids(), i);
    assert forall|x: TimelineId| x != d[i].0 implies after.metadata_of(x) == before.metadata_of(
        x,
    ) by {
        if before.has_dir(x) {
            let k = before.dir_ids().index_of(x);
            if k < i {
                assert(after.dirs[k] == d[k]);
            } else {
                assert(after.dirs[k - 1] == d[k]);
            }
        }
    }
}

} // verus!
