use vstd::prelude::*;
use crate::config::{resolve, resolve_u64, resolve_usize, TenantConf, TenantConfOpt};
use crate::error::{FsErrorKind, InvalidLsnReason, TenantError};
use crate::id::{TenantId, TimelineId};
use crate::key::Key;
use crate::lineage::{entry_ids, parent_first, same_entries, tree_sort_timelines, TimelineEntry};
use crate::lsn::{align_up, Lsn};
use crate::metadata::{metadata_bytes, parse_metadata, TimelineMetadata};
use crate::state::{next_tenant_state, timeline_state_for, TenantState, TimelineState};
use crate::storage::{ignore_absent_files, DirView, TimelinesDir};
use crate::timeline::{
    fresh_timeline, insert_ascending, lemma_min_lsn_same_values, metadata_of_timeline,
    planned_cutoff_of, read_versions, same_values, strictly_ascending, GcResult, PageVersion,
    Timeline,
};

verus! {

/// The ids of `s`, position for position.
pub open spec fn tl_ids(s: Seq<Timeline>) -> Seq<TimelineId> {
    s.map_values(|t: Timeline| t.timeline_id)
}

/// Each timeline's ancestor stands in `s` before it.
pub open spec fn lineage_ordered(s: Seq<Timeline>) -> bool {
    forall|i: int|
        #![trigger s[i]]
        0 <= i < s.len() && s[i].ancestor_timeline is Some ==> tl_ids(s).contains(
            s[i].ancestor_timeline.unwrap(),
        ) && tl_ids(s).index_of(s[i].ancestor_timeline.unwrap()) < i
}

/// A read of `key` at `lsn` on the timeline at position `i`: its own versions first, then its
/// ancestor's, at no later than the branch point.
pub open spec fn read_lineage(s: Seq<Timeline>, i: int, key: Key, lsn: u64) -> Option<Seq<u8>>
    decreases i,
{
    if !(0 <= i < s.len()) {
        None
    } else {
        match read_versions(s[i].versions@, key, lsn) {
            Some(v) => Some(v),
            None => match s[i].ancestor_timeline {
                Some(a) => {
                    let j = tl_ids(s).index_of(a);
                    if tl_ids(s).contains(a) && 0 <= j < i {
                        read_lineage(
                            s,
                            j,
                            key,
                            if lsn <= s[i].ancestor_lsn.0 {
                                lsn
                            } else {
                                s[i].ancestor_lsn.0
                            },
                        )
                    } else {
                        None
                    }
                },
                None => None,
            },
        }
    }
}

/// The abstract state of a tenant.
pub struct TenantView {
    pub tenant_id: TenantId,
    pub conf: TenantConf,
    pub tenant_conf: TenantConfOpt,
    pub state: TenantState,
    pub timelines: Seq<Timeline>,
    pub dir: DirView,
}

impl TenantView {
    pub open spec fn ids(self) -> Seq<TimelineId> {
        tl_ids(self.timelines)
    }

    pub open spec fn has_timeline(self, id: TimelineId) -> bool {
        self.ids().contains(id)
    }

    pub open spec fn timeline(self, id: TimelineId) -> Timeline {
        self.timelines[self.ids().index_of(id)]
    }

    /// Whether some timeline of the map has `id` as its ancestor.
    pub open spec fn has_children(self, id: TimelineId) -> bool {
        exists|i: int|
            0 <= i < self.timelines.len() && #[trigger] self.timelines[i].ancestor_timeline
                == Some(id)
    }

    /// The tenant-wide invariants: unique ids, ancestors loaded before their children, and for
    /// every timeline that is not broken, a directory on disk and no uninit mark.
    pub open spec fn wf(self) -> bool {
        &&& self.ids().no_duplicates()
        &&& lineage_ordered(self.timelines)
        &&& self.dir.wf()
        &&& forall|i: int|
            #![trigger self.timelines[i]]
            0 <= i < self.timelines.len() && self.timelines[i].state != TimelineState::Broken
                ==> self.dir.has_dir(self.timelines[i].timeline_id) && !self.dir.has_mark(
                self.timelines[i].timeline_id,
            )
    }

    /// A read through the lineage of timeline `id`.
    pub open spec fn read(self, id: TimelineId, key: Key, lsn: u64) -> Option<Seq<u8>> {
        if self.has_timeline(id) {
            read_lineage(self.timelines, self.ids().index_of(id), key, lsn)
        } else {
            None
        }
    }
}

/// A tenant: its timelines, its lifecycle state, its configuration, and its timelines
/// directory on disk.
pub struct Tenant {
    conf: TenantConf,
    tenant_conf: TenantConfOpt,
    tenant_id: TenantId,
    state: TenantState,
    timelines: Vec<Timeline>,
    dir: TimelinesDir,
}

impl View for Tenant {
    type V = TenantView;

    closed spec fn view(&self) -> TenantView {
        TenantView {
            tenant_id: self.tenant_id,
            conf: self.conf,
            tenant_conf: self.tenant_conf,
            state: self.state,
            timelines: self.timelines@,
            dir: self.dir@,
        }
    }
}

/// An uninit mark held by a timeline being created: while it exists on disk, the timeline's
/// directory is not committed and is removed on restart.
#[must_use]
pub struct TimelineUninitMark {
    pub uninit_mark_deleted: bool,
    pub timeline_id: TimelineId,
}

/// `d` is `o` without the uninit mark of `id`.
pub open spec fn mark_removed(d: DirView, o: DirView, id: TimelineId) -> bool {
    &&& d.wf()
    &&& d.dirs == o.dirs
    &&& !d.has_mark(id)
    &&& d.same_marks_except(o, id)
}

/// `d` is `o` without the directory and the uninit mark of `id`.
pub open spec fn timeline_files_removed(d: DirView, o: DirView, id: TimelineId) -> bool {
    &&& d.wf()
    &&& !d.has_dir(id)
    &&& !d.has_mark(id)
    &&& d.same_dirs_except(o, id)
    &&& d.same_marks_except(o, id)
}

impl TimelineUninitMark {
    pub open spec fn new_spec(timeline_id: TimelineId) -> TimelineUninitMark {
        TimelineUninitMark { uninit_mark_deleted: false, timeline_id }
    }

    /// A mark that is already gone: for timelines that exist on disk after a restart.
    pub fn dummy() -> (r: Self)
        ensures
            r.uninit_mark_deleted,
    {
        Self { uninit_mark_deleted: true, timeline_id: TimelineId(0) }
    }

    /// The mark of `timeline_id`, whose file has been created.
    pub fn new(timeline_id: TimelineId) -> (r: Self)
        ensures
            r == (TimelineUninitMark { uninit_mark_deleted: false, timeline_id }),
    {
        Self { uninit_mark_deleted: false, timeline_id }
    }

    /// Removes the mark file, if this mark still owns it: the timeline is committed.
    pub fn remove_uninit_mark(self, dir: &mut TimelinesDir) -> (r: Result<(), TenantError>)
        requires
            old(dir)@.wf(),
        ensures
            r is Ok,
            !self.uninit_mark_deleted ==> mark_removed(final(dir)@, old(dir)@, self.timeline_id),
            self.uninit_mark_deleted ==> final(dir)@ == old(dir)@,
    {
        let mut mark = self;
        if !mark.uninit_mark_deleted {
            mark.delete_mark_file_if_present(dir)?;
        }
        Ok(())
    }

    fn delete_mark_file_if_present(&mut self, dir: &mut TimelinesDir) -> (r: Result<
        (),
        TenantError,
    >)
        requires
            old(dir)@.wf(),
        ensures
            r is Ok,
            final(self).uninit_mark_deleted,
            final(self).timeline_id == old(self).timeline_id,
            mark_removed(final(dir)@, old(dir)@, old(self).timeline_id),
    {
        let id = self.timeline_id;
        match ignore_absent_files(dir.remove_uninit_mark(id)) {
            Ok(()) => {},
            Err(kind) => {
                return Err(TenantError::Io { timeline_id: id, kind });
            },
        }
        self.uninit_mark_deleted = true;
        Ok(())
    }

    /// What becomes of a mark that is given up: it stays, and keeps the timeline uncommitted,
    /// while the timeline's directory exists; otherwise it is removed, so that creation can be
    /// retried.
    pub fn release(self, dir: &mut TimelinesDir)
        requires
            old(dir)@.wf(),
        ensures
            final(dir)@.wf(),
            !self.uninit_mark_deleted && !old(dir)@.has_dir(self.timeline_id) ==> mark_removed(
                final(dir)@,
                old(dir)@,
                self.timeline_id,
            ),
            self.uninit_mark_deleted || old(dir)@.has_dir(self.timeline_id) ==> final(dir)@
                == old(dir)@,
    {
        let mut mark = self;
        if !mark.uninit_mark_deleted {
            if !dir.has_timeline_dir(mark.timeline_id) {
                let _ = mark.delete_mark_file_if_present(dir);
            }
        }
    }
}

/// Removes the directory of a timeline whose creation failed, then its mark.
fn cleanup_timeline_directory(uninit_mark: TimelineUninitMark, dir: &mut TimelinesDir)
    requires
        old(dir)@.wf(),
        !uninit_mark.uninit_mark_deleted,
    ensures
        timeline_files_removed(final(dir)@, old(dir)@, uninit_mark.timeline_id),
{
    let _ = ignore_absent_files(dir.remove_dir_all(uninit_mark.timeline_id));
    uninit_mark.release(dir);
}

/// A timeline whose files are on disk, under an uninit mark, and which is not yet in the
/// tenant's map.
#[must_use]
pub struct UninitializedTimeline {
    pub timeline_id: TimelineId,
    pub raw_timeline: Option<(Timeline, TimelineUninitMark)>,
}

impl UninitializedTimeline {
    /// The raw timeline and its mark belong to `timeline_id`.
    pub open spec fn wf(&self) -> bool {
        match self.raw_timeline {
            Some((t, m)) => t.timeline_id == self.timeline_id && (m.uninit_mark_deleted
                || m.timeline_id == self.timeline_id),
            None => true,
        }
    }

    /// The timeline being built.
    pub fn raw_timeline(&self) -> (r: Result<&Timeline, TenantError>)
        ensures
            match self.raw_timeline {
                Some((t, _)) => r == Ok::<&Timeline, TenantError>(&t),
                None => r == Err::<&Timeline, TenantError>(
                    TenantError::TimelineNotFound { timeline_id: self.timeline_id },
                ),
            },
    {
        match &self.raw_timeline {
            Some((t, _)) => Ok(t),
            None => Err(TenantError::TimelineNotFound { timeline_id: self.timeline_id }),
        }
    }

    /// Commits the timeline: removes its uninit mark and inserts it, active, into the map of
    /// `tenant`. Fails, inserting nothing, if the map already holds the timeline, if its
    /// ancestor is no longer loaded, or if its directory is gone.
    pub fn initialize(self, tenant: &mut Tenant) -> (r: Result<(), TenantError>)
        requires
            old(tenant)@.wf(),
            self.wf(),
        ensures
            final(tenant)@.wf(),
            initialized(self, old(tenant)@, final(tenant)@, r),
    {
        self.initialize_with_lock(tenant)
    }

    fn initialize_with_lock(self, tenant: &mut Tenant) -> (r: Result<(), TenantError>)
        requires
            old(tenant)@.wf(),
            self.wf(),
        ensures
            final(tenant)@.wf(),
            initialized(self, old(tenant)@, final(tenant)@, r),
    {
        let timeline_id = self.timeline_id;
        let (mut new_timeline, uninit_mark) = match self.raw_timeline {
            Some(p) => p,
            None => {
                return Err(TenantError::TimelineNotFound { timeline_id });
            },
        };
        if tenant.find(timeline_id).is_some() {
            uninit_mark.release(&mut tenant.dir);
            return Err(TenantError::TimelineAlreadyExists { timeline_id });
        }
        if let Some(a) = new_timeline.ancestor_timeline {
            if tenant.find(a).is_none() {
                uninit_mark.release(&mut tenant.dir);
                return Err(TenantError::TimelineNotFound { timeline_id: a });
            }
        }
        if !tenant.dir.has_timeline_dir(timeline_id) {
            uninit_mark.release(&mut tenant.dir);
            return Err(TenantError::Io { timeline_id, kind: FsErrorKind::NotFound });
        }
        let _ = uninit_mark.remove_uninit_mark(&mut tenant.dir);
        if tenant.dir.has_uninit_mark(timeline_id) {
            return Err(TenantError::TimelineDirExists { timeline_id });
        }
        new_timeline.state = TimelineState::Active;
        let ghost before = tenant.timelines@;
        tenant.timelines.push(new_timeline);
        proof {
            let after = tenant.timelines@;
            assert(tl_ids(after) =~= tl_ids(before).push(timeline_id));
            crate::storage::lemma_push_no_dup(tl_ids(before), timeline_id);
            assert forall|i: int| #![trigger after[i]] 0 <= i < after.len()
                && after[i].ancestor_timeline is Some
                implies tl_ids(after).contains(after[i].ancestor_timeline.unwrap())
                && tl_ids(after).index_of(after[i].ancestor_timeline.unwrap()) < i by {
                let a = after[i].ancestor_timeline.unwrap();
                if i < before.len() {
                    assert(before[i] == after[i]);
                    crate::storage::lemma_index_of_push(tl_ids(before), timeline_id, a);
                } else {
                    crate::storage::lemma_index_of_push(tl_ids(before), timeline_id, a);
                }
            }
            assert forall|i: int| #![trigger after[i]] 0 <= i < after.len()
                && after[i].state != TimelineState::Broken
                implies tenant.dir@.has_dir(after[i].timeline_id)
                && !tenant.dir@.has_mark(after[i].timeline_id) by {
                if i < before.len() {
                    assert(before[i] == after[i]);
                    assert(old(tenant)@.timelines[i] == before[i]);
                    assert(after[i].timeline_id != timeline_id) by {
                        assert(tl_ids(before)[i] == after[i].timeline_id);
                    }
                }
            }
        }
        Ok(())
    }

    /// Gives up the timeline: removes its directory, then its mark. A timeline that the map
    /// already holds under this id is left alone.
    pub fn abandon(self, tenant: &mut Tenant)
        requires
            old(tenant)@.wf(),
            self.wf(),
        ensures
            final(tenant)@.wf(),
            final(tenant)@.timelines == old(tenant)@.timelines,
            old(tenant)@.has_timeline(self.timeline_id) ==> final(tenant)@ == old(tenant)@,
            match self.raw_timeline {
                Some((_, m)) => !m.uninit_mark_deleted && !old(tenant)@.has_timeline(
                    self.timeline_id,
                ) ==> timeline_files_removed(
                    final(tenant)@.dir,
                    old(tenant)@.dir,
                    self.timeline_id,
                ),
                None => final(tenant)@ == old(tenant)@,
            },
    {
        if tenant.find(self.timeline_id).is_some() {
            return;
        }
        if let Some((_, uninit_mark)) = self.raw_timeline {
            if !uninit_mark.uninit_mark_deleted {
                cleanup_timeline_directory(uninit_mark, &mut tenant.dir);
                proof {
                    tenant.lemma_files_removed_keeps_wf(old(tenant)@, self.timeline_id);
                }
            }
        }
    }
}

/// The outcome of the activity check of operations that mutate timelines.
pub open spec fn active_check(state: TenantState) -> Result<(), TenantError> {
    match state {
        TenantState::Active { .. } => Ok(()),
        TenantState::Broken => Err(TenantError::TenantBroken),
        TenantState::Paused => Err(TenantError::TenantInactive),
    }
}

/// The outcome of creating the uninit mark of `id` in a tenant in `o`.
pub open spec fn mark_creation(o: TenantView, id: TimelineId) -> Result<TimelineUninitMark,
    TenantError> {
    if o.has_timeline(id) {
        Err(TenantError::TimelineAlreadyExists { timeline_id: id })
    } else if o.dir.has_dir(id) || o.dir.has_mark(id) {
        Err(TenantError::TimelineDirExists { timeline_id: id })
    } else {
        Ok(TimelineUninitMark { uninit_mark_deleted: false, timeline_id: id })
    }
}

/// Metadata of a new empty root timeline.
pub open spec fn empty_metadata(initdb_lsn: Lsn, pg_version: u32) -> TimelineMetadata {
    TimelineMetadata {
        disk_consistent_lsn: Lsn(0),
        prev_record_lsn: None,
        ancestor_timeline: None,
        ancestor_lsn: Lsn(0),
        latest_gc_cutoff_lsn: initdb_lsn,
        initdb_lsn,
        pg_version,
    }
}

/// What preparing timeline `id` with metadata `m` leaves, from a tenant in `o` whose
/// directory holds the uninit mark of `id`: `n`, and the outcome `r`.
pub open spec fn prepared(
    o: TenantView,
    n: TenantView,
    id: TimelineId,
    m: TimelineMetadata,
    r: Result<UninitializedTimeline, TenantError>,
) -> bool {
    &&& n.timelines == o.timelines
    &&& n.tenant_id == o.tenant_id && n.state == o.state && n.conf == o.conf
        && n.tenant_conf == o.tenant_conf
    &&& if m.ancestor_timeline is Some && !o.has_timeline(m.ancestor_timeline.unwrap()) {
        &&& r == Err::<UninitializedTimeline, TenantError>(
            TenantError::TimelineNotFound { timeline_id: m.ancestor_timeline.unwrap() },
        )
        &&& timeline_files_removed(n.dir, o.dir, id)
    } else {
        &&& r is Ok
        &&& r.unwrap().timeline_id == id
        &&& r.unwrap().wf()
        &&& r.unwrap().raw_timeline is Some
        &&& fresh_timeline(r.unwrap().raw_timeline.unwrap().0, id, m)
        &&& r.unwrap().raw_timeline.unwrap().1 == TimelineUninitMark::new_spec(id)
        &&& n.dir.wf()
        &&& n.dir.marks == o.dir.marks
        &&& n.dir.has_dir(id)
        &&& n.dir.metadata_of(id) == Some(metadata_bytes(m))
        &&& n.dir.same_dirs_except(o.dir, id)
    }
}

/// The metadata of a timeline branched off `s` at `start_lsn` (the last record of `s` if none),
/// or why the start is refused.
pub open spec fn branch_start(s: Timeline, start_lsn: Option<Lsn>) -> Result<TimelineMetadata,
    TenantError> {
    let start = match start_lsn {
        Some(l) => l,
        None => s.last_record_lsn,
    };
    let planned = if s.gc_info.pitr_cutoff.0 <= s.gc_info.horizon_cutoff.0 {
        s.gc_info.pitr_cutoff
    } else {
        s.gc_info.horizon_cutoff
    };
    if start_lsn is Some && s.ancestor_lsn.0 > start.0 {
        Err(
            TenantError::InvalidStartLsn {
                reason: InvalidLsnReason::BeforeAncestorLsn,
                lsn: start,
                cutoff: s.ancestor_lsn,
            },
        )
    } else if start.0 < s.latest_gc_cutoff_lsn.0 {
        Err(
            TenantError::InvalidStartLsn {
                reason: InvalidLsnReason::AlreadyGced,
                lsn: start,
                cutoff: s.latest_gc_cutoff_lsn,
            },
        )
    } else if start.0 < planned.0 {
        Err(
            TenantError::InvalidStartLsn {
                reason: InvalidLsnReason::WouldBeGced,
                lsn: start,
                cutoff: planned,
            },
        )
    } else {
        Ok(
            TimelineMetadata {
                disk_consistent_lsn: start,
                prev_record_lsn: if s.last_record_lsn == start {
                    Some(s.prev_record_lsn)
                } else {
                    None
                },
                ancestor_timeline: Some(s.timeline_id),
                ancestor_lsn: start,
                latest_gc_cutoff_lsn: s.latest_gc_cutoff_lsn,
                initdb_lsn: s.initdb_lsn,
                pg_version: s.pg_version,
            },
        )
    }
}

/// Checks a branch start against the source timeline and builds the new timeline's metadata.
pub fn check_branch_start(src: &Timeline, start_lsn: Option<Lsn>) -> (r: Result<
    TimelineMetadata,
    TenantError,
>)
    ensures
        r == branch_start(*src, start_lsn),
{
    let latest_gc_cutoff_lsn = src.latest_gc_cutoff_lsn;
    let start = match start_lsn {
        Some(l) => l,
        None => src.last_record_lsn,
    };
    if start_lsn.is_some() && src.ancestor_lsn.0 > start.0 {
        return Err(
            TenantError::InvalidStartLsn {
                reason: InvalidLsnReason::BeforeAncestorLsn,
                lsn: start,
                cutoff: src.ancestor_lsn,
            },
        );
    }
    if start.0 < latest_gc_cutoff_lsn.0 {
        return Err(
            TenantError::InvalidStartLsn {
                reason: InvalidLsnReason::AlreadyGced,
                lsn: start,
                cutoff: latest_gc_cutoff_lsn,
            },
        );
    }
    let planned = Lsn::min(src.gc_info.pitr_cutoff, src.gc_info.horizon_cutoff);
    if start.0 < planned.0 {
        return Err(
            TenantError::InvalidStartLsn {
                reason: InvalidLsnReason::WouldBeGced,
                lsn: start,
                cutoff: planned,
            },
        );
    }
    let prev = if src.last_record_lsn == start {
        Some(src.prev_record_lsn)
    } else {
        None
    };
    Ok(
        TimelineMetadata::new(
            start,
            prev,
            Some(src.timeline_id),
            start,
            latest_gc_cutoff_lsn,
            src.initdb_lsn,
            src.pg_version,
        ),
    )
}

/// `n` holds the same directories, metadata and marks as `o`.
pub open spec fn same_files(n: DirView, o: DirView) -> bool {
    &&& n.wf()
    &&& forall|x: TimelineId| n.has_dir(x) == o.has_dir(x)
    &&& forall|x: TimelineId| n.has_mark(x) == o.has_mark(x)
    &&& forall|x: TimelineId| n.metadata_of(x) == o.metadata_of(x)
}

/// A mark of `id` added to `o` (giving `m`) and then removed with the timeline's files leaves
/// the same files as `o`.
proof fn lemma_same_files_after_mark(o: DirView, m: DirView, n: DirView, id: TimelineId)
    requires
        m == (DirView { marks: o.marks.push(id), ..o }),
        !o.has_dir(id),
        !o.has_mark(id),
        timeline_files_removed(n, m, id),
    ensures
        same_files(n, o),
{
    assert forall|x: TimelineId| x != id implies m.has_mark(x) == o.has_mark(x) by {
        if o.has_mark(x) {
            let k = o.marks.index_of(x);
            assert(m.marks[k] == x);
        }
        if m.has_mark(x) {
            let k = m.marks.index_of(x);
            assert(k < o.marks.len());
            assert(o.marks[k] == x);
        }
    }
    assert(m.dir_ids() == o.dir_ids());
}

/// A mark of `id` added to `o` (giving `m`), then the timeline's directory written (giving
/// `p`), then the mark removed (giving `n`): `n` differs from `o` only by the directory of `id`.
proof fn lemma_mark_pushed_then_removed(o: DirView, m: DirView, p: DirView, n: DirView,
    id: TimelineId)
    requires
        m == (DirView { marks: o.marks.push(id), ..o }),
        !o.has_mark(id),
        p.marks == m.marks,
        p.same_dirs_except(m, id),
        mark_removed(n, p, id),
    ensures
        forall|x: TimelineId| n.has_mark(x) == o.has_mark(x),
        n.same_dirs_except(o, id),
        n.has_dir(id) == p.has_dir(id),
        n.metadata_of(id) == p.metadata_of(id),
{
    assert forall|x: TimelineId| n.has_mark(x) == o.has_mark(x) by {
        if x != id {
            if o.has_mark(x) {
                let k = o.marks.index_of(x);
                assert(m.marks[k] == x);
            }
            if m.has_mark(x) {
                let k = m.marks.index_of(x);
                assert(k < o.marks.len());
                assert(o.marks[k] == x);
            }
        }
    }
    assert(m.dir_ids() == o.dir_ids());
    assert(n.dir_ids() == p.dir_ids());
    assert forall|x: TimelineId| x != id implies n.has_dir(x) == o.has_dir(x) && n.metadata_of(x)
        == o.metadata_of(x) by {
        assert(n.has_dir(x) == p.has_dir(x));
        assert(n.metadata_of(x) == p.metadata_of(x));
        assert(m.has_dir(x) == o.has_dir(x));
        assert(m.metadata_of(x) == o.metadata_of(x));
    }
}

/// What branching `dst` off `src` at `start_lsn` leaves, from a tenant in `o`: `n`, and the
/// outcome `r`.
pub open spec fn branched(
    o: TenantView,
    n: TenantView,
    src: TimelineId,
    dst: TimelineId,
    start_lsn: Option<Lsn>,
    r: Result<(), TenantError>,
) -> bool {
    &&& n.tenant_id == o.tenant_id && n.state == o.state && n.conf == o.conf
        && n.tenant_conf == o.tenant_conf
    &&& match mark_creation(o, dst) {
        Err(e) => r == Err::<(), TenantError>(e) && n == o,
        Ok(_) => if !o.has_timeline(src) {
            &&& r == Err::<(), TenantError>(TenantError::TimelineNotFound { timeline_id: src })
            &&& n.timelines == o.timelines
            &&& same_files(n.dir, o.dir)
        } else {
            match branch_start(o.timeline(src), start_lsn) {
                Err(e) => {
                    &&& r == Err::<(), TenantError>(e)
                    &&& n.timelines == o.timelines
                    &&& same_files(n.dir, o.dir)
                },
                Ok(m) => {
                    &&& r is Ok
                    &&& n.timelines.len() == o.timelines.len() + 1
                    &&& n.timelines.drop_last() == o.timelines
                    &&& n.timelines.last().state == TimelineState::Active
                    &&& fresh_timeline(
                        Timeline { state: TimelineState::Suspended, ..n.timelines.last() },
                        dst,
                        m,
                    )
                    &&& n.dir.has_dir(dst)
                    &&& n.dir.metadata_of(dst) == Some(metadata_bytes(m))
                    &&& n.dir.same_dirs_except(o.dir, dst)
                    &&& forall|x: TimelineId| n.dir.has_mark(x) == o.dir.has_mark(x)
                },
            }
        },
    }
}

/// The timeline at `k` is the first in map order without a directory.
pub open spec fn first_without_dir(o: TenantView, k: int) -> bool {
    &&& !o.dir.has_dir(o.timelines[k].timeline_id)
    &&& forall|j: int| 0 <= j < k ==> o.dir.has_dir(#[trigger] o.timelines[j].timeline_id)
}

/// Same timeline as `b` in what the map's invariants read: id, ancestor, branch point, state.
pub open spec fn same_identity(a: Timeline, b: Timeline) -> bool {
    &&& a.timeline_id == b.timeline_id
    &&& a.ancestor_timeline == b.ancestor_timeline
    &&& a.ancestor_lsn == b.ancestor_lsn
    &&& a.state == b.state
}

/// The ids of the active timelines of `s`, in order.
pub open spec fn active_ids(s: Seq<Timeline>) -> Seq<TimelineId>
    decreases s.len(),
{
    if s.len() == 0 {
        Seq::empty()
    } else if s.last().state == TimelineState::Active {
        active_ids(s.drop_last()).push(s.last().timeline_id)
    } else {
        active_ids(s.drop_last())
    }
}

/// What flushing the timeline at `i` leaves, from a tenant in `o`: `n`, and the outcome `r`.
pub open spec fn checkpointed_at(o: TenantView, n: TenantView, i: int, r: Result<(),
    TenantError>) -> bool {
    let t = o.timelines[i];
    let c = Timeline { disk_consistent_lsn: t.last_record_lsn, ..t };
    &&& (r is Ok <==> o.dir.has_dir(t.timeline_id))
    &&& r is Err ==> r == Err::<(), TenantError>(
        TenantError::Io { timeline_id: t.timeline_id, kind: FsErrorKind::NotFound },
    ) && n == o
    &&& r is Ok ==> {
        &&& n.timelines == o.timelines.update(i, c)
        &&& n.state == o.state && n.tenant_id == o.tenant_id && n.conf == o.conf
            && n.tenant_conf == o.tenant_conf
        &&& forall|x: TimelineId| n.dir.has_dir(x) == o.dir.has_dir(x)
        &&& forall|x: TimelineId| n.dir.has_mark(x) == o.dir.has_mark(x)
        &&& forall|x: TimelineId|
            x != t.timeline_id ==> n.dir.metadata_of(x) == o.dir.metadata_of(x)
        &&& n.dir.metadata_of(t.timeline_id) == Some(metadata_bytes(metadata_of_timeline(c)))
    }
}

/// The branch points on `id`: the ancestor LSNs of the active timelines of `s` branched off
/// it, in order.
pub open spec fn branchpoints_of(s: Seq<Timeline>, id: TimelineId) -> Seq<Lsn>
    decreases s.len(),
{
    if s.len() == 0 {
        Seq::empty()
    } else {
        let t = s.last();
        let rest = branchpoints_of(s.drop_last(), id);
        if t.state == TimelineState::Active && t.ancestor_timeline == Some(id) {
            rest.push(t.ancestor_lsn)
        } else {
            rest
        }
    }
}

/// Branch points read only the lineage fields.
proof fn lemma_branchpoints_same(a: Seq<Timeline>, b: Seq<Timeline>, id: TimelineId)
    requires
        a.len() == b.len(),
        forall|k: int| 0 <= k < a.len() ==> same_identity(#[trigger] a[k], b[k]),
    ensures
        branchpoints_of(a, id) == branchpoints_of(b, id),
    decreases a.len(),
{
    if a.len() > 0 {
        assert(same_identity(a[a.len() - 1], b[b.len() - 1]));
        lemma_branchpoints_same(a.drop_last(), b.drop_last(), id);
    }
}

/// The branch points on `id` in `s`, ascending and without repeats.
fn collect_branchpoints(s: &Vec<Timeline>, id: TimelineId) -> (r: Vec<Lsn>)
    ensures
        strictly_ascending(r@),
        same_values(r@, branchpoints_of(s@, id)),
{
    let mut r: Vec<Lsn> = Vec::new();
    let mut i: usize = 0;
    while i < s.len()
        invariant
            i <= s@.len(),
            strictly_ascending(r@),
            same_values(r@, branchpoints_of(s@.subrange(0, i as int), id)),
        decreases s@.len() - i,
    {
        let ghost prefix = s@.subrange(0, i as int);
        proof {
            assert(s@.subrange(0, i + 1).drop_last() =~= prefix);
        }
        if s[i].state == TimelineState::Active && s[i].ancestor_timeline == Some(id) {
            insert_ascending(&mut r, s[i].ancestor_lsn);
            proof {
                let b = branchpoints_of(s@.subrange(0, i + 1), id);
                assert(b == branchpoints_of(prefix, id).push(s@[i as int].ancestor_lsn));
                assert forall|y: Lsn| r@.contains(y) <==> b.contains(y) by {
                    if b.contains(y) {
                        let k = b.index_of(y);
                        if k < b.len() - 1 {
                            assert(branchpoints_of(prefix, id)[k] == y);
                        }
                    }
                    if branchpoints_of(prefix, id).contains(y) {
                        let k = branchpoints_of(prefix, id).index_of(y);
                        assert(b[k] == y);
                    }
                    if y == s@[i as int].ancestor_lsn {
                        assert(b[b.len() - 1] == y);
                    }
                }
            }
        }
        i = i + 1;
    }
    proof {
        assert(s@.subrange(0, i as int) =~= s@);
    }
    r
}

/// Whether a GC pass for `target` with `horizon` works on `t`: it is active, it is the target
/// if there is one, and its last record lies at least `horizon` bytes in.
pub open spec fn gc_candidate(t: Timeline, target: Option<TimelineId>, horizon: u64) -> bool {
    &&& t.state == TimelineState::Active
    &&& match target {
        Some(x) => x == t.timeline_id,
        None => true,
    }
    &&& t.last_record_lsn.0 >= horizon
}

/// The pitr cutoff for a horizon cutoff `cutoff` and a window of `pitr` milliseconds: timelines
/// keep no commit times, so a non-zero window keeps all history.
pub open spec fn pitr_cutoff_for(cutoff: u64, pitr: u64) -> u64 {
    if pitr == 0 {
        cutoff
    } else {
        0
    }
}

/// The latest GC cutoff of candidate `t` after a pass over the map `s`.
pub open spec fn gc_cutoff_after(t: Timeline, s: Seq<Timeline>, horizon: u64, pitr: u64) -> u64 {
    let c = (t.last_record_lsn.0 - horizon) as u64;
    let p = planned_cutoff_of(branchpoints_of(s, t.timeline_id), c, pitr_cutoff_for(c, pitr));
    if p > t.latest_gc_cutoff_lsn.0 {
        p
    } else {
        t.latest_gc_cutoff_lsn.0
    }
}

/// How many timelines have a different latest GC cutoff in `n` than in `o`, position for
/// position.
pub open spec fn moved_cutoffs(o: Seq<Timeline>, n: Seq<Timeline>) -> nat
    decreases o.len(),
{
    if o.len() == 0 || n.len() == 0 {
        0
    } else {
        moved_cutoffs(o.drop_last(), n.drop_last()) + if o.last().latest_gc_cutoff_lsn
            != n.last().latest_gc_cutoff_lsn {
            1nat
        } else {
            0nat
        }
    }
}

/// A GC pass over a tenant in `o` left the timeline at `k` as `n`.
pub open spec fn gc_done_at(
    o: Seq<Timeline>,
    k: int,
    n: Timeline,
    target: Option<TimelineId>,
    horizon: u64,
    pitr: u64,
    checkpoint_before_gc: bool,
) -> bool {
    let t = o[k];
    if gc_candidate(t, target, horizon) {
        &&& same_identity(n, t)
        &&& n.last_record_lsn == t.last_record_lsn
        &&& n.versions@ == t.versions@
        &&& n.latest_gc_cutoff_lsn.0 == gc_cutoff_after(t, o, horizon, pitr)
        &&& strictly_ascending(n.gc_info.retain_lsns@)
        &&& same_values(n.gc_info.retain_lsns@, branchpoints_of(o, t.timeline_id))
        &&& n.gc_info.horizon_cutoff.0 == t.last_record_lsn.0 - horizon
        &&& n.disk_consistent_lsn == if checkpoint_before_gc {
            t.last_record_lsn
        } else {
            t.disk_consistent_lsn
        }
    } else {
        n == t
    }
}

/// `e` is the entry of an unmarked timeline directory of `d`: its id with the metadata that its
/// file parses to.
pub open spec fn loadable_entry(d: DirView, e: TimelineEntry) -> bool {
    &&& d.has_dir(e.0)
    &&& !d.has_mark(e.0)
    &&& match d.metadata_of(e.0) {
        Some(b) => parse_metadata(b) == Ok::<TimelineMetadata, TenantError>(e.1),
        None => false,
    }
}

/// `order` lists the entries of exactly the unmarked timeline directories of `d`.
pub open spec fn lists_loadable(d: DirView, order: Seq<TimelineEntry>) -> bool {
    &&& forall|k: int| 0 <= k < order.len() ==> loadable_entry(d, #[trigger] order[k])
    &&& forall|x: TimelineId|
        d.has_dir(x) && !d.has_mark(x) ==> exists|k: int| 0 <= k < order.len() && #[trigger] order[k].0 == x
}

/// After the uninit-marked timelines of `o` are removed (giving `d`) and the metadata of the
/// rest read into `entries`, any list of the loadable entries of `o` holds the same entries.
proof fn lemma_loadable_same_entries(
    o: DirView,
    d: DirView,
    entries: Seq<TimelineEntry>,
    order: Seq<TimelineEntry>,
)
    requires
        forall|x: TimelineId| #[trigger] d.has_dir(x) == (o.has_dir(x) && !o.has_mark(x)),
        forall|x: TimelineId| !o.has_mark(x) ==> #[trigger] d.metadata_of(x) == o.metadata_of(x),
        entry_ids(entries) == d.dir_ids(),
        forall|k: int| 0 <= k < entries.len() ==> match d.metadata_of(#[trigger] entries[k].0) {
            Some(b) => parse_metadata(b) == Ok::<TimelineMetadata, TenantError>(entries[k].1),
            None => false,
        },
        lists_loadable(o, order),
    ensures
        same_entries(order, entries),
{
    assert forall|k: int| 0 <= k < order.len() implies entries.contains(#[trigger] order[k]) by {
        let x = order[k].0;
        assert(loadable_entry(o, order[k]));
        assert(d.has_dir(x));
        let i = d.dir_ids().index_of(x);
        assert(entry_ids(entries)[i] == x);
        assert(entries[i].0 == x);
        assert(d.metadata_of(entries[i].0) == o.metadata_of(x));
        assert(entries[i] == order[k]);
    }
    assert forall|i: int| 0 <= i < entries.len() implies order.contains(#[trigger] entries[i]) by {
        let x = entries[i].0;
        assert(entry_ids(entries)[i] == x);
        assert(d.has_dir(x));
        let k = choose|k: int| 0 <= k < order.len() && #[trigger] order[k].0 == x;
        assert(loadable_entry(o, order[k]));
        assert(d.metadata_of(entries[i].0) == o.metadata_of(x));
        assert(entries[i] == order[k]);
    }
}

/// `t` was loaded from an entry of `input`: built from its metadata, active if its directory
/// exists without an uninit mark in `d`, broken otherwise.
pub open spec fn appended_from(d: DirView, t: Timeline, input: Seq<TimelineEntry>) -> bool {
    exists|i: int|
        0 <= i < input.len() && #[trigger] input[i].0 == t.timeline_id && fresh_timeline(
            Timeline { state: TimelineState::Suspended, ..t },
            t.timeline_id,
            input[i].1,
        ) && t.state == if d.has_dir(t.timeline_id) && !d.has_mark(t.timeline_id) {
            TimelineState::Active
        } else {
            TimelineState::Broken
        }
}

/// Whether `n` holds timeline `id`.
pub open spec fn final_has(n: TenantView, id: TimelineId) -> bool {
    n.has_timeline(id)
}

/// What loading `input` into a tenant in `o` left in `n`: the old timelines stay in front, every
/// input timeline is loaded, and each new one comes from its input entry.
pub open spec fn attached(o: TenantView, n: TenantView, input: Seq<TimelineEntry>) -> bool {
    &&& o.timelines.len() <= n.timelines.len()
    &&& n.timelines.subrange(0, o.timelines.len() as int) == o.timelines
    &&& forall|i: int| 0 <= i < input.len() ==> final_has(n, #[trigger] input[i].0)
    &&& forall|q: int|
        o.timelines.len() <= q < n.timelines.len()
            ==> appended_from(o.dir, #[trigger] n.timelines[q], input)
}

/// What giving up mark `m` leaves of directory `o`: `n`.
pub open spec fn released(m: TimelineUninitMark, o: DirView, n: DirView) -> bool {
    if m.uninit_mark_deleted || o.has_dir(m.timeline_id) {
        n == o
    } else {
        mark_removed(n, o, m.timeline_id)
    }
}

/// A given branch start, aligned.
pub open spec fn aligned(start: Option<Lsn>) -> Option<Lsn> {
    match start {
        Some(l) => Some(Lsn(align_up(l.0) as u64)),
        None => None,
    }
}

/// After creating `id` with outcome `rb`, leaving `mid`: the outcome `r` of `create_timeline`,
/// which on success activates the tenant (`n`).
pub open spec fn created_then(
    mid: TenantView,
    n: TenantView,
    id: TimelineId,
    rb: Result<(), TenantError>,
    r: Result<Option<TimelineId>, TenantError>,
) -> bool {
    match rb {
        Err(e) => r == Err::<Option<TimelineId>, TenantError>(e) && n == mid,
        Ok(()) => {
            &&& r == Ok::<Option<TimelineId>, TenantError>(Some(id))
            &&& n.state == next_tenant_state(mid.state,
                TenantState::Active { background_jobs_running: true })
            &&& n.ids() == mid.ids()
            &&& n.dir == mid.dir
            &&& n.tenant_id == mid.tenant_id && n.conf == mid.conf
                && n.tenant_conf == mid.tenant_conf
            &&& activated(
                mid.timelines,
                n.timelines,
                mid.state != TenantState::Active { background_jobs_running: true } && !(
                mid.state is Broken),
            )
        },
    }
}

/// The timelines `o` after an activation that changed the tenant's state (`changed`): each
/// one that is not broken becomes active, nothing else changes.
pub open spec fn activated(o: Seq<Timeline>, n: Seq<Timeline>, changed: bool) -> bool {
    &&& n.len() == o.len()
    &&& forall|i: int|
        0 <= i < o.len() ==> #[trigger] n[i] == if changed && o[i].state
            != TimelineState::Broken {
            Timeline { state: TimelineState::Active, ..o[i] }
        } else {
            o[i]
        }
}

/// What bootstrapping root timeline `id` at `pgdata_lsn` leaves, from a tenant in `o`: `n`,
/// and the outcome `r`.
pub open spec fn bootstrapped(
    o: TenantView,
    n: TenantView,
    id: TimelineId,
    pg_version: u32,
    pgdata_lsn: Lsn,
    r: Result<(), TenantError>,
) -> bool {
    let lsn = Lsn(align_up(pgdata_lsn.0) as u64);
    &&& n.tenant_id == o.tenant_id && n.state == o.state && n.conf == o.conf
        && n.tenant_conf == o.tenant_conf
    &&& match mark_creation(o, id) {
        Err(e) => r == Err::<(), TenantError>(e) && n == o,
        Ok(_) => {
            let t = n.timelines.last();
            &&& r is Ok
            &&& n.timelines.len() == o.timelines.len() + 1
            &&& n.timelines.drop_last() == o.timelines
            &&& t.timeline_id == id
            &&& t.state == TimelineState::Active
            &&& t.ancestor_timeline is None
            &&& t.last_record_lsn == lsn
            &&& t.disk_consistent_lsn == lsn
            &&& t.initdb_lsn == lsn
            &&& t.latest_gc_cutoff_lsn == lsn
            &&& t.pg_version == pg_version
            &&& t.versions@.len() == 0
            &&& n.dir.has_dir(id)
            &&& n.dir.metadata_of(id) == Some(metadata_bytes(metadata_of_timeline(t)))
            &&& n.dir.same_dirs_except(o.dir, id)
            &&& forall|x: TimelineId| n.dir.has_mark(x) == o.dir.has_mark(x)
        },
    }
}

/// What committing `u` into a tenant in `o` leaves: `n`, and the outcome `r`.
pub open spec fn initialized(
    u: UninitializedTimeline,
    o: TenantView,
    n: TenantView,
    r: Result<(), TenantError>,
) -> bool {
    let id = u.timeline_id;
    match u.raw_timeline {
        None => r == Err::<(), TenantError>(TenantError::TimelineNotFound { timeline_id: id })
            && n == o,
        Some((t, m)) => {
            &&& n.tenant_id == o.tenant_id && n.state == o.state && n.conf == o.conf
                && n.tenant_conf == o.tenant_conf
            &&& if o.has_timeline(id) {
                &&& r == Err::<(),
                    TenantError>(TenantError::TimelineAlreadyExists { timeline_id: id })
                &&& n.timelines == o.timelines
                &&& released(m, o.dir, n.dir)
            } else if t.ancestor_timeline is Some && !o.has_timeline(t.ancestor_timeline.unwrap()) {
                &&& r == Err::<(), TenantError>(
                    TenantError::TimelineNotFound { timeline_id: t.ancestor_timeline.unwrap() },
                )
                &&& n.timelines == o.timelines
                &&& released(m, o.dir, n.dir)
            } else if !o.dir.has_dir(id) {
                &&& r == Err::<(), TenantError>(
                    TenantError::Io { timeline_id: id, kind: FsErrorKind::NotFound },
                )
                &&& n.timelines == o.timelines
                &&& released(m, o.dir, n.dir)
            } else if m.uninit_mark_deleted && o.dir.has_mark(id) {
                &&& r == Err::<(), TenantError>(TenantError::TimelineDirExists { timeline_id: id })
                &&& n.timelines == o.timelines
                &&& n.dir == o.dir
            } else {
                &&& r is Ok
                &&& n.timelines == o.timelines.push(Timeline { state: TimelineState::Active, ..t })
                &&& if m.uninit_mark_deleted {
                    n.dir == o.dir
                } else {
                    mark_removed(n.dir, o.dir, id)
                }
            }
        },
    }
}

/// Sets the state of the timeline at `i`.
fn set_timeline_state(timelines: &mut Vec<Timeline>, i: usize, s: TimelineState)
    requires
        i < old(timelines)@.len(),
    ensures
        final(timelines)@ == old(timelines)@.update(i as int, Timeline { state: s,
            ..old(timelines)@[i as int] }),
{
    let mut t = timelines.remove(i);
    t.state = s;
    timelines.insert(i, t);
    assert(timelines@ =~= old(timelines)@.update(i as int, Timeline { state: s,
        ..old(timelines)@[i as int] }));
}

impl Tenant {
    /// A paused tenant with no timelines loaded, over the timelines directory `dir`.
    pub fn new(
        conf: TenantConf,
        tenant_conf: TenantConfOpt,
        tenant_id: TenantId,
        dir: TimelinesDir,
    ) -> (r: Tenant)
        requires
            dir@.wf(),
        ensures
            r@.wf(),
            r@.tenant_id == tenant_id,
            r@.conf == conf,
            r@.tenant_conf == tenant_conf,
            r@.state == TenantState::Paused,
            r@.timelines.len() == 0,
            r@.dir == dir@,
    {
        let r = Tenant {
            conf,
            tenant_conf,
            tenant_id,
            state: TenantState::Paused,
            timelines: Vec::new(),
            dir,
        };
        assert(r@.ids() =~= Seq::<TimelineId>::empty());
        r
    }

    pub fn tenant_id(&self) -> (r: TenantId)
        ensures
            r == self@.tenant_id,
    {
        self.tenant_id
    }

    /// The timelines directory.
    pub fn dir(&self) -> (r: &TimelinesDir)
        ensures
            r@ == self@.dir,
    {
        &self.dir
    }

    /// Gives up the tenant, handing back its timelines directory.
    pub fn into_dir(self) -> (r: TimelinesDir)
        ensures
            r@ == self@.dir,
    {
        self.dir
    }

    pub fn current_state(&self) -> (r: TenantState)
        ensures
            r == self@.state,
    {
        self.state
    }

    pub fn is_active(&self) -> (r: bool)
        ensures
            r == (self@.state is Active),
    {
        self.state.is_active()
    }

    pub fn should_run_tasks(&self) -> (r: bool)
        ensures
            r == (self@.state == TenantState::Active { background_jobs_running: true }),
    {
        self.state.should_run_tasks()
    }

    /// Position of timeline `id` in the map.
    fn find(&self, id: TimelineId) -> (r: Option<usize>)
        ensures
            match r {
                Some(i) => i < self@.timelines.len() && self@.timelines[i as int].timeline_id == id
                    && self@.has_timeline(id),
                None => !self@.has_timeline(id),
            },
    {
        let mut i: usize = 0;
        while i < self.timelines.len()
            invariant
                i <= self.timelines@.len(),
                forall|k: int| 0 <= k < i ==> self.timelines@[k].timeline_id != id,
            decreases self.timelines@.len() - i,
        {
            if self.timelines[i].timeline_id == id {
                assert(tl_ids(self.timelines@)[i as int] == id);
                return Some(i);
            }
            i = i + 1;
        }
        proof {
            if self@.has_timeline(id) {
                let k = choose|k: int| 0 <= k < self@.ids().len() && self@.ids()[k] == id;
                assert(self.timelines@[k].timeline_id == id);
            }
        }
        None
    }

    /// Removing the files of a timeline outside the map keeps the invariants.
    proof fn lemma_files_removed_keeps_wf(&self, o: TenantView, id: TimelineId)
        requires
            o.wf(),
            !o.has_timeline(id),
            self@.timelines == o.timelines,
            self@.dir.wf(),
            forall|x: TimelineId| x != id ==> self@.dir.has_dir(x) == o.dir.has_dir(x),
            forall|x: TimelineId| x != id ==> self@.dir.has_mark(x) == o.dir.has_mark(x),
        ensures
            self@.wf(),
    {
        let tl = self@.timelines;
        assert forall|i: int| #![trigger tl[i]] 0 <= i < tl.len()
            && tl[i].state != TimelineState::Broken
            implies self@.dir.has_dir(tl[i].timeline_id)
            && !self@.dir.has_mark(tl[i].timeline_id) by {
            assert(o.timelines[i] == tl[i]);
            assert(tl_ids(tl)[i] == tl[i].timeline_id);
        }
    }

    proof fn lemma_index(&self, i: int)
        requires
            self@.wf(),
            0 <= i < self@.timelines.len(),
        ensures
            self@.ids()[i] == self@.timelines[i].timeline_id,
            self@.has_timeline(self@.timelines[i].timeline_id),
            self@.ids().index_of(self@.timelines[i].timeline_id) == i,
            self@.timeline(self@.timelines[i].timeline_id) == self@.timelines[i],
    {
        assert(self@.ids()[i] == self@.timelines[i].timeline_id);
        crate::storage::lemma_index_of_unique(self@.ids(), i);
    }

    /// The timeline `id`; with `active_only`, only if it is active.
    pub fn get_timeline(&self, id: TimelineId, active_only: bool) -> (r: Result<
        &Timeline,
        TenantError,
    >)
        requires
            self@.wf(),
        ensures
            !self@.has_timeline(id) ==> r == Err::<&Timeline, TenantError>(
                TenantError::TimelineNotFound { timeline_id: id },
            ),
            self@.has_timeline(id) && active_only && self@.timeline(id).state
                != TimelineState::Active ==> r == Err::<&Timeline, TenantError>(
                TenantError::TimelineNotActive {
                    timeline_id: id,
                    state: self@.timeline(id).state,
                },
            ),
            self@.has_timeline(id) && !(active_only && self@.timeline(id).state
                != TimelineState::Active) ==> r is Ok && *r.unwrap() == self@.timeline(id),
    {
        match self.find(id) {
            None => Err(TenantError::TimelineNotFound { timeline_id: id }),
            Some(i) => {
                proof {
                    self.lemma_index(i as int);
                }
                let t = &self.timelines[i];
                if active_only && !t.is_active() {
                    Err(TenantError::TimelineNotActive { timeline_id: id, state: t.state })
                } else {
                    Ok(t)
                }
            },
        }
    }

    /// The ids of the loaded timelines, ancestors before descendants.
    pub fn list_timelines(&self) -> (r: Vec<TimelineId>)
        ensures
            r@ == self@.ids(),
    {
        let mut r: Vec<TimelineId> = Vec::new();
        let mut i: usize = 0;
        while i < self.timelines.len()
            invariant
                i <= self.timelines@.len(),
                r@ =~= self@.ids().subrange(0, i as int),
            decreases self.timelines@.len() - i,
        {
            r.push(self.timelines[i].timeline_id);
            i = i + 1;
        }
        r
    }

    /// Requests the lifecycle state `new_state`. A broken tenant ignores the request; otherwise,
    /// when the state changes, every timeline that is not broken becomes active (for an active
    /// tenant) or suspended. Returns whether the state changed, so that the caller publishes it
    /// and starts the background loops that `should_run_tasks` asks for.
    pub fn set_state(&mut self, new_state: TenantState) -> (r: bool)
        requires
            old(self)@.wf(),
        ensures
            final(self)@.wf(),
            final(self)@.state == next_tenant_state(old(self)@.state, new_state),
            r == (old(self)@.state != new_state && !(old(self)@.state is Broken)),
            final(self)@.timelines.len() == old(self)@.timelines.len(),
            forall|i: int|
                #![trigger final(self)@.timelines[i]]
                0 <= i < old(self)@.timelines.len() ==> {
                    let o = old(self)@.timelines[i];
                    let n = final(self)@.timelines[i];
                    n == if r && o.state != TimelineState::Broken {
                        Timeline { state: timeline_state_for(new_state), ..o }
                    } else {
                        o
                    }
                },
            final(self)@.dir == old(self)@.dir,
            final(self)@.tenant_id == old(self)@.tenant_id,
            final(self)@.conf == old(self)@.conf,
            final(self)@.tenant_conf == old(self)@.tenant_conf,
    {
        if self.state == new_state {
            return false;
        }
        if let TenantState::Broken = self.state {
            return false;
        }
        self.state = new_state;
        let target = if new_state.is_active() {
            TimelineState::Active
        } else {
            TimelineState::Suspended
        };
        let ghost start = self.timelines@;
        let mut i: usize = 0;
        while i < self.timelines.len()
            invariant
                i <= self.timelines@.len(),
                self.timelines@.len() == start.len(),
                target == timeline_state_for(new_state),
                start == old(self)@.timelines,
                self.dir@ == old(self)@.dir,
                self.state == new_state,
                self.tenant_id == old(self)@.tenant_id,
                self.conf == old(self)@.conf,
                self.tenant_conf == old(self)@.tenant_conf,
                forall|k: int|
                    #![trigger self.timelines@[k]]
                    0 <= k < start.len() ==> self.timelines@[k] == if k < i && start[k].state
                        != TimelineState::Broken {
                        Timeline { state: target, ..start[k] }
                    } else {
                        start[k]
                    },
            decreases self.timelines@.len() - i,
        {
            if !self.timelines[i].state.is_broken() {
                set_timeline_state(&mut self.timelines, i, target);
            }
            i = i + 1;
        }
        proof {
            let tl = self.timelines@;
            assert(tl_ids(tl) =~= tl_ids(start));
            assert forall|k: int| #![trigger tl[k]] 0 <= k < tl.len()
                && tl[k].state != TimelineState::Broken
                implies self.dir@.has_dir(tl[k].timeline_id)
                && !self.dir@.has_mark(tl[k].timeline_id) by {
                assert(start[k].state != TimelineState::Broken);
                assert(old(self)@.timelines[k] == start[k]);
            }
            assert forall|k: int| #![trigger tl[k]] 0 <= k < tl.len()
                && tl[k].ancestor_timeline is Some
                implies tl_ids(tl).contains(tl[k].ancestor_timeline.unwrap())
                && tl_ids(tl).index_of(tl[k].ancestor_timeline.unwrap()) < k by {
                assert(start[k].ancestor_timeline == tl[k].ancestor_timeline);
            }
        }
        true
    }

    /// Activates the tenant, with or without background loops; a broken tenant stays broken.
    pub fn activate(&mut self, enable_background_jobs: bool) -> (r: bool)
        requires
            old(self)@.wf(),
        ensures
            final(self)@.wf(),
            final(self)@.state == next_tenant_state(
                old(self)@.state,
                TenantState::Active { background_jobs_running: enable_background_jobs },
            ),
            r == (old(self)@.state != TenantState::Active {
                background_jobs_running: enable_background_jobs,
            } && !(old(self)@.state is Broken)),
            final(self)@.dir == old(self)@.dir,
            final(self)@.ids() == old(self)@.ids(),
            final(self)@.tenant_id == old(self)@.tenant_id,
            final(self)@.conf == old(self)@.conf,
            final(self)@.tenant_conf == old(self)@.tenant_conf,
            activated(old(self)@.timelines, final(self)@.timelines, r),
    {
        let r = self.set_state(TenantState::Active { background_jobs_running:
            enable_background_jobs });
        assert(self@.ids() =~= old(self)@.ids());
        r
    }

    /// Fails unless the tenant is active.
    fn check_active(&self) -> (r: Result<(), TenantError>)
        ensures
            r == active_check(self@.state),
    {
        match self.state {
            TenantState::Active { .. } => Ok(()),
            TenantState::Broken => Err(TenantError::TenantBroken),
            TenantState::Paused => Err(TenantError::TenantInactive),
        }
    }

    /// Creates the uninit mark of a new timeline `id`. Fails if the map holds `id`, or if its
    /// directory or mark exists on disk.
    fn create_timeline_uninit_mark(&mut self, id: TimelineId) -> (r: Result<
        TimelineUninitMark,
        TenantError,
    >)
        requires
            old(self)@.wf(),
        ensures
            final(self)@.wf(),
            r == mark_creation(old(self)@, id),
            r is Err ==> final(self)@ == old(self)@,
            r is Ok ==> final(self)@ == (TenantView {
                dir: DirView { marks: old(self)@.dir.marks.push(id), ..old(self)@.dir },
                ..old(self)@
            }),
    {
        if self.find(id).is_some() {
            return Err(TenantError::TimelineAlreadyExists { timeline_id: id });
        }
        if self.dir.has_timeline_dir(id) || self.dir.has_uninit_mark(id) {
            return Err(TenantError::TimelineDirExists { timeline_id: id });
        }
        let ghost before = self.dir@;
        let _ = self.dir.create_uninit_mark(id);
        proof {
            let d = self.dir@;
            assert(d =~= DirView { marks: before.marks.push(id), ..before });
            crate::storage::lemma_push_no_dup(before.marks, id);
            assert forall|x: TimelineId| x != id implies d.has_mark(x) == before.has_mark(x) by {
                if before.has_mark(x) {
                    let k = before.marks.index_of(x);
                    assert(d.marks[k] == x);
                }
                if d.has_mark(x) {
                    let k = d.marks.index_of(x);
                    assert(k < before.marks.len());
                    assert(before.marks[k] == x);
                }
            }
            let tl = self.timelines@;
            assert forall|i: int| #![trigger tl[i]] 0 <= i < tl.len()
                && tl[i].state != TimelineState::Broken
                implies self.dir@.has_dir(tl[i].timeline_id)
                && !self.dir@.has_mark(tl[i].timeline_id) by {
                assert(old(self)@.timelines[i] == tl[i]);
                assert(tl_ids(tl)[i] == tl[i].timeline_id);
            }
        }
        Ok(TimelineUninitMark::new(id))
    }

    /// Writes the directory and metadata file of a new timeline that holds an uninit mark, and
    /// builds the timeline. If the metadata names an ancestor that is not loaded, removes the
    /// mark and fails.
    fn prepare_timeline(
        &mut self,
        new_timeline_id: TimelineId,
        new_metadata: TimelineMetadata,
        uninit_mark: TimelineUninitMark,
    ) -> (r: Result<UninitializedTimeline, TenantError>)
        requires
            old(self)@.wf(),
            uninit_mark == TimelineUninitMark::new_spec(new_timeline_id),
            !old(self)@.has_timeline(new_timeline_id),
            !old(self)@.dir.has_dir(new_timeline_id),
        ensures
            final(self)@.wf(),
            prepared(old(self)@, final(self)@, new_timeline_id, new_metadata, r),
    {
        if let Some(a) = new_metadata.ancestor_timeline {
            if self.find(a).is_none() {
                cleanup_timeline_directory(uninit_mark, &mut self.dir);
                proof {
                    self.lemma_files_removed_keeps_wf(old(self)@, new_timeline_id);
                }
                return Err(TenantError::TimelineNotFound { timeline_id: a });
            }
        }
        let new_timeline = Timeline::new(new_timeline_id, &new_metadata);
        let ghost before = self.dir@;
        self.dir.create_dir_all(new_timeline_id);
        let ghost created = self.dir@;
        let bytes = new_metadata.to_bytes();
        let _ = self.dir.write_metadata(new_timeline_id, bytes);
        proof {
            let tl = self.timelines@;
            assert forall|i: int| #![trigger tl[i]] 0 <= i < tl.len()
                && tl[i].state != TimelineState::Broken
                implies self.dir@.has_dir(tl[i].timeline_id)
                && !self.dir@.has_mark(tl[i].timeline_id) by {
                assert(old(self)@.timelines[i] == tl[i]);
                assert(tl_ids(tl)[i] == tl[i].timeline_id);
            }
        }
        Ok(
            UninitializedTimeline {
                timeline_id: new_timeline_id,
                raw_timeline: Some((new_timeline, uninit_mark)),
            },
        )
    }

    /// Starts the creation of an empty root timeline `new_timeline_id`, to be filled by the
    /// caller and committed with `initialize`: writes its uninit mark, its directory and its
    /// metadata (no ancestor, GC cutoff and initdb LSN at `initdb_lsn`).
    pub fn create_empty_timeline(
        &mut self,
        new_timeline_id: TimelineId,
        initdb_lsn: Lsn,
        pg_version: u32,
    ) -> (r: Result<UninitializedTimeline, TenantError>)
        requires
            old(self)@.wf(),
        ensures
            final(self)@.wf(),
            active_check(old(self)@.state) is Err
                ==> r == Err::<UninitializedTimeline, TenantError>(
                active_check(old(self)@.state)->Err_0,
            ) && final(self)@ == old(self)@,
            active_check(old(self)@.state) is Ok
                ==> match mark_creation(old(self)@, new_timeline_id) {
                Err(e) => r == Err::<UninitializedTimeline, TenantError>(e)
                    && final(self)@ == old(self)@,
                Ok(_) => prepared(
                    (TenantView {
                        dir: DirView { marks: old(self)@.dir.marks.push(new_timeline_id),
                            ..old(self)@.dir },
                        ..old(self)@
                    }),
                    final(self)@,
                    new_timeline_id,
                    empty_metadata(initdb_lsn, pg_version),
                    r,
                ) && r is Ok,
            },
    {
        self.check_active()?;
        let uninit_mark = self.create_timeline_uninit_mark(new_timeline_id)?;
        let new_metadata = TimelineMetadata::new(
            Lsn(0),
            None,
            None,
            Lsn(0),
            initdb_lsn,
            initdb_lsn,
            pg_version,
        );
        self.prepare_timeline(new_timeline_id, new_metadata, uninit_mark)
    }

    /// Branches a new timeline `dst` off `src` at `start_lsn`, or at the last record of `src`
    /// when none is given. The start must not lie before the point at which `src` itself was
    /// branched off (checked when a start is given), nor before the latest GC cutoff of `src`,
    /// nor before the cutoff that its next GC pass has planned. On failure no file of `dst`
    /// stays on disk.
    pub fn branch_timeline(
        &mut self,
        src: TimelineId,
        dst: TimelineId,
        start_lsn: Option<Lsn>,
    ) -> (r: Result<(), TenantError>)
        requires
            old(self)@.wf(),
        ensures
            final(self)@.wf(),
            branched(old(self)@, final(self)@, src, dst, start_lsn, r),
    {
        let uninit_mark = self.create_timeline_uninit_mark(dst)?;
        let ghost marked = self@;
        let i = match self.find(src) {
            Some(i) => i,
            None => {
                cleanup_timeline_directory(uninit_mark, &mut self.dir);
                proof {
                    self.lemma_files_removed_keeps_wf(marked, dst);
                    lemma_same_files_after_mark(old(self)@.dir, marked.dir, self.dir@, dst);
                }
                return Err(TenantError::TimelineNotFound { timeline_id: src });
            },
        };
        proof {
            self.lemma_index(i as int);
        }
        let checked = check_branch_start(&self.timelines[i], start_lsn);
        let new_metadata = match checked {
            Ok(m) => m,
            Err(e) => {
                cleanup_timeline_directory(uninit_mark, &mut self.dir);
                proof {
                    self.lemma_files_removed_keeps_wf(marked, dst);
                    lemma_same_files_after_mark(old(self)@.dir, marked.dir, self.dir@, dst);
                }
                return Err(e);
            },
        };
        let new_timeline = self.prepare_timeline(dst, new_metadata, uninit_mark)?;
        let ghost prepared_view = self@;
        let r = new_timeline.initialize(self);
        proof {
            assert(prepared_view.has_timeline(src));
            lemma_mark_pushed_then_removed(old(self)@.dir, marked.dir, prepared_view.dir,
                self.dir@, dst);
            assert(old(self)@.timeline(src) == marked.timeline(src));
            assert(branch_start(old(self)@.timeline(src), start_lsn) == Ok::<TimelineMetadata,
                TenantError>(new_metadata));
            assert(self@.timelines.drop_last() =~= old(self)@.timelines);
        }
        r
    }

    /// Replacing the timeline at `i` by one with the same lineage fields keeps the invariants.
    proof fn lemma_replace_keeps_wf(o: TenantView, n: TenantView)
        requires
            o.wf(),
            n.dir == o.dir,
            n.timelines.len() == o.timelines.len(),
            forall|k: int| 0 <= k < o.timelines.len()
                ==> same_identity(#[trigger] n.timelines[k], o.timelines[k]),
        ensures
            n.wf(),
            n.ids() == o.ids(),
    {
        assert(n.ids() =~= o.ids());
        let tl = n.timelines;
        assert forall|i: int| #![trigger tl[i]] 0 <= i < tl.len()
            && tl[i].state != TimelineState::Broken
            implies n.dir.has_dir(tl[i].timeline_id) && !n.dir.has_mark(tl[i].timeline_id) by {
            assert(same_identity(tl[i], o.timelines[i]));
        }
        assert forall|i: int| #![trigger tl[i]] 0 <= i < tl.len()
            && tl[i].ancestor_timeline is Some
            implies tl_ids(tl).contains(tl[i].ancestor_timeline.unwrap())
            && tl_ids(tl).index_of(tl[i].ancestor_timeline.unwrap()) < i by {
            assert(same_identity(tl[i], o.timelines[i]));
        }
    }

    /// Writes a version of `key` at `lsn` on timeline `timeline_id`.
    pub fn put(&mut self, timeline_id: TimelineId, key: Key, lsn: Lsn,
        value: Vec<u8>) -> (r: Result<(), TenantError>)
        requires
            old(self)@.wf(),
        ensures
            final(self)@.wf(),
            final(self)@.ids() == old(self)@.ids(),
            final(self)@.dir == old(self)@.dir,
            final(self)@.state == old(self)@.state,
            !old(self)@.has_timeline(timeline_id)
                ==> r == Err::<(), TenantError>(TenantError::TimelineNotFound { timeline_id })
                && final(self)@ == old(self)@,
            old(self)@.has_timeline(timeline_id) ==> {
                let k = old(self)@.ids().index_of(timeline_id);
                let o = old(self)@.timelines[k];
                &&& final(self)@.timelines == old(self)@.timelines.update(k,
                    final(self)@.timelines[k])
                &&& (r is Ok <==> lsn.0 > o.last_record_lsn.0)
                &&& r is Ok
                    ==> final(self)@.timelines[k].versions@ == o.versions@.push(PageVersion { key,
                    lsn, value })
                &&& r is Err
                    ==> r == Err::<(), TenantError>(TenantError::InvalidWriteLsn { lsn,
                    last_record_lsn: o.last_record_lsn }) && final(self)@.timelines[k] == o
                &&& final(self)@.timelines[k] == (Timeline {
                    versions: final(self)@.timelines[k].versions,
                    ..o
                })
            },
            final(self)@.tenant_id == old(self)@.tenant_id,
            final(self)@.conf == old(self)@.conf,
            final(self)@.tenant_conf == old(self)@.tenant_conf,
    {
        let i = match self.find(timeline_id) {
            Some(i) => i,
            None => return Err(TenantError::TimelineNotFound { timeline_id }),
        };
        proof {
            self.lemma_index(i as int);
        }
        let mut t = self.timelines.remove(i);
        let r = t.put(key, lsn, value);
        self.timelines.insert(i, t);
        proof {
            assert(self.timelines@ =~= old(self)@.timelines.update(i as int, t));
            Self::lemma_replace_keeps_wf(old(self)@, self@);
        }
        r
    }

    /// Marks every record of timeline `timeline_id` up to `lsn` as written.
    pub fn finish_write(&mut self, timeline_id: TimelineId, lsn: Lsn) -> (r: Result<(),
        TenantError>)
        requires
            old(self)@.wf(),
        ensures
            final(self)@.wf(),
            final(self)@.ids() == old(self)@.ids(),
            final(self)@.dir == old(self)@.dir,
            !old(self)@.has_timeline(timeline_id)
                ==> r == Err::<(), TenantError>(TenantError::TimelineNotFound { timeline_id })
                && final(self)@ == old(self)@,
            old(self)@.has_timeline(timeline_id) ==> {
                let k = old(self)@.ids().index_of(timeline_id);
                let o = old(self)@.timelines[k];
                let n = final(self)@.timelines[k];
                &&& final(self)@.timelines == old(self)@.timelines.update(k, n)
                &&& (r is Ok <==> lsn.0 >= o.last_record_lsn.0)
                &&& r is Ok ==> n == (Timeline {
                    last_record_lsn: lsn,
                    prev_record_lsn: o.last_record_lsn,
                    ..o
                })
                &&& r is Err ==> r == Err::<(), TenantError>(
                    TenantError::InvalidWriteLsn { lsn, last_record_lsn: o.last_record_lsn },
                ) && n == o
            },
            final(self)@.state == old(self)@.state,
            final(self)@.tenant_id == old(self)@.tenant_id,
            final(self)@.conf == old(self)@.conf,
            final(self)@.tenant_conf == old(self)@.tenant_conf,
    {
        let i = match self.find(timeline_id) {
            Some(i) => i,
            None => return Err(TenantError::TimelineNotFound { timeline_id }),
        };
        proof {
            self.lemma_index(i as int);
        }
        let mut t = self.timelines.remove(i);
        let r = t.finish_write(lsn);
        self.timelines.insert(i, t);
        proof {
            assert(self.timelines@ =~= old(self)@.timelines.update(i as int, t));
            Self::lemma_replace_keeps_wf(old(self)@, self@);
        }
        r
    }

    /// Reads `key` at `lsn` on timeline `timeline_id`: its own last version at or below `lsn`,
    /// else the ancestor's at or below the branch point, and so on up the lineage.
    pub fn get(&self, timeline_id: TimelineId, key: Key, lsn: Lsn) -> (r: Result<Vec<u8>,
        TenantError>)
        requires
            self@.wf(),
        ensures
            !self@.has_timeline(timeline_id)
                ==> r == Err::<Vec<u8>, TenantError>(TenantError::TimelineNotFound { timeline_id }),
            self@.has_timeline(timeline_id) ==> match self@.read(timeline_id, key, lsn.0) {
                Some(v) => r is Ok && r.unwrap()@ == v,
                None => r == Err::<Vec<u8>, TenantError>(TenantError::KeyNotFound { key, lsn }),
            },
    {
        let start = match self.find(timeline_id) {
            Some(i) => i,
            None => return Err(TenantError::TimelineNotFound { timeline_id }),
        };
        proof {
            self.lemma_index(start as int);
        }
        let mut i: usize = start;
        let mut cur: Lsn = lsn;
        loop
            invariant
                self@.wf(),
                i < self.timelines@.len(),
                self@.has_timeline(timeline_id),
                read_lineage(self.timelines@, i as int, key, cur.0) == self@.read(timeline_id, key,
                    lsn.0),
            decreases i,
        {
            let t = &self.timelines[i];
            match t.get_own(key, cur) {
                Some(v) => {
                    return Ok(v);
                },
                None => {},
            }
            match t.ancestor_timeline {
                None => {
                    return Err(TenantError::KeyNotFound { key, lsn });
                },
                Some(a) => {
                    proof {
                        assert(self.timelines@[i as int] == *t);
                    }
                    let j = match self.find(a) {
                        Some(j) => j,
                        None => {
                            return Err(TenantError::KeyNotFound { key, lsn });
                        },
                    };
                    proof {
                        self.lemma_index(j as int);
                    }
                    cur = Lsn::min(cur, t.ancestor_lsn);
                    i = j;
                },
            }
        }
    }

    /// Flushes timeline `i`: everything up to its last record becomes disk-consistent and its
    /// metadata file is rewritten.
    fn checkpoint_at(&mut self, i: usize) -> (r: Result<(), TenantError>)
        requires
            old(self)@.wf(),
            i < old(self)@.timelines.len(),
        ensures
            final(self)@.wf(),
            checkpointed_at(old(self)@, final(self)@, i as int, r),
    {
        proof {
            self.lemma_index(i as int);
        }
        let id = self.timelines[i].timeline_id;
        let last = self.timelines[i].last_record_lsn;
        let mut m = self.timelines[i].metadata();
        m.disk_consistent_lsn = last;
        match self.dir.write_metadata(id, m.to_bytes()) {
            Ok(()) => {},
            Err(kind) => {
                return Err(TenantError::Io { timeline_id: id, kind });
            },
        }
        proof {
            let tl = self.timelines@;
            assert forall|k: int| #![trigger tl[k]] 0 <= k < tl.len()
                && tl[k].state != TimelineState::Broken
                implies self.dir@.has_dir(tl[k].timeline_id)
                && !self.dir@.has_mark(tl[k].timeline_id) by {
                assert(old(self)@.timelines[k] == tl[k]);
            }
        }
        let ghost written = self@;
        let mut t = self.timelines.remove(i);
        t.disk_consistent_lsn = last;
        self.timelines.insert(i, t);
        proof {
            assert(self.timelines@ =~= old(self)@.timelines.update(i as int, t));
            Self::lemma_replace_keeps_wf(written, self@);
        }
        Ok(())
    }

    /// Flushes timeline `timeline_id` (see `checkpoint`).
    pub fn checkpoint_timeline(&mut self, timeline_id: TimelineId) -> (r: Result<(), TenantError>)
        requires
            old(self)@.wf(),
        ensures
            final(self)@.wf(),
            !old(self)@.has_timeline(timeline_id)
                ==> r == Err::<(), TenantError>(TenantError::TimelineNotFound { timeline_id })
                && final(self)@ == old(self)@,
            old(self)@.has_timeline(timeline_id)
                ==> checkpointed_at(old(self)@, final(self)@,
                old(self)@.ids().index_of(timeline_id), r),
    {
        match self.find(timeline_id) {
            None => Err(TenantError::TimelineNotFound { timeline_id }),
            Some(i) => {
                proof {
                    self.lemma_index(i as int);
                }
                self.checkpoint_at(i)
            },
        }
    }

    /// Flushes every timeline, in map order; the first failure stops the fan-out. Requires an
    /// active tenant.
    pub fn checkpoint(&mut self) -> (r: Result<(), TenantError>)
        requires
            old(self)@.wf(),
        ensures
            final(self)@.wf(),
            final(self)@.ids() == old(self)@.ids(),
            final(self)@.state == old(self)@.state,
            active_check(old(self)@.state) is Err
                ==> r == Err::<(), TenantError>(active_check(old(self)@.state)->Err_0)
                && final(self)@ == old(self)@,
            r is Ok ==> forall|k: int| 0 <= k < old(self)@.timelines.len() ==> {
                let o = old(self)@.timelines[k];
                let n = #[trigger] final(self)@.timelines[k];
                &&& n.disk_consistent_lsn == o.last_record_lsn
                &&& final(self)@.dir.metadata_of(o.timeline_id)
                    == Some(metadata_bytes(metadata_of_timeline(n)))
            },
            active_check(old(self)@.state) is Ok
                ==> (r is Ok <==> forall|k: int| 0 <= k < old(self)@.timelines.len()
                ==> old(self)@.dir.has_dir(#[trigger] old(self)@.timelines[k].timeline_id)),
            active_check(old(self)@.state) is Ok && r is Err ==> exists|k: int|
                0 <= k < old(self)@.timelines.len() && first_without_dir(old(self)@, k) && r
                == Err::<(), TenantError>(
                TenantError::Io {
                    timeline_id: old(self)@.timelines[k].timeline_id,
                    kind: FsErrorKind::NotFound,
                },
            ) && forall|j: int| k <= j < old(self)@.timelines.len()
                ==> #[trigger] final(self)@.timelines[j] == old(self)@.timelines[j],
    {
        self.check_active()?;
        let n = self.timelines.len();
        let mut i: usize = 0;
        while i < n
            invariant
                active_check(old(self)@.state) is Ok,
                self@.wf(),
                n == self@.timelines.len(),
                i <= n,
                self@.ids() == old(self)@.ids(),
                self@.state == old(self)@.state,
                forall|x: TimelineId| self@.dir.has_dir(x) == old(self)@.dir.has_dir(x),
                forall|k: int| 0 <= k < n
                    ==> same_identity(#[trigger] self@.timelines[k], old(self)@.timelines[k])
                    && self@.timelines[k].last_record_lsn
                        == old(self)@.timelines[k].last_record_lsn,
                forall|k: int| 0 <= k < i ==> {
                    let o = old(self)@.timelines[k];
                    let t = #[trigger] self@.timelines[k];
                    &&& t.disk_consistent_lsn == o.last_record_lsn
                    &&& self@.dir.metadata_of(o.timeline_id)
                        == Some(metadata_bytes(metadata_of_timeline(t)))
                },
                forall|k: int| 0 <= k < i
                    ==> old(self)@.dir.has_dir(#[trigger] old(self)@.timelines[k].timeline_id),
                forall|k: int| i <= k < n
                    ==> #[trigger] self@.timelines[k] == old(self)@.timelines[k],
            decreases n - i,
        {
            let ghost before = self@;
            let r = self.checkpoint_at(i);
            proof {
                assert(self@.ids()[i as int] == old(self)@.timelines[i as int].timeline_id);
                assert(before.timelines[i as int].timeline_id
                    == old(self)@.timelines[i as int].timeline_id);
            }
            if r.is_err() {
                proof {
                    assert(!old(self)@.dir.has_dir(old(self)@.timelines[i as int].timeline_id));
                    assert(first_without_dir(old(self)@, i as int));
                }
                return r;
            }
            proof {
                assert forall|k: int| 0 <= k < i implies {
                    let o = old(self)@.timelines[k];
                    let t = #[trigger] self@.timelines[k];
                    &&& t.disk_consistent_lsn == o.last_record_lsn
                    &&& self@.dir.metadata_of(o.timeline_id)
                        == Some(metadata_bytes(metadata_of_timeline(t)))
                } by {
                    assert(self@.timelines[k] == before.timelines[k]);
                    assert(self@.ids()[k] != self@.ids()[i as int]);
                }
            }
            i = i + 1;
        }
        Ok(())
    }

    /// The active timelines, in map order: those that a compaction pass works on.
    pub fn compaction_iteration(&self) -> (r: Result<Vec<TimelineId>, TenantError>)
        requires
            self@.wf(),
        ensures
            active_check(self@.state) is Err
                ==> r == Err::<Vec<TimelineId>, TenantError>(active_check(self@.state)->Err_0),
            active_check(self@.state) is Ok
                ==> r is Ok && r.unwrap()@ == active_ids(self@.timelines),
    {
        self.check_active()?;
        let mut r: Vec<TimelineId> = Vec::new();
        let mut i: usize = 0;
        while i < self.timelines.len()
            invariant
                i <= self.timelines@.len(),
                r@ == active_ids(self.timelines@.subrange(0, i as int)),
            decreases self.timelines@.len() - i,
        {
            proof {
                assert(self.timelines@.subrange(0,
                    i + 1).drop_last() =~= self.timelines@.subrange(0, i as int));
            }
            if self.timelines[i].is_active() {
                r.push(self.timelines[i].timeline_id);
            }
            i = i + 1;
        }
        proof {
            assert(self.timelines@.subrange(0, i as int) =~= self.timelines@);
        }
        Ok(r)
    }

    /// Deletes timeline `timeline_id`: its directory, then its entry in the map. Refuses while
    /// some timeline has it as ancestor, touching nothing. A directory that is already gone is
    /// no error, so that a retry after a partial failure completes.
    pub fn delete_timeline(&mut self, timeline_id: TimelineId) -> (r: Result<(), TenantError>)
        requires
            old(self)@.wf(),
        ensures
            final(self)@.wf(),
            final(self)@.state == old(self)@.state,
            old(self)@.has_children(timeline_id)
                ==> r == Err::<(), TenantError>(TenantError::HasChildren { timeline_id })
                && final(self)@ == old(self)@,
            !old(self)@.has_children(timeline_id) && !old(self)@.has_timeline(timeline_id)
                ==> r == Err::<(), TenantError>(TenantError::TimelineNotFound { timeline_id })
                && final(self)@ == old(self)@,
            !old(self)@.has_children(timeline_id) && old(self)@.has_timeline(timeline_id) ==> {
                &&& r is Ok
                &&& final(self)@.timelines
                    == old(self)@.timelines.remove(old(self)@.ids().index_of(timeline_id))
                &&& !final(self)@.has_timeline(timeline_id)
                &&& !final(self)@.dir.has_dir(timeline_id)
                &&& final(self)@.dir.same_dirs_except(old(self)@.dir, timeline_id)
                &&& final(self)@.dir.marks == old(self)@.dir.marks
            },
    {
        let mut k: usize = 0;
        while k < self.timelines.len()
            invariant
                k <= self.timelines@.len(),
                forall|j: int| 0 <= j < k
                    ==> self.timelines@[j].ancestor_timeline != Some(timeline_id),
                self@ == old(self)@,
                old(self)@.wf(),
            decreases self.timelines@.len() - k,
        {
            if self.timelines[k].ancestor_timeline == Some(timeline_id) {
                assert(self@.timelines[k as int].ancestor_timeline == Some(timeline_id));
                return Err(TenantError::HasChildren { timeline_id });
            }
            k = k + 1;
        }
        let i = match self.find(timeline_id) {
            Some(i) => i,
            None => return Err(TenantError::TimelineNotFound { timeline_id }),
        };
        proof {
            self.lemma_index(i as int);
        }
        let _ = ignore_absent_files(self.dir.remove_dir_all(timeline_id));
        let ghost before = self.timelines@;
        self.timelines.remove(i);
        proof {
            let tl = self.timelines@;
            let o = old(self)@;
            assert(tl_ids(tl) =~= tl_ids(before).remove(i as int));
            crate::storage::lemma_remove_facts(tl_ids(before), i as int);
            assert forall|q: int| #![trigger tl[q]] 0 <= q < tl.len()
                && tl[q].state != TimelineState::Broken
                implies self.dir@.has_dir(tl[q].timeline_id)
                && !self.dir@.has_mark(tl[q].timeline_id) by {
                let q2 = if q < i { q } else { q + 1 };
                assert(before[q2] == tl[q]);
                assert(o.timelines[q2] == tl[q]);
                assert(tl_ids(before)[q2] == tl[q].timeline_id);
                assert(tl_ids(before)[i as int] == timeline_id);
            }
            assert forall|q: int| #![trigger tl[q]] 0 <= q < tl.len()
                && tl[q].ancestor_timeline is Some
                implies tl_ids(tl).contains(tl[q].ancestor_timeline.unwrap())
                && tl_ids(tl).index_of(tl[q].ancestor_timeline.unwrap()) < q by {
                let q2 = if q < i { q } else { q + 1 };
                assert(before[q2] == tl[q]);
                let a = tl[q].ancestor_timeline.unwrap();
                assert(a != timeline_id);
                assert(tl_ids(before)[i as int] == timeline_id);
            }
        }
        Ok(())
    }

    /// One garbage collection pass. For each active timeline (only `target`, if given) whose
    /// last record lies at least `horizon` bytes in, records the branch points of its active
    /// children, the cutoff `horizon` bytes behind its last record and the `pitr` window, then,
    /// after a flush if `checkpoint_before_gc`, moves its latest GC cutoff forward to what that
    /// plan allows. No stored version is removed: reads at every LSN stay as they were.
    pub fn gc_iteration(
        &mut self,
        target_timeline_id: Option<TimelineId>,
        horizon: u64,
        pitr: u64,
        checkpoint_before_gc: bool,
    ) -> (r: Result<GcResult, TenantError>)
        requires
            old(self)@.wf(),
        ensures
            final(self)@.wf(),
            final(self)@.state == old(self)@.state,
            final(self)@.ids() == old(self)@.ids(),
            forall|x: TimelineId| final(self)@.dir.has_dir(x) == old(self)@.dir.has_dir(x),
            forall|x: TimelineId| final(self)@.dir.has_mark(x) == old(self)@.dir.has_mark(x),
            !checkpoint_before_gc ==> final(self)@.dir == old(self)@.dir,
            active_check(old(self)@.state) is Err
                ==> r == Err::<GcResult,
                TenantError>(active_check(old(self)@.state)->Err_0)
                && final(self)@ == old(self)@,
            active_check(old(self)@.state) is Ok && target_timeline_id is Some
                && !old(self)@.has_timeline(target_timeline_id.unwrap())
                ==> r == Err::<GcResult,
                TenantError>(TenantError::TimelineNotFound { timeline_id:
                target_timeline_id.unwrap() }) && final(self)@ == old(self)@,
            active_check(old(self)@.state) is Ok && !(target_timeline_id is Some
                && !old(self)@.has_timeline(target_timeline_id.unwrap())) ==> {
                &&& r is Ok
                &&& r.unwrap().versions_removed == 0
                &&& r.unwrap().timelines_collected == moved_cutoffs(old(self)@.timelines,
                    final(self)@.timelines)
                &&& final(self)@.timelines.len() == old(self)@.timelines.len()
                &&& forall|k: int| 0 <= k < old(self)@.timelines.len()
                    ==> gc_done_at(old(self)@.timelines, k, #[trigger] final(self)@.timelines[k],
                    target_timeline_id, horizon, pitr, checkpoint_before_gc)
            },
    {
        self.check_active()?;
        if let Some(t) = target_timeline_id {
            if self.find(t).is_none() {
                return Err(TenantError::TimelineNotFound { timeline_id: t });
            }
        }
        let mut totals = GcResult { timelines_collected: 0, versions_removed: 0 };
        let n = self.timelines.len();
        let mut i: usize = 0;
        while i < n
            invariant
                old(self)@.wf(),
                self@.wf(),
                n == self@.timelines.len(),
                n == old(self)@.timelines.len(),
                i <= n,
                self@.state == old(self)@.state,
                self@.ids() == old(self)@.ids(),
                forall|x: TimelineId| self@.dir.has_dir(x) == old(self)@.dir.has_dir(x),
                forall|x: TimelineId| self@.dir.has_mark(x) == old(self)@.dir.has_mark(x),
                !checkpoint_before_gc ==> self@.dir == old(self)@.dir,
                totals.versions_removed == 0,
                totals.timelines_collected <= i,
                totals.timelines_collected == moved_cutoffs(
                    old(self)@.timelines.subrange(0, i as int),
                    self@.timelines.subrange(0, i as int),
                ),
                forall|k: int| 0 <= k < n
                    ==> same_identity(#[trigger] self@.timelines[k], old(self)@.timelines[k]),
                forall|k: int| 0 <= k < i
                    ==> gc_done_at(old(self)@.timelines, k, #[trigger] self@.timelines[k],
                    target_timeline_id, horizon, pitr, checkpoint_before_gc),
                forall|k: int| i <= k < n
                    ==> #[trigger] self@.timelines[k] == old(self)@.timelines[k],
            decreases n - i,
        {
            let candidate = {
                let t = &self.timelines[i];
                t.is_active() && match target_timeline_id {
                    Some(x) => x == t.timeline_id,
                    None => true,
                } && t.last_record_lsn.0 >= horizon
            };
            let ghost at_start = self@.timelines;
            proof {
                assert(self@.timelines[i as int] == old(self)@.timelines[i as int]);
            }
            if candidate {
                let id = self.timelines[i].timeline_id;
                let branchpoints = collect_branchpoints(&self.timelines, id);
                proof {
                    lemma_branchpoints_same(self@.timelines, old(self)@.timelines, id);
                    lemma_min_lsn_same_values(branchpoints@, branchpoints_of(old(self)@.timelines, id));
                }
                let cutoff = Lsn(self.timelines[i].last_record_lsn.0 - horizon);
                let ghost before = self@;
                let mut t = self.timelines.remove(i);
                t.update_gc_info(branchpoints, cutoff, pitr);
                self.timelines.insert(i, t);
                proof {
                    assert(self.timelines@ =~= before.timelines.update(i as int, t));
                    Self::lemma_replace_keeps_wf(before, self@);
                }
                if checkpoint_before_gc {
                    proof {
                        self.lemma_index(i as int);
                        assert(self@.timelines[i as int].state == TimelineState::Active);
                    }
                    let _ = self.checkpoint_at(i);
                }
                let ghost before_gc = self@;
                let mut t = self.timelines.remove(i);
                let r = t.gc();
                self.timelines.insert(i, t);
                proof {
                    assert(self.timelines@ =~= before_gc.timelines.update(i as int, t));
                    Self::lemma_replace_keeps_wf(before_gc, self@);
                    assert forall|k: int| 0 <= k < n && k != i
                        implies #[trigger] self@.timelines[k] == before.timelines[k] by {
                        assert(self@.timelines[k] == before_gc.timelines[k]);
                    }
                    assert(gc_done_at(old(self)@.timelines, i as int, self@.timelines[i as int],
                        target_timeline_id, horizon, pitr, checkpoint_before_gc));
                }
                totals.timelines_collected = totals.timelines_collected + r.timelines_collected;
            }
            proof {
                let o = old(self)@.timelines;
                let c = self@.timelines;
                assert(c.subrange(0, i as int) =~= at_start.subrange(0, i as int)) by {
                    assert forall|k: int| 0 <= k < i implies c[k] == at_start[k] by {}
                }
                assert(o.subrange(0, i + 1).drop_last() =~= o.subrange(0, i as int));
                assert(c.subrange(0, i + 1).drop_last() =~= c.subrange(0, i as int));
            }
            i = i + 1;
        }
        proof {
            assert(old(self)@.timelines.subrange(0, n as int) =~= old(self)@.timelines);
            assert(self@.timelines.subrange(0, n as int) =~= self@.timelines);
        }
        Ok(totals)
    }

    /// Loads persisted timelines into the map, ancestors first (see `tree_sort_timelines`).
    /// Timelines already in the map are skipped. A timeline whose directory is missing or
    /// still carries an uninit mark is inserted as `Broken` instead of failing the whole load.
    /// Fails, with the orphans, when no ancestor-first order of the input exists.
    pub fn init_attach_timelines(&mut self, timelines: Vec<TimelineEntry>) -> (r: Result<(),
        TenantError>)
        requires
            old(self)@.wf(),
            entry_ids(timelines@).no_duplicates(),
        ensures
            final(self)@.wf(),
            final(self)@.dir == old(self)@.dir,
            final(self)@.state == old(self)@.state,
            final(self)@.tenant_id == old(self)@.tenant_id,
            final(self)@.conf == old(self)@.conf,
            final(self)@.tenant_conf == old(self)@.tenant_conf,
            r is Err ==> r->Err_0 is OrphanTimelines && final(self)@ == old(self)@
                && forall|order: Seq<TimelineEntry>| same_entries(order, timelines@)
                    ==> !parent_first(order),
            r is Ok ==> attached(old(self)@, final(self)@, timelines@),
    {
        let sorted = match tree_sort_timelines(timelines) {
            Ok(s) => s,
            Err(e) => {
                return Err(e);
            },
        };
        let ghost input = timelines@;
        let mut k: usize = 0;
        while k < sorted.len()
            invariant
                old(self)@.wf(),
                self@.wf(),
                k <= sorted@.len(),
                same_entries(sorted@, input),
                parent_first(sorted@),
                self@.dir == old(self)@.dir,
                self@.state == old(self)@.state,
                self@.tenant_id == old(self)@.tenant_id,
                self@.conf == old(self)@.conf,
                self@.tenant_conf == old(self)@.tenant_conf,
                old(self)@.timelines.len() <= self@.timelines.len(),
                self@.timelines.subrange(0,
                    old(self)@.timelines.len() as int) == old(self)@.timelines,
                forall|j: int| 0 <= j < k ==> self@.has_timeline(#[trigger] sorted@[j].0),
                forall|x: TimelineId| old(self)@.has_timeline(x) ==> self@.has_timeline(x),
                forall|q: int| old(self)@.timelines.len() <= q < self@.timelines.len()
                    ==> appended_from(old(self)@.dir, #[trigger] self@.timelines[q], input),
            decreases sorted@.len() - k,
        {
            let (id, metadata) = sorted[k];
            proof {
                assert(sorted@[k as int] == (id, metadata));
            }
            if self.find(id).is_some() {
                k = k + 1;
                continue;
            }
            if let Some(a) = metadata.ancestor_timeline {
                proof {
                    let j = choose|j: int| 0 <= j < k && sorted@[j].0 == a;
                    assert(self@.has_timeline(sorted@[j].0));
                }
                if self.find(a).is_none() {
                    return Err(TenantError::TimelineNotFound { timeline_id: a });
                }
            }
            let ghost before = self@;
            let new_timeline = Timeline::new(id, &metadata);
            let u = UninitializedTimeline {
                timeline_id: id,
                raw_timeline: Some((new_timeline, TimelineUninitMark::dummy())),
            };
            let r = u.initialize(self);
            if r.is_err() {
                let mut broken = Timeline::new(id, &metadata);
                broken.state = TimelineState::Broken;
                let ghost mid = self.timelines@;
                self.timelines.push(broken);
                proof {
                    let after = self.timelines@;
                    assert(mid == before.timelines);
                    assert(tl_ids(after) =~= tl_ids(mid).push(id));
                    crate::storage::lemma_push_no_dup(tl_ids(mid), id);
                    assert forall|i: int| #![trigger after[i]] 0 <= i < after.len()
                        && after[i].ancestor_timeline is Some
                        implies tl_ids(after).contains(after[i].ancestor_timeline.unwrap())
                        && tl_ids(after).index_of(after[i].ancestor_timeline.unwrap()) < i by {
                        let a = after[i].ancestor_timeline.unwrap();
                        if i < mid.len() {
                            assert(mid[i] == after[i]);
                        }
                        crate::storage::lemma_index_of_push(tl_ids(mid), id, a);
                    }
                    assert forall|i: int| #![trigger after[i]] 0 <= i < after.len()
                        && after[i].state != TimelineState::Broken
                        implies self.dir@.has_dir(after[i].timeline_id)
                        && !self.dir@.has_mark(after[i].timeline_id) by {
                        assert(i < mid.len());
                        assert(mid[i] == after[i]);
                        assert(before.timelines[i] == after[i]);
                    }
                }
            }
            proof {
                let n = self@.timelines;
                let o_len = old(self)@.timelines.len() as int;
                assert(n.len() == before.timelines.len() + 1);
                assert(n.subrange(0, before.timelines.len() as int) =~= before.timelines);
                assert(n.subrange(0, o_len) =~= before.timelines.subrange(0, o_len));
                assert(input.contains(sorted@[k as int]));
                let last = n[n.len() - 1];
                assert(tl_ids(n)[n.len() - 1] == id);
                assert(self@.has_timeline(id));
                assert forall|j: int| 0 <= j < k + 1
                    implies self@.has_timeline(#[trigger] sorted@[j].0) by {
                    if j < k {
                        let x = sorted@[j].0;
                        let m = before.ids().index_of(x);
                        assert(n[m] == before.timelines[m]);
                        assert(tl_ids(n)[m] == x);
                    }
                }
                assert forall|x: TimelineId| old(self)@.has_timeline(x)
                    implies self@.has_timeline(x) by {
                    let m = before.ids().index_of(x);
                    assert(n[m] == before.timelines[m]);
                    assert(tl_ids(n)[m] == x);
                }
                assert forall|q: int| o_len <= q < n.len()
                    implies appended_from(old(self)@.dir, #[trigger] n[q], input) by {
                    if q < n.len() - 1 {
                        assert(n[q] == before.timelines[q]);
                    } else {
                        let i0 = input.index_of(sorted@[k as int]);
                        assert(input[i0] == (id, metadata));
                    }
                }
            }
            k = k + 1;
        }
        proof {
            assert forall|i: int| 0 <= i < input.len()
                implies final_has(self@, #[trigger] input[i].0) by {
                assert(sorted@.contains(input[i]));
                let j = sorted@.index_of(input[i]);
                assert(self@.has_timeline(sorted@[j].0));
            }
        }
        Ok(())
    }

    /// Loads a tenant after a restart: removes every timeline that an uninit mark shows as
    /// uncommitted (its directory, then its mark), reads the metadata of the remaining
    /// timelines, and loads them ancestors first. The tenant comes back paused.
    pub fn load(
        conf: TenantConf,
        tenant_conf: TenantConfOpt,
        tenant_id: TenantId,
        dir: TimelinesDir,
    ) -> (r: Result<Tenant, TenantError>)
        requires
            dir@.wf(),
        ensures
            match r {
                Ok(t) => {
                    &&& t@.wf()
                    &&& t@.state == TenantState::Paused
                    &&& t@.tenant_id == tenant_id
                    &&& t@.dir.marks.len() == 0
                    &&& forall|x: TimelineId| #[trigger] t@.dir.has_dir(x) == (dir@.has_dir(x)
                        && !dir@.has_mark(x))
                    &&& forall|x: TimelineId| #[trigger] t@.has_timeline(x) == (dir@.has_dir(x)
                        && !dir@.has_mark(x))
                    &&& forall|i: int| 0 <= i < t@.timelines.len()
                        ==> (#[trigger] t@.timelines[i]).state == TimelineState::Active
                },
                Err(e) => (e is OrphanTimelines && forall|order: Seq<TimelineEntry>|
                    lists_loadable(dir@, order) ==> !parent_first(order))
                    || exists|x: TimelineId| #[trigger] dir@.has_dir(x) && !dir@.has_mark(x)
                    && match dir@.metadata_of(x) {
                    Some(b) => parse_metadata(b) == Err::<TimelineMetadata, TenantError>(e),
                    None => e == TenantError::Io { timeline_id: x, kind: FsErrorKind::NotFound },
                },
            },
    {
        let ghost original = dir@;
        let mut dir = dir;
        dir.remove_uninit_timelines();
        let entries = match dir.load_timelines_metadata() {
            Ok(v) => v,
            Err(e) => {
                proof {
                    let x = choose|x: TimelineId| #[trigger] dir@.has_dir(x)
                        && match dir@.metadata_of(x) {
                        Some(b) => parse_metadata(b) == Err::<TimelineMetadata, TenantError>(e),
                        None => e == TenantError::Io { timeline_id: x,
                            kind: FsErrorKind::NotFound },
                    };
                    assert(original.has_dir(x) && !original.has_mark(x));
                }
                return Err(e);
            },
        };
        let mut tenant = Tenant::new(conf, tenant_conf, tenant_id, dir);
        proof {
            assert(entry_ids(entries@) == tenant@.dir.dir_ids());
        }
        let ghost cleaned = tenant@.dir;
        match tenant.init_attach_timelines(entries) {
            Ok(()) => {},
            Err(e) => {
                proof {
                    assert forall|order: Seq<TimelineEntry>|
                        lists_loadable(original, order) implies same_entries(order, entries@) by {
                        lemma_loadable_same_entries(original, cleaned, entries@, order);
                    }
                }
                return Err(e);
            },
        }
        proof {
            let t = tenant@;
            let d = t.dir;
            assert forall|x: TimelineId| #[trigger] t.has_timeline(x) == (dir@.has_dir(x)
                && !dir@.has_mark(x)) by {
                if d.has_dir(x) {
                    let k = d.dir_ids().index_of(x);
                    assert(entry_ids(entries@)[k] == x);
                    assert(final_has(t, entries@[k].0));
                }
                if t.has_timeline(x) {
                    let q = t.ids().index_of(x);
                    assert(t.timelines[q].timeline_id == x);
                    assert(appended_from(d, t.timelines[q], entries@));
                    let i0 = choose|i0: int| 0 <= i0 < entries@.len() && entries@[i0].0 == x;
                    assert(entry_ids(entries@)[i0] == x);
                }
            }
            assert forall|i: int| 0 <= i < t.timelines.len()
                implies (#[trigger] t.timelines[i]).state == TimelineState::Active by {
                assert(appended_from(d, t.timelines[i], entries@));
                let x = t.timelines[i].timeline_id;
                let i0 = choose|i0: int| 0 <= i0 < entries@.len() && entries@[i0].0 == x;
                assert(entry_ids(entries@)[i0] == x);
            }
        }
        Ok(tenant)
    }

    /// Creates a root timeline from a freshly initialized data directory whose control file
    /// gives `pgdata_lsn`: its initdb LSN, GC cutoff, last record and disk-consistent LSN are
    /// all `pgdata_lsn` aligned. The caller runs the initializer and reads the control file.
    pub fn bootstrap_timeline(&mut self, timeline_id: TimelineId, pg_version: u32,
        pgdata_lsn: Lsn) -> (r: Result<(), TenantError>)
        requires
            old(self)@.wf(),
            pgdata_lsn.0 <= u64::MAX - 7,
        ensures
            final(self)@.wf(),
            bootstrapped(old(self)@, final(self)@, timeline_id, pg_version, pgdata_lsn, r),
    {
        let uninit_mark = self.create_timeline_uninit_mark(timeline_id)?;
        let ghost marked = self@;
        let lsn = pgdata_lsn.align();
        let new_metadata = TimelineMetadata::new(Lsn(0), None, None, Lsn(0), lsn, lsn, pg_version);
        let raw = self.prepare_timeline(timeline_id, new_metadata, uninit_mark)?;
        let ghost prepared_view = self@;
        let (mut t, mark) = match raw.raw_timeline {
            Some(p) => p,
            None => {
                return Err(TenantError::TimelineNotFound { timeline_id });
            },
        };
        let _ = t.finish_write(lsn);
        t.disk_consistent_lsn = t.last_record_lsn;
        let bytes = t.metadata().to_bytes();
        let _ = self.dir.write_metadata(timeline_id, bytes);
        let ghost written = self@;
        proof {
            let tl = self.timelines@;
            assert forall|k: int| #![trigger tl[k]] 0 <= k < tl.len()
                && tl[k].state != TimelineState::Broken
                implies self.dir@.has_dir(tl[k].timeline_id)
                && !self.dir@.has_mark(tl[k].timeline_id) by {
                assert(prepared_view.timelines[k] == tl[k]);
            }
        }
        let u = UninitializedTimeline { timeline_id, raw_timeline: Some((t, mark)) };
        let r = u.initialize(self);
        proof {
            lemma_mark_pushed_then_removed(old(self)@.dir, marked.dir, written.dir, self.dir@,
                timeline_id);
            assert(self@.timelines.drop_last() =~= old(self)@.timelines);
        }
        r
    }

    /// Creates timeline `new_timeline_id`: a branch of `ancestor_timeline_id` at
    /// `ancestor_start_lsn` aligned (see `branch_timeline`), or, with no ancestor, a root
    /// timeline bootstrapped at `pgdata_lsn` (see `bootstrap_timeline`). Returns `None` when the
    /// timeline already exists. On success the tenant is activated with background loops.
    pub fn create_timeline(
        &mut self,
        new_timeline_id: TimelineId,
        ancestor_timeline_id: Option<TimelineId>,
        ancestor_start_lsn: Option<Lsn>,
        pg_version: u32,
        pgdata_lsn: Lsn,
    ) -> (r: Result<Option<TimelineId>, TenantError>)
        requires
            old(self)@.wf(),
            pgdata_lsn.0 <= u64::MAX - 7,
            ancestor_start_lsn is Some ==> ancestor_start_lsn.unwrap().0 <= u64::MAX - 7,
        ensures
            final(self)@.wf(),
            active_check(old(self)@.state) is Err
                ==> r == Err::<Option<TimelineId>,
                TenantError>(active_check(old(self)@.state)->Err_0)
                && final(self)@ == old(self)@,
            active_check(old(self)@.state) is Ok && old(self)@.has_timeline(new_timeline_id)
                ==> r == Ok::<Option<TimelineId>, TenantError>(None) && final(self)@ == old(self)@,
            active_check(old(self)@.state) is Ok && !old(self)@.has_timeline(new_timeline_id)
                ==> match ancestor_timeline_id {
                Some(a) => if !old(self)@.has_timeline(a) {
                    r == Err::<Option<TimelineId>,
                        TenantError>(TenantError::TimelineNotFound { timeline_id: a })
                        && final(self)@ == old(self)@
                } else {
                    exists|mid: TenantView, rb: Result<(), TenantError>| {
                        &&& #[trigger] branched(old(self)@, mid, a, new_timeline_id,
                            aligned(ancestor_start_lsn), rb)
                        &&& created_then(mid, final(self)@, new_timeline_id, rb, r)
                    }
                },
                None => exists|mid: TenantView, rb: Result<(), TenantError>| {
                    &&& #[trigger] bootstrapped(old(self)@, mid, new_timeline_id, pg_version,
                        pgdata_lsn, rb)
                    &&& created_then(mid, final(self)@, new_timeline_id, rb, r)
                },
            },
    {
        self.check_active()?;
        if self.find(new_timeline_id).is_some() {
            return Ok(None);
        }
        let rb = match ancestor_timeline_id {
            Some(a) => {
                if self.find(a).is_none() {
                    return Err(TenantError::TimelineNotFound { timeline_id: a });
                }
                let start = match ancestor_start_lsn {
                    Some(l) => Some(l.align()),
                    None => None,
                };
                self.branch_timeline(a, new_timeline_id, start)
            },
            None => self.bootstrap_timeline(new_timeline_id, pg_version, pgdata_lsn),
        };
        let ghost mid = self@;
        match rb {
            Ok(()) => {},
            Err(e) => {
                return Err(e);
            },
        }
        self.activate(true);
        proof {
            assert(self@.ids() == mid.ids());
        }
        Ok(Some(new_timeline_id))
    }

    pub fn get_checkpoint_distance(&self) -> (r: u64)
        ensures
            r == resolve(self@.tenant_conf.checkpoint_distance, self@.conf.checkpoint_distance),
    {
        resolve_u64(self.tenant_conf.checkpoint_distance, self.conf.checkpoint_distance)
    }

    pub fn get_checkpoint_timeout(&self) -> (r: u64)
        ensures
            r == resolve(self@.tenant_conf.checkpoint_timeout, self@.conf.checkpoint_timeout),
    {
        resolve_u64(self.tenant_conf.checkpoint_timeout, self.conf.checkpoint_timeout)
    }

    pub fn get_compaction_target_size(&self) -> (r: u64)
        ensures
            r == resolve(
                self@.tenant_conf.compaction_target_size,
                self@.conf.compaction_target_size,
            ),
    {
        resolve_u64(self.tenant_conf.compaction_target_size, self.conf.compaction_target_size)
    }

    pub fn get_compaction_period(&self) -> (r: u64)
        ensures
            r == resolve(self@.tenant_conf.compaction_period, self@.conf.compaction_period),
    {
        resolve_u64(self.tenant_conf.compaction_period, self.conf.compaction_period)
    }

    pub fn get_compaction_threshold(&self) -> (r: usize)
        ensures
            r == resolve(self@.tenant_conf.compaction_threshold, self@.conf.compaction_threshold),
    {
        resolve_usize(self.tenant_conf.compaction_threshold, self.conf.compaction_threshold)
    }

    pub fn get_gc_horizon(&self) -> (r: u64)
        ensures
            r == resolve(self@.tenant_conf.gc_horizon, self@.conf.gc_horizon),
    {
        resolve_u64(self.tenant_conf.gc_horizon, self.conf.gc_horizon)
    }

    pub fn get_gc_period(&self) -> (r: u64)
        ensures
            r == resolve(self@.tenant_conf.gc_period, self@.conf.gc_period),
    {
        resolve_u64(self.tenant_conf.gc_period, self.conf.gc_period)
    }

    pub fn get_image_creation_threshold(&self) -> (r: usize)
        ensures
            r == resolve(
                self@.tenant_conf.image_creation_threshold,
                self@.conf.image_creation_threshold,
            ),
    {
        resolve_usize(self.tenant_conf.image_creation_threshold, self.conf.image_creation_threshold)
    }

    pub fn get_pitr_interval(&self) -> (r: u64)
        ensures
            r == resolve(self@.tenant_conf.pitr_interval, self@.conf.pitr_interval),
    {
        resolve_u64(self.tenant_conf.pitr_interval, self.conf.pitr_interval)
    }

    /// Takes over the knobs that `new_tenant_conf` sets.
    pub fn update_tenant_config(&mut self, new_tenant_conf: &TenantConfOpt)
        requires
            old(self)@.wf(),
        ensures
            final(self)@ == (TenantView {
                tenant_conf: crate::config::merged(old(self)@.tenant_conf, *new_tenant_conf),
                ..old(self)@
            }),
    {
        self.tenant_conf.update(new_tenant_conf);
    }
}

} // verus!
