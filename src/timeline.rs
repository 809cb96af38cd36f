use vstd::prelude::*;
use crate::error::TenantError;
use crate::id::TimelineId;
use crate::key::Key;
use crate::lsn::Lsn;
use crate::metadata::TimelineMetadata;
use crate::state::TimelineState;

verus! {

/// One stored version of a page: its key, the LSN it was written at, and its bytes.
pub struct PageVersion {
    pub key: Key,
    pub lsn: Lsn,
    pub value: Vec<u8>,
}

/// The bytes that a read of `key` at `lsn` finds among `vs`: the last stored version of the key
/// at or below `lsn`.
pub open spec fn read_versions(vs: Seq<PageVersion>, key: Key, lsn: u64) -> Option<Seq<u8>>
    decreases vs.len(),
{
    if vs.len() == 0 {
        None
    } else {
        let v = vs.last();
        if v.key == key && v.lsn.0 <= lsn {
            Some(v.value@)
        } else {
            read_versions(vs.drop_last(), key, lsn)
        }
    }
}

pub open spec fn opt_bytes(o: Option<Vec<u8>>) -> Option<Seq<u8>> {
    match o {
        Some(v) => Some(v@),
        None => None,
    }
}

/// What the next garbage collection of a timeline must keep.
pub struct GcInfo {
    /// LSNs at which children were branched off: kept readable.
    pub retain_lsns: Vec<Lsn>,
    /// `last_record_lsn` minus the GC horizon.
    pub horizon_cutoff: Lsn,
    /// The cutoff that the point-in-time-recovery window allows.
    pub pitr_cutoff: Lsn,
}

/// Totals of a garbage collection pass.
#[derive(Clone, Copy, Debug, PartialEq, Eq, Structural, Default)]
pub struct GcResult {
    /// Timelines whose GC cutoff moved forward.
    pub timelines_collected: u64,
    /// Page versions removed.
    pub versions_removed: u64,
}

/// The smallest of `retain`, or `u64::MAX` when it is empty.
pub open spec fn min_lsn(retain: Seq<Lsn>) -> u64
    decreases retain.len(),
{
    if retain.len() == 0 {
        u64::MAX
    } else {
        let rest = min_lsn(retain.drop_last());
        if retain.last().0 < rest {
            retain.last().0
        } else {
            rest
        }
    }
}

/// The GC cutoff that a pass plans: the smaller of the horizon and pitr cutoffs, and never
/// past a branch point in `retain`.
pub open spec fn planned_cutoff_of(retain: Seq<Lsn>, horizon_cutoff: u64, pitr_cutoff: u64) -> u64 {
    let c = if horizon_cutoff <= pitr_cutoff {
        horizon_cutoff
    } else {
        pitr_cutoff
    };
    let m = min_lsn(retain);
    if c <= m {
        c
    } else {
        m
    }
}

/// The GC cutoff that a pass with `info` plans.
pub open spec fn planned_gc_cutoff(info: GcInfo) -> u64 {
    planned_cutoff_of(info.retain_lsns@, info.horizon_cutoff.0, info.pitr_cutoff.0)
}

/// The smallest of a sequence is at most each of its elements.
pub proof fn lemma_min_lsn_le(retain: Seq<Lsn>, k: int)
    requires
        0 <= k < retain.len(),
    ensures
        min_lsn(retain) <= retain[k].0,
    decreases retain.len(),
{
    if k < retain.len() - 1 {
        lemma_min_lsn_le(retain.drop_last(), k);
    }
}

/// A timeline: a linear history of page versions with an optional ancestor.
pub struct Timeline {
    pub timeline_id: TimelineId,
    pub state: TimelineState,
    pub ancestor_timeline: Option<TimelineId>,
    pub ancestor_lsn: Lsn,
    pub disk_consistent_lsn: Lsn,
    pub last_record_lsn: Lsn,
    pub prev_record_lsn: Lsn,
    pub latest_gc_cutoff_lsn: Lsn,
    pub initdb_lsn: Lsn,
    pub pg_version: u32,
    pub gc_info: GcInfo,
    /// Versions in the order they were written.
    pub versions: Vec<PageVersion>,
}

/// A timeline freshly built from `m`: suspended, holding no versions.
pub open spec fn fresh_timeline(t: Timeline, id: TimelineId, m: TimelineMetadata) -> bool {
    &&& t.timeline_id == id
    &&& t.state == TimelineState::Suspended
    &&& t.ancestor_timeline == m.ancestor_timeline
    &&& t.ancestor_lsn == m.ancestor_lsn
    &&& t.disk_consistent_lsn == m.disk_consistent_lsn
    &&& t.last_record_lsn == m.disk_consistent_lsn
    &&& t.prev_record_lsn == match m.prev_record_lsn {
        Some(l) => l,
        None => Lsn(0),
    }
    &&& t.latest_gc_cutoff_lsn == m.latest_gc_cutoff_lsn
    &&& t.initdb_lsn == m.initdb_lsn
    &&& t.pg_version == m.pg_version
    &&& t.gc_info.retain_lsns@.len() == 0
    &&& t.gc_info.horizon_cutoff == Lsn(0)
    &&& t.gc_info.pitr_cutoff == Lsn(0)
    &&& t.versions@.len() == 0
}

/// The metadata that describes `t`.
pub open spec fn metadata_of_timeline(t: Timeline) -> TimelineMetadata {
    TimelineMetadata {
        disk_consistent_lsn: t.disk_consistent_lsn,
        prev_record_lsn: if t.prev_record_lsn.0 == 0 {
            None
        } else {
            Some(t.prev_record_lsn)
        },
        ancestor_timeline: t.ancestor_timeline,
        ancestor_lsn: t.ancestor_lsn,
        latest_gc_cutoff_lsn: t.latest_gc_cutoff_lsn,
        initdb_lsn: t.initdb_lsn,
        pg_version: t.pg_version,
    }
}

impl Timeline {
    /// A suspended timeline built from its metadata, holding no versions yet.
    pub fn new(timeline_id: TimelineId, metadata: &TimelineMetadata) -> (r: Timeline)
        ensures
            fresh_timeline(r, timeline_id, *metadata),
    {
        Timeline {
            timeline_id,
            state: TimelineState::Suspended,
            ancestor_timeline: metadata.ancestor_timeline,
            ancestor_lsn: metadata.ancestor_lsn,
            disk_consistent_lsn: metadata.disk_consistent_lsn,
            last_record_lsn: metadata.disk_consistent_lsn,
            prev_record_lsn: match metadata.prev_record_lsn {
                Some(l) => l,
                None => Lsn(0),
            },
            latest_gc_cutoff_lsn: metadata.latest_gc_cutoff_lsn,
            initdb_lsn: metadata.initdb_lsn,
            pg_version: metadata.pg_version,
            gc_info: GcInfo { retain_lsns: Vec::new(), horizon_cutoff: Lsn(0),
                pitr_cutoff: Lsn(0) },
            versions: Vec::new(),
        }
    }

    /// The metadata to persist for this timeline.
    pub fn metadata(&self) -> (r: TimelineMetadata)
        ensures
            r == metadata_of_timeline(*self),
    {
        TimelineMetadata {
            disk_consistent_lsn: self.disk_consistent_lsn,
            prev_record_lsn: if self.prev_record_lsn.0 == 0 {
                None
            } else {
                Some(self.prev_record_lsn)
            },
            ancestor_timeline: self.ancestor_timeline,
            ancestor_lsn: self.ancestor_lsn,
            latest_gc_cutoff_lsn: self.latest_gc_cutoff_lsn,
            initdb_lsn: self.initdb_lsn,
            pg_version: self.pg_version,
        }
    }

    pub fn get_last_record_lsn(&self) -> (r: Lsn)
        ensures
            r == self.last_record_lsn,
    {
        self.last_record_lsn
    }

    /// The last record LSN and the one before it.
    pub fn get_last_record_rlsn(&self) -> (r: (Lsn, Lsn))
        ensures
            r == (self.last_record_lsn, self.prev_record_lsn),
    {
        (self.last_record_lsn, self.prev_record_lsn)
    }

    pub fn get_ancestor_lsn(&self) -> (r: Lsn)
        ensures
            r == self.ancestor_lsn,
    {
        self.ancestor_lsn
    }

    pub fn get_ancestor_timeline_id(&self) -> (r: Option<TimelineId>)
        ensures
            r == self.ancestor_timeline,
    {
        self.ancestor_timeline
    }

    pub fn get_latest_gc_cutoff_lsn(&self) -> (r: Lsn)
        ensures
            r == self.latest_gc_cutoff_lsn,
    {
        self.latest_gc_cutoff_lsn
    }

    pub fn get_disk_consistent_lsn(&self) -> (r: Lsn)
        ensures
            r == self.disk_consistent_lsn,
    {
        self.disk_consistent_lsn
    }

    pub fn current_state(&self) -> (r: TimelineState)
        ensures
            r == self.state,
    {
        self.state
    }

    pub fn is_active(&self) -> (r: bool)
        ensures
            r == (self.state == TimelineState::Active),
    {
        self.state == TimelineState::Active
    }

    /// Stores a version of `key` at `lsn`, which must lie past the last record.
    pub fn put(&mut self, key: Key, lsn: Lsn, value: Vec<u8>) -> (r: Result<(), TenantError>)
        ensures
            r is Ok <==> lsn.0 > old(self).last_record_lsn.0,
            r is Ok ==> final(self).versions@ == old(self).versions@.push(
                PageVersion { key, lsn, value },
            ),
            r is Err ==> r == Err::<(), TenantError>(
                TenantError::InvalidWriteLsn { lsn, last_record_lsn: old(self).last_record_lsn },
            ) && *final(self) == *old(self),
            *final(self) == (Timeline { versions: final(self).versions, ..*old(self) }),
    {
        if lsn.0 <= self.last_record_lsn.0 {
            return Err(
                TenantError::InvalidWriteLsn { lsn, last_record_lsn: self.last_record_lsn },
            );
        }
        self.versions.push(PageVersion { key, lsn, value });
        Ok(())
    }

    /// Marks every record up to `lsn` as written.
    pub fn finish_write(&mut self, lsn: Lsn) -> (r: Result<(), TenantError>)
        ensures
            r is Ok <==> lsn.0 >= old(self).last_record_lsn.0,
            r is Ok ==> *final(self) == (Timeline {
                last_record_lsn: lsn,
                prev_record_lsn: old(self).last_record_lsn,
                ..*old(self)
            }),
            r is Err ==> r == Err::<(), TenantError>(
                TenantError::InvalidWriteLsn { lsn, last_record_lsn: old(self).last_record_lsn },
            ) && *final(self) == *old(self),
    {
        if lsn.0 < self.last_record_lsn.0 {
            return Err(
                TenantError::InvalidWriteLsn { lsn, last_record_lsn: self.last_record_lsn },
            );
        }
        self.prev_record_lsn = self.last_record_lsn;
        self.last_record_lsn = lsn;
        Ok(())
    }

    /// The bytes of the last version of `key` at or below `lsn` stored on this timeline itself.
    pub fn get_own(&self, key: Key, lsn: Lsn) -> (r: Option<Vec<u8>>)
        ensures
            opt_bytes(r) == read_versions(self.versions@, key, lsn.0),
    {
        let mut i: usize = self.versions.len();
        assert(self.versions@.subrange(0, i as int) =~= self.versions@);
        while i > 0
            invariant
                i <= self.versions@.len(),
                read_versions(self.versions@, key, lsn.0) == read_versions(
                    self.versions@.subrange(0, i as int),
                    key,
                    lsn.0,
                ),
            decreases i,
        {
            let v = &self.versions[i - 1];
            proof {
                let s = self.versions@.subrange(0, i as int);
                assert(s.drop_last() =~= self.versions@.subrange(0, i - 1));
            }
            if v.key == key && v.lsn.0 <= lsn.0 {
                return Some(v.value.clone());
            }
            i = i - 1;
        }
        None
    }

    /// Records what the next GC pass must keep: the branch points of children, the horizon
    /// cutoff, and the cutoff of the `pitr` window. This timeline stores no commit times, so a
    /// non-zero window keeps all history.
    pub fn update_gc_info(&mut self, retain_lsns: Vec<Lsn>, cutoff: Lsn, pitr: u64)
        ensures
            *final(self) == (Timeline {
                gc_info: GcInfo {
                    retain_lsns,
                    horizon_cutoff: cutoff,
                    pitr_cutoff: if pitr == 0 {
                        cutoff
                    } else {
                        Lsn(0)
                    },
                },
                ..*old(self)
            }),
    {
        let pitr_cutoff = if pitr == 0 {
            cutoff
        } else {
            Lsn(0)
        };
        self.gc_info = GcInfo { retain_lsns, horizon_cutoff: cutoff, pitr_cutoff };
    }

    /// The planned GC cutoff of `gc_info`.
    pub fn planned_cutoff(&self) -> (r: Lsn)
        ensures
            r.0 == planned_gc_cutoff(self.gc_info),
    {
        let c = Lsn::min(self.gc_info.horizon_cutoff, self.gc_info.pitr_cutoff);
        let mut m: u64 = u64::MAX;
        let mut i: usize = 0;
        while i < self.gc_info.retain_lsns.len()
            invariant
                i <= self.gc_info.retain_lsns@.len(),
                m == min_lsn(self.gc_info.retain_lsns@.subrange(0, i as int)),
            decreases self.gc_info.retain_lsns@.len() - i,
        {
            proof {
                let s = self.gc_info.retain_lsns@.subrange(0, i + 1);
                assert(s.drop_last() =~= self.gc_info.retain_lsns@.subrange(0, i as int));
            }
            if self.gc_info.retain_lsns[i].0 < m {
                m = self.gc_info.retain_lsns[i].0;
            }
            i = i + 1;
        }
        proof {
            assert(self.gc_info.retain_lsns@.subrange(0, i as int) =~= self.gc_info.retain_lsns@);
        }
        if c.0 <= m {
            c
        } else {
            Lsn(m)
        }
    }

    /// One GC pass: moves the latest GC cutoff forward to the planned cutoff, when that lies
    /// past it.
    pub fn gc(&mut self) -> (r: GcResult)
        ensures
            *final(self) == (Timeline {
                latest_gc_cutoff_lsn: Lsn(
                    if planned_gc_cutoff(old(self).gc_info) > old(self).latest_gc_cutoff_lsn.0 {
                        planned_gc_cutoff(old(self).gc_info)
                    } else {
                        old(self).latest_gc_cutoff_lsn.0
                    },
                ),
                ..*old(self)
            }),
            r.timelines_collected == if planned_gc_cutoff(old(self).gc_info) > old(
                self,
            ).latest_gc_cutoff_lsn.0 {
                1u64
            } else {
                0u64
            },
            r.versions_removed == 0,
    {
        let planned = self.planned_cutoff();
        if planned.0 > self.latest_gc_cutoff_lsn.0 {
            self.latest_gc_cutoff_lsn = planned;
            GcResult { timelines_collected: 1, versions_removed: 0 }
        } else {
            GcResult { timelines_collected: 0, versions_removed: 0 }
        }
    }
}

/// Each LSN of `s` is smaller than the next: ascending, without repeats.
pub open spec fn strictly_ascending(s: Seq<Lsn>) -> bool {
    forall|i: int, j: int| 0 <= i < j < s.len() ==> #[trigger] s[i].0 < #[trigger] s[j].0
}

/// `a` and `b` hold the same LSNs.
pub open spec fn same_values(a: Seq<Lsn>, b: Seq<Lsn>) -> bool {
    forall|x: Lsn| a.contains(x) <==> b.contains(x)
}

proof fn lemma_min_lsn_member(s: Seq<Lsn>)
    ensures
        s.len() == 0 ==> min_lsn(s) == u64::MAX,
        s.len() > 0 ==> exists|k: int| 0 <= k < s.len() && #[trigger] s[k].0 == min_lsn(s),
    decreases s.len(),
{
    if s.len() > 0 {
        lemma_min_lsn_member(s.drop_last());
        if s.len() > 1 && min_lsn(s) != s.last().0 {
            let k = choose|k: int| 0 <= k < s.len() - 1 && #[trigger] s.drop_last()[k].0 == min_lsn(
                s.drop_last(),
            );
            assert(s[k].0 == min_lsn(s));
        } else {
            assert(s[s.len() - 1].0 == min_lsn(s));
        }
    }
}

/// The smallest LSN depends only on which LSNs are present.
pub proof fn lemma_min_lsn_same_values(a: Seq<Lsn>, b: Seq<Lsn>)
    requires
        same_values(a, b),
    ensures
        min_lsn(a) == min_lsn(b),
{
    lemma_min_lsn_member(a);
    lemma_min_lsn_member(b);
    if a.len() > 0 {
        let k = choose|k: int| 0 <= k < a.len() && #[trigger] a[k].0 == min_lsn(a);
        assert(b.contains(a[k]));
        let kb = b.index_of(a[k]);
        lemma_min_lsn_le(b, kb);
    } else if b.len() > 0 {
        assert(a.contains(b[0]));
    }
    if b.len() > 0 {
        let k = choose|k: int| 0 <= k < b.len() && #[trigger] b[k].0 == min_lsn(b);
        assert(a.contains(b[k]));
        let ka = a.index_of(b[k]);
        lemma_min_lsn_le(a, ka);
    } else if a.len() > 0 {
        assert(b.contains(a[0]));
    }
}

/// Inserts `x` into the ascending `v` unless it is there already.
pub fn insert_ascending(v: &mut Vec<Lsn>, x: Lsn)
    requires
        strictly_ascending(old(v)@),
    ensures
        strictly_ascending(final(v)@),
        forall|y: Lsn| final(v)@.contains(y) <==> (old(v)@.contains(y) || y == x),
{
    let mut i: usize = 0;
    while i < v.len() && v[i].0 < x.0
        invariant
            i <= v@.len(),
            forall|k: int| 0 <= k < i ==> v@[k].0 < x.0,
        decreases v@.len() - i,
    {
        i = i + 1;
    }
    if i < v.len() && v[i].0 == x.0 {
        proof {
            assert(v@[i as int] == x);
        }
        return;
    }
    let ghost before = v@;
    v.insert(i, x);
    proof {
        let a = v@;
        assert(a == before.insert(i as int, x));
        assert forall|p: int, q: int| 0 <= p < q < a.len() implies #[trigger] a[p].0 < #[trigger] a[q].0 by {
            if q < i {
            } else if q == i {
                assert(a[p] == before[p]);
            } else if p < i {
                assert(a[q] == before[q - 1]);
                assert(a[p] == before[p]);
                if q - 1 >= i {
                    assert(before[i as int].0 > x.0);
                }
            } else if p == i {
                assert(a[q] == before[q - 1]);
                assert(before[i as int].0 > x.0);
            } else {
                assert(a[q] == before[q - 1]);
                assert(a[p] == before[p - 1]);
            }
        }
        assert forall|y: Lsn| a.contains(y) <==> (before.contains(y) || y == x) by {
            if a.contains(y) {
                let k = a.index_of(y);
                if k < i {
                    assert(before[k] == y);
                } else if k > i {
                    assert(before[k - 1] == y);
                }
            }
            if before.contains(y) {
                let k = before.index_of(y);
                if k < i {
                    assert(a[k] == y);
                } else {
                    assert(a[k + 1] == y);
                }
            }
            if y == x {
                assert(a[i as int] == x);
            }
        }
    }
}

} // verus!
