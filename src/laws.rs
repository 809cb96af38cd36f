use vstd::prelude::*;
use crate::codec::{
    le_encode, lemma_le_encode_len, lemma_le_round_trip, lemma_le_value_injective,
    lemma_pow256_values,
};
use crate::error::{InvalidLsnReason, TenantError};
use crate::id::{all_hex, hex_encode, hex_value, lemma_hex_round_trip, lemma_pow16_32, TimelineId};
use crate::key::Key;
use crate::lsn::Lsn;
use crate::state::{next_tenant_state, TenantState};
use crate::tenant::{
    branch_start, branchpoints_of, gc_done_at, mark_creation, read_lineage, tl_ids, TenantView,
    TimelineUninitMark,
};
use crate::timeline::{lemma_min_lsn_le, Timeline};
use crate::metadata::{
    body_bytes, crc32c_of, field, metadata_bytes, opt_id_bytes, opt_lsn_bytes, parse_metadata,
    payload_bytes, TimelineMetadata,
};

verus! {

proof fn lemma_encode_lens(m: TimelineMetadata)
    ensures
        le_encode(m.disk_consistent_lsn.0 as nat, 8).len() == 8,
        opt_lsn_bytes(m.prev_record_lsn).len() == 9,
        opt_id_bytes(m.ancestor_timeline).len() == 17,
        le_encode(m.ancestor_lsn.0 as nat, 8).len() == 8,
        le_encode(m.latest_gc_cutoff_lsn.0 as nat, 8).len() == 8,
        le_encode(m.initdb_lsn.0 as nat, 8).len() == 8,
        le_encode(m.pg_version as nat, 4).len() == 4,
        le_encode(62, 2).len() == 2,
        le_encode(4, 2).len() == 2,
        le_encode(crc32c_of(payload_bytes(m)) as nat, 4).len() == 4,
{
    lemma_le_encode_len(m.disk_consistent_lsn.0 as nat, 8);
    lemma_le_encode_len(0, 8);
    lemma_le_encode_len(0, 16);
    if let Some(l) = m.prev_record_lsn {
        lemma_le_encode_len(l.0 as nat, 8);
    }
    if let Some(t) = m.ancestor_timeline {
        lemma_le_encode_len(t.0 as nat, 16);
    }
    lemma_le_encode_len(m.ancestor_lsn.0 as nat, 8);
    lemma_le_encode_len(m.latest_gc_cutoff_lsn.0 as nat, 8);
    lemma_le_encode_len(m.initdb_lsn.0 as nat, 8);
    lemma_le_encode_len(m.pg_version as nat, 4);
    lemma_le_encode_len(62, 2);
    lemma_le_encode_len(4, 2);
    lemma_le_encode_len(crc32c_of(payload_bytes(m)) as nat, 4);
}

/// Reading back the metadata file that `to_bytes` writes gives the same metadata.
pub proof fn metadata_round_trip(m: TimelineMetadata)
    ensures
        parse_metadata(metadata_bytes(m)) == Ok::<TimelineMetadata, TenantError>(m),
{
    let b = metadata_bytes(m);
    let p = payload_bytes(m);
    lemma_encode_lens(m);
    lemma_pow256_values();
    let crc = crc32c_of(p);
    assert(b.len() == 512);
    assert(b.subrange(4, 512) =~= p);
    assert(b.subrange(0, 4) =~= le_encode(crc as nat, 4));
    lemma_le_round_trip(crc as nat, 4);
    assert(b.subrange(4, 6) =~= le_encode(62, 2));
    lemma_le_round_trip(62, 2);
    assert(b.subrange(6, 8) =~= le_encode(4, 2));
    lemma_le_round_trip(4, 2);
    assert(b.subrange(8, 16) =~= le_encode(m.disk_consistent_lsn.0 as nat, 8));
    lemma_le_round_trip(m.disk_consistent_lsn.0 as nat, 8);
    assert(b.subrange(16, 25) =~= opt_lsn_bytes(m.prev_record_lsn));
    assert(b.subrange(25, 42) =~= opt_id_bytes(m.ancestor_timeline));
    assert(b[16] == opt_lsn_bytes(m.prev_record_lsn)[0]);
    assert(b[25] == opt_id_bytes(m.ancestor_timeline)[0]);
    if let Some(l) = m.prev_record_lsn {
        assert(b.subrange(17, 25) =~= le_encode(l.0 as nat, 8));
        lemma_le_round_trip(l.0 as nat, 8);
    }
    if let Some(t) = m.ancestor_timeline {
        assert(b.subrange(26, 42) =~= le_encode(t.0 as nat, 16));
        lemma_le_round_trip(t.0 as nat, 16);
    }
    assert(b.subrange(42, 50) =~= le_encode(m.ancestor_lsn.0 as nat, 8));
    lemma_le_round_trip(m.ancestor_lsn.0 as nat, 8);
    assert(b.subrange(50, 58) =~= le_encode(m.latest_gc_cutoff_lsn.0 as nat, 8));
    lemma_le_round_trip(m.latest_gc_cutoff_lsn.0 as nat, 8);
    assert(b.subrange(58, 66) =~= le_encode(m.initdb_lsn.0 as nat, 8));
    lemma_le_round_trip(m.initdb_lsn.0 as nat, 8);
    assert(b.subrange(66, 70) =~= le_encode(m.pg_version as nat, 4));
    lemma_le_round_trip(m.pg_version as nat, 4);
    let r = parse_metadata(b);
    assert(r == Ok::<TimelineMetadata, TenantError>(m));
}

/// Changing any byte of the stored checksum of a metadata file makes reading it fail with
/// a checksum mismatch.
pub proof fn metadata_checksum_corruption(m: TimelineMetadata, i: int, v: u8)
    requires
        0 <= i < 4,
        metadata_bytes(m)[i] != v,
    ensures
        parse_metadata(metadata_bytes(m).update(i, v)) == Err::<TimelineMetadata, TenantError>(
            TenantError::MetadataChecksumMismatch,
        ),
{
    let b = metadata_bytes(m);
    let c = b.update(i, v);
    lemma_encode_lens(m);
    lemma_pow256_values();
    metadata_round_trip(m);
    assert(c.subrange(4, 512) =~= b.subrange(4, 512));
    assert(c.subrange(0, 4) != b.subrange(0, 4)) by {
        assert(c.subrange(0, 4)[i] != b.subrange(0, 4)[i]);
    }
    lemma_le_value_injective(c.subrange(0, 4), b.subrange(0, 4));
    assert(field(b, 0, 4) == crc32c_of(b.subrange(4, 512)) as int);
}

/// The state after a sequence of state requests.
pub open spec fn state_after(s: TenantState, requests: Seq<TenantState>) -> TenantState
    decreases requests.len(),
{
    if requests.len() == 0 {
        s
    } else {
        state_after(next_tenant_state(s, requests[0]), requests.subrange(1, requests.len() as int))
    }
}

/// Once a tenant is broken, no sequence of state requests changes its state.
pub proof fn broken_is_final(requests: Seq<TenantState>)
    ensures
        state_after(TenantState::Broken, requests) == TenantState::Broken,
    decreases requests.len(),
{
    if requests.len() > 0 {
        broken_is_final(requests.subrange(1, requests.len() as int));
    }
}

/// Branching at a start below the source's latest GC cutoff fails with `AlreadyGced`, unless
/// the start, given explicitly, also lies below the source's own branch point, which is
/// reported first as `BeforeAncestorLsn`; and a given start below the source's branch point
/// always fails with `BeforeAncestorLsn`.
pub proof fn branching_respects_retention(s: Timeline, start_lsn: Option<Lsn>)
    ensures
        ({
            let start = match start_lsn {
                Some(l) => l,
                None => s.last_record_lsn,
            };
            &&& start.0 < s.latest_gc_cutoff_lsn.0 && !(start_lsn is Some && s.ancestor_lsn.0
                > start.0) ==> branch_start(s, start_lsn) == Err::<TimelineMetadata, TenantError>(
                TenantError::InvalidStartLsn {
                    reason: InvalidLsnReason::AlreadyGced,
                    lsn: start,
                    cutoff: s.latest_gc_cutoff_lsn,
                },
            )
            &&& start_lsn is Some && s.ancestor_lsn.0 > start.0 ==> branch_start(s, start_lsn)
                == Err::<TimelineMetadata, TenantError>(
                TenantError::InvalidStartLsn {
                    reason: InvalidLsnReason::BeforeAncestorLsn,
                    lsn: start,
                    cutoff: s.ancestor_lsn,
                },
            )
        }),
{
}

/// Same timeline as `b` in what reads look at.
pub open spec fn same_read_data(a: Timeline, b: Timeline) -> bool {
    &&& a.timeline_id == b.timeline_id
    &&& a.ancestor_timeline == b.ancestor_timeline
    &&& a.ancestor_lsn == b.ancestor_lsn
    &&& a.versions@ == b.versions@
}

/// A read along a lineage sees only ids, ancestors, branch points and stored versions.
pub proof fn lemma_read_lineage_same(a: Seq<Timeline>, b: Seq<Timeline>, i: int, key: Key, lsn: u64)
    requires
        a.len() == b.len(),
        forall|k: int| 0 <= k < a.len() ==> same_read_data(#[trigger] a[k], b[k]),
    ensures
        read_lineage(a, i, key, lsn) == read_lineage(b, i, key, lsn),
    decreases i,
{
    assert(tl_ids(a) =~= tl_ids(b)) by {
        assert forall|k: int| 0 <= k < a.len() implies tl_ids(a)[k] == tl_ids(b)[k] by {
            assert(same_read_data(a[k], b[k]));
        }
    }
    if 0 <= i < a.len() {
        assert(same_read_data(a[i], b[i]));
        if let Some(anc) = a[i].ancestor_timeline {
            let j = tl_ids(a).index_of(anc);
            if tl_ids(a).contains(anc) && 0 <= j < i {
                let l = if lsn <= a[i].ancestor_lsn.0 {
                    lsn
                } else {
                    a[i].ancestor_lsn.0
                };
                lemma_read_lineage_same(a, b, j, key, l);
            }
        }
    }
}

/// A GC pass changes no read of any timeline at any LSN; in particular every child still reads
/// through its parent at its branch point.
pub proof fn gc_preserves_reads(
    o: TenantView,
    n: TenantView,
    target: Option<TimelineId>,
    horizon: u64,
    pitr: u64,
    checkpoint_before_gc: bool,
    id: TimelineId,
    key: Key,
    lsn: u64,
)
    requires
        n.timelines.len() == o.timelines.len(),
        forall|k: int|
            0 <= k < o.timelines.len() ==> gc_done_at(
                o.timelines,
                k,
                #[trigger] n.timelines[k],
                target,
                horizon,
                pitr,
                checkpoint_before_gc,
            ),
    ensures
        n.read(id, key, lsn) == o.read(id, key, lsn),
{
    assert forall|k: int| 0 <= k < o.timelines.len() implies same_read_data(
        #[trigger] n.timelines[k],
        o.timelines[k],
    ) by {
        assert(gc_done_at(o.timelines, k, n.timelines[k], target, horizon, pitr,
            checkpoint_before_gc));
    }
    assert(n.ids() =~= o.ids()) by {
        assert forall|k: int| 0 <= k < o.timelines.len() implies n.ids()[k] == o.ids()[k] by {
            assert(same_read_data(n.timelines[k], o.timelines[k]));
        }
    }
    if o.has_timeline(id) {
        lemma_read_lineage_same(n.timelines, o.timelines, o.ids().index_of(id), key, lsn);
    }
}

proof fn lemma_branchpoint_member(s: Seq<Timeline>, id: TimelineId, c: int)
    requires
        0 <= c < s.len(),
        s[c].state == crate::state::TimelineState::Active,
        s[c].ancestor_timeline == Some(id),
    ensures
        branchpoints_of(s, id).contains(s[c].ancestor_lsn),
    decreases s.len(),
{
    let b = branchpoints_of(s, id);
    if c == s.len() - 1 {
        assert(b[b.len() - 1] == s[c].ancestor_lsn);
    } else {
        lemma_branchpoint_member(s.drop_last(), id, c);
        let r = branchpoints_of(s.drop_last(), id);
        let k = r.index_of(s[c].ancestor_lsn);
        assert(b[k] == r[k]);
    }
}

/// A GC pass never moves a timeline's latest GC cutoff past the branch point of one of its
/// active children that it had not passed before.
pub proof fn gc_keeps_branch_points(
    o: TenantView,
    n: TenantView,
    target: Option<TimelineId>,
    horizon: u64,
    pitr: u64,
    checkpoint_before_gc: bool,
    p: int,
    c: int,
)
    requires
        n.timelines.len() == o.timelines.len(),
        forall|k: int|
            0 <= k < o.timelines.len() ==> gc_done_at(
                o.timelines,
                k,
                #[trigger] n.timelines[k],
                target,
                horizon,
                pitr,
                checkpoint_before_gc,
            ),
        0 <= p < o.timelines.len(),
        0 <= c < o.timelines.len(),
        o.timelines[c].state == crate::state::TimelineState::Active,
        o.timelines[c].ancestor_timeline == Some(o.timelines[p].timeline_id),
        o.timelines[p].latest_gc_cutoff_lsn.0 <= o.timelines[c].ancestor_lsn.0,
    ensures
        n.timelines[p].latest_gc_cutoff_lsn.0 <= o.timelines[c].ancestor_lsn.0,
{
    assert(gc_done_at(o.timelines, p, n.timelines[p], target, horizon, pitr, checkpoint_before_gc));
    let id = o.timelines[p].timeline_id;
    lemma_branchpoint_member(o.timelines, id, c);
    let b = branchpoints_of(o.timelines, id);
    let k = b.index_of(o.timelines[c].ancestor_lsn);
    lemma_min_lsn_le(b, k);
}

/// Creating a timeline whose id the map already holds fails with `TimelineAlreadyExists`
/// before any file is written.
pub proof fn duplicate_creation_fails(o: TenantView, id: TimelineId)
    requires
        o.has_timeline(id),
    ensures
        mark_creation(o, id) == Err::<TimelineUninitMark, TenantError>(
            TenantError::TimelineAlreadyExists { timeline_id: id },
        ),
{
}

/// In the map of a well-formed tenant, and so in `list_timelines`, every ancestor is listed
/// before each of its descendants.
pub proof fn ancestors_listed_first(t: TenantView, i: int)
    requires
        t.wf(),
        0 <= i < t.timelines.len(),
        t.timelines[i].ancestor_timeline is Some,
    ensures
        exists|j: int|
            0 <= j < i && #[trigger] t.ids()[j] == t.timelines[i].ancestor_timeline.unwrap(),
{
    let a = t.timelines[i].ancestor_timeline.unwrap();
    let j = t.ids().index_of(a);
    assert(t.ids()[j] == a);
}

/// The textual form of a timeline id is 32 hex digits that parse back to the same id.
pub proof fn timeline_id_text_round_trip(id: TimelineId)
    ensures
        hex_encode(id.0 as nat, 32).len() == 32,
        all_hex(hex_encode(id.0 as nat, 32)),
        hex_value(hex_encode(id.0 as nat, 32)) == id.0,
{
    lemma_pow16_32();
    lemma_hex_round_trip(id.0 as nat, 32);
}

} // verus!
