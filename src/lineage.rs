use vstd::prelude::*;
use crate::error::TenantError;
use crate::id::TimelineId;
use crate::metadata::TimelineMetadata;

verus! {

pub type TimelineEntry = (TimelineId, TimelineMetadata);

pub open spec fn entry_ids(s: Seq<TimelineEntry>) -> Seq<TimelineId> {
    s.map_values(|e: TimelineEntry| e.0)
}

/// Every entry's ancestor, if it has one, stands at an earlier position.
pub open spec fn parent_first(s: Seq<TimelineEntry>) -> bool {
    forall|k: int|
        #![trigger s[k]]
        0 <= k < s.len() && s[k].1.ancestor_timeline is Some ==> exists|j: int|
            0 <= j < k && s[j].0 == s[k].1.ancestor_timeline.unwrap()
}

/// `r` holds the same entries as `s`.
pub open spec fn same_entries(r: Seq<TimelineEntry>, s: Seq<TimelineEntry>) -> bool {
    &&& forall|k: int| 0 <= k < r.len() ==> s.contains(#[trigger] r[k])
    &&& forall|i: int| 0 <= i < s.len() ==> r.contains(#[trigger] s[i])
}

fn ids_contain(v: &Vec<TimelineEntry>, id: TimelineId) -> (r: bool)
    ensures
        r == entry_ids(v@).contains(id),
{
    let mut i: usize = 0;
    while i < v.len()
        invariant
            i <= v@.len(),
            forall|k: int| 0 <= k < i ==> v@[k].0 != id,
        decreases v@.len() - i,
    {
        if v[i].0 == id {
            assert(entry_ids(v@)[i as int] == id);
            return true;
        }
        i = i + 1;
    }
    proof {
        if entry_ids(v@).contains(id) {
            let k = choose|k: int| 0 <= k < entry_ids(v@).len() && entry_ids(v@)[k] == id;
            assert(v@[k].0 == id);
        }
    }
    false
}

/// Number of `false` flags in `s`.
pub open spec fn count_false(s: Seq<bool>) -> nat
    decreases s.len(),
{
    if s.len() == 0 {
        0
    } else {
        count_false(s.drop_last()) + if s.last() {
            0nat
        } else {
            1nat
        }
    }
}

proof fn lemma_count_false_set(s: Seq<bool>, i: int)
    requires
        0 <= i < s.len(),
        !s[i],
    ensures
        count_false(s.update(i, true)) + 1 == count_false(s),
    decreases s.len(),
{
    let t = s.update(i, true);
    if i == s.len() - 1 {
        assert(t.drop_last() =~= s.drop_last());
    } else {
        assert(t.drop_last() =~= s.drop_last().update(i, true));
        lemma_count_false_set(s.drop_last(), i);
    }
}

/// What the sorting loop keeps: `result` lists placed input entries, in an order where
/// ancestors come first, and every placed entry is listed.
pub open spec fn sort_state(
    timelines: Seq<TimelineEntry>,
    placed: Seq<bool>,
    result: Seq<TimelineEntry>,
) -> bool {
    &&& placed.len() == timelines.len()
    &&& entry_ids(timelines).no_duplicates()
    &&& forall|k: int|
        #![trigger result[k]]
        0 <= k < result.len() ==> exists|i: int|
            0 <= i < timelines.len() && placed[i] && result[k] == timelines[i]
    &&& forall|i: int|
        #![trigger placed[i]]
        0 <= i < timelines.len() && placed[i] ==> result.contains(timelines[i])
    &&& parent_first(result)
    &&& entry_ids(result).no_duplicates()
}

/// No unplaced entry can be placed: its ancestor is missing from `result`.
pub open spec fn stuck(timelines: Seq<TimelineEntry>, placed: Seq<bool>,
    result: Seq<TimelineEntry>, upto: int) -> bool {
    forall|i: int|
        #![trigger placed[i]]
        0 <= i < upto && !placed[i] ==> timelines[i].1.ancestor_timeline is Some
            && !entry_ids(result).contains(timelines[i].1.ancestor_timeline.unwrap())
}

proof fn lemma_ids_index(s: Seq<TimelineEntry>, k: int)
    requires
        0 <= k < s.len(),
    ensures
        entry_ids(s)[k] == s[k].0,
        entry_ids(s).contains(s[k].0),
{
    assert(entry_ids(s)[k] == s[k].0);
}

proof fn lemma_unique_index(timelines: Seq<TimelineEntry>, i: int, j: int)
    requires
        entry_ids(timelines).no_duplicates(),
        0 <= i < timelines.len(),
        0 <= j < timelines.len(),
        timelines[i].0 == timelines[j].0,
    ensures
        i == j,
{
    lemma_ids_index(timelines, i);
    lemma_ids_index(timelines, j);
}

/// In an ancestor-first order of the same entries, every entry would already be placed.
proof fn lemma_order_all_placed(
    timelines: Seq<TimelineEntry>,
    placed: Seq<bool>,
    result: Seq<TimelineEntry>,
    order: Seq<TimelineEntry>,
    k: int,
)
    requires
        sort_state(timelines, placed, result),
        stuck(timelines, placed, result, timelines.len() as int),
        same_entries(order, timelines),
        parent_first(order),
        0 <= k < order.len(),
    ensures
        entry_ids(result).contains(order[k].0),
    decreases k,
{
    let e = order[k];
    assert(timelines.contains(e));
    let i = choose|i: int| 0 <= i < timelines.len() && timelines[i] == e;
    if placed[i] {
        assert(result.contains(timelines[i]));
        let m = choose|m: int| 0 <= m < result.len() && result[m] == timelines[i];
        lemma_ids_index(result, m);
    } else {
        let a = timelines[i].1.ancestor_timeline.unwrap();
        let j = choose|j: int| 0 <= j < k && order[j].0 == a;
        lemma_order_all_placed(timelines, placed, result, order, j);
    }
}

/// Once the sort is stuck with an entry left over, no ancestor-first order of the input exists.
proof fn lemma_stuck_no_order(
    timelines: Seq<TimelineEntry>,
    placed: Seq<bool>,
    result: Seq<TimelineEntry>,
    left: int,
)
    requires
        sort_state(timelines, placed, result),
        stuck(timelines, placed, result, timelines.len() as int),
        0 <= left < timelines.len(),
        !placed[left],
    ensures
        forall|order: Seq<TimelineEntry>|
            same_entries(order, timelines) ==> !parent_first(order),
{
    assert forall|order: Seq<TimelineEntry>|
        same_entries(order, timelines) implies !parent_first(order) by {
        if parent_first(order) {
            assert(order.contains(timelines[left]));
            let p = choose|p: int| 0 <= p < order.len() && order[p] == timelines[left];
            lemma_order_all_placed(timelines, placed, result, order, p);
            let m = choose|m: int| 0 <= m < entry_ids(result).len()
                && entry_ids(result)[m] == timelines[left].0;
            assert(result[m].0 == timelines[left].0);
            let i2 = choose|i2: int| 0 <= i2 < timelines.len() && placed[i2]
                && result[m] == timelines[i2];
            lemma_unique_index(timelines, i2, left);
        }
    }
}

/// Orders timelines so that each ancestor precedes its descendants.
///
/// Roots come first in input order; then each pass over the input appends, in input order, the
/// entries whose ancestor has been placed. When a pass places nothing and entries remain, those
/// are orphans: their ancestors are missing, or they form a cycle, and the sort fails with the
/// orphans and, position for position, their ancestors.
pub fn tree_sort_timelines(timelines: Vec<TimelineEntry>) -> (r: Result<
    Vec<TimelineEntry>,
    TenantError,
>)
    requires
        entry_ids(timelines@).no_duplicates(),
    ensures
        match r {
            Ok(sorted) => {
                &&& same_entries(sorted@, timelines@)
                &&& parent_first(sorted@)
                &&& entry_ids(sorted@).no_duplicates()
            },
            Err(e) => match e {
                TenantError::OrphanTimelines { missing, orphans } => {
                    &&& orphans@.len() > 0
                    &&& missing@.len() == orphans@.len()
                    &&& forall|k: int|
                        #![trigger orphans@[k]]
                        0 <= k < orphans@.len() ==> exists|i: int|
                            #![trigger timelines@[i]]
                            0 <= i < timelines@.len() && timelines@[i].0 == orphans@[k]
                                && timelines@[i].1.ancestor_timeline == Some(missing@[k])
                    &&& forall|order: Seq<TimelineEntry>|
                        same_entries(order, timelines@) ==> !parent_first(order)
                },
                _ => false,
            },
        },
{
    let n = timelines.len();
    let mut placed: Vec<bool> = Vec::new();
    while placed.len() < n
        invariant
            placed@.len() <= n,
            forall|k: int| 0 <= k < placed@.len() ==> !placed@[k],
        decreases n - placed@.len(),
    {
        placed.push(false);
    }
    let mut result: Vec<TimelineEntry> = Vec::new();
    let mut progress = true;
    proof {
        assert(entry_ids(result@) =~= Seq::<TimelineId>::empty());
    }
    while progress
        invariant
            n == timelines@.len(),
            sort_state(timelines@, placed@, result@),
            !progress ==> stuck(timelines@, placed@, result@, n as int),
        decreases count_false(placed@) * 2 + if progress {
            1nat
        } else {
            0nat
        },
    {
        let ghost c0 = count_false(placed@);
        progress = false;
        let mut i: usize = 0;
        while i < n
            invariant
                n == timelines@.len(),
                i <= n,
                sort_state(timelines@, placed@, result@),
                !progress ==> stuck(timelines@, placed@, result@, i as int),
                !progress ==> count_false(placed@) == c0,
                progress ==> count_false(placed@) < c0,
            decreases n - i,
        {
            if !placed[i] {
                let e = timelines[i];
                let ready = match e.1.ancestor_timeline {
                    None => true,
                    Some(a) => ids_contain(&result, a),
                };
                if ready {
                    let ghost old_result = result@;
                    let ghost old_placed = placed@;
                    proof {
                        lemma_count_false_set(placed@, i as int);
                        if entry_ids(old_result).contains(e.0) {
                            let m = choose|m: int|
                                0 <= m < entry_ids(old_result).len()
                                    && entry_ids(old_result)[m] == e.0;
                            assert(old_result[m].0 == e.0);
                            let i2 = choose|i2: int|
                                0 <= i2 < timelines@.len() && old_placed[i2]
                                    && old_result[m] == timelines@[i2];
                            lemma_unique_index(timelines@, i2, i as int);
                        }
                    }
                    result.push(e);
                    placed.set(i, true);
                    progress = true;
                    proof {
                        let r = result@;
                        assert(r =~= old_result.push(e));
                        assert(entry_ids(r) =~= entry_ids(old_result).push(e.0));
                        assert(entry_ids(r).no_duplicates()) by {
                            let ids = entry_ids(r);
                            assert forall|a: int, b: int| 0 <= a < b < ids.len()
                                implies ids[a] != ids[b] by {
                                if b == ids.len() - 1 {
                                    lemma_ids_index(old_result, a);
                                }
                            }
                        }
                        assert forall|k: int| #![trigger r[k]] 0 <= k < r.len()
                            implies exists|i3: int|
                            0 <= i3 < timelines@.len() && placed@[i3] && r[k] == timelines@[i3] by {
                            if k < old_result.len() {
                                assert(old_result[k] == r[k]);
                                let i3 = choose|i3: int|
                                    0 <= i3 < timelines@.len() && old_placed[i3]
                                        && old_result[k] == timelines@[i3];
                                assert(placed@[i3]);
                            } else {
                                assert(placed@[i as int]);
                            }
                        }
                        assert forall|i3: int| #![trigger placed@[i3]] 0 <= i3 < timelines@.len()
                            && placed@[i3] implies r.contains(timelines@[i3]) by {
                            if i3 == i {
                                assert(r[r.len() - 1] == timelines@[i3]);
                            } else {
                                assert(old_placed[i3]);
                                assert(old_result.contains(timelines@[i3]));
                                let m = choose|m: int| 0 <= m < old_result.len()
                                    && old_result[m] == timelines@[i3];
                                assert(r[m] == timelines@[i3]);
                            }
                        }
                        assert forall|k: int| #![trigger r[k]] 0 <= k < r.len()
                            && r[k].1.ancestor_timeline is Some implies exists|j: int|
                            0 <= j < k && r[j].0 == r[k].1.ancestor_timeline.unwrap() by {
                            if k < old_result.len() {
                                assert(old_result[k] == r[k]);
                                let j = choose|j: int| 0 <= j < k
                                    && old_result[j].0
                                    == old_result[k].1.ancestor_timeline.unwrap();
                                assert(r[j] == old_result[j]);
                            } else {
                                let a = e.1.ancestor_timeline.unwrap();
                                let m = choose|m: int|
                                    0 <= m < entry_ids(old_result).len()
                                        && entry_ids(old_result)[m] == a;
                                assert(r[m] == old_result[m]);
                            }
                        }
                    }
                }
            }
            i = i + 1;
        }
    }
    let mut all_placed = true;
    let mut left: usize = 0;
    let mut i: usize = 0;
    while i < n
        invariant
            n == timelines@.len(),
            placed@.len() == n,
            i <= n,
            all_placed ==> forall|k: int| 0 <= k < i ==> placed@[k],
            !all_placed ==> left < n && !placed@[left as int],
        decreases n - i,
    {
        if !placed[i] {
            all_placed = false;
            left = i;
        }
        i = i + 1;
    }
    if all_placed {
        proof {
            assert forall|k: int| 0 <= k < result@.len()
                implies timelines@.contains(#[trigger] result@[k]) by {
                let i3 = choose|i3: int| 0 <= i3 < timelines@.len() && placed@[i3]
                    && result@[k] == timelines@[i3];
            }
            assert forall|i3: int| 0 <= i3 < timelines@.len()
                implies result@.contains(#[trigger] timelines@[i3]) by {
                assert(placed@[i3]);
            }
        }
        return Ok(result);
    }
    proof {
        lemma_stuck_no_order(timelines@, placed@, result@, left as int);
    }
    let mut missing: Vec<TimelineId> = Vec::new();
    let mut orphans: Vec<TimelineId> = Vec::new();
    let mut i: usize = 0;
    while i < n
        invariant
            n == timelines@.len(),
            placed@.len() == n,
            i <= n,
            left < n,
            !placed@[left as int],
            left < i ==> orphans@.len() > 0,
            stuck(timelines@, placed@, result@, n as int),
            missing@.len() == orphans@.len(),
            forall|k: int|
                #![trigger orphans@[k]]
                0 <= k < orphans@.len() ==> exists|i3: int|
                    #![trigger timelines@[i3]]
                    0 <= i3 < n && timelines@[i3].0 == orphans@[k]
                        && timelines@[i3].1.ancestor_timeline == Some(missing@[k]),
        decreases n - i,
    {
        if !placed[i] {
            let e = timelines[i];
            assert(!placed@[i as int]);
            if let Some(a) = e.1.ancestor_timeline {
                orphans.push(e.0);
                missing.push(a);
                proof {
                    let k = orphans@.len() - 1;
                    assert(timelines@[i as int].0 == orphans@[k]);
                }
            }
        }
        i = i + 1;
    }
    Err(TenantError::OrphanTimelines { missing, orphans })
}

} // verus!
