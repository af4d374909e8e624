//! What retention promises: whole expired segments go, the segment that is
//! being written is never touched, and nothing recent is lost.

use vstd::prelude::*;

use crate::durability::{aligned, history, ids_of, ordered, Codec, DiskSegment};
use crate::oplog::{
    is_expired, law_expired_is_all_older, other_ids, AppendEvent, OpEntryView, OpLogView, SweepView,
};
use crate::timestamp::Timestamp;

verus! {

/// Whether every entry of a segment is older than the cutoff.
pub open spec fn is_stale(s: DiskSegment, c: Codec, cutoff: Timestamp) -> bool {
    is_expired(c.entries_in(s.file), cutoff)
}

/// The disk after a retention sweep: of the segments other than the active
/// one, those that are expired are gone, and every other is as it was.
pub open spec fn swept(
    disk: Seq<DiskSegment>,
    c: Codec,
    active_id: u64,
    cutoff: Timestamp,
) -> Seq<DiskSegment> {
    disk.filter(|s: DiskSegment| s.id == active_id || !is_stale(s, c, cutoff))
}

/// The sweep of a log over a disk, before it judged any segment.
pub open spec fn sweep_of(
    disk: Seq<DiskSegment>,
    active_id: u64,
    cutoff: Timestamp,
) -> SweepView {
    SweepView {
        ids: other_ids(ids_of(disk), active_id),
        judged: 0,
        removed: 0,
        cutoff,
    }
}

/// The entries of the segment with this id.
pub open spec fn entries_of(disk: Seq<DiskSegment>, c: Codec, id: u64) -> Seq<OpEntryView> {
    c.entries_in(disk[choose|i: int| 0 <= i < disk.len() && disk[i].id == id].file)
}

/// A sweep carried to its end: each segment is judged, and removed where it is
/// found expired.
pub open spec fn swept_through(s: SweepView, disk: Seq<DiskSegment>, c: Codec) -> SweepView
    decreases s.ids.len() - s.judged,
{
    match s.next() {
        None => s,
        Some(id) => swept_through(
            SweepView {
                judged: s.judged + 1,
                removed: s.removed + if is_expired(entries_of(disk, c, id), s.cutoff) {
                    1nat
                } else {
                    0nat
                },
                ..s
            },
            disk,
            c,
        ),
    }
}

/// Retention never touches the active segment, and it edits none: what is left
/// are segments as they were, in their order.
pub proof fn law_sweep_keeps_active_segment(
    disk: Seq<DiskSegment>,
    c: Codec,
    active_id: u64,
    cutoff: Timestamp,
    i: int,
)
    requires
        0 <= i < disk.len(),
        disk[i].id == active_id,
    ensures
        swept(disk, c, active_id, cutoff).contains(disk[i]),
        forall|k: int|
            0 <= k < swept(disk, c, active_id, cutoff).len() ==> disk.contains(
                #[trigger] swept(disk, c, active_id, cutoff)[k],
            ),
{
    let keep = |s: DiskSegment| s.id == active_id || !is_stale(s, c, cutoff);
    disk.lemma_filter_contains(keep, i);
    assert forall|k: int| 0 <= k < disk.filter(keep).len() implies disk.contains(
        #[trigger] disk.filter(keep)[k],
    ) by {
        assert(disk.filter(keep).contains(disk.filter(keep)[k]));
        disk.lemma_filter_contains_rev(keep, disk.filter(keep)[k]);
    }
}

/// A sweep looks at every segment but the active one, so that what is left
/// once it removed those that it found expired is the swept disk.
pub proof fn law_sweep_judges_all_but_active(
    disk: Seq<DiskSegment>,
    c: Codec,
    active_id: u64,
    cutoff: Timestamp,
)
    ensures
        disk.filter(
            |s: DiskSegment|
                !(sweep_of(disk, active_id, cutoff).ids.contains(s.id) && is_stale(s, c, cutoff)),
        ) == swept(disk, c, active_id, cutoff),
{
    let other = |id: u64| id != active_id;
    let judged = ids_of(disk).filter(other);
    let left = |s: DiskSegment|
        !(sweep_of(disk, active_id, cutoff).ids.contains(s.id) && is_stale(s, c, cutoff));
    let keep = |s: DiskSegment| s.id == active_id || !is_stale(s, c, cutoff);
    assert forall|i: int| 0 <= i < disk.len() implies left(#[trigger] disk[i]) == keep(
        disk[i],
    ) by {
        assert(ids_of(disk)[i] == disk[i].id);
        if disk[i].id != active_id {
            ids_of(disk).lemma_filter_contains(other, i);
        } else if judged.contains(active_id) {
            let k = choose|k: int| 0 <= k < judged.len() && judged[k] == active_id;
            ids_of(disk).lemma_filter_pred(other, k);
        }
    }
    lemma_filters_agree(disk, left, keep);
}

proof fn lemma_filters_agree(
    disk: Seq<DiskSegment>,
    p: spec_fn(DiskSegment) -> bool,
    q: spec_fn(DiskSegment) -> bool,
)
    requires
        forall|i: int| 0 <= i < disk.len() ==> p(#[trigger] disk[i]) == q(disk[i]),
    ensures
        disk.filter(p) == disk.filter(q),
    decreases disk.len(),
{
    reveal(Seq::filter);
    if disk.len() > 0 {
        let front = disk.drop_last();
        assert forall|i: int| 0 <= i < front.len() implies p(#[trigger] front[i]) == q(
            front[i],
        ) by {
            assert(front[i] == disk[i]);
        }
        lemma_filters_agree(front, p, q);
        assert(p(disk[disk.len() - 1]) == q(disk[disk.len() - 1]));
    }
}

proof fn lemma_swept_is_ordered(
    disk: Seq<DiskSegment>,
    c: Codec,
    active_id: u64,
    cutoff: Timestamp,
)
    requires
        ordered(disk),
    ensures
        ordered(swept(disk, c, active_id, cutoff)),
        forall|k: int|
            0 <= k < swept(disk, c, active_id, cutoff).len() ==> disk.contains(
                #[trigger] swept(disk, c, active_id, cutoff)[k],
            ),
    decreases disk.len(),
{
    let keep = |s: DiskSegment| s.id == active_id || !is_stale(s, c, cutoff);
    let kept = swept(disk, c, active_id, cutoff);
    assert forall|k: int| 0 <= k < kept.len() implies disk.contains(#[trigger] kept[k]) by {
        assert(kept.contains(kept[k]));
        disk.lemma_filter_contains_rev(keep, kept[k]);
    }
    reveal(Seq::filter);
    if disk.len() > 0 {
        let front = disk.drop_last();
        let last = disk.last();
        assert(ordered(front)) by {
            assert forall|i: int, j: int| 0 <= i < j < front.len() implies front[i].id
                < front[j].id by {
                assert(disk[i].id < disk[j].id);
            }
        }
        lemma_swept_is_ordered(front, c, active_id, cutoff);
        let before = swept(front, c, active_id, cutoff);
        if keep(last) {
            assert(kept == before.push(last));
            assert forall|i: int, j: int| 0 <= i < j < kept.len() implies kept[i].id
                < kept[j].id by {
                if j == before.len() {
                    assert(front.contains(before[i]));
                    let m = choose|m: int| 0 <= m < front.len() && front[m] == before[i];
                    assert(disk[m].id < disk[disk.len() - 1].id);
                } else {
                    assert(before[i].id < before[j].id);
                }
            }
        } else {
            assert(kept == before);
        }
    }
}

/// Retention does not disturb the log: the segment that is being written is
/// left as it is, and the log goes on to write where the disk ends. This holds
/// after a rotation that failed as well: the segment that is still open is the
/// active one then.
pub proof fn law_sweep_spares_the_open_segment(
    log: OpLogView,
    disk: Seq<DiskSegment>,
    c: Codec,
    cutoff: Timestamp,
)
    requires
        aligned(log, disk),
    ensures
        aligned(log, swept(disk, c, log.active_id, cutoff)),
        swept(disk, c, log.active_id, cutoff).last() == disk.last(),
        swept(disk, c, log.after(AppendEvent::OpenFailed).active_id, cutoff).last()
            == disk.last(),
{
    lemma_swept_is_ordered(disk, c, log.active_id, cutoff);
    reveal(Seq::filter);
    let front = disk.drop_last();
    assert(swept(disk, c, log.active_id, cutoff) == swept(front, c, log.active_id, cutoff).push(
        disk.last(),
    ));
}

/// Sweeping again with the same cutoff removes nothing more.
pub proof fn law_sweep_is_idempotent(
    disk: Seq<DiskSegment>,
    c: Codec,
    active_id: u64,
    cutoff: Timestamp,
)
    ensures
        swept(swept(disk, c, active_id, cutoff), c, active_id, cutoff) == swept(
            disk,
            c,
            active_id,
            cutoff,
        ),
    decreases disk.len(),
{
    reveal(Seq::filter);
    if disk.len() > 0 {
        let front = disk.drop_last();
        law_sweep_is_idempotent(front, c, active_id, cutoff);
        let kept = swept(front, c, active_id, cutoff);
        assert(kept.push(disk.last()).drop_last() =~= kept);
    }
}

proof fn lemma_expired_has_no_recent(entries: Seq<OpEntryView>, cutoff: Timestamp)
    requires
        is_expired(entries, cutoff),
    ensures
        entries.filter(|e: OpEntryView| !e.timestamp.precedes(cutoff)) == Seq::<
            OpEntryView,
        >::empty(),
    decreases entries.len(),
{
    reveal(Seq::filter);
    if entries.len() > 0 {
        let front = entries.drop_last();
        assert forall|i: int| 0 <= i < front.len() implies (
        #[trigger] front[i]).timestamp.precedes(cutoff) by {
            assert(front[i] == entries[i]);
        }
        lemma_expired_has_no_recent(front, cutoff);
        assert(entries[entries.len() - 1].timestamp.precedes(cutoff));
    } else {
        assert(entries =~= Seq::<OpEntryView>::empty());
    }
}

/// Retention drops no entry that is as new as the cutoff: the recent entries
/// on disk are the same before and after, in the same order.
pub proof fn law_sweep_keeps_recent_entries(
    disk: Seq<DiskSegment>,
    c: Codec,
    active_id: u64,
    cutoff: Timestamp,
)
    ensures
        history(swept(disk, c, active_id, cutoff), c).filter(
            |e: OpEntryView| !e.timestamp.precedes(cutoff),
        ) == history(disk, c).filter(|e: OpEntryView| !e.timestamp.precedes(cutoff)),
    decreases disk.len(),
{
    let recent = |e: OpEntryView| !e.timestamp.precedes(cutoff);
    reveal(Seq::filter);
    if disk.len() > 0 {
        let front = disk.drop_last();
        let last = disk.last();
        law_sweep_keeps_recent_entries(front, c, active_id, cutoff);
        Seq::filter_distributes_over_add(history(front, c), c.entries_in(last.file), recent);
        let kept = swept(front, c, active_id, cutoff);
        if last.id == active_id || !is_stale(last, c, cutoff) {
            assert(swept(disk, c, active_id, cutoff) == kept.push(last));
            assert(kept.push(last).drop_last() =~= kept);
            Seq::filter_distributes_over_add(history(kept, c), c.entries_in(last.file), recent);
        } else {
            assert(swept(disk, c, active_id, cutoff) == kept);
            lemma_expired_has_no_recent(c.entries_in(last.file), cutoff);
            assert(history(front, c).filter(recent) + Seq::<OpEntryView>::empty()
                =~= history(front, c).filter(recent));
        }
    }
}

/// How many of these segments are expired.
spec fn expired_among(
    ids: Seq<u64>,
    disk: Seq<DiskSegment>,
    c: Codec,
    cutoff: Timestamp,
) -> nat
    decreases ids.len(),
{
    if ids.len() == 0 {
        0
    } else {
        expired_among(ids.drop_last(), disk, c, cutoff) + if is_expired(
            entries_of(disk, c, ids.last()),
            cutoff,
        ) {
            1nat
        } else {
            0nat
        }
    }
}

proof fn lemma_sweep_counts_expired(s: SweepView, disk: Seq<DiskSegment>, c: Codec)
    requires
        s.judged <= s.ids.len(),
        s.removed == expired_among(s.ids.take(s.judged as int), disk, c, s.cutoff),
    ensures
        swept_through(s, disk, c).removed == expired_among(s.ids, disk, c, s.cutoff),
    decreases s.ids.len() - s.judged,
{
    if s.judged < s.ids.len() {
        let id = s.ids[s.judged as int];
        let next = SweepView {
            judged: s.judged + 1,
            removed: s.removed + if is_expired(entries_of(disk, c, id), s.cutoff) {
                1nat
            } else {
                0nat
            },
            ..s
        };
        let taken = s.ids.take(s.judged + 1int);
        assert(taken.drop_last() =~= s.ids.take(s.judged as int));
        assert(taken.last() == id);
        lemma_sweep_counts_expired(next, disk, c);
    } else {
        assert(s.ids.take(s.judged as int) =~= s.ids);
    }
}

proof fn lemma_dropped_are_expired(
    disk: Seq<DiskSegment>,
    c: Codec,
    active_id: u64,
    cutoff: Timestamp,
    n: int,
)
    requires
        ordered(disk),
        0 <= n <= disk.len(),
    ensures
        expired_among(sweep_of(disk.take(n), active_id, cutoff).ids, disk, c, cutoff) + swept(
            disk.take(n),
            c,
            active_id,
            cutoff,
        ).len() == n,
    decreases n,
{
    reveal(Seq::filter);
    if n > 0 {
        let front = disk.take(n - 1);
        let part = disk.take(n);
        let last = disk[n - 1];
        lemma_dropped_are_expired(disk, c, active_id, cutoff, n - 1);
        assert(part.drop_last() =~= front);
        assert(part.last() == last);
        assert(ids_of(part).drop_last() =~= ids_of(front));
        assert(ids_of(part).last() == last.id);
        let i = choose|i: int| 0 <= i < disk.len() && disk[i].id == last.id;
        assert(i == n - 1) by {
            if i < n - 1 {
                assert(disk[i].id < disk[n - 1].id);
            } else if i > n - 1 {
                assert(disk[n - 1].id < disk[i].id);
            }
        }
        assert(entries_of(disk, c, last.id) == c.entries_in(last.file));
        let before = other_ids(ids_of(front), active_id);
        if last.id != active_id {
            assert(other_ids(ids_of(part), active_id) == before.push(last.id));
            assert(before.push(last.id).drop_last() =~= before);
        } else {
            assert(other_ids(ids_of(part), active_id) == before);
        }
        let kept = swept(front, c, active_id, cutoff);
        if last.id == active_id || !is_stale(last, c, cutoff) {
            assert(swept(part, c, active_id, cutoff) == kept.push(last));
        } else {
            assert(swept(part, c, active_id, cutoff) == kept);
        }
    } else {
        assert(ids_of(disk.take(0)) =~= Seq::<u64>::empty());
        assert(sweep_of(disk.take(0), active_id, cutoff).ids =~= Seq::<u64>::empty());
        assert(disk.take(0) =~= Seq::<DiskSegment>::empty());
    }
}

/// The number that a sweep reports is the number of segments that it dropped.
pub proof fn law_sweep_reports_what_it_removed(
    disk: Seq<DiskSegment>,
    c: Codec,
    active_id: u64,
    cutoff: Timestamp,
)
    requires
        ordered(disk),
    ensures
        swept_through(sweep_of(disk, active_id, cutoff), disk, c).removed + swept(
            disk,
            c,
            active_id,
            cutoff,
        ).len() == disk.len(),
{
    let s = sweep_of(disk, active_id, cutoff);
    assert(s.ids.take(0) =~= Seq::<u64>::empty());
    lemma_sweep_counts_expired(s, disk, c);
    lemma_dropped_are_expired(disk, c, active_id, cutoff, disk.len() as int);
    assert(disk.take(disk.len() as int) =~= disk);
}

/// A sweep leaves no expired segment but the active one: every other segment
/// that is left holds an entry that is as new as the cutoff. And every segment
/// that holds such an entry is left.
pub proof fn law_sweep_leaves_nothing_expired(
    disk: Seq<DiskSegment>,
    c: Codec,
    active_id: u64,
    cutoff: Timestamp,
    s: DiskSegment,
)
    requires
        disk.contains(s),
        s.id != active_id,
    ensures
        swept(disk, c, active_id, cutoff).contains(s) <==> exists|i: int|
            0 <= i < c.entries_in(s.file).len() && {
                let at = (#[trigger] c.entries_in(s.file)[i]).timestamp;
                at.secs > cutoff.secs || (at.secs == cutoff.secs && at.nanos >= cutoff.nanos)
            },
{
    let keep = |x: DiskSegment| x.id == active_id || !is_stale(x, c, cutoff);
    let entries = c.entries_in(s.file);
    law_expired_is_all_older(entries, cutoff);
    let k = choose|k: int| 0 <= k < disk.len() && disk[k] == s;
    if swept(disk, c, active_id, cutoff).contains(s) {
        let kept = disk.filter(keep);
        let m = choose|m: int| 0 <= m < kept.len() && kept[m] == s;
        disk.lemma_filter_pred(keep, m);
        let i = choose|i: int|
            0 <= i < entries.len() && {
                let at = (#[trigger] entries[i]).timestamp;
                !(at.secs < cutoff.secs || (at.secs == cutoff.secs && at.nanos < cutoff.nanos))
            };
        assert(entries[i] == c.entries_in(s.file)[i]);
    } else {
        if keep(s) {
            disk.lemma_filter_contains(keep, k);
        }
        assert(is_stale(s, c, cutoff));
    }
}

} // verus!
