//! What holds in every state that a log can reach, by whatever appends and
//! sweeps, and whatever the disk refused on the way.

use vstd::prelude::*;

use crate::durability::{
    aligned, at_work, has_id_for_next, law_append_extends_history, law_failed_write_keeps_history,
    law_opened_log_is_in_step, law_segment_length_is_bounded, law_writing_edits_nothing,
    line_bytes, newest_is_full, opened, ordered, with_bytes, with_room, written, Codec, DiskSegment,
};
use crate::lines::{law_failed_write_leaves_a_fragment, lines_of};
use crate::oplog::{AppendEvent, OpEntryView, OpLogView};
use crate::retention::{law_sweep_keeps_active_segment, law_sweep_spares_the_open_segment, swept};
use crate::timestamp::Timestamp;

verus! {

/// A log and its disk.
#[verifier::ext_equal]
pub struct World {
    pub log: OpLogView,
    pub disk: Seq<DiskSegment>,
}

/// One thing that happens to a log.
pub enum Step {
    /// An entry is appended.
    Append(OpEntryView),
    /// The disk takes only this part of the line of an entry.
    RefusedWrite { entry: OpEntryView, part: Seq<u8> },
    /// The next segment cannot be opened.
    RefusedOpen,
    /// The file of the active segment cannot be read.
    RefusedInspection,
    /// Expired segments are removed.
    Sweep(Timestamp),
}

impl World {
    /// Whether a step may come to pass. Only a part of a line is refused, and
    /// there are ids left for the segments.
    pub open spec fn allows(self, step: Step, c: Codec) -> bool {
        let per_segment = self.log.entries_per_segment;
        match step {
            Step::Append(e) => c.spells(e) && has_id_for_next(self.disk, per_segment),
            Step::RefusedWrite { entry, part } => {
                &&& c.spells(entry)
                &&& has_id_for_next(self.disk, per_segment)
                &&& part.is_prefix_of(line_bytes(self.disk, per_segment, c, entry))
                &&& part.len() < line_bytes(self.disk, per_segment, c, entry).len()
            },
            Step::RefusedOpen => newest_is_full(self.disk, per_segment),
            Step::RefusedInspection => !self.log.tail_known,
            Step::Sweep(_) => true,
        }
    }

    /// The log and its disk after a step.
    pub open spec fn after(self, step: Step, c: Codec) -> World {
        let per_segment = self.log.entries_per_segment;
        match step {
            Step::Append(e) => World {
                log: at_work(self.log, self.disk).appended(e),
                disk: written(self.disk, per_segment, c, e),
            },
            Step::RefusedWrite { entry, part } => World {
                log: at_work(self.log, self.disk).after(AppendEvent::WriteFailed),
                disk: with_bytes(self.disk, per_segment, part),
            },
            Step::RefusedOpen => World {
                log: self.log.settled(self.disk.last().file).after(AppendEvent::OpenFailed),
                disk: self.disk,
            },
            Step::RefusedInspection => World {
                log: self.log.after(AppendEvent::InspectFailed),
                disk: self.disk,
            },
            Step::Sweep(cutoff) => World {
                log: self.log,
                disk: swept(self.disk, c, self.log.active_id, cutoff),
            },
        }
    }

    /// What holds of a log and its disk at all times, where segment `first`
    /// was the active one when the log was opened: the log writes where the
    /// disk ends, the index keeps its bound, and no segment that was written
    /// to since has more lines than it may.
    pub open spec fn sound(self, first: u64) -> bool {
        &&& aligned(self.log, self.disk)
        &&& self.log.wf()
        &&& self.log.active_id >= first
        &&& self.log.entries_per_segment > 0 ==> forall|i: int|
            0 <= i < self.disk.len() && (#[trigger] self.disk[i]).id >= first ==> lines_of(
                self.disk[i].file,
            ).len() <= self.log.entries_per_segment
    }
}

/// Whether one disk holds every segment of another, and every byte of it where
/// it was.
pub open spec fn grew(before: Seq<DiskSegment>, after: Seq<DiskSegment>) -> bool {
    &&& before.len() <= after.len()
    &&& forall|i: int|
        0 <= i < before.len() ==> (#[trigger] after[i]).id == before[i].id
            && before[i].file.is_prefix_of(after[i].file)
}

/// A log that was just opened is sound.
pub proof fn law_opened_log_is_sound(
    disk: Seq<DiskSegment>,
    c: Codec,
    per_segment: nat,
    bound: nat,
)
    requires
        disk.len() > 0,
        ordered(disk),
        has_id_for_next(disk, per_segment),
    ensures
        ({
            let log = opened(disk, c, per_segment, bound);
            World { log, disk: with_room(disk, per_segment) }.sound(log.active_id)
        }),
{
    law_opened_log_is_in_step(disk, c, per_segment, bound);
    let log = opened(disk, c, per_segment, bound);
    let open = with_room(disk, per_segment);
    assert forall|i: int| per_segment > 0 && 0 <= i < open.len() && (#[trigger] open[i]).id
        >= log.active_id implies lines_of(open[i].file).len() <= per_segment by {
        if i < open.len() - 1 {
            assert(open[i].id < open[open.len() - 1].id);
        }
    }
}

proof fn lemma_written_lines_are_bounded(
    before: Seq<DiskSegment>,
    after: Seq<DiskSegment>,
    per_segment: nat,
    first: u64,
)
    requires
        before.len() > 0,
        before.len() <= after.len() <= before.len() + 1,
        forall|i: int| 0 <= i < after.len() - 1 ==> (#[trigger] after[i]) == before[i],
        lines_of(after.last().file).len() <= per_segment,
        forall|i: int|
            0 <= i < before.len() && (#[trigger] before[i]).id >= first ==> lines_of(
                before[i].file,
            ).len() <= per_segment,
    ensures
        forall|i: int|
            0 <= i < after.len() && (#[trigger] after[i]).id >= first ==> lines_of(
                after[i].file,
            ).len() <= per_segment,
{
    assert forall|i: int| 0 <= i < after.len() && (#[trigger] after[i]).id >= first implies lines_of(
        after[i].file,
    ).len() <= per_segment by {
        if i < after.len() - 1 {
            assert(after[i] == before[i]);
        }
    }
}

/// Every step keeps a log sound. The active segment is the one with the largest
/// id, and its id never decreases. Only a sweep takes anything from the disk.
pub proof fn law_step_keeps_log_sound(w: World, step: Step, c: Codec, first: u64)
    requires
        w.sound(first),
        w.allows(step, c),
    ensures
        w.after(step, c).sound(first),
        w.after(step, c).log.active_id >= w.log.active_id,
        w.after(step, c).log.entries_per_segment == w.log.entries_per_segment,
        w.after(step, c).log.max_index_entries == w.log.max_index_entries,
        !(step is Sweep) ==> grew(w.disk, w.after(step, c).disk),
{
    let per_segment = w.log.entries_per_segment;
    let after = w.after(step, c);
    match step {
        Step::Append(e) => {
            law_append_extends_history(w.log, w.disk, c, e);
            let bytes = line_bytes(w.disk, per_segment, c, e);
            assert forall|i: int| 0 <= i < w.disk.len() implies (#[trigger] after.disk[i]).id
                == w.disk[i].id && w.disk[i].file.is_prefix_of(after.disk[i].file) by {
                law_writing_edits_nothing(w.disk, per_segment, bytes, i);
            }
            if per_segment > 0 {
                law_segment_length_is_bounded(w.log, w.disk, c, e);
                lemma_written_lines_are_bounded(w.disk, after.disk, per_segment, first);
            }
        },
        Step::RefusedWrite { entry, part } => {
            law_failed_write_keeps_history(w.log, w.disk, c, entry, part);
            assert forall|i: int| 0 <= i < w.disk.len() implies (#[trigger] after.disk[i]).id
                == w.disk[i].id && w.disk[i].file.is_prefix_of(after.disk[i].file) by {
                law_writing_edits_nothing(w.disk, per_segment, part, i);
            }
            if per_segment > 0 {
                let open = with_room(w.disk, per_segment);
                law_failed_write_leaves_a_fragment(open.last().file, (c.encode)(entry), part);
                assert(lines_of(Seq::<u8>::empty()).len() == 0);
                lemma_written_lines_are_bounded(w.disk, after.disk, per_segment, first);
            }
        },
        Step::RefusedOpen => {},
        Step::RefusedInspection => {},
        Step::Sweep(cutoff) => {
            law_sweep_spares_the_open_segment(w.log, w.disk, c, cutoff);
            law_sweep_keeps_active_segment(
                w.disk,
                c,
                w.log.active_id,
                cutoff,
                w.disk.len() - 1,
            );
            assert forall|i: int|
                per_segment > 0 && 0 <= i < after.disk.len() && (#[trigger] after.disk[i]).id
                    >= first implies lines_of(after.disk[i].file).len() <= per_segment by {
                assert(w.disk.contains(after.disk[i]));
                let k = choose|k: int| 0 <= k < w.disk.len() && w.disk[k] == after.disk[i];
                assert(w.disk[k].id >= first);
            }
        },
    }
}

/// The log and its disk after a run of steps.
pub open spec fn after_run(w: World, steps: Seq<Step>, c: Codec) -> World
    decreases steps.len(),
{
    if steps.len() == 0 {
        w
    } else {
        after_run(w, steps.drop_last(), c).after(steps.last(), c)
    }
}

/// Whether every step of a run may come to pass.
pub open spec fn allows_run(w: World, steps: Seq<Step>, c: Codec) -> bool
    decreases steps.len(),
{
    steps.len() > 0 ==> {
        &&& allows_run(w, steps.drop_last(), c)
        &&& after_run(w, steps.drop_last(), c).allows(steps.last(), c)
    }
}

/// Whatever happens to a log, it stays sound: the index never outgrows its
/// bound, no segment that was written to has more lines than it may, the
/// active segment has the largest id of all, and that id never decreases.
/// Where nothing was swept, nothing is gone from the disk.
pub proof fn law_every_run_keeps_log_sound(w: World, steps: Seq<Step>, c: Codec, first: u64)
    requires
        w.sound(first),
        allows_run(w, steps, c),
    ensures
        ({
            let after = after_run(w, steps, c);
            &&& after.sound(first)
            &&& after.log.index.len() <= w.log.max_index_entries
            &&& after.log.entries_per_segment == w.log.entries_per_segment
            &&& after.log.max_index_entries == w.log.max_index_entries
            &&& after.log.active_id >= w.log.active_id
            &&& forall|i: int|
                0 <= i < after.disk.len() ==> (#[trigger] after.disk[i]).id <= after.log.active_id
            &&& (forall|i: int| 0 <= i < steps.len() ==> !((#[trigger] steps[i]) is Sweep))
                ==> grew(w.disk, after.disk)
        }),
    decreases steps.len(),
{
    let after = after_run(w, steps, c);
    if steps.len() > 0 {
        let front = steps.drop_last();
        law_every_run_keeps_log_sound(w, front, c, first);
        let before = after_run(w, front, c);
        law_step_keeps_log_sound(before, steps.last(), c, first);
        if forall|i: int| 0 <= i < steps.len() ==> !((#[trigger] steps[i]) is Sweep) {
            assert forall|i: int| 0 <= i < front.len() implies !((#[trigger] front[i]) is Sweep) by {
                assert(front[i] == steps[i]);
            }
            assert(!(steps[steps.len() - 1] is Sweep));
            assert forall|i: int| 0 <= i < w.disk.len() implies (#[trigger] after.disk[i]).id
                == w.disk[i].id && w.disk[i].file.is_prefix_of(after.disk[i].file) by {
                let a = w.disk[i].file;
                let b = before.disk[i].file;
                let d = after.disk[i].file;
                assert(before.disk[i].id == w.disk[i].id);
                assert(a =~= d.subrange(0, a.len() as int)) by {
                    assert(a == b.subrange(0, a.len() as int));
                    assert(b == d.subrange(0, b.len() as int));
                    assert forall|k: int| 0 <= k < a.len() implies a[k] == d[k] by {
                        assert(a[k] == b.subrange(0, a.len() as int)[k]);
                        assert(b[k] == d.subrange(0, b.len() as int)[k]);
                    }
                }
            }
        }
    }
    assert forall|i: int| 0 <= i < after.disk.len() implies (#[trigger] after.disk[i]).id
        <= after.log.active_id by {
        if i < after.disk.len() - 1 {
            assert(after.disk[i].id < after.disk[after.disk.len() - 1].id);
        }
    }
}

} // verus!
