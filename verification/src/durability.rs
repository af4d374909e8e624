//! What the log promises of its segments taken together: an entry that was
//! appended is found again after a restart, also behind a line that was torn,
//! and a failure on the way takes nothing that was on disk.
//!
//! The disk is a list of segments, oldest first, each with the bytes of its
//! file.

use vstd::prelude::*;
use vstd::utf8::encode_utf8;

use crate::lines::{
    closed, is_line_text, is_whole, law_closing_keeps_lines, law_failed_write_leaves_a_fragment,
    law_line_text_is_read_back, law_torn_line_leaves_earlier_records,
    law_whole_file_gains_one_line, law_written_record_is_read_back, line_for, lines_of,
    record_lines_of, record_text, terminated_lines, unterminated, CARRIAGE_RETURN, NEWLINE,
};
use crate::oplog::{
    law_newest_entry_is_first_answer, newest, reached, records, AppendAction, AppendEvent, OpEntry,
    OpEntryView, OpLogView, QueryView, ReplayView,
};
use crate::segments::ascending;

verus! {

/// How entries are spelled as text and read back.
pub struct Codec {
    pub encode: spec_fn(OpEntryView) -> Seq<char>,
    pub decode: spec_fn(Seq<char>) -> Option<OpEntryView>,
}

impl Codec {
    /// Whether an entry is spelled as a text that can stand on one line.
    pub open spec fn spells(self, e: OpEntryView) -> bool {
        is_line_text((self.encode)(e))
    }

    /// What the text of an entry is read back as, if it is a record.
    pub open spec fn read_back(self, e: OpEntryView) -> Option<OpEntryView> {
        (self.decode)((self.encode)(e))
    }

    /// Whether an entry is read back as it was.
    pub open spec fn keeps(self, e: OpEntryView) -> bool {
        self.spells(e) && self.read_back(e) == Some(e)
    }

    /// The entry that a line holds, if it holds one.
    pub open spec fn entry_on(self, line: Seq<u8>) -> Option<OpEntryView> {
        match record_text(line) {
            Some(text) => (self.decode)(text),
            None => None,
        }
    }

    /// The entries that lines hold, in order.
    pub open spec fn entries_on(self, lines: Seq<Seq<u8>>) -> Seq<OpEntryView> {
        records(lines.map_values(|line: Seq<u8>| self.entry_on(line)))
    }

    /// The entries of a file, in order.
    pub open spec fn entries_in(self, file: Seq<u8>) -> Seq<OpEntryView> {
        self.entries_on(lines_of(file))
    }
}

/// A segment on disk.
#[verifier::ext_equal]
pub struct DiskSegment {
    pub id: u64,
    pub file: Seq<u8>,
}

/// The ids of the segments on disk, oldest first.
pub open spec fn ids_of(disk: Seq<DiskSegment>) -> Seq<u64> {
    disk.map_values(|s: DiskSegment| s.id)
}

/// Whether the segments stand in the order of their ids, each once.
pub open spec fn ordered(disk: Seq<DiskSegment>) -> bool {
    forall|i: int, j: int| 0 <= i < j < disk.len() ==> disk[i].id < disk[j].id
}

/// Every entry on disk, oldest first.
pub open spec fn history(disk: Seq<DiskSegment>, c: Codec) -> Seq<OpEntryView>
    decreases disk.len(),
{
    if disk.len() == 0 {
        Seq::empty()
    } else {
        history(disk.drop_last(), c) + c.entries_in(disk.last().file)
    }
}

/// Whether the log writes where the disk ends: its active segment is the
/// newest one on disk, and what it knows of the end of that file is so.
pub open spec fn aligned(log: OpLogView, disk: Seq<DiskSegment>) -> bool {
    &&& disk.len() > 0
    &&& ordered(disk)
    &&& disk.last().id == log.active_id
    &&& log.tail_known ==> log == log.inspected(disk.last().file)
}

/// Whether the log in memory is what the disk says: it writes where the disk
/// ends, and its index holds the newest entries on disk.
pub open spec fn in_step(log: OpLogView, disk: Seq<DiskSegment>, c: Codec) -> bool {
    &&& aligned(log, disk)
    &&& log.index == newest(history(disk, c), log.max_index_entries)
}

/// Whether the newest segment takes no further line.
pub open spec fn newest_is_full(disk: Seq<DiskSegment>, per_segment: nat) -> bool {
    lines_of(disk.last().file).len() >= per_segment
}

/// The disk once the segment that takes the next line is open.
pub open spec fn with_room(disk: Seq<DiskSegment>, per_segment: nat) -> Seq<DiskSegment> {
    if newest_is_full(disk, per_segment) {
        disk.push(DiskSegment { id: (disk.last().id + 1) as u64, file: Seq::empty() })
    } else {
        disk
    }
}

/// Whether there is an id for the segment that takes the next line.
pub open spec fn has_id_for_next(disk: Seq<DiskSegment>, per_segment: nat) -> bool {
    newest_is_full(disk, per_segment) ==> disk.last().id < u64::MAX
}

/// The disk with this file in its newest segment.
pub open spec fn with_file(disk: Seq<DiskSegment>, file: Seq<u8>) -> Seq<DiskSegment> {
    disk.drop_last().push(DiskSegment { id: disk.last().id, file })
}

/// The disk as the next line finds it: the segment that takes the line is
/// open, and a fragment at its end is closed.
pub open spec fn ready(disk: Seq<DiskSegment>, per_segment: nat) -> Seq<DiskSegment> {
    let open = with_room(disk, per_segment);
    with_file(open, closed(open.last().file))
}

/// The bytes that an append writes.
pub open spec fn line_bytes(
    disk: Seq<DiskSegment>,
    per_segment: nat,
    c: Codec,
    e: OpEntryView,
) -> Seq<u8> {
    line_for(with_room(disk, per_segment).last().file, (c.encode)(e))
}

/// The disk after these bytes were written to the segment that takes the next
/// line.
pub open spec fn with_bytes(
    disk: Seq<DiskSegment>,
    per_segment: nat,
    bytes: Seq<u8>,
) -> Seq<DiskSegment> {
    let open = with_room(disk, per_segment);
    with_file(open, open.last().file + bytes)
}

/// The disk after an append: rotation where it is due, then one line.
pub open spec fn written(
    disk: Seq<DiskSegment>,
    per_segment: nat,
    c: Codec,
    e: OpEntryView,
) -> Seq<DiskSegment> {
    with_bytes(disk, per_segment, line_bytes(disk, per_segment, c, e))
}

/// The log as it writes the next line: it knows how its segment ends, and that
/// segment has room.
pub open spec fn at_work(log: OpLogView, disk: Seq<DiskSegment>) -> OpLogView {
    log.settled(disk.last().file).with_room()
}

/// Whether opening is under way on this disk: the segments are those on disk,
/// and the entries read so far are the newest of the segments read so far.
pub open spec fn reads(r: ReplayView, disk: Seq<DiskSegment>, c: Codec) -> bool {
    &&& r.ids == ids_of(disk)
    &&& r.unread <= disk.len()
    &&& r.index == newest(history(disk.skip(r.unread as int), c), r.max_index_entries)
}

proof fn lemma_newest_push(s: Seq<OpEntryView>, e: OpEntryView, n: nat)
    ensures
        newest(newest(s, n).push(e), n) == newest(s.push(e), n),
{
    assert(newest(newest(s, n).push(e), n) =~= newest(s.push(e), n));
}

proof fn lemma_newest_front(a: Seq<OpEntryView>, b: Seq<OpEntryView>, n: nat)
    ensures
        newest(a + newest(b, n), n) == newest(a + b, n),
        b.len() >= n ==> newest(a + b, n) == newest(b, n),
{
    assert(newest(a + newest(b, n), n) =~= newest(a + b, n));
    if b.len() >= n {
        assert(newest(a + b, n) =~= newest(b, n));
    }
}

proof fn lemma_records_push(lines: Seq<Option<OpEntryView>>, line: Option<OpEntryView>)
    ensures
        line matches Some(e) ==> records(lines.push(line)) == records(lines).push(e),
        line is None ==> records(lines.push(line)) == records(lines),
{
    let pushed = lines.push(line);
    assert(pushed.drop_last() =~= lines);
    if let Some(e) = line {
        assert(records(lines) + seq![e] =~= records(lines).push(e));
    }
}

proof fn lemma_entries_push(c: Codec, lines: Seq<Seq<u8>>, line: Seq<u8>)
    ensures
        c.entry_on(line) matches Some(e) ==> c.entries_on(lines.push(line)) == c.entries_on(
            lines,
        ).push(e),
        c.entry_on(line) is None ==> c.entries_on(lines.push(line)) == c.entries_on(lines),
{
    let read = |l: Seq<u8>| c.entry_on(l);
    assert(lines.push(line).map_values(read) =~= lines.map_values(read).push(c.entry_on(line)));
    lemma_records_push(lines.map_values(read), c.entry_on(line));
}

proof fn lemma_entries_of_prefix(c: Codec, front: Seq<Seq<u8>>, lines: Seq<Seq<u8>>)
    requires
        front.is_prefix_of(lines),
    ensures
        c.entries_on(front).is_prefix_of(c.entries_on(lines)),
    decreases lines.len(),
{
    if front.len() == lines.len() {
        assert(front =~= lines);
    } else {
        let shorter = lines.drop_last();
        assert(front =~= shorter.subrange(0, front.len() as int));
        lemma_entries_of_prefix(c, front, shorter);
        assert(shorter.push(lines.last()) =~= lines);
        lemma_entries_push(c, shorter, lines.last());
        let a = c.entries_on(front);
        let b = c.entries_on(shorter);
        let d = c.entries_on(lines);
        assert(a =~= d.subrange(0, a.len() as int)) by {
            assert forall|i: int| 0 <= i < a.len() implies a[i] == d[i] by {
                assert(a[i] == b.subrange(0, a.len() as int)[i]);
                assert(b[i] == d[i]);
            }
        }
    }
}

proof fn lemma_history_concat(a: Seq<DiskSegment>, b: Seq<DiskSegment>, c: Codec)
    ensures
        history(a + b, c) == history(a, c) + history(b, c),
    decreases b.len(),
{
    if b.len() == 0 {
        assert(a + b =~= a);
        assert(history(a, c) + history(b, c) =~= history(a, c));
    } else {
        lemma_history_concat(a, b.drop_last(), c);
        assert((a + b).drop_last() =~= a + b.drop_last());
        assert(history(a + b, c) =~= history(a, c) + history(b, c));
    }
}

proof fn lemma_history_one(s: DiskSegment, c: Codec)
    ensures
        history(seq![s], c) == c.entries_in(s.file),
{
    assert(seq![s].drop_last() =~= Seq::<DiskSegment>::empty());
    assert(history(Seq::<DiskSegment>::empty(), c) + c.entries_in(s.file) =~= c.entries_in(
        s.file,
    ));
    reveal_with_fuel(history, 2);
}

proof fn lemma_empty_file(c: Codec)
    ensures
        lines_of(Seq::<u8>::empty()) == Seq::<Seq<u8>>::empty(),
        c.entries_in(Seq::empty()) == Seq::<OpEntryView>::empty(),
{
    assert(lines_of(Seq::<u8>::empty()) =~= Seq::<Seq<u8>>::empty());
    assert(c.entries_in(Seq::empty()) =~= Seq::<OpEntryView>::empty());
}

proof fn lemma_ordered_with_file(disk: Seq<DiskSegment>, file: Seq<u8>)
    requires
        disk.len() > 0,
        ordered(disk),
    ensures
        ordered(with_file(disk, file)),
        with_file(disk, file).last() == (DiskSegment { id: disk.last().id, file }),
        with_file(disk, file).drop_last() == disk.drop_last(),
{
    let after = with_file(disk, file);
    assert forall|i: int, j: int| 0 <= i < j < after.len() implies after[i].id < after[j].id by {
        assert(disk[i].id < disk[j].id);
    }
    assert(after.drop_last() =~= disk.drop_last());
}

/// Decoding the lines that may hold a record gives the entries of the file.
pub proof fn law_entries_come_from_record_lines(file: Seq<u8>, c: Codec)
    ensures
        records(record_lines_of(file).map_values(c.decode)) == c.entries_in(file),
{
    lemma_decoding_skips_no_record(lines_of(file), c);
}

proof fn lemma_decoding_skips_no_record(lines: Seq<Seq<u8>>, c: Codec)
    ensures
        records(
            lines.filter_map(|line: Seq<u8>| record_text(line)).map_values(c.decode),
        ) == c.entries_on(lines),
    decreases lines.len(),
{
    let read = |line: Seq<u8>| record_text(line);
    if lines.len() == 0 {
        assert(lines.filter_map(read).map_values(c.decode) =~= lines.map_values(
            |line: Seq<u8>| c.entry_on(line),
        ));
    } else {
        let front = lines.drop_last();
        let line = lines.last();
        lemma_decoding_skips_no_record(front, c);
        assert(front.push(line) =~= lines);
        lemma_entries_push(c, front, line);
        if let Some(text) = record_text(line) {
            assert(lines.filter_map(read).map_values(c.decode) =~= front.filter_map(
                read,
            ).map_values(c.decode).push((c.decode)(text)));
            lemma_records_push(front.filter_map(read).map_values(c.decode), (c.decode)(text));
        } else {
            assert(lines.filter_map(read) =~= front.filter_map(read));
        }
    }
}

/// A log that was shown the file of its active segment knows how it ends.
pub proof fn law_inspection_settles_the_log(log: OpLogView, disk: Seq<DiskSegment>)
    requires
        aligned(log, disk),
    ensures
        aligned(log.inspected(disk.last().file), disk),
        log.settled(disk.last().file) == log.inspected(disk.last().file),
        log.settled(disk.last().file).active_is_full() == newest_is_full(
            disk,
            log.entries_per_segment,
        ),
{
}

/// Opening the next segment loses no entry, and the log goes on to write where
/// the disk ends.
pub proof fn law_rotation_keeps_history(log: OpLogView, disk: Seq<DiskSegment>, c: Codec)
    requires
        aligned(log, disk),
        has_id_for_next(disk, log.entries_per_segment),
    ensures
        aligned(at_work(log, disk), with_room(disk, log.entries_per_segment)),
        at_work(log, disk).tail_known,
        history(with_room(disk, log.entries_per_segment), c) == history(disk, c),
        in_step(log, disk, c) ==> in_step(
            at_work(log, disk),
            with_room(disk, log.entries_per_segment),
            c,
        ),
{
    if newest_is_full(disk, log.entries_per_segment) {
        let open = with_room(disk, log.entries_per_segment);
        lemma_empty_file(c);
        assert(open.drop_last() =~= disk);
        assert(history(open, c) =~= history(disk, c));
    }
}

/// What an append asks for is what the disk needs: the next segment where the
/// newest one is full, and a line framed for the way its file ends. It looks
/// at the file first only where a write had failed.
pub proof fn law_append_asks_for_what_the_disk_needs(log: OpLogView, disk: Seq<DiskSegment>)
    requires
        aligned(log, disk),
        has_id_for_next(disk, log.entries_per_segment),
    ensures
        ({
            let first = log.settled(disk.last().file).asks_first();
            &&& log.asks(AppendEvent::Begin) == if log.tail_known {
                first
            } else {
                AppendAction::Inspect
            }
            &&& first == if newest_is_full(disk, log.entries_per_segment) {
                AppendAction::Open((disk.last().id + 1) as u64)
            } else {
                AppendAction::Write { whole: is_whole(disk.last().file) }
            }
        }),
{
}

/// An append adds one line to the segment that has room for it and changes no
/// other byte. Where the newest file is whole, that is the newest segment if
/// it has fewer lines than it may, and else the next one, and what is added is
/// the text of the entry and a newline.
pub proof fn law_append_adds_one_line(
    log: OpLogView,
    disk: Seq<DiskSegment>,
    c: Codec,
    e: OpEntryView,
)
    requires
        aligned(log, disk),
        has_id_for_next(disk, log.entries_per_segment),
        is_whole(disk.last().file),
        c.spells(e),
    ensures
        ({
            let k = lines_of(disk.last().file).len();
            let after = written(disk, log.entries_per_segment, c, e);
            let line = encode_utf8((c.encode)(e)).push(NEWLINE);
            &&& at_work(log, disk).appended(e).active_id == disk.last().id + if k
                < log.entries_per_segment {
                0int
            } else {
                1int
            }
            &&& k < log.entries_per_segment ==> after == with_file(disk, disk.last().file + line)
            &&& k >= log.entries_per_segment ==> after == disk.push(
                DiskSegment { id: (disk.last().id + 1) as u64, file: line },
            )
            &&& !encode_utf8((c.encode)(e)).contains(NEWLINE)
        }),
{
    let open = with_room(disk, log.entries_per_segment);
    law_whole_file_gains_one_line(open.last().file, (c.encode)(e));
    if newest_is_full(disk, log.entries_per_segment) {
        let line = encode_utf8((c.encode)(e)).push(NEWLINE);
        assert(open.drop_last() =~= disk);
        assert(Seq::<u8>::empty() + line =~= line);
    }
}

/// Whether closing the fragment of a file, if it has one, leaves the lines as
/// they are. A carriage return at the end of the fragment would be taken as
/// part of the line's end.
pub open spec fn closes_cleanly(file: Seq<u8>) -> bool {
    unterminated(file).len() > 0 ==> unterminated(file).last() != CARRIAGE_RETURN
}

/// Closing a fragment takes no entry from the lines before it. It changes no
/// entry at all where the fragment ends in no carriage return.
pub proof fn law_closing_keeps_entries(file: Seq<u8>, c: Codec)
    ensures
        c.entries_on(terminated_lines(file)).is_prefix_of(c.entries_in(closed(file))),
        closes_cleanly(file) ==> c.entries_in(closed(file)) == c.entries_in(file),
{
    law_closing_keeps_lines(file);
    if !is_whole(file) && closes_cleanly(file) {
        assert(lines_of(closed(file)) =~= lines_of(file));
    }
    assert(terminated_lines(file).is_prefix_of(lines_of(closed(file))));
    lemma_entries_of_prefix(c, terminated_lines(file), lines_of(closed(file)));
}

/// Making the disk ready for the next line changes no entry, where a fragment
/// at its end ends in no carriage return.
pub proof fn law_ready_disk_has_the_same_history(
    log: OpLogView,
    disk: Seq<DiskSegment>,
    c: Codec,
)
    requires
        aligned(log, disk),
        has_id_for_next(disk, log.entries_per_segment),
        closes_cleanly(disk.last().file),
    ensures
        history(ready(disk, log.entries_per_segment), c) == history(disk, c),
{
    law_rotation_keeps_history(log, disk, c);
    let open = with_room(disk, log.entries_per_segment);
    law_closing_keeps_entries(open.last().file, c);
    lemma_ordered_with_file(open, closed(open.last().file));
}

/// An append adds what its entry is read back as behind everything on disk and
/// nothing else, also where a line was torn before it. The log goes on to
/// write where the disk ends, and the file has no fragment then.
pub proof fn law_append_extends_history(
    log: OpLogView,
    disk: Seq<DiskSegment>,
    c: Codec,
    e: OpEntryView,
)
    requires
        aligned(log, disk),
        has_id_for_next(disk, log.entries_per_segment),
        c.spells(e),
    ensures
        history(written(disk, log.entries_per_segment, c, e), c) == history(
            ready(disk, log.entries_per_segment),
            c,
        ) + match c.read_back(e) {
            Some(back) => seq![back],
            None => Seq::empty(),
        },
        c.keeps(e) ==> history(written(disk, log.entries_per_segment, c, e), c) == history(
            ready(disk, log.entries_per_segment),
            c,
        ).push(e),
        aligned(at_work(log, disk).appended(e), written(disk, log.entries_per_segment, c, e)),
        is_whole(written(disk, log.entries_per_segment, c, e).last().file),
{
    law_rotation_keeps_history(log, disk, c);
    let open = with_room(disk, log.entries_per_segment);
    let file = open.last().file;
    let text = (c.encode)(e);
    law_written_record_is_read_back(file, text);
    lemma_ordered_with_file(open, file + line_for(file, text));
    lemma_ordered_with_file(open, closed(file));
    lemma_entries_push(c, lines_of(closed(file)), encode_utf8(text));
    law_line_text_is_read_back(text);
    let before = history(ready(disk, log.entries_per_segment), c);
    let after = history(written(disk, log.entries_per_segment, c, e), c);
    if let Some(back) = c.read_back(e) {
        assert(after =~= before + seq![back]);
        assert(before + seq![back] =~= before.push(back));
    } else {
        assert(after =~= before + Seq::<OpEntryView>::empty());
    }
}

/// Whatever a file ends with, an entry that is written to it as one line is
/// its last entry then, behind those that it had with its fragment closed.
pub proof fn law_written_line_is_decoded(file: Seq<u8>, c: Codec, e: OpEntryView)
    requires
        c.keeps(e),
    ensures
        c.entries_in(file + line_for(file, (c.encode)(e))) == c.entries_in(closed(file)).push(e),
{
    let text = (c.encode)(e);
    law_written_record_is_read_back(file, text);
    law_line_text_is_read_back(text);
    lemma_entries_push(c, lines_of(closed(file)), encode_utf8(text));
}

/// A log that was in step with the disk stays so through an append, also where
/// a write had failed before. A fragment at the end of the disk must end in no
/// carriage return.
pub proof fn law_append_keeps_step(
    log: OpLogView,
    disk: Seq<DiskSegment>,
    c: Codec,
    e: OpEntryView,
)
    requires
        in_step(log, disk, c),
        has_id_for_next(disk, log.entries_per_segment),
        c.keeps(e),
        closes_cleanly(disk.last().file),
    ensures
        history(written(disk, log.entries_per_segment, c, e), c) == history(disk, c).push(e),
        in_step(
            at_work(log, disk).appended(e),
            written(disk, log.entries_per_segment, c, e),
            c,
        ),
{
    law_append_extends_history(log, disk, c, e);
    law_ready_disk_has_the_same_history(log, disk, c);
    lemma_newest_push(history(disk, c), e, log.max_index_entries);
}

/// A segment never has more lines than it may, whatever went wrong before.
pub proof fn law_segment_length_is_bounded(
    log: OpLogView,
    disk: Seq<DiskSegment>,
    c: Codec,
    e: OpEntryView,
)
    requires
        aligned(log, disk),
        has_id_for_next(disk, log.entries_per_segment),
        c.spells(e),
        log.entries_per_segment > 0,
    ensures
        lines_of(written(disk, log.entries_per_segment, c, e).last().file).len()
            <= log.entries_per_segment,
{
    let open = with_room(disk, log.entries_per_segment);
    lemma_empty_file(c);
    law_written_record_is_read_back(open.last().file, (c.encode)(e));
}

/// Writing edits no segment: every byte that was on disk stays where it was.
pub proof fn law_writing_edits_nothing(
    disk: Seq<DiskSegment>,
    per_segment: nat,
    bytes: Seq<u8>,
    i: int,
)
    requires
        0 <= i < disk.len(),
    ensures
        with_bytes(disk, per_segment, bytes).len() >= disk.len(),
        with_bytes(disk, per_segment, bytes)[i].id == disk[i].id,
        disk[i].file.is_prefix_of(with_bytes(disk, per_segment, bytes)[i].file),
{
    let open = with_room(disk, per_segment);
    assert(open[i] == disk[i]);
}

/// Whether every segment but the newest has exactly its number of lines, and
/// the newest has no more.
pub open spec fn filled(disk: Seq<DiskSegment>, per_segment: nat) -> bool {
    &&& disk.len() > 0
    &&& forall|i: int|
        0 <= i < disk.len() - 1 ==> lines_of((#[trigger] disk[i]).file).len() == per_segment
    &&& lines_of(disk.last().file).len() <= per_segment
}

/// Segments are rotated by the number of their lines: appends fill one segment
/// before they open the next.
pub proof fn law_segments_are_filled_in_turn(
    log: OpLogView,
    disk: Seq<DiskSegment>,
    c: Codec,
    e: OpEntryView,
)
    requires
        aligned(log, disk),
        has_id_for_next(disk, log.entries_per_segment),
        c.spells(e),
        log.entries_per_segment > 0,
        filled(disk, log.entries_per_segment),
    ensures
        filled(written(disk, log.entries_per_segment, c, e), log.entries_per_segment),
        written(disk, log.entries_per_segment, c, e).len() == disk.len() + if newest_is_full(
            disk,
            log.entries_per_segment,
        ) {
            1nat
        } else {
            0nat
        },
{
    law_segment_length_is_bounded(log, disk, c, e);
    let after = written(disk, log.entries_per_segment, c, e);
    assert forall|i: int| 0 <= i < after.len() - 1 implies lines_of(
        (#[trigger] after[i]).file,
    ).len() == log.entries_per_segment by {
        assert(after[i] == disk[i]);
    }
}

/// A segment that could not be opened, or a file that could not be read,
/// changes nothing: the log goes on to write where the disk ends.
pub proof fn law_refusals_before_the_write_change_nothing(log: OpLogView)
    ensures
        log.after(AppendEvent::OpenFailed) == log,
        log.after(AppendEvent::InspectFailed) == log,
{
}

/// A write that fails on the way takes no entry that was on disk, and counts
/// for nothing: what the log finds when it looks at the file is what the disk
/// holds. Where not a byte was written, the segment that takes the next line
/// is as it was.
pub proof fn law_failed_write_keeps_history(
    log: OpLogView,
    disk: Seq<DiskSegment>,
    c: Codec,
    e: OpEntryView,
    part: Seq<u8>,
)
    requires
        aligned(log, disk),
        has_id_for_next(disk, log.entries_per_segment),
        c.spells(e),
        part.is_prefix_of(line_bytes(disk, log.entries_per_segment, c, e)),
        part.len() < line_bytes(disk, log.entries_per_segment, c, e).len(),
    ensures
        ({
            let torn = at_work(log, disk).after(AppendEvent::WriteFailed);
            let after = with_bytes(disk, log.entries_per_segment, part);
            &&& aligned(torn, after)
            &&& torn.index == log.index
            &&& torn.total_appended == log.total_appended
            &&& torn.settled(after.last().file) == torn.inspected(after.last().file)
            &&& part.len() == 0 ==> after == with_room(disk, log.entries_per_segment)
            &&& part.len() == 0 ==> torn.settled(after.last().file) == at_work(log, disk)
            &&& part.len() == 0 ==> history(after, c) == history(disk, c)
            &&& part.len() > 0 ==> history(ready(disk, log.entries_per_segment), c).is_prefix_of(
                history(after, c),
            )
        }),
{
    law_rotation_keeps_history(log, disk, c);
    let open = with_room(disk, log.entries_per_segment);
    let file = open.last().file;
    let after = with_bytes(disk, log.entries_per_segment, part);
    lemma_ordered_with_file(open, file + part);
    lemma_ordered_with_file(open, closed(file));
    law_failed_write_leaves_a_fragment(file, (c.encode)(e), part);
    if part.len() == 0 {
        assert(after =~= open);
    } else {
        assert(lines_of(closed(file)).is_prefix_of(lines_of(file + part)));
        lemma_entries_of_prefix(c, lines_of(closed(file)), lines_of(file + part));
        let front = history(open.drop_last(), c);
        let a = c.entries_in(closed(file));
        let b = c.entries_in(file + part);
        assert(front + a =~= (front + b).subrange(0, (front + a).len() as int)) by {
            assert forall|i: int| 0 <= i < a.len() implies a[i] == b[i] by {
                assert(a[i] == b.subrange(0, a.len() as int)[i]);
            }
        }
    }
}

/// A log that was in step with the disk stays so through a write that failed,
/// where the fragment that is left holds no entry. A fragment that was at the
/// end of the disk before must end in no carriage return.
pub proof fn law_failed_write_keeps_step(
    log: OpLogView,
    disk: Seq<DiskSegment>,
    c: Codec,
    e: OpEntryView,
    part: Seq<u8>,
)
    requires
        in_step(log, disk, c),
        has_id_for_next(disk, log.entries_per_segment),
        c.spells(e),
        closes_cleanly(disk.last().file),
        part.is_prefix_of(line_bytes(disk, log.entries_per_segment, c, e)),
        part.len() < line_bytes(disk, log.entries_per_segment, c, e).len(),
        part.len() > 0 ==> c.entry_on(
            unterminated(with_bytes(disk, log.entries_per_segment, part).last().file),
        ) is None,
    ensures
        history(with_bytes(disk, log.entries_per_segment, part), c) == history(disk, c),
        in_step(
            at_work(log, disk).after(AppendEvent::WriteFailed),
            with_bytes(disk, log.entries_per_segment, part),
            c,
        ),
{
    law_failed_write_keeps_history(log, disk, c, e, part);
    law_ready_disk_has_the_same_history(log, disk, c);
    let open = with_room(disk, log.entries_per_segment);
    let file = open.last().file;
    law_failed_write_leaves_a_fragment(file, (c.encode)(e), part);
    lemma_ordered_with_file(open, file + part);
    lemma_ordered_with_file(open, closed(file));
    if part.len() > 0 {
        let lines = lines_of(closed(file));
        if is_whole(file + part) {
            assert(lines_of(file + part) =~= lines);
        } else {
            assert(lines_of(file + part) =~= lines.push(unterminated(file + part)));
            lemma_entries_push(c, lines, unterminated(file + part));
        }
    }
}

/// A line that was torn by a crash takes no entry offline, whatever its bytes
/// are, and adds none where they are not a record.
pub proof fn law_torn_line_is_skipped(disk: Seq<DiskSegment>, c: Codec, torn: Seq<u8>)
    requires
        disk.len() > 0,
        is_whole(disk.last().file),
        !torn.contains(NEWLINE),
    ensures
        history(disk, c).is_prefix_of(
            history(with_file(disk, disk.last().file + torn), c),
        ),
        c.entry_on(torn) is None ==> history(
            with_file(disk, disk.last().file + torn),
            c,
        ) == history(disk, c),
{
    let file = disk.last().file;
    let after = with_file(disk, file + torn);
    law_torn_line_leaves_earlier_records(file, torn);
    lemma_entries_push(c, lines_of(file), torn);
    assert(after.drop_last() =~= disk.drop_last());
}

/// A directory listing in any order leads to the segments oldest first.
pub proof fn law_listing_order_does_not_matter(listed: Seq<u64>, disk: Seq<DiskSegment>)
    requires
        ordered(disk),
        listed.to_multiset() == ids_of(disk).to_multiset(),
    ensures
        ascending(listed) == ids_of(disk),
{
    let leq = |a: u64, b: u64| a <= b;
    assert(vstd::relations::total_ordering(leq));
    listed.lemma_sort_by_ensures(leq);
    assert(vstd::relations::sorted_by(ids_of(disk), leq));
    vstd::seq_lib::lemma_sorted_unique(ascending(listed), ids_of(disk), leq);
}

/// Opening starts without having read anything.
pub proof fn law_open_starts_reading(
    disk: Seq<DiskSegment>,
    c: Codec,
    per_segment: nat,
    bound: nat,
)
    ensures
        reads(ReplayView::started(ids_of(disk), per_segment, bound), disk, c),
{
    assert(disk.skip(disk.len() as int) =~= Seq::<DiskSegment>::empty());
}

/// Reading one more segment keeps the index at the newest entries read.
pub proof fn law_absorbing_keeps_reading(r: ReplayView, disk: Seq<DiskSegment>, c: Codec)
    requires
        reads(r, disk, c),
        r.next() is Some,
    ensures
        reads(r.absorbed(c.entries_in(disk[r.unread - 1].file)), disk, c),
{
    let k = r.unread as int;
    let segment = disk[k - 1];
    assert(disk.skip(k - 1) =~= seq![segment] + disk.skip(k));
    lemma_history_concat(seq![segment], disk.skip(k), c);
    lemma_history_one(segment, c);
    lemma_newest_front(
        c.entries_in(segment.file),
        history(disk.skip(k), c),
        r.max_index_entries,
    );
}

/// Once no further segment is to be read, the index holds the newest entries
/// of the whole disk, also where older segments were left unread.
pub proof fn law_opened_index_is_newest_history(r: ReplayView, disk: Seq<DiskSegment>, c: Codec)
    requires
        reads(r, disk, c),
        r.next() is None,
    ensures
        r.index == newest(history(disk, c), r.max_index_entries),
{
    let k = r.unread as int;
    assert(disk =~= disk.take(k) + disk.skip(k));
    lemma_history_concat(disk.take(k), disk.skip(k), c);
    lemma_newest_front(
        history(disk.take(k), c),
        history(disk.skip(k), c),
        r.max_index_entries,
    );
    if k == 0 {
        assert(disk.skip(0) =~= disk);
    }
}

/// Opening carried to its end: segments are read until none is to be read.
pub open spec fn replayed(r: ReplayView, disk: Seq<DiskSegment>, c: Codec) -> ReplayView
    decreases r.unread,
{
    if r.next() is None {
        r
    } else {
        replayed(r.absorbed(c.entries_in(disk[r.unread - 1].file)), disk, c)
    }
}

/// The log that is opened on a disk with at least one segment.
pub open spec fn opened(
    disk: Seq<DiskSegment>,
    c: Codec,
    per_segment: nat,
    bound: nat,
) -> OpLogView {
    replayed(ReplayView::started(ids_of(disk), per_segment, bound), disk, c).resumed(
        disk.last().file,
    )
}

/// Opening reads until the index holds the newest entries of the whole disk.
pub proof fn law_replay_ends_with_newest_history(r: ReplayView, disk: Seq<DiskSegment>, c: Codec)
    requires
        reads(r, disk, c),
    ensures
        replayed(r, disk, c).index == newest(history(disk, c), r.max_index_entries),
        replayed(r, disk, c).next() is None,
        replayed(r, disk, c).ids == r.ids,
        replayed(r, disk, c).entries_per_segment == r.entries_per_segment,
        replayed(r, disk, c).max_index_entries == r.max_index_entries,
    decreases r.unread,
{
    if r.next() is None {
        law_opened_index_is_newest_history(r, disk, c);
    } else {
        law_absorbing_keeps_reading(r, disk, c);
        law_replay_ends_with_newest_history(
            r.absorbed(c.entries_in(disk[r.unread - 1].file)),
            disk,
            c,
        );
    }
}

/// Whatever the disk holds, and however its last file ends, the log that is
/// opened on it is in step with it: its index holds the newest entries on
/// disk, and it goes on to write where the disk ends.
pub proof fn law_opened_log_is_in_step(
    disk: Seq<DiskSegment>,
    c: Codec,
    per_segment: nat,
    bound: nat,
)
    requires
        disk.len() > 0,
        ordered(disk),
        has_id_for_next(disk, per_segment),
    ensures
        in_step(opened(disk, c, per_segment, bound), with_room(disk, per_segment), c),
        opened(disk, c, per_segment, bound).index == newest(history(disk, c), bound),
        opened(disk, c, per_segment, bound).tail_known,
        opened(disk, c, per_segment, bound).entries_per_segment == per_segment,
        opened(disk, c, per_segment, bound).max_index_entries == bound,
        opened(disk, c, per_segment, bound).total_appended == 0,
{
    let r = ReplayView::started(ids_of(disk), per_segment, bound);
    law_open_starts_reading(disk, c, per_segment, bound);
    law_replay_ends_with_newest_history(r, disk, c);
    assert(ids_of(disk).last() == disk.last().id);
    if newest_is_full(disk, per_segment) {
        let open = with_room(disk, per_segment);
        lemma_empty_file(c);
        assert(open.drop_last() =~= disk);
        assert(history(open, c) =~= history(disk, c));
    }
}

/// A restart loses nothing: a log that is closed and opened again holds the
/// same entries and answers every query alike, whatever the size of its
/// segments is then. With the same size it is the same log, but for the count
/// of entries since it was opened, ready to write the next line.
pub proof fn law_restart_loses_nothing(
    log: OpLogView,
    disk: Seq<DiskSegment>,
    c: Codec,
    per_segment: nat,
)
    requires
        in_step(log, disk, c),
        has_id_for_next(disk, log.entries_per_segment),
    ensures
        opened(disk, c, per_segment, log.max_index_entries).index == log.index,
        forall|q: QueryView| #[trigger]
            q.selects(opened(disk, c, per_segment, log.max_index_entries).index) == q.selects(
                log.index,
            ),
        opened(disk, c, log.entries_per_segment, log.max_index_entries) == (OpLogView {
            total_appended: 0,
            ..at_work(log, disk)
        }),
{
    let r = ReplayView::started(ids_of(disk), per_segment, log.max_index_entries);
    law_open_starts_reading(disk, c, per_segment, log.max_index_entries);
    law_replay_ends_with_newest_history(r, disk, c);
    let same = ReplayView::started(ids_of(disk), log.entries_per_segment, log.max_index_entries);
    law_open_starts_reading(disk, c, log.entries_per_segment, log.max_index_entries);
    law_replay_ends_with_newest_history(same, disk, c);
    assert(ids_of(disk).last() == disk.last().id);
}

/// An entry whose append succeeded survives a restart: what it is read back as
/// is the newest entry of the log that is opened then, and the first answer to
/// every query that it matches. Whatever stood at the end of the file before
/// it, and whatever was removed by retention, does not matter.
pub proof fn law_appended_entry_survives_restart(
    log: OpLogView,
    disk: Seq<DiskSegment>,
    c: Codec,
    e: OpEntryView,
    per_segment: nat,
    bound: nat,
)
    requires
        aligned(log, disk),
        has_id_for_next(disk, log.entries_per_segment),
        c.spells(e),
        c.read_back(e) is Some,
        bound > 0,
    ensures
        ({
            let after = written(disk, log.entries_per_segment, c, e);
            let index = opened(after, c, per_segment, bound).index;
            let back = c.read_back(e)->0;
            &&& index.len() > 0
            &&& index.last() == back
            &&& forall|q: QueryView|
                q.accepts(back) ==> (#[trigger] q.selects(index)).len() > 0 && q.selects(index)[0]
                    == back
        }),
{
    let after = written(disk, log.entries_per_segment, c, e);
    let r = ReplayView::started(ids_of(after), per_segment, bound);
    let back = c.read_back(e)->0;
    law_append_extends_history(log, disk, c, e);
    law_open_starts_reading(after, c, per_segment, bound);
    law_replay_ends_with_newest_history(r, after, c);
    let index = opened(after, c, per_segment, bound).index;
    assert(index.last() == back);
    assert forall|q: QueryView| q.accepts(back) implies (#[trigger] q.selects(index)).len() > 0
        && q.selects(index)[0] == back by {
        law_newest_entry_is_first_answer(index, q);
    }
}

/// A log that is opened on an empty directory starts with segment zero.
pub proof fn law_new_log_starts_empty(per_segment: nat, bound: nat, last: Seq<u8>, c: Codec)
    ensures
        in_step(
            ReplayView::started(Seq::empty(), per_segment, bound).resumed(last),
            seq![DiskSegment { id: 0, file: Seq::empty() }],
            c,
        ),
{
    lemma_empty_file(c);
    lemma_history_one(DiskSegment { id: 0, file: Seq::empty() }, c);
}

/// A log and its disk after it took in entries one by one.
pub open spec fn appended_all(
    log: OpLogView,
    disk: Seq<DiskSegment>,
    c: Codec,
    entries: Seq<OpEntryView>,
) -> (OpLogView, Seq<DiskSegment>)
    decreases entries.len(),
{
    if entries.len() == 0 {
        (log, disk)
    } else {
        let before = appended_all(log, disk, c, entries.drop_last());
        (
            at_work(before.0, before.1).appended(entries.last()),
            written(before.1, before.0.entries_per_segment, c, entries.last()),
        )
    }
}

/// Whatever is appended to a log, its disk then holds what it held before and
/// the new entries behind it, all in order, and the log stays in step with it.
///
/// There must be ids left for the segments, and a fragment at the end of the
/// disk must end in no carriage return.
pub proof fn law_appends_add_up(
    log: OpLogView,
    disk: Seq<DiskSegment>,
    c: Codec,
    entries: Seq<OpEntryView>,
)
    requires
        in_step(log, disk, c),
        closes_cleanly(disk.last().file),
        log.active_id + entries.len() <= u64::MAX,
        forall|i: int| 0 <= i < entries.len() ==> c.keeps(#[trigger] entries[i]),
    ensures
        ({
            let after = appended_all(log, disk, c, entries);
            &&& history(after.1, c) == history(disk, c) + entries
            &&& in_step(after.0, after.1, c)
            &&& closes_cleanly(after.1.last().file)
            &&& after.0.active_id <= log.active_id + entries.len()
            &&& after.0.entries_per_segment == log.entries_per_segment
            &&& after.0.max_index_entries == log.max_index_entries
            &&& after.0.total_appended == log.total_appended + entries.len()
        }),
    decreases entries.len(),
{
    if entries.len() == 0 {
        assert(history(disk, c) + entries =~= history(disk, c));
    } else {
        let front = entries.drop_last();
        assert forall|i: int| 0 <= i < front.len() implies c.keeps(#[trigger] front[i]) by {
            assert(front[i] == entries[i]);
        }
        assert(c.keeps(entries[entries.len() - 1]));
        law_appends_add_up(log, disk, c, front);
        let before = appended_all(log, disk, c, front);
        law_append_keeps_step(before.0, before.1, c, entries.last());
        law_append_extends_history(before.0, before.1, c, entries.last());
        assert((history(disk, c) + front).push(entries.last()) =~= history(disk, c) + entries);
    }
}

/// Everything that was appended to a new log is on its disk, in order, and a
/// restart finds the newest of it, whatever the size of segments is then.
///
/// There must be ids left for the segments.
pub proof fn law_everything_appended_survives(
    per_segment: nat,
    bound: nat,
    c: Codec,
    entries: Seq<OpEntryView>,
    reopened_per_segment: nat,
)
    requires
        entries.len() < u64::MAX,
        forall|i: int| 0 <= i < entries.len() ==> c.keeps(#[trigger] entries[i]),
    ensures
        ({
            let log = ReplayView::started(Seq::empty(), per_segment, bound).resumed(Seq::empty());
            let disk = seq![DiskSegment { id: 0, file: Seq::empty() }];
            let after = appended_all(log, disk, c, entries);
            &&& history(after.1, c) == entries
            &&& after.0.index == newest(entries, bound)
            &&& opened(after.1, c, reopened_per_segment, bound).index == newest(entries, bound)
        }),
{
    let log = ReplayView::started(Seq::empty(), per_segment, bound).resumed(Seq::empty());
    let empty = DiskSegment { id: 0, file: Seq::empty() };
    law_new_log_starts_empty(per_segment, bound, Seq::empty(), c);
    law_appends_add_up(log, seq![empty], c, entries);
    lemma_history_one(empty, c);
    lemma_empty_file(c);
    assert(history(seq![empty], c) + entries =~= entries);
    let after = appended_all(log, seq![empty], c, entries);
    law_restart_loses_nothing(after.0, after.1, c, reopened_per_segment);
}

/// The log that an append reaches, by the events that it asks for, is the one
/// that these laws speak of: it goes on to write where the disk ends, its index
/// ends with the entry, and so does that of the log that is opened after a
/// restart.
pub proof fn law_reached_log_has_its_entry_on_disk(
    log: OpLogView,
    disk: Seq<DiskSegment>,
    c: Codec,
    file: Vec<u8>,
    e: OpEntry,
    per_segment: nat,
    bound: nat,
)
    requires
        aligned(log, disk),
        log.index.len() <= log.max_index_entries,
        has_id_for_next(disk, log.entries_per_segment),
        file@ == disk.last().file,
        c.keeps(e@),
        bound > 0,
    ensures
        ({
            let after = written(disk, log.entries_per_segment, c, e@);
            let now = reached(log, file, e);
            &&& now == at_work(log, disk).appended(e@)
            &&& aligned(now, after)
            &&& log.max_index_entries > 0 ==> now.index.len() > 0 && now.index.last() == e@
            &&& history(after, c).len() > 0 && history(after, c).last() == e@
            &&& opened(after, c, per_segment, bound).index.len() > 0
            &&& opened(after, c, per_segment, bound).index.last() == e@
            &&& in_step(log, disk, c) && closes_cleanly(disk.last().file) ==> in_step(
                now,
                after,
                c,
            )
            &&& in_step(log, disk, c) && closes_cleanly(disk.last().file) ==> opened(
                after,
                c,
                per_segment,
                log.max_index_entries,
            ).index == now.index
        }),
{
    let after = written(disk, log.entries_per_segment, c, e@);
    let now = reached(log, file, e);
    law_inspection_settles_the_log(log, disk);
    assert(now == at_work(log, disk).appended(e@));
    law_append_extends_history(log, disk, c, e@);
    law_appended_entry_survives_restart(log, disk, c, e@, per_segment, bound);
    if in_step(log, disk, c) && closes_cleanly(disk.last().file) {
        law_append_keeps_step(log, disk, c, e@);
        law_open_starts_reading(after, c, per_segment, log.max_index_entries);
        law_replay_ends_with_newest_history(
            ReplayView::started(ids_of(after), per_segment, log.max_index_entries),
            after,
            c,
        );
    }
}

} // verus!
