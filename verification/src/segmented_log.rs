//! Segmented log: an append-only ledger that is kept in segments of a fixed
//! size. The entries themselves are carried through unread.

use vstd::prelude::*;

verus! {

/// One segment of a ledger.
pub struct LogSegment<E> {
    pub segment_id: u64,
    pub entries: Vec<E>,
    pub max_entries: usize,
}

impl<E> LogSegment<E> {
    /// An empty segment with room for `max_entries` entries.
    pub fn new(segment_id: u64, max_entries: usize) -> (r: Self)
        ensures
            r.segment_id == segment_id,
            r.entries@ == Seq::<E>::empty(),
            r.max_entries == max_entries,
    {
        LogSegment { segment_id, entries: Vec::new(), max_entries }
    }

    /// Whether the segment takes no further entry.
    pub fn is_full(&self) -> (r: bool)
        ensures
            r == (self.entries@.len() >= self.max_entries),
    {
        self.entries.len() >= self.max_entries
    }

    /// Adds an entry at the end, unless the segment is full: then the entry is
    /// refused and the segment stays as it was.
    pub fn append(&mut self, entry: E) -> (r: bool)
        ensures
            r == (old(self).entries@.len() < old(self).max_entries),
            r ==> final(self).entries@ == old(self).entries@.push(entry),
            !r ==> final(self).entries@ == old(self).entries@,
            final(self).segment_id == old(self).segment_id,
            final(self).max_entries == old(self).max_entries,
    {
        if self.is_full() {
            return false;
        }
        self.entries.push(entry);
        true
    }
}

/// A ledger in segments.
pub struct SegmentedLog<E> {
    segments: Vec<LogSegment<E>>,
    entries_per_segment: usize,
    next_segment_id: u64,
}

/// A ledger as contracts speak of it.
#[verifier::ext_equal]
pub struct SegmentedLogView<E> {
    /// The entries of each segment. A segment's place is its id.
    pub segments: Seq<Seq<E>>,
    pub entries_per_segment: nat,
}

impl<E> SegmentedLogView<E> {
    /// There is a segment to append to, none holds more than it may, and all
    /// but the last are full.
    pub open spec fn wf(self) -> bool {
        &&& self.segments.len() > 0
        &&& forall|i: int|
            0 <= i < self.segments.len() ==> (#[trigger] self.segments[i]).len()
                <= self.entries_per_segment
        &&& forall|i: int|
            0 <= i < self.segments.len() - 1 ==> (#[trigger] self.segments[i]).len()
                == self.entries_per_segment
    }

    /// The ledger after one more entry was offered. It goes to the last
    /// segment, or to a new one where that is full; a segment without any room
    /// does not keep it.
    pub open spec fn appended(self, entry: E) -> SegmentedLogView<E> {
        let last = self.segments.last();
        SegmentedLogView {
            segments: if last.len() < self.entries_per_segment {
                self.segments.drop_last().push(last.push(entry))
            } else if self.entries_per_segment > 0 {
                self.segments.push(seq![entry])
            } else {
                self.segments.push(Seq::empty())
            },
            ..self
        }
    }

    /// Every entry, in the order in which they were appended.
    pub open spec fn all_entries(self) -> Seq<E> {
        self.segments.flatten_alt()
    }
}

/// How many entries the segments hold together.
pub open spec fn total_of<E>(segments: Seq<Seq<E>>) -> nat
    decreases segments.len(),
{
    if segments.len() == 0 {
        0
    } else {
        total_of(segments.drop_last()) + segments.last().len()
    }
}

proof fn lemma_total_grows<E>(segments: Seq<Seq<E>>, k: int)
    requires
        0 <= k <= segments.len(),
    ensures
        total_of(segments.take(k)) <= total_of(segments),
    decreases segments.len() - k,
{
    if k < segments.len() {
        lemma_total_grows(segments, k + 1);
        assert(segments.take(k + 1).drop_last() =~= segments.take(k));
    } else {
        assert(segments.take(k) =~= segments);
    }
}

impl<E> View for SegmentedLog<E> {
    type V = SegmentedLogView<E>;

    closed spec fn view(&self) -> SegmentedLogView<E> {
        SegmentedLogView {
            segments: self.segments@.map_values(|s: LogSegment<E>| s.entries@),
            entries_per_segment: self.entries_per_segment as nat,
        }
    }
}

impl<E> SegmentedLog<E> {
    /// The segments are numbered from zero and all have the same size.
    pub closed spec fn numbered(&self) -> bool {
        &&& self.next_segment_id == self.segments@.len()
        &&& forall|i: int|
            0 <= i < self.segments@.len() ==> (#[trigger] self.segments@[i]).segment_id == i
                && self.segments@[i].max_entries == self.entries_per_segment
    }

    pub open spec fn wf(&self) -> bool {
        self@.wf() && self.numbered()
    }

    /// A ledger with one empty segment.
    pub fn new(entries_per_segment: usize) -> (r: Self)
        ensures
            r@ == (SegmentedLogView {
                segments: seq![Seq::<E>::empty()],
                entries_per_segment: entries_per_segment as nat,
            }),
            r.wf(),
    {
        let mut segments: Vec<LogSegment<E>> = Vec::new();
        segments.push(LogSegment::new(0, entries_per_segment));
        let r = SegmentedLog { segments, entries_per_segment, next_segment_id: 1 };
        proof {
            assert(r@.segments =~= seq![Seq::<E>::empty()]);
        }
        r
    }

    /// Appends an entry, opening a new segment where the last one is full.
    pub fn append(&mut self, entry: E)
        requires
            old(self).wf(),
        ensures
            final(self)@ == old(self)@.appended(entry),
            final(self).wf(),
    {
        let last: usize = self.segments.len() - 1;
        let ghost before = self@;
        proof {
            assert(before.segments[last as int] == self.segments@[last as int].entries@);
        }
        if !self.segments[last].is_full() {
            let _ = self.segments[last].append(entry);
            proof {
                assert(self@.segments =~= before.appended(entry).segments);
            }
        } else {
            let mut segment: LogSegment<E> = LogSegment::new(
                self.next_segment_id,
                self.entries_per_segment,
            );
            let _ = segment.append(entry);
            self.segments.push(segment);
            proof {
                assert(self.segments.len() <= usize::MAX);
                assert(self@.segments =~= before.appended(entry).segments);
            }
            self.next_segment_id = self.next_segment_id + 1;
        }
        proof {
            assert forall|i: int| 0 <= i < self@.segments.len() - 1 implies (
            #[trigger] self@.segments[i]).len() == self@.entries_per_segment by {
                assert(self@.segments[i] == before.segments[i]);
            }
            assert forall|i: int| 0 <= i < self@.segments.len() implies (
            #[trigger] self@.segments[i]).len() <= self@.entries_per_segment by {
                if i < self@.segments.len() - 1 {
                    assert(self@.segments[i] == before.segments[i]);
                }
            }
        }
    }

    /// How many entries the ledger holds; none where that is more than a
    /// number can hold.
    pub fn checked_total(&self) -> (r: Option<usize>)
        ensures
            r matches Some(n) ==> n == total_of(self@.segments),
            r is None <==> total_of(self@.segments) > usize::MAX,
    {
        let ghost views = self@.segments;
        let mut total: usize = 0;
        proof {
            assert(views.take(0) =~= Seq::<Seq<E>>::empty());
        }
        for i in 0..self.segments.len()
            invariant
                views == self@.segments,
                total == total_of(views.take(i as int)),
        {
            proof {
                lemma_total_grows(views, i + 1);
                assert(views.take(i + 1).drop_last() =~= views.take(i as int));
                assert(views[i as int] == self.segments@[i as int].entries@);
            }
            match total.checked_add(self.segments[i].entries.len()) {
                Some(sum) => {
                    total = sum;
                },
                None => {
                    return None;
                },
            }
        }
        proof {
            assert(views.take(views.len() as int) =~= views);
        }
        Some(total)
    }

    /// How many entries the ledger holds.
    pub fn total_entries(&self) -> (r: usize)
        requires
            total_of(self@.segments) <= usize::MAX,
        ensures
            r == total_of(self@.segments),
    {
        match self.checked_total() {
            Some(total) => total,
            None => 0,
        }
    }

    /// How many segments the ledger has.
    pub fn segment_count(&self) -> (r: usize)
        ensures
            r == self@.segments.len(),
    {
        self.segments.len()
    }
}

/// An append adds its entry behind all the others and loses none of them,
/// where segments have any room at all.
pub proof fn law_append_keeps_every_entry<E>(log: SegmentedLogView<E>, entry: E)
    requires
        log.wf(),
        log.entries_per_segment > 0,
    ensures
        log.appended(entry).all_entries() == log.all_entries().push(entry),
        total_of(log.appended(entry).segments) == total_of(log.segments) + 1,
        log.appended(entry).wf(),
{
    let after = log.appended(entry);
    let last = log.segments.last();
    if last.len() < log.entries_per_segment {
        assert(after.segments.drop_last() =~= log.segments.drop_last());
        assert(after.all_entries() =~= log.all_entries().push(entry));
    } else {
        assert(after.segments.drop_last() =~= log.segments);
        assert(after.all_entries() =~= log.all_entries().push(entry));
    }
    assert forall|i: int| 0 <= i < after.segments.len() - 1 implies (
    #[trigger] after.segments[i]).len() == after.entries_per_segment by {
        assert(after.segments[i] == log.segments[i]);
    }
    assert forall|i: int| 0 <= i < after.segments.len() implies (
    #[trigger] after.segments[i]).len() <= after.entries_per_segment by {
        if i < after.segments.len() - 1 {
            assert(after.segments[i] == log.segments[i]);
        }
    }
}

/// The number of segments follows from the number of entries: all segments but
/// the last are full.
pub proof fn law_segments_fill_up_in_turn<E>(log: SegmentedLogView<E>)
    requires
        log.wf(),
    ensures
        total_of(log.segments) == (log.segments.len() - 1) * log.entries_per_segment
            + log.segments.last().len(),
{
    let front = log.segments.drop_last();
    assert forall|i: int| 0 <= i < front.len() implies (#[trigger] front[i]).len()
        == log.entries_per_segment by {
        assert(front[i] == log.segments[i]);
    }
    lemma_full_segments(front, log.entries_per_segment);
}

proof fn lemma_full_segments<E>(segments: Seq<Seq<E>>, size: nat)
    requires
        forall|i: int| 0 <= i < segments.len() ==> (#[trigger] segments[i]).len() == size,
    ensures
        total_of(segments) == segments.len() * size,
    decreases segments.len(),
{
    if segments.len() > 0 {
        let front = segments.drop_last();
        assert forall|i: int| 0 <= i < front.len() implies (#[trigger] front[i]).len()
            == size by {
            assert(front[i] == segments[i]);
        }
        lemma_full_segments(front, size);
        let n = segments.len() as int;
        assert((n - 1) * size + size == n * size) by (nonlinear_arith);
    }
}

/// An entry that is appended stands at the end of the last segment, or alone in
/// a new one where the last is full. Every entry before it stays in its place,
/// and no other segment is opened. Segments without room take no entry.
pub proof fn law_append_fills_the_last_segment<E>(log: SegmentedLogView<E>, entry: E)
    requires
        log.segments.len() > 0,
    ensures
        ({
            let n = log.segments.len() as int;
            let last = log.segments[n - 1];
            let after = log.appended(entry);
            &&& after.entries_per_segment == log.entries_per_segment
            &&& forall|i: int|
                0 <= i < n - 1 ==> #[trigger] after.segments[i] == log.segments[i]
            &&& last.len() < log.entries_per_segment ==> after.segments.len() == n
                && after.segments[n - 1] == last.push(entry)
            &&& last.len() >= log.entries_per_segment ==> after.segments.len() == n + 1
                && after.segments[n - 1] == last
            &&& last.len() >= log.entries_per_segment > 0 ==> after.segments[n] == seq![entry]
            &&& log.entries_per_segment == 0 ==> after.segments[n].len() == 0
        }),
{
}

/// The number of entries is the sum over the segments.
pub proof fn law_total_adds_up_segments<E>(segments: Seq<Seq<E>>, segment: Seq<E>)
    ensures
        total_of(Seq::<Seq<E>>::empty()) == 0,
        total_of(segments.push(segment)) == total_of(segments) + segment.len(),
{
    assert(segments.push(segment).drop_last() =~= segments);
}

} // verus!
