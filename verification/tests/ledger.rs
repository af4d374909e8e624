//! The ledger: its segments and its decay.

use linexus_logger::decay::{sweep_at, sweep_decayed_entries, tally};
use linexus_logger::segmented_log::{LogSegment, SegmentedLog};

#[derive(Clone, Debug, PartialEq)]
struct Entry {
    amount: u64,
    minted_at: u64,
}

const LIFETIME: u64 = 365 * 24 * 60 * 60;

impl Entry {
    fn is_decayed(&self, now: u64) -> bool {
        now.saturating_sub(self.minted_at) > LIFETIME
    }
}

fn seconds_now() -> u64 {
    chrono::Utc::now().timestamp() as u64
}

fn make_entry() -> Entry {
    Entry { amount: 10, minted_at: 1_700_000_000 }
}

#[test]
fn fresh_entries_not_swept() {
    let entry = Entry { amount: 100, minted_at: seconds_now() };
    let result = sweep_decayed_entries(&[entry], |e, now| e.is_decayed(now), |e| e.amount);
    assert_eq!(result.decayed_count, 0);
}

#[test]
fn old_entries_swept() {
    let entry = Entry { amount: 50, minted_at: 1_000_000_000 };
    let result = sweep_decayed_entries(&[entry], |e, now| e.is_decayed(now), |e| e.amount);
    assert_eq!(result.decayed_count, 1);
    assert_eq!(result.total_swept, 50);
}

#[test]
fn only_decayed_entries_are_added_up() {
    let before = seconds_now();
    let entries = vec![
        Entry { amount: 5, minted_at: 0 },
        Entry { amount: 7, minted_at: before },
        Entry { amount: 11, minted_at: 1 },
    ];
    let result = sweep_decayed_entries(&entries, |e, now| e.is_decayed(now), |e| e.amount);
    assert_eq!(result.decayed_count, 2);
    assert_eq!(result.total_swept, 16);
    assert!(before <= result.sweep_timestamp && result.sweep_timestamp <= seconds_now());
}

#[test]
fn a_sweep_reads_the_ledger_at_its_time() {
    let entries = vec![Entry { amount: 5, minted_at: 0 }, Entry { amount: 7, minted_at: 10 }];
    let at = |now: u64| sweep_at(&entries, |e, now| e.is_decayed(now), |e| e.amount, now);
    let result = at(LIFETIME);
    assert_eq!((result.decayed_count, result.total_swept), (0, 0));
    let result = at(LIFETIME + 1);
    assert_eq!((result.decayed_count, result.total_swept), (1, 5));
    assert_eq!(result.sweep_timestamp, LIFETIME + 1);
    let result = at(LIFETIME + 11);
    assert_eq!((result.decayed_count, result.total_swept), (2, 12));
}

#[test]
fn readings_are_tallied() {
    let result = tally(&vec![Some(3), None, Some(0), Some(u64::MAX - 3)], 42);
    assert_eq!(result.decayed_count, 3);
    assert_eq!(result.total_swept, u64::MAX);
    assert_eq!(result.sweep_timestamp, 42);
    let result = tally(&vec![], 0);
    assert_eq!(result.decayed_count, 0);
    assert_eq!(result.total_swept, 0);
    let result = tally(&vec![None, None], 7);
    assert_eq!(result.decayed_count, 0);
    assert_eq!(result.total_swept, 0);
}

#[test]
fn tallies_of_parts_add_up() {
    let a = vec![Some(1), None];
    let b = vec![Some(4), Some(9)];
    let whole: Vec<Option<u64>> = a.iter().chain(b.iter()).copied().collect();
    let (ra, rb, r) = (tally(&a, 0), tally(&b, 0), tally(&whole, 0));
    assert_eq!(r.decayed_count, ra.decayed_count + rb.decayed_count);
    assert_eq!(r.total_swept, ra.total_swept + rb.total_swept);
    assert_eq!(r.total_swept, 14);
}

#[test]
fn log_appends_and_counts() {
    let mut log = SegmentedLog::new(100);
    log.append(make_entry());
    log.append(make_entry());
    assert_eq!(log.total_entries(), 2);
    assert_eq!(log.segment_count(), 1);
}

#[test]
fn log_creates_new_segment_when_full() {
    let mut log = SegmentedLog::new(2);
    log.append(make_entry());
    log.append(make_entry());
    assert_eq!(log.segment_count(), 1);
    log.append(make_entry());
    assert_eq!(log.segment_count(), 2);
    assert_eq!(log.total_entries(), 3);
}

#[test]
fn segments_fill_up_in_turn() {
    let mut log = SegmentedLog::new(3);
    for i in 0..10u32 {
        log.append(i);
    }
    assert_eq!(log.segment_count(), 4);
    assert_eq!(log.total_entries(), 10);
    assert_eq!(log.checked_total(), Some(10));
}

#[test]
fn segments_without_room_keep_nothing() {
    let mut log = SegmentedLog::new(0);
    log.append(1u8);
    log.append(2u8);
    assert_eq!(log.total_entries(), 0);
    assert_eq!(log.segment_count(), 3);
}

#[test]
fn a_full_segment_refuses() {
    let mut segment = LogSegment::new(7, 2);
    assert!(!segment.is_full());
    assert!(segment.append("a"));
    assert!(segment.append("b"));
    assert!(segment.is_full());
    assert!(!segment.append("c"));
    assert_eq!(segment.entries, vec!["a", "b"]);
    assert_eq!(segment.segment_id, 7);
    assert_eq!(segment.max_entries, 2);
}
