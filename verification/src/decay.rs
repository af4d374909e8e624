//! Decay sweeper: how much of a ledger has decayed and returns to the commons.

use vstd::prelude::*;

use crate::timestamp::{utc_now, LAST_SECOND};

verus! {

/// What a sweep over a ledger found.
#[derive(Debug)]
pub struct DecaySweepResult {
    pub decayed_count: u64,
    pub total_swept: u64,
    pub sweep_timestamp: u64,
}

/// How many entries have decayed. A reading is the amount of a decayed entry,
/// or nothing for an entry that has not decayed.
pub open spec fn decayed_in(readings: Seq<Option<u64>>) -> nat {
    readings.filter_map(|reading: Option<u64>| reading).len()
}

/// The amounts of all decayed entries together.
pub open spec fn swept_in(readings: Seq<Option<u64>>) -> nat
    decreases readings.len(),
{
    if readings.len() == 0 {
        0
    } else {
        swept_in(readings.drop_last()) + match readings.last() {
            Some(amount) => amount as nat,
            None => 0,
        }
    }
}

proof fn lemma_swept_grows(readings: Seq<Option<u64>>, k: int)
    requires
        0 <= k <= readings.len(),
    ensures
        swept_in(readings.take(k)) <= swept_in(readings),
    decreases readings.len() - k,
{
    if k < readings.len() {
        lemma_swept_grows(readings, k + 1);
        assert(readings.take(k + 1).drop_last() =~= readings.take(k));
    } else {
        assert(readings.take(k) =~= readings);
    }
}

/// Sums up what was read of a ledger at `now`. The amounts must not add up to
/// more than a number can hold.
pub fn tally(readings: &Vec<Option<u64>>, now: u64) -> (r: DecaySweepResult)
    requires
        swept_in(readings@) <= u64::MAX,
    ensures
        r.decayed_count == decayed_in(readings@),
        r.total_swept == swept_in(readings@),
        r.sweep_timestamp == now,
{
    let ghost pick = |reading: Option<u64>| reading;
    let mut decayed_count: u64 = 0;
    let mut total_swept: u64 = 0;
    proof {
        assert(readings@.take(0) =~= Seq::<Option<u64>>::empty());
    }
    for i in 0..readings.len()
        invariant
            pick == (|reading: Option<u64>| reading),
            swept_in(readings@) <= u64::MAX,
            decayed_count == readings@.take(i as int).filter_map(pick).len(),
            decayed_count <= i,
            total_swept == swept_in(readings@.take(i as int)),
    {
        proof {
            readings@.lemma_filter_map_take_succ(pick, i as int);
            assert(readings@.take(i + 1).drop_last() =~= readings@.take(i as int));
            lemma_swept_grows(readings@, i + 1);
        }
        if let Some(amount) = readings[i] {
            decayed_count = decayed_count + 1;
            total_swept = total_swept + amount;
        }
    }
    proof {
        assert(readings@.take(readings@.len() as int) =~= readings@);
    }
    DecaySweepResult { decayed_count, total_swept, sweep_timestamp: now }
}

/// Whether the entries, asked at `now` whether they have decayed and for their
/// amounts, may give these readings.
pub open spec fn may_read<E, D: Fn(&E, u64) -> bool, A: Fn(&E) -> u64>(
    entries: Seq<E>,
    is_decayed: D,
    amount: A,
    now: u64,
    readings: Seq<Option<u64>>,
) -> bool {
    &&& readings.len() == entries.len()
    &&& forall|i: int|
        #![trigger readings[i]]
        0 <= i < entries.len() ==> match readings[i] {
            Some(n) => is_decayed.ensures((&entries[i], now), true) && amount.ensures(
                (&entries[i],),
                n,
            ),
            None => is_decayed.ensures((&entries[i], now), false),
        }
}

/// Sweeps a ledger at `now`: counts the entries that have decayed by then and
/// adds up their amounts. They must not add up to more than a number can hold.
pub fn sweep_at<E, D: Fn(&E, u64) -> bool, A: Fn(&E) -> u64>(
    entries: &[E],
    is_decayed: D,
    amount: A,
    now: u64,
) -> (r: DecaySweepResult)
    requires
        forall|i: int|
            0 <= i < entries@.len() ==> #[trigger] is_decayed.requires((&entries@[i], now)),
        forall|i: int| 0 <= i < entries@.len() ==> #[trigger] amount.requires((&entries@[i],)),
        forall|readings: Seq<Option<u64>>| #[trigger]
            may_read(entries@, is_decayed, amount, now, readings) ==> swept_in(readings)
                <= u64::MAX,
    ensures
        r.sweep_timestamp == now,
        exists|readings: Seq<Option<u64>>| #[trigger]
            may_read(entries@, is_decayed, amount, now, readings) && r.decayed_count == decayed_in(
                readings,
            ) && r.total_swept == swept_in(readings),
{
    let mut readings: Vec<Option<u64>> = Vec::new();
    for i in 0..entries.len()
        invariant
            forall|k: int|
                0 <= k < entries@.len() ==> #[trigger] is_decayed.requires((&entries@[k], now)),
            forall|k: int|
                0 <= k < entries@.len() ==> #[trigger] amount.requires((&entries@[k],)),
            readings@.len() == i,
            forall|k: int|
                #![trigger readings@[k]]
                0 <= k < i ==> match readings@[k] {
                    Some(n) => is_decayed.ensures((&entries@[k], now), true) && amount.ensures(
                        (&entries@[k],),
                        n,
                    ),
                    None => is_decayed.ensures((&entries@[k], now), false),
                },
    {
        if is_decayed(&entries[i], now) {
            let n: u64 = amount(&entries[i]);
            readings.push(Some(n));
        } else {
            readings.push(None);
        }
    }
    proof {
        assert(may_read(entries@, is_decayed, amount, now, readings@));
    }
    tally(&readings, now)
}

/// Sweeps a ledger at the present second.
pub fn sweep_decayed_entries<E, D: Fn(&E, u64) -> bool, A: Fn(&E) -> u64>(
    entries: &[E],
    is_decayed: D,
    amount: A,
) -> (r: DecaySweepResult)
    requires
        forall|i: int, now: u64|
            0 <= i < entries@.len() ==> #[trigger] is_decayed.requires((&entries@[i], now)),
        forall|i: int| 0 <= i < entries@.len() ==> #[trigger] amount.requires((&entries@[i],)),
        forall|now: u64, readings: Seq<Option<u64>>| #[trigger]
            may_read(entries@, is_decayed, amount, now, readings) ==> swept_in(readings)
                <= u64::MAX,
    ensures
        r.sweep_timestamp <= LAST_SECOND,
        exists|readings: Seq<Option<u64>>| #[trigger]
            may_read(entries@, is_decayed, amount, r.sweep_timestamp, readings) && r.decayed_count
                == decayed_in(readings) && r.total_swept == swept_in(readings),
{
    let now: u64 = utc_now().secs as u64;
    sweep_at(entries, is_decayed, amount, now)
}

/// A sweep over more of a ledger finds what the sweeps over its parts find.
pub proof fn law_sweeps_add_up(a: Seq<Option<u64>>, b: Seq<Option<u64>>)
    ensures
        decayed_in(a + b) == decayed_in(a) + decayed_in(b),
        swept_in(a + b) == swept_in(a) + swept_in(b),
    decreases b.len(),
{
    if b.len() == 0 {
        assert(a + b =~= a);
    } else {
        law_sweeps_add_up(a, b.drop_last());
        assert((a + b).drop_last() =~= a + b.drop_last());
    }
}

/// A ledger without decayed entries gives nothing back.
pub proof fn law_fresh_ledger_gives_nothing(readings: Seq<Option<u64>>)
    requires
        forall|i: int| 0 <= i < readings.len() ==> (#[trigger] readings[i]) is None,
    ensures
        decayed_in(readings) == 0,
        swept_in(readings) == 0,
    decreases readings.len(),
{
    if readings.len() > 0 {
        let front = readings.drop_last();
        assert forall|i: int| 0 <= i < front.len() implies (#[trigger] front[i]) is None by {
            assert(front[i] == readings[i]);
        }
        law_fresh_ledger_gives_nothing(front);
        assert(readings[readings.len() - 1] is None);
    }
}

/// A decayed entry adds one to the count and its amount to the total; an entry
/// that has not decayed adds nothing. An empty ledger gives nothing.
pub proof fn law_each_decayed_entry_counts_once(readings: Seq<Option<u64>>, amount: u64)
    ensures
        decayed_in(Seq::empty()) == 0,
        swept_in(Seq::empty()) == 0,
        decayed_in(readings.push(Some(amount))) == decayed_in(readings) + 1,
        swept_in(readings.push(Some(amount))) == swept_in(readings) + amount,
        decayed_in(readings.push(None)) == decayed_in(readings),
        swept_in(readings.push(None)) == swept_in(readings),
{
    assert(readings.push(Some(amount)).drop_last() =~= readings);
    assert(readings.push(None).drop_last() =~= readings);
}

/// What is read of a ledger is one reading for each entry: its own amount where
/// it was found decayed at that time, and nothing where it was not.
pub proof fn law_readings_are_those_of_the_entries<E, D: Fn(&E, u64) -> bool, A: Fn(&E) -> u64>(
    entries: Seq<E>,
    is_decayed: D,
    amount: A,
    now: u64,
    readings: Seq<Option<u64>>,
    i: int,
)
    requires
        may_read(entries, is_decayed, amount, now, readings),
        0 <= i < entries.len(),
    ensures
        readings.len() == entries.len(),
        readings[i] is Some ==> is_decayed.ensures((&entries[i], now), true),
        readings[i] is None ==> is_decayed.ensures((&entries[i], now), false),
        readings[i] matches Some(n) ==> amount.ensures((&entries[i],), n),
{
}

} // verus!
