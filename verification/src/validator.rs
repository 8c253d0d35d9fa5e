//! Streaming validation of decoded identifiers.
//!
//! The validator consumes identifiers in arrival order, holds the last
//! accepted one, checks each newcomer against four monotonicity rules, and
//! accumulates statistics online. Its whole behaviour is the spec transition
//! `step`, which every call of `observe` follows exactly.

use vstd::prelude::*;
use crate::codec::{
    Identifier, bytes_lt, id_wf, lex_lt, canonical_record, lemma_string_order_matches_value_order,
    lemma_timestamp_monotone, lemma_same_timestamp_counter, lemma_counter_orders_value,
    lemma_packed_fields_bounded,
};

verus! {

/// Spacing of periodic statistics reports, in milliseconds of identifier
/// timestamp.
pub const STATS_INTERVAL_MS: u64 = 10000;

/// Why the validator rejected an identifier.
#[derive(Clone, Copy, PartialEq, Eq, Debug)]
pub enum RejectReason {
    /// The string form is not strictly greater than the previous one.
    StringNotIncreasing,
    /// The numeric value is not strictly greater than the previous one.
    ValueNotIncreasing,
    /// The timestamp is smaller than the previous one.
    ClockRegression,
    /// The timestamp equals the previous one and the counter is smaller.
    CounterRegression,
}

/// The validator's verdict on one identifier.
#[derive(Clone, Copy, PartialEq, Eq, Debug)]
pub enum Verdict {
    Accepted,
    Rejected(RejectReason),
}

/// The run-level failure: the stream ended without one accepted record.
#[derive(Clone, Copy, PartialEq, Eq, Debug)]
pub enum RunError {
    NoValidRecords,
}

/// State of one validation run: the last accepted identifier (an all-zero
/// sentinel before the first) and the accumulated statistics.
#[derive(Debug)]
pub struct ValidationState {
    /// Last accepted identifier; sentinel until `n_processed > 0`.
    pub previous: Identifier,
    /// Number of accepted records.
    pub n_processed: usize,
    /// Number of rejected records, at decode time or at validation time.
    pub n_errors: usize,
    /// Timestamp of the first accepted record.
    pub ts_first: u64,
    /// Timestamp of the most recently accepted record.
    pub ts_last: u64,
    /// Number of counter-reset events after the first.
    pub n_counter_lo_update: usize,
    /// Timestamp of the last counter-reset event.
    pub ts_last_counter_update: u64,
    /// Sum of the intervals between successive counter-reset events.
    pub sum_intervals_counter_update: u64,
    /// Timestamp at which the report boundary was last crossed.
    pub ts_last_stats_print: u64,
}

/// An identifier whose packed fields leave room for the validator's
/// arithmetic: every decoded identifier satisfies this, and synthetic ones
/// must too.
pub open spec fn id_bounded(id: Identifier) -> bool {
    &&& id.unix_ts_ms <= u64::MAX - STATS_INTERVAL_MS
    &&& id.node_ctr < u32::MAX
}

impl ValidationState {
    /// Internal consistency of a run state: the accumulators never run
    /// ahead of the last accepted timestamp, and everything is zero before
    /// the first acceptance.
    pub open spec fn wf(self) -> bool {
        &&& self.n_processed == 0 ==> {
            &&& self.previous.unix_ts_ms == 0
            &&& self.previous.node_ctr == 0
            &&& self.ts_first == 0
            &&& self.ts_last == 0
            &&& self.n_counter_lo_update == 0
            &&& self.ts_last_counter_update == 0
            &&& self.sum_intervals_counter_update == 0
            &&& self.ts_last_stats_print == 0
        }
        &&& self.n_processed > 0 ==> self.ts_last == self.previous.unix_ts_ms
        &&& id_bounded(self.previous)
        &&& self.ts_first <= self.ts_last
        &&& self.ts_last_counter_update <= self.ts_last
        &&& self.sum_intervals_counter_update <= self.ts_last_counter_update
        &&& self.ts_last_stats_print <= self.ts_last
        &&& self.n_counter_lo_update <= self.n_processed
    }
}

/// The four monotonicity checks, in their fixed order, against the previous
/// accepted identifier.
pub open spec fn check(prev: Identifier, cur: Identifier) -> Verdict {
    if !lex_lt(prev.str_bytes@, cur.str_bytes@) {
        Verdict::Rejected(RejectReason::StringNotIncreasing)
    } else if cur.int_value <= prev.int_value {
        Verdict::Rejected(RejectReason::ValueNotIncreasing)
    } else if cur.unix_ts_ms < prev.unix_ts_ms {
        Verdict::Rejected(RejectReason::ClockRegression)
    } else if cur.unix_ts_ms == prev.unix_ts_ms && cur.node_ctr < prev.node_ctr {
        Verdict::Rejected(RejectReason::CounterRegression)
    } else {
        Verdict::Accepted
    }
}

/// Verdict on `cur` in state `s`: the first record of a run is exempt from
/// all checks.
pub open spec fn verdict_of(s: ValidationState, cur: Identifier) -> Verdict {
    if s.n_processed == 0 {
        Verdict::Accepted
    } else {
        check(s.previous, cur)
    }
}

/// Whether accepting `cur` in state `s` crosses a report boundary after the
/// first one, so that a statistics snapshot is emitted.
pub open spec fn emits_report(s: ValidationState, cur: Identifier) -> bool {
    &&& verdict_of(s, cur) == Verdict::Accepted
    &&& cur.unix_ts_ms > s.ts_last_stats_print + STATS_INTERVAL_MS
    &&& s.ts_last_stats_print > 0
}

/// State after accepting `cur`: timing accumulators first, the
/// counter-continuity check, the report boundary, and last the adoption of
/// `cur` as the new baseline.
pub open spec fn accept_step(s: ValidationState, cur: Identifier) -> ValidationState {
    let ts_first = if s.n_processed == 0 {
        cur.unix_ts_ms
    } else {
        s.ts_first
    };
    let reset = cur.node_ctr != s.previous.node_ctr + 1;
    let n_clu = if reset && s.ts_last_counter_update > 0 {
        (s.n_counter_lo_update + 1) as usize
    } else {
        s.n_counter_lo_update
    };
    let sum = if reset && s.ts_last_counter_update > 0 {
        (s.sum_intervals_counter_update + cur.unix_ts_ms - s.ts_last_counter_update) as u64
    } else {
        s.sum_intervals_counter_update
    };
    let tlcu = if reset {
        cur.unix_ts_ms
    } else {
        s.ts_last_counter_update
    };
    let tlsp = if cur.unix_ts_ms > s.ts_last_stats_print + STATS_INTERVAL_MS {
        cur.unix_ts_ms
    } else {
        s.ts_last_stats_print
    };
    ValidationState {
        previous: cur,
        n_processed: (s.n_processed + 1) as usize,
        n_errors: s.n_errors,
        ts_first,
        ts_last: cur.unix_ts_ms,
        n_counter_lo_update: n_clu,
        ts_last_counter_update: tlcu,
        sum_intervals_counter_update: sum,
        ts_last_stats_print: tlsp,
    }
}

/// State after rejecting one record: only the rejection counter moves, and
/// the baseline stays what it was.
pub open spec fn reject_step(s: ValidationState) -> ValidationState {
    ValidationState { n_errors: (s.n_errors + 1) as usize, ..s }
}

/// One observation: accept or reject, as the verdict says.
pub open spec fn step(s: ValidationState, cur: Identifier) -> ValidationState {
    if verdict_of(s, cur) == Verdict::Accepted {
        accept_step(s, cur)
    } else {
        reject_step(s)
    }
}

/// State after observing a whole sequence of decoded identifiers in order.
pub open spec fn run(s: ValidationState, ids: Seq<Identifier>) -> ValidationState
    decreases ids.len(),
{
    if ids.len() == 0 {
        s
    } else {
        run(step(s, ids[0]), ids.drop_first())
    }
}

/// Whether a finished run counts as a success: at least one record
/// accepted and none rejected.
pub open spec fn success_disposition(s: ValidationState) -> bool {
    s.n_processed > 0 && s.n_errors == 0
}

/// One statistics snapshot, all integer fields; a mean whose divisor is
/// zero is reported as `None` rather than as any made-up number.
#[derive(Clone, Copy, PartialEq, Eq, Debug)]
pub struct Snapshot {
    /// Milliseconds between the first and the last accepted timestamp.
    pub elapsed_ms: u64,
    /// Number of accepted records.
    pub n_processed: usize,
    /// Number of rejected records.
    pub n_errors: usize,
    /// Timestamp of the most recently accepted record.
    pub ts_last: u64,
    /// Accepted records per 256 ms bucket; `None` when less than one bucket
    /// has elapsed.
    pub mean_per_bucket: Option<u64>,
    /// Number of counter-reset events after the first.
    pub n_counter_lo_update: usize,
    /// Sum of the intervals between successive counter-reset events.
    pub sum_intervals_counter_update: u64,
    /// Mean interval between counter-reset events, in whole milliseconds;
    /// `None` when no interval has been observed yet.
    pub mean_counter_interval_ms: Option<u64>,
}

/// The snapshot a state yields.
pub open spec fn snapshot_of(s: ValidationState) -> Snapshot {
    let elapsed = (s.ts_last - s.ts_first) as u64;
    Snapshot {
        elapsed_ms: elapsed,
        n_processed: s.n_processed,
        n_errors: s.n_errors,
        ts_last: s.ts_last,
        mean_per_bucket: if elapsed / 256 > 0 {
            Some((s.n_processed as u64 / (elapsed / 256) as u64) as u64)
        } else {
            None
        },
        n_counter_lo_update: s.n_counter_lo_update,
        sum_intervals_counter_update: s.sum_intervals_counter_update,
        mean_counter_interval_ms: if s.n_counter_lo_update > 0 {
            Some((s.sum_intervals_counter_update as u64 / s.n_counter_lo_update as u64) as u64)
        } else {
            None
        },
    }
}

impl ValidationState {
    /// Fresh state: the all-zero sentinel as baseline, every accumulator at
    /// zero.
    pub fn new() -> (r: ValidationState)
        ensures
            r.wf(),
            r.n_processed == 0,
            r.n_errors == 0,
            r.previous.str_bytes@ == Seq::<u8>::empty(),
            r.previous.int_value == 0,
    {
        ValidationState {
            previous: Identifier {
                str_bytes: Vec::new(),
                int_value: 0,
                unix_ts_ms: 0,
                node_ctr: 0,
            },
            n_processed: 0,
            n_errors: 0,
            ts_first: 0,
            ts_last: 0,
            n_counter_lo_update: 0,
            ts_last_counter_update: 0,
            sum_intervals_counter_update: 0,
            ts_last_stats_print: 0,
        }
    }

    /// Observes one decoded identifier in arrival order. Returns the
    /// verdict and whether a statistics snapshot is due now; the state
    /// moves exactly as `step` says: on rejection only the error counter,
    /// on acceptance the accumulators and the baseline.
    pub fn observe(&mut self, cur: Identifier) -> (r: (Verdict, bool))
        requires
            old(self).wf(),
            id_bounded(cur),
            old(self).n_processed < usize::MAX,
            old(self).n_errors < usize::MAX,
        ensures
            *final(self) == step(*old(self), cur),
            r.0 == verdict_of(*old(self), cur),
            r.1 == emits_report(*old(self), cur),
            final(self).wf(),
            r.0 is Rejected ==> final(self).previous == old(self).previous,
    {
        if self.n_processed > 0 {
            if !bytes_lt(
                self.previous.str_bytes.as_slice(),
                cur.str_bytes.as_slice(),
            ) {
                self.n_errors = self.n_errors + 1;
                return (Verdict::Rejected(RejectReason::StringNotIncreasing), false);
            }
            if cur.int_value <= self.previous.int_value {
                self.n_errors = self.n_errors + 1;
                return (Verdict::Rejected(RejectReason::ValueNotIncreasing), false);
            }
            if cur.unix_ts_ms < self.previous.unix_ts_ms {
                self.n_errors = self.n_errors + 1;
                return (Verdict::Rejected(RejectReason::ClockRegression), false);
            }
            if cur.unix_ts_ms == self.previous.unix_ts_ms && cur.node_ctr < self.previous.node_ctr
            {
                self.n_errors = self.n_errors + 1;
                return (Verdict::Rejected(RejectReason::CounterRegression), false);
            }
        }
        if self.n_processed == 0 {
            self.ts_first = cur.unix_ts_ms;
        }
        self.ts_last = cur.unix_ts_ms;
        if cur.node_ctr != self.previous.node_ctr + 1 {
            if self.ts_last_counter_update > 0 {
                self.n_counter_lo_update = self.n_counter_lo_update + 1;
                self.sum_intervals_counter_update = self.sum_intervals_counter_update
                    + (cur.unix_ts_ms - self.ts_last_counter_update);
            }
            self.ts_last_counter_update = cur.unix_ts_ms;
        }
        let mut due: bool = false;
        if cur.unix_ts_ms > self.ts_last_stats_print + STATS_INTERVAL_MS {
            if self.ts_last_stats_print > 0 {
                due = true;
            }
            self.ts_last_stats_print = cur.unix_ts_ms;
        }
        self.n_processed = self.n_processed + 1;
        self.previous = cur;
        (Verdict::Accepted, due)
    }

    /// Observes one record that failed decoding: only the rejection counter
    /// moves.
    pub fn observe_rejection(&mut self)
        requires
            old(self).wf(),
            old(self).n_errors < usize::MAX,
        ensures
            *final(self) == reject_step(*old(self)),
            final(self).wf(),
    {
        self.n_errors = self.n_errors + 1;
    }

    /// The current statistics snapshot.
    pub fn snapshot(&self) -> (r: Snapshot)
        requires
            self.wf(),
        ensures
            r == snapshot_of(*self),
    {
        let elapsed = self.ts_last - self.ts_first;
        let buckets = elapsed / 256;
        let mean_per_bucket = if buckets > 0 {
            Some((self.n_processed as u64) / buckets)
        } else {
            None
        };
        let mean_counter_interval_ms = if self.n_counter_lo_update > 0 {
            Some(self.sum_intervals_counter_update / (self.n_counter_lo_update as u64))
        } else {
            None
        };
        Snapshot {
            elapsed_ms: elapsed,
            n_processed: self.n_processed,
            n_errors: self.n_errors,
            ts_last: self.ts_last,
            mean_per_bucket,
            n_counter_lo_update: self.n_counter_lo_update,
            sum_intervals_counter_update: self.sum_intervals_counter_update,
            mean_counter_interval_ms,
        }
    }

    /// End of stream: the final snapshot if anything was accepted, else the
    /// run-level failure.
    pub fn finish(&self) -> (r: Result<Snapshot, RunError>)
        requires
            self.wf(),
        ensures
            r is Ok <==> self.n_processed > 0,
            r matches Ok(snap) ==> snap == snapshot_of(*self),
            r is Err ==> r == Result::<Snapshot, RunError>::Err(RunError::NoValidRecords),
    {
        if self.n_processed > 0 {
            Ok(self.snapshot())
        } else {
            Err(RunError::NoValidRecords)
        }
    }

    /// Whether the whole run succeeded: at least one record accepted and
    /// none rejected.
    pub fn run_success(&self) -> (r: bool)
        ensures
            r == success_disposition(*self),
    {
        self.n_processed > 0 && self.n_errors == 0
    }
}

/// A simple counter tick — the counter moves up by exactly one — is no
/// reset event: accepting such an identifier leaves every counter-reset
/// accumulator untouched.
pub proof fn lemma_tick_is_no_reset(s: ValidationState, cur: Identifier)
    requires
        verdict_of(s, cur) == Verdict::Accepted,
        cur.node_ctr == s.previous.node_ctr + 1,
    ensures
        step(s, cur).n_counter_lo_update == s.n_counter_lo_update,
        step(s, cur).ts_last_counter_update == s.ts_last_counter_update,
        step(s, cur).sum_intervals_counter_update == s.sum_intervals_counter_update,
{
}

/// Entering a block whose counter does not continue the baseline by one is
/// exactly one reset event, once a reset baseline exists: the event counter
/// moves up by one and the interval since the last event is accumulated.
pub proof fn lemma_block_entry_is_one_reset(s: ValidationState, cur: Identifier)
    requires
        s.wf(),
        s.n_processed < usize::MAX,
        verdict_of(s, cur) == Verdict::Accepted,
        cur.node_ctr != s.previous.node_ctr + 1,
        s.ts_last_counter_update > 0,
    ensures
        step(s, cur).n_counter_lo_update == s.n_counter_lo_update + 1,
        step(s, cur).ts_last_counter_update == cur.unix_ts_ms,
{
}

/// Over accepted identifiers the timing accumulators are monotonically
/// non-decreasing, and a rejection moves none of them.
pub proof fn lemma_accumulators_monotone(s: ValidationState, cur: Identifier)
    requires
        s.wf(),
        id_bounded(cur),
    ensures
        step(s, cur).ts_first >= s.ts_first,
        step(s, cur).ts_last >= s.ts_last,
        step(s, cur).ts_last_counter_update >= s.ts_last_counter_update,
        step(s, cur).ts_last_stats_print >= s.ts_last_stats_print,
{
}

/// A well-formed identifier is bounded: its packed fields sit far below the
/// limits of their types.
pub proof fn lemma_wf_id_bounded(id: Identifier)
    requires
        id.unix_ts_ms == crate::codec::timestamp_of(id.int_value),
        id.node_ctr == crate::codec::counter_of(id.int_value),
    ensures
        id_bounded(id),
{
    lemma_packed_fields_bounded(id.int_value);
}

/// A well-formed, canonical identifier of larger value passes all four
/// checks against its predecessor.
proof fn lemma_check_accepts(prev: Identifier, cur: Identifier)
    requires
        id_wf(prev),
        id_wf(cur),
        canonical_record(prev.str_bytes@),
        canonical_record(cur.str_bytes@),
        prev.int_value < cur.int_value,
    ensures
        check(prev, cur) == Verdict::Accepted,
{
    lemma_string_order_matches_value_order(prev.str_bytes@, cur.str_bytes@);
    lemma_timestamp_monotone(prev.int_value, cur.int_value);
    if cur.unix_ts_ms == prev.unix_ts_ms {
        lemma_same_timestamp_counter(prev.int_value, cur.int_value);
    }
}

/// Conditions under which every identifier of a tail is accepted: all
/// well-formed and canonical, values strictly increasing, and the first one
/// above the baseline where there is one.
pub open spec fn increasing_chain(s: ValidationState, ids: Seq<Identifier>) -> bool {
    &&& forall|i: int|
        0 <= i < ids.len() ==> id_wf(#[trigger] ids[i]) && canonical_record(ids[i].str_bytes@)
    &&& forall|i: int|
        0 <= i < ids.len() - 1 ==> (#[trigger] ids[i].int_value) < ids[i + 1].int_value
    &&& s.n_processed > 0 ==> {
        &&& id_wf(s.previous)
        &&& canonical_record(s.previous.str_bytes@)
        &&& ids.len() > 0 ==> s.previous.int_value < ids[0].int_value
    }
}

/// Running the validator over a strictly increasing, well-formed stream
/// accepts everything: the counters and timing accumulators land exactly
/// where the first and last identifiers put them.
pub proof fn lemma_run_increasing_from(s: ValidationState, ids: Seq<Identifier>)
    requires
        s.wf(),
        s.n_processed + ids.len() <= usize::MAX,
        increasing_chain(s, ids),
    ensures
        run(s, ids).n_processed == s.n_processed + ids.len(),
        run(s, ids).n_errors == s.n_errors,
        run(s, ids).ts_first == if s.n_processed == 0 && ids.len() > 0 {
            ids[0].unix_ts_ms
        } else {
            s.ts_first
        },
        run(s, ids).ts_last == if ids.len() > 0 {
            ids.last().unix_ts_ms
        } else {
            s.ts_last
        },
        ids.len() > 0 ==> run(s, ids).previous == ids.last(),
        run(s, ids).wf(),
    decreases ids.len(),
{
    if ids.len() > 0 {
        let cur = ids[0];
        assert(id_wf(cur) && canonical_record(cur.str_bytes@));
        lemma_wf_id_bounded(cur);
        if s.n_processed > 0 {
            lemma_check_accepts(s.previous, cur);
        }
        assert(verdict_of(s, cur) == Verdict::Accepted);
        let s1 = step(s, cur);
        assert(s1 == accept_step(s, cur));
        assert(s1.wf());
        let rest = ids.drop_first();
        assert(run(s, ids) == run(s1, rest));
        assert forall|i: int|
            0 <= i < rest.len() implies id_wf(#[trigger] rest[i]) && canonical_record(
            rest[i].str_bytes@,
        ) by {
            assert(rest[i] == ids[i + 1]);
        }
        assert forall|i: int|
            0 <= i < rest.len() - 1 implies (#[trigger] rest[i].int_value)
            < rest[i + 1].int_value by {
            assert(rest[i] == ids[i + 1]);
            assert(rest[i + 1] == ids[i + 2]);
        }
        assert(rest.len() > 0 ==> s1.previous.int_value < rest[0].int_value) by {
            if rest.len() > 0 {
                assert(rest[0] == ids[1]);
            }
        }
        lemma_run_increasing_from(s1, rest);
        if rest.len() > 0 {
            assert(rest.last() == ids.last());
        }
    }
}

/// A strictly increasing, well-formed synthetic stream observed from a
/// fresh state is accepted in full: no rejections, and the first and last
/// timestamp accumulators match the stream's ends exactly.
pub proof fn lemma_increasing_stream_all_accepted(s: ValidationState, ids: Seq<Identifier>)
    requires
        s.wf(),
        s.n_processed == 0,
        s.n_errors == 0,
        ids.len() > 0,
        ids.len() <= usize::MAX,
        forall|i: int|
            0 <= i < ids.len() ==> id_wf(#[trigger] ids[i]) && canonical_record(
                ids[i].str_bytes@,
            ),
        forall|i: int|
            0 <= i < ids.len() - 1 ==> (#[trigger] ids[i].int_value) < ids[i + 1].int_value,
    ensures
        run(s, ids).n_processed == ids.len(),
        run(s, ids).n_errors == 0,
        run(s, ids).ts_first == ids[0].unix_ts_ms,
        run(s, ids).ts_last == ids.last().unix_ts_ms,
{
    lemma_run_increasing_from(s, ids);
}

/// Within a block of identifiers that share one timestamp and whose
/// counters tick up by exactly one from the baseline, no transition counts
/// as a counter-reset event: the reset accumulators do not move, while
/// every record of the block is accepted.
pub proof fn lemma_same_timestamp_block_no_resets(s: ValidationState, ids: Seq<Identifier>)
    requires
        s.wf(),
        s.n_processed > 0,
        s.n_processed + ids.len() <= usize::MAX,
        id_wf(s.previous),
        canonical_record(s.previous.str_bytes@),
        forall|i: int|
            0 <= i < ids.len() ==> id_wf(#[trigger] ids[i]) && canonical_record(
                ids[i].str_bytes@,
            ),
        forall|i: int|
            0 <= i < ids.len() ==> (#[trigger] ids[i].unix_ts_ms) == s.previous.unix_ts_ms,
        forall|i: int|
            0 <= i < ids.len() ==> (#[trigger] ids[i].node_ctr) == s.previous.node_ctr + 1 + i,
    ensures
        run(s, ids).n_counter_lo_update == s.n_counter_lo_update,
        run(s, ids).ts_last_counter_update == s.ts_last_counter_update,
        run(s, ids).sum_intervals_counter_update == s.sum_intervals_counter_update,
        run(s, ids).n_processed == s.n_processed + ids.len(),
        run(s, ids).n_errors == s.n_errors,
    decreases ids.len(),
{
    if ids.len() > 0 {
        let cur = ids[0];
        assert(id_wf(cur) && canonical_record(cur.str_bytes@));
        lemma_wf_id_bounded(cur);
        lemma_counter_orders_value(s.previous.int_value, cur.int_value);
        lemma_check_accepts(s.previous, cur);
        let s1 = step(s, cur);
        assert(s1 == accept_step(s, cur));
        assert(cur.node_ctr == s.previous.node_ctr + 1);
        assert(s1.n_counter_lo_update == s.n_counter_lo_update);
        assert(s1.ts_last_counter_update == s.ts_last_counter_update);
        assert(s1.wf());
        let rest = ids.drop_first();
        assert(run(s, ids) == run(s1, rest));
        assert forall|i: int|
            0 <= i < rest.len() implies id_wf(#[trigger] rest[i]) && canonical_record(
            rest[i].str_bytes@,
        ) by {
            assert(rest[i] == ids[i + 1]);
        }
        assert forall|i: int|
            0 <= i < rest.len() implies (#[trigger] rest[i].unix_ts_ms)
            == s1.previous.unix_ts_ms by {
            assert(rest[i] == ids[i + 1]);
        }
        assert forall|i: int|
            0 <= i < rest.len() implies (#[trigger] rest[i].node_ctr) == s1.previous.node_ctr + 1
            + i by {
            assert(rest[i] == ids[i + 1]);
        }
        lemma_same_timestamp_block_no_resets(s1, rest);
    }
}

} // verus!
