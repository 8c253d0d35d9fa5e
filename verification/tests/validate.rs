use scru64_check::codec::Identifier;
use scru64_check::validator::{RejectReason, RunError, ValidationState, Verdict};

/// Canonical 12-character base-36 spelling of a value.
fn enc(mut v: u64) -> Vec<u8> {
    let digits = b"0123456789abcdefghijklmnopqrstuvwxyz";
    let mut s = vec![0u8; 12];
    for i in (0..12).rev() {
        s[i] = digits[(v % 36) as usize];
        v /= 36;
    }
    s
}

/// Identifier whose value packs the given timestamp bucket and counter.
fn make_id(ts_ms: u64, ctr: u32) -> Identifier {
    let v: u64 = ((ts_ms >> 8) << 24) | u64::from(ctr);
    let id = Identifier::decode(&enc(v)).unwrap();
    assert_eq!(id.unix_ts_ms, (ts_ms >> 8) << 8);
    assert_eq!(id.node_ctr, ctr);
    id
}

#[test]
fn first_record_is_exempt_from_checks() {
    // Even the all-zero record is accepted as the first one.
    let mut st = ValidationState::new();
    let id = Identifier::decode(b"000000000000").unwrap();
    let (v, due) = st.observe(id);
    assert_eq!(v, Verdict::Accepted);
    assert!(!due);
    assert_eq!(st.n_processed, 1);
    assert_eq!(st.n_errors, 0);
}

#[test]
fn increasing_sequence_all_accepted() {
    let n: u64 = 40;
    let base: u64 = ((512000u64 >> 8) << 24) | 1;
    let mut st = ValidationState::new();
    let mut first_ts = None;
    let mut last_ts = 0;
    for k in 0..n {
        let id = Identifier::decode(&enc(base + k * 777)).unwrap();
        if first_ts.is_none() {
            first_ts = Some(id.unix_ts_ms);
        }
        last_ts = id.unix_ts_ms;
        let (v, _) = st.observe(id);
        assert_eq!(v, Verdict::Accepted);
    }
    assert_eq!(st.n_processed, n as usize);
    assert_eq!(st.n_errors, 0);
    assert_eq!(st.ts_first, first_ts.unwrap());
    assert_eq!(st.ts_last, last_ts);
    assert!(st.run_success());
}

#[test]
fn repeated_text_rejected_and_baseline_kept() {
    let mut st = ValidationState::new();
    for k in 1..=4u64 {
        let (v, _) = st.observe(make_id(256000, k as u32));
        assert_eq!(v, Verdict::Accepted);
    }
    let record4 = make_id(256000, 4);
    // Record 5 repeats the text of record 4.
    let record5 = make_id(256000, 4);
    assert_eq!(record5.str_bytes, record4.str_bytes);
    let (v, _) = st.observe(record5);
    assert_eq!(v, Verdict::Rejected(RejectReason::StringNotIncreasing));
    assert_eq!(st.previous.str_bytes, record4.str_bytes);
    assert_eq!(st.previous.int_value, record4.int_value);
    assert_eq!(st.n_processed, 4);
    assert_eq!(st.n_errors, 1);
}

#[test]
fn equal_value_under_mixed_case_rejected_as_value_not_increasing() {
    // "...A" < "...a" byte-wise, but both spell the value 10.
    let mut st = ValidationState::new();
    let (v, _) = st.observe(Identifier::decode(b"00000000000A").unwrap());
    assert_eq!(v, Verdict::Accepted);
    let (v, _) = st.observe(Identifier::decode(b"00000000000a").unwrap());
    assert_eq!(v, Verdict::Rejected(RejectReason::ValueNotIncreasing));
}

#[test]
fn clock_regression_is_reported_as_such() {
    let mut st = ValidationState::new();
    let (v, _) = st.observe(make_id(256000, 1));
    assert_eq!(v, Verdict::Accepted);
    // Synthetic identifier: text and value still increase, but the
    // timestamp field claims to be 1 ms earlier. Impossible under the real
    // packing, so it is built by hand.
    let good = make_id(256000, 2);
    let synthetic = Identifier {
        str_bytes: good.str_bytes.clone(),
        int_value: good.int_value,
        unix_ts_ms: 256000 - 1,
        node_ctr: good.node_ctr,
    };
    let (v, _) = st.observe(synthetic);
    assert_eq!(v, Verdict::Rejected(RejectReason::ClockRegression));
    assert_eq!(st.n_errors, 1);
}

#[test]
fn counter_regression_is_reported_as_such() {
    let mut st = ValidationState::new();
    let (v, _) = st.observe(make_id(256000, 5));
    assert_eq!(v, Verdict::Accepted);
    // Synthetic identifier: text and value increase, same timestamp, but
    // the counter field claims to have moved backwards.
    let good = make_id(256000, 6);
    let synthetic = Identifier {
        str_bytes: good.str_bytes.clone(),
        int_value: good.int_value,
        unix_ts_ms: good.unix_ts_ms,
        node_ctr: 4,
    };
    let (v, _) = st.observe(synthetic);
    assert_eq!(v, Verdict::Rejected(RejectReason::CounterRegression));
}

#[test]
fn counter_block_counts_no_resets() {
    let mut st = ValidationState::new();
    // First block: counters 1..=6 in one timestamp, no gaps. The first
    // record is not a +1 tick (baseline counter is 0 with value 0 sentinel,
    // 1 == 0 + 1 is a tick), so the block is all simple ticks.
    for k in 1..=6u32 {
        let (v, _) = st.observe(make_id(256000, k));
        assert_eq!(v, Verdict::Accepted);
    }
    assert_eq!(st.n_counter_lo_update, 0);
    assert_eq!(st.ts_last_counter_update, 0);
    // New timestamp bucket: the counter restarts at 1, one reset event. The
    // very first reset only sets the baseline timestamp.
    for k in 1..=3u32 {
        let (v, _) = st.observe(make_id(256256, k));
        assert_eq!(v, Verdict::Accepted);
    }
    assert_eq!(st.n_counter_lo_update, 0);
    assert_eq!(st.ts_last_counter_update, 256256);
    // Second reset: now the interval since the last one is accumulated.
    for k in 1..=2u32 {
        let (v, _) = st.observe(make_id(256512, k));
        assert_eq!(v, Verdict::Accepted);
    }
    assert_eq!(st.n_counter_lo_update, 1);
    assert_eq!(st.ts_last_counter_update, 256512);
    assert_eq!(st.sum_intervals_counter_update, 256);
}

#[test]
fn report_boundary_emits_after_first_crossing() {
    let mut st = ValidationState::new();
    // The first crossing of the 10 s boundary only arms the reporter; with
    // a fresh state the first accepted record is that crossing.
    let (v, due) = st.observe(make_id(256000, 1));
    assert_eq!(v, Verdict::Accepted);
    assert!(!due);
    // Inside the interval: nothing due.
    let (v, due) = st.observe(make_id(260000, 1));
    assert_eq!(v, Verdict::Accepted);
    assert!(!due);
    // Next crossing emits.
    let (v, due) = st.observe(make_id(276000, 1));
    assert_eq!(v, Verdict::Accepted);
    assert!(due);
    // And inside the new interval nothing is due again.
    let (v, due) = st.observe(make_id(277000, 1));
    assert_eq!(v, Verdict::Accepted);
    assert!(!due);
}

#[test]
fn snapshot_reports_exact_statistics() {
    let mut st = ValidationState::new();
    for k in 1..=6u32 {
        let (v, _) = st.observe(make_id(256000, k));
        assert_eq!(v, Verdict::Accepted);
    }
    for k in 1..=4u32 {
        let (v, _) = st.observe(make_id(258560, k));
        assert_eq!(v, Verdict::Accepted);
    }
    st.observe_rejection();
    let snap = st.snapshot();
    assert_eq!(snap.elapsed_ms, 2560);
    assert_eq!(snap.n_processed, 10);
    assert_eq!(snap.n_errors, 1);
    assert_eq!(snap.ts_last, 258560);
    // 10 accepted over 10 buckets of 256 ms.
    assert_eq!(snap.mean_per_bucket, Some(1));
    assert_eq!(snap.n_counter_lo_update, 0);
    assert_eq!(snap.mean_counter_interval_ms, None);
}

#[test]
fn snapshot_short_run_has_no_mean_per_bucket() {
    let mut st = ValidationState::new();
    let (v, _) = st.observe(make_id(256000, 1));
    assert_eq!(v, Verdict::Accepted);
    let snap = st.snapshot();
    assert_eq!(snap.elapsed_ms, 0);
    assert_eq!(snap.mean_per_bucket, None);
}

#[test]
fn snapshot_mean_counter_interval() {
    let mut st = ValidationState::new();
    st.observe(make_id(256000, 1));
    st.observe(make_id(256256, 1));
    st.observe(make_id(256768, 1));
    st.observe(make_id(257024, 1));
    // Reset events at 256256 (baseline), 256768 (+512), 257024 (+256).
    let snap = st.snapshot();
    assert_eq!(snap.n_counter_lo_update, 2);
    assert_eq!(snap.sum_intervals_counter_update, 768);
    assert_eq!(snap.mean_counter_interval_ms, Some(384));
}

#[test]
fn zero_accepted_records_is_a_run_failure() {
    let st = ValidationState::new();
    assert_eq!(st.finish(), Err(RunError::NoValidRecords));
    assert!(!st.run_success());

    // Still a failure when rejections were seen, with any count of them.
    let mut st = ValidationState::new();
    st.observe_rejection();
    st.observe_rejection();
    assert_eq!(st.finish(), Err(RunError::NoValidRecords));
    assert!(!st.run_success());
}

#[test]
fn disposition_depends_on_rejections() {
    // At least one accepted and none rejected: success.
    let mut st = ValidationState::new();
    let (v, _) = st.observe(make_id(256000, 1));
    assert_eq!(v, Verdict::Accepted);
    assert!(st.finish().is_ok());
    assert!(st.run_success());

    // One rejection amid accepted traffic: the run fails, but the final
    // snapshot is still produced.
    st.observe_rejection();
    assert!(st.finish().is_ok());
    assert!(!st.run_success());
}
