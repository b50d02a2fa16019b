use timelake::audit::{
    compute_hash, is_rotated, record_line, rfc3339_utc, rotated_segments, verify_records, Append,
    AuditLog, AuditRecord, AuditSink, AuditUnavailable, NewRecord, Policy, DEFAULT_ROTATE_BYTES,
    GENESIS, MIN_RETENTION_DAYS,
};

fn ev(action: &str) -> NewRecord {
    NewRecord {
        principal: "rcowell".into(),
        role: "admin".into(),
        session: None,
        source: Some("10.0.3.7".into()),
        request_id: None,
        action: action.into(),
        target: Some("pipeline_events".into()),
        before: Some("{\"value\":\"90d\"}".into()),
        after: Some("{\"value\":\"30d\"}".into()),
        outcome: "ok".into(),
    }
}

const AT: &str = "2025-01-01T00:00:00.000000Z";

/// A directory: the rotated segments by name, and the live one.
struct Dir {
    rotated: Vec<(String, Vec<AuditRecord>)>,
    live: Vec<AuditRecord>,
    lines: Vec<String>,
}

fn dir() -> Dir {
    Dir { rotated: Vec::new(), live: Vec::new(), lines: Vec::new() }
}

fn read_all(d: &Dir) -> Vec<AuditRecord> {
    let names: Vec<String> = d.rotated.iter().map(|(n, _)| n.clone()).collect();
    let mut out = Vec::new();
    for name in rotated_segments(&names) {
        for (n, records) in &d.rotated {
            if *n == name {
                out.extend(records.iter().cloned());
            }
        }
    }
    out.extend(d.live.iter().cloned());
    out
}

fn open_with(d: &Dir, policy: Policy) -> AuditSink {
    let written: u64 = d.live.iter().map(|r| record_line(r).len() as u64).sum();
    AuditSink::recover(&read_all(d), policy, written)
}

fn store(d: &mut Dir, append: &Append) -> bool {
    let rotate = append.rotate_to.is_some();
    if let Some(name) = &append.rotate_to {
        let full = std::mem::take(&mut d.live);
        d.rotated.push((name.clone(), full));
    }
    d.live.push(append.record.clone());
    d.lines.push(append.line.clone());
    rotate
}

fn append(sink: &mut AuditSink, d: &mut Dir, node: &str, nr: NewRecord) -> AuditRecord {
    let a = sink.draft(node, nr, AT.to_string(), 0);
    let rotated = store(d, &a);
    sink.commit(&a, rotated);
    a.record
}

fn record(log: &mut AuditLog, d: &mut Dir, nr: NewRecord) -> Result<AuditRecord, AuditUnavailable> {
    let a = log.sink.draft(log.node.as_str(), nr, AT.to_string(), 0);
    let rotated = store(d, &a);
    log.record(a, rotated, Ok(()))
}

fn no_rotation() -> Policy {
    Policy { rotate_bytes: None, rotate_after_secs: None, retain_days: None }
}

fn rotating() -> Policy {
    Policy { rotate_bytes: Some(512), rotate_after_secs: None, retain_days: None }
}

#[test]
fn append_assigns_seq_and_links_the_chain() {
    let mut d = dir();
    let mut sink = open_with(&d, Policy::default());

    let a = append(&mut sink, &mut d, "tldb-1", ev("retention.set"));
    let b = append(&mut sink, &mut d, "tldb-1", ev("token.issue"));

    assert_eq!(a.seq, 1);
    assert_eq!(b.seq, 2);
    assert_eq!(a.node, "tldb-1");
    assert_eq!(a.prev_hash, GENESIS, "first record chains to genesis");
    assert_eq!(b.prev_hash, a.hash, "each record links to the previous");
    assert_eq!(sink.count(), 2);
    assert_eq!(sink.head(), b.hash);
    assert!(verify_records(&read_all(&d)).is_ok());
}

#[test]
fn reopen_recovers_seq_and_head() {
    let mut d = dir();
    let head;
    {
        let mut sink = open_with(&d, Policy::default());
        append(&mut sink, &mut d, "tldb-1", ev("retention.set"));
        head = append(&mut sink, &mut d, "tldb-1", ev("token.issue")).hash;
    }
    let mut sink = open_with(&d, Policy::default());
    assert_eq!(sink.count(), 2);
    assert_eq!(sink.head(), head);
    let c = append(&mut sink, &mut d, "tldb-1", ev("token.revoke"));
    assert_eq!(c.seq, 3);
    assert_eq!(c.prev_hash, head);
    assert!(verify_records(&read_all(&d)).is_ok());
}

#[test]
fn an_edited_record_breaks_the_chain_at_its_seq() {
    let mut d = dir();
    let mut sink = open_with(&d, Policy::default());
    append(&mut sink, &mut d, "tldb-1", ev("retention.set"));
    append(&mut sink, &mut d, "tldb-1", ev("retention.set"));
    append(&mut sink, &mut d, "tldb-1", ev("retention.set"));

    let mut records = read_all(&d);
    assert!(verify_records(&records).is_ok(), "unedited chain is intact");

    records[1].after = Some("{\"value\":\"9999d\"}".into());
    let brk = verify_records(&records).expect_err("edit must be caught");
    assert_eq!(brk.seq, 2, "the break is reported at the edited record");
}

#[test]
fn a_deleted_record_breaks_the_chain() {
    let mut d = dir();
    let mut sink = open_with(&d, Policy::default());
    append(&mut sink, &mut d, "tldb-1", ev("a"));
    append(&mut sink, &mut d, "tldb-1", ev("b"));
    append(&mut sink, &mut d, "tldb-1", ev("c"));

    let mut records = read_all(&d);
    records.remove(1);
    let brk = verify_records(&records).expect_err("deletion must be caught");
    assert_eq!(brk.seq, 3);
}

#[test]
fn each_record_is_one_json_line() {
    let mut d = dir();
    let mut sink = open_with(&d, Policy::default());
    append(&mut sink, &mut d, "tldb-1", ev("a"));
    append(&mut sink, &mut d, "tldb-1", ev("b"));
    let raw: String = d.lines.concat();
    let lines: Vec<&str> = raw.lines().filter(|l| !l.trim().is_empty()).collect();
    assert_eq!(lines.len(), 2, "one line per record");
    for (l, r) in lines.iter().zip(read_all(&d)) {
        let v: serde_json::Value = serde_json::from_str(l).expect("each line is a full record");
        assert_eq!(v["seq"].as_u64(), Some(r.seq));
        assert_eq!(v["ts"].as_str(), Some(r.ts.as_str()));
        assert_eq!(v["node"].as_str(), Some("tldb-1"));
        assert_eq!(v["principal"].as_str(), Some("rcowell"));
        assert_eq!(v["role"].as_str(), Some("admin"));
        assert_eq!(v["source"].as_str(), Some("10.0.3.7"));
        assert_eq!(v["action"].as_str(), Some(r.action.as_str()));
        assert_eq!(v["target"].as_str(), Some("pipeline_events"));
        assert_eq!(v["before"]["value"].as_str(), Some("90d"));
        assert_eq!(v["after"]["value"].as_str(), Some("30d"));
        assert_eq!(v["outcome"].as_str(), Some("ok"));
        assert_eq!(v["prev_hash"].as_str(), Some(r.prev_hash.as_str()));
        assert_eq!(v["hash"].as_str(), Some(r.hash.as_str()));
    }
}

#[test]
fn timestamps_are_rfc3339_utc() {
    assert_eq!(rfc3339_utc(1_735_689_600, 0), "2025-01-01T00:00:00.000000Z");
    assert_eq!(rfc3339_utc(1_735_689_600, 123), "2025-01-01T00:00:00.000123Z");
}

#[test]
fn auditlog_records_and_counts_and_recovers() {
    let mut d = dir();
    {
        let mut log = AuditLog::open_with(open_with(&d, Policy::default()), "tldb-1".into(), false);
        assert!(log.healthy());
        assert!(!log.fail_open());
        assert_eq!(log.node(), "tldb-1");
        assert_eq!(log.records_total(), 0);
        record(&mut log, &mut d, ev("retention.set")).unwrap();
        record(&mut log, &mut d, ev("token.issue")).unwrap();
        assert_eq!(log.records_total(), 2);
        assert!(verify_records(&read_all(&d)).is_ok());
    }
    let log = AuditLog::open_with(open_with(&d, Policy::default()), "tldb-1".into(), false);
    assert_eq!(log.records_total(), 2);
}

#[test]
fn rotation_splits_the_trail_and_the_chain_still_verifies() {
    let mut d = dir();
    let mut sink = open_with(&d, rotating());
    for _ in 0..40 {
        append(&mut sink, &mut d, "tldb-1", ev("retention.set"));
    }
    assert!(d.rotated.len() + 1 > 1, "40 records at a 512-byte limit must have rotated");
    assert!(!d.rotated.is_empty());
    assert!(
        verify_records(&read_all(&d)).is_ok(),
        "a rotated trail must still verify end to end"
    );
    assert_eq!(read_all(&d).len(), 40, "no record lost to rotation");
}

#[test]
fn seqs_are_continuous_across_a_rotation() {
    let mut d = dir();
    let mut sink = open_with(&d, rotating());
    for _ in 0..30 {
        append(&mut sink, &mut d, "tldb-1", ev("token.issue"));
    }
    let all = read_all(&d);
    for (i, r) in all.iter().enumerate() {
        assert_eq!(r.seq, i as u64 + 1, "seq must not restart at a boundary");
    }
}

#[test]
fn reopening_after_rotation_continues_the_chain() {
    let mut d = dir();
    {
        let mut sink = open_with(&d, rotating());
        for _ in 0..40 {
            append(&mut sink, &mut d, "tldb-1", ev("a"));
        }
    }
    let mut sink = open_with(&d, rotating());
    let next = append(&mut sink, &mut d, "tldb-1", ev("after-restart"));
    assert_eq!(next.seq, 41, "seq continues across a restart");
    assert_ne!(next.prev_hash, GENESIS, "the chain must not restart");
    assert!(verify_records(&read_all(&d)).is_ok());
}

#[test]
fn deleting_a_rotated_segment_is_detected() {
    let mut d = dir();
    let mut sink = open_with(&d, rotating());
    for _ in 0..40 {
        append(&mut sink, &mut d, "tldb-1", ev("a"));
    }
    assert!(verify_records(&read_all(&d)).is_ok());

    assert!(!d.rotated.is_empty());
    d.rotated.remove(0);

    let brk = verify_records(&read_all(&d)).expect_err("a removed segment must break the chain");
    assert!(brk.seq > 0, "the break names where the trail jumps");
    assert!(brk.message().contains(&format!("{}", brk.seq)));
}

#[test]
fn retention_is_off_by_default_and_floored_when_set() {
    assert_eq!(Policy::default().effective_retain_days(), None);
    let p = Policy { retain_days: Some(1), ..Policy::default() };
    assert_eq!(p.effective_retain_days(), Some(MIN_RETENTION_DAYS));
    let p = Policy { retain_days: Some(365), ..Policy::default() };
    assert_eq!(p.effective_retain_days(), Some(365));
}

#[test]
fn pruning_never_deletes_recent_segments() {
    let policy =
        Policy { rotate_bytes: Some(512), rotate_after_secs: None, retain_days: Some(1) };
    let mut d = dir();
    let mut sink = open_with(&d, Policy { retain_days: Some(1), ..rotating() });
    for _ in 0..40 {
        append(&mut sink, &mut d, "tldb-1", ev("a"));
        d.rotated.retain(|_| !policy.prunes(3));
    }
    assert_eq!(
        read_all(&d).len(),
        40,
        "freshly written segments must survive any retention setting"
    );
    assert!(verify_records(&read_all(&d)).is_ok());
}

#[test]
fn a_healthy_log_gate_admits() {
    let d = dir();
    let log = AuditLog::open_with(open_with(&d, Policy::default()), "tldb-1".into(), false);
    assert!(log.gate().is_ok(), "a healthy sink admits mutations");
}

#[test]
fn fail_closed_gate_refuses_when_unhealthy_then_recovers() {
    let mut d = dir();
    let mut log = AuditLog::open_with(open_with(&d, Policy::default()), "tldb-1".into(), false);
    log.healthy = false;
    assert!(
        log.gate().is_err(),
        "fail-closed: a known-broken sink refuses further mutations"
    );
    record(&mut log, &mut d, ev("retention.set")).unwrap();
    assert!(log.gate().is_ok(), "a recovered sink admits again");
}

#[test]
fn fail_open_gate_admits_even_when_unhealthy() {
    let d = dir();
    let mut log = AuditLog::open_with(open_with(&d, Policy::default()), "tldb-1".into(), true);
    log.healthy = false;
    assert!(
        log.gate().is_ok(),
        "fail-open: the operator chose to proceed despite a broken sink"
    );
}

#[test]
fn a_write_that_failed_leaves_the_chain_where_it_was() {
    let d = dir();
    let mut log = AuditLog::open_with(open_with(&d, Policy::default()), "tldb-1".into(), false);
    let a = log.sink.draft("tldb-1", ev("a"), AT.to_string(), 0);
    let refused = log.record(a, false, Err("disk full".into())).unwrap_err();
    assert_eq!(refused.0, "disk full");
    assert_eq!(refused.message(), "audit sink unavailable: disk full");
    assert_eq!(log.sink.head(), GENESIS);
    assert_eq!(log.records_total(), 0);
    assert_eq!(
        log.gate().unwrap_err().0,
        "audit sink is unhealthy; refusing the mutation"
    );
}

#[test]
fn an_append_is_read_back_whether_or_not_a_segment_was_set_aside() {
    let mut d = dir();
    let mut sink = open_with(&d, rotating());
    for i in 0..12u64 {
        let before = read_all(&d);
        let head = sink.head().to_string();
        let rec = append(&mut sink, &mut d, "n1", ev("set"));
        assert_eq!((rec.seq, sink.count()), (i + 1, i + 1));
        assert_eq!(rec.prev_hash, head);
        assert_eq!(rec.hash, sink.head());
        let after = read_all(&d);
        assert_eq!(after[..before.len()], before[..]);
        assert_eq!(after[before.len()..], [rec]);
        assert!(verify_records(&after).is_ok());
    }
    assert!(!d.rotated.is_empty());
}

#[test]
fn a_segment_that_was_set_aside_stays_so_when_the_write_fails() {
    let mut d = dir();
    let mut log = AuditLog::open_with(open_with(&d, rotating()), "tldb-1".into(), true);
    record(&mut log, &mut d, ev("a")).expect("written");
    assert!(log.sink.written > 0);
    let (head, next) = (log.sink.head.clone(), log.sink.next_seq);
    let a = log.sink.draft("tldb-1", ev("b"), AT.to_string(), 0);
    assert!(log.record(a, true, Err("disk full".into())).is_err());
    assert_eq!(log.sink.written, 0);
    assert_eq!((log.sink.head.clone(), log.sink.next_seq), (head, next));
}

#[test]
fn segments_are_set_aside_by_size_and_by_age() {
    let p = Policy { rotate_bytes: Some(100), rotate_after_secs: Some(60), retain_days: None };
    assert!(!p.should_rotate(0, 500, 500), "an empty segment stays");
    assert!(!p.should_rotate(50, 50, 0));
    assert!(p.should_rotate(50, 51, 0));
    assert!(p.should_rotate(1, 1, 60));
    assert!(!no_rotation().should_rotate(1_000_000, 1, 1_000_000));
    assert_eq!(Policy::default().rotate_bytes, Some(DEFAULT_ROTATE_BYTES));
}

#[test]
fn old_segments_are_pruned_only_past_the_floor() {
    let day = 86_400u64;
    let p = Policy { rotate_bytes: None, rotate_after_secs: None, retain_days: Some(1) };
    assert!(!p.prunes(89 * day));
    assert!(p.prunes(91 * day));
    assert!(!no_rotation().prunes(10_000 * day));
}

#[test]
fn rotated_segments_are_told_by_their_names() {
    assert!(is_rotated("audit.000000000040.jsonl"));
    assert!(!is_rotated("audit.jsonl"));
    assert!(!is_rotated("other.jsonl"));
    let names: Vec<String> = ["audit.000000000040.jsonl", "x", "audit.jsonl", "audit.000000000020.jsonl"]
        .iter()
        .map(|s| s.to_string())
        .collect();
    assert_eq!(
        rotated_segments(&names),
        vec!["audit.000000000020.jsonl".to_string(), "audit.000000000040.jsonl".to_string()]
    );
}

#[test]
fn the_hash_covers_the_record_without_its_hash() {
    let mut d = dir();
    let mut sink = open_with(&d, Policy::default());
    let r = append(&mut sink, &mut d, "tldb-1", ev("a"));
    assert_eq!(compute_hash(&r), r.hash);
    let hash = r.hash.strip_prefix("sha256:").expect("the digest is named");
    assert_eq!(hash.len(), 64);
    assert!(hash.chars().all(|c| c.is_ascii_hexdigit()));
    let mut other = r.clone();
    other.hash = "anything".into();
    assert_eq!(compute_hash(&other), r.hash);
    other.principal = "someone else".into();
    assert_ne!(compute_hash(&other), r.hash);
}
