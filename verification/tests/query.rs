use timelake::batch::{find_column, Batch, Cell, Column, DataType, Field};
use timelake::buffer::flush::{bloom_columns, prepare, prepare_ordered};
use timelake::buffer::TableBuffer;
use timelake::ingest::{parse_lines, FieldValue, Float};
use timelake::lastvalue::LastValue;
use timelake::query::last_cache::{build_batch, table_argument};
use timelake::query::load::{collect_loads, finish_scan, plan_file, reduce, Loads, TOO_SLOW};
use timelake::query::metrics::{
    duration_buckets, show_seconds, wait_buckets, Fraction, Histogram, QueryMetrics, QueryOutcome,
    QueryStats,
};
use timelake::query::provider::{
    bloom_keep_row_groups, choose_groups, extract_pruning, literal_columns, stats_keep_row_groups,
    time_prunes, Bloom, Expr, FileGroups, Operator, Pruning, Range, RowGroup, Scalar, ScanStats,
};
use timelake::query::ranges::{prefetch_ranges, serve, RangeReader, ReadStep, Serve, CHUNK, GAP};
use timelake::query::rows::{batches_to_json, cell_to_json, JsonCell};
use timelake::query::scan::{
    columns_to_decode, count_rows, enforce, pack, plan_scan, project, scan_threads,
    table_in_memory, QueryLimits, MAX_SCAN_THREADS,
};
use timelake::query::schemas::{align, align_to, schema_union, to_view_batch, view_schema, Source};
use timelake::query::sql_guard::{ensure_read_only, Node, Plan};
use timelake::query::visibility::{evaluate, is_visible};
use timelake::query::{
    apply_restriction, mandatory_predicate, QuerySession, Restriction, VISIBILITY_COLUMN,
};

fn buffer_with(lp: &str) -> Batch {
    let mut buf = TableBuffer::default();
    for line in parse_lines(lp, 1, 0).unwrap() {
        buf.append(&line, 0).unwrap();
    }
    buf.snapshot()
}

fn strings(list: &[&str]) -> Vec<String> {
    list.iter().map(|s| s.to_string()).collect()
}

// ------------------------------------------------------------------ the session

#[test]
fn an_anonymous_caller_is_unchanged_by_grants() {
    let s = QuerySession::with_authorizations(vec!["admin".into(), "ops".into()]);
    assert_eq!(s.identity, None);
    let resolved = s.resolve(Some(&["ops".to_string()]));
    assert_eq!(
        resolved.authorizations,
        vec!["admin".to_string(), "ops".to_string()],
        "an anonymous caller's claims are still taken as asserted"
    );
}

#[test]
fn a_verified_identity_narrows_its_claims_to_its_grants() {
    let mut s =
        QuerySession::with_authorizations(vec!["admin".into(), "ops".into(), "audit".into()]);
    s.identity = Some("tributary-node-1".into());
    let resolved = s.resolve(Some(&["ops".to_string(), "audit".to_string()]));
    assert_eq!(
        resolved.authorizations,
        vec!["ops".to_string(), "audit".to_string()],
        "claiming admin does not grant admin"
    );
}

#[test]
fn authenticating_can_only_narrow_never_widen() {
    let mut s = QuerySession::with_authorizations(vec!["ops".into()]);
    s.identity = Some("agent".into());
    let resolved = s.resolve(Some(&["ops".to_string(), "admin".to_string()]));
    assert_eq!(resolved.authorizations, vec!["ops".to_string()]);
}

#[test]
fn an_identity_with_no_grants_recorded_keeps_its_claims() {
    let mut s = QuerySession::with_authorizations(vec!["ops".into()]);
    s.identity = Some("agent".into());
    assert_eq!(s.resolve(None).authorizations, vec!["ops".to_string()]);
}

// -------------------------------------------------------------------- visibility

#[test]
fn single_token_and_empty() {
    assert!(is_visible("", &strings(&[])));
    assert!(is_visible("  ", &strings(&["x"])));
    assert!(is_visible("admin", &strings(&["admin"])));
    assert!(!is_visible("admin", &strings(&["ops"])));
    assert!(!is_visible("admin", &strings(&[])));
}

#[test]
fn and_or_and_parens() {
    let a = strings(&["ops", "audit"]);
    assert!(is_visible("ops&audit", &a));
    assert!(!is_visible("ops&admin", &a));
    assert!(is_visible("ops|admin", &a));
    assert!(is_visible("(ops&audit)|admin", &a));
    assert!(is_visible("admin|(ops&audit)", &a));
    assert!(!is_visible("(ops&admin)|hr", &a));
    assert!(is_visible("((ops))", &a));
    assert!(!is_visible("a & b | c", &strings(&["c"])));
    assert!(is_visible("ops & audit", &a));
}

#[test]
fn quoted_tokens() {
    let a = strings(&["needs quoting", "with\"quote"]);
    assert!(is_visible("\"needs quoting\"", &a));
    assert!(is_visible("\"with\\\"quote\"", &a));
    assert!(!is_visible("\"nope\"", &a));
}

#[test]
fn malformed_fails_closed() {
    let a = strings(&["admin", "ops", "audit"]);
    for bad in [
        "admin&",
        "&admin",
        "admin|",
        "(admin",
        "admin)",
        "a&b|c",
        "\"unclosed",
        "\"\"",
        "admin ops",
        "a$b",
        "()",
    ] {
        assert!(!is_visible(bad, &a), "{bad:?} must be visible to no one");
        assert!(evaluate(bad, &a).is_err(), "{bad:?} must parse as an error");
    }
}

#[test]
fn accumulo_shaped_expressions() {
    assert!(is_visible("(ops&audit)|admin", &strings(&["admin"])));
    assert!(is_visible("a|b|c|d", &strings(&["d"])));
    assert!(!is_visible("a&b&c&d", &strings(&["a", "b", "c"])));
    assert!(is_visible("system:internal", &strings(&["system:internal"])));
}

fn labelled() -> Batch {
    buffer_with(
        "pipeline_events,product_id=p1,_visibility=admin duration_s=1.0 3\n\
         pipeline_events,product_id=p2,_visibility=ops&audit duration_s=2.0 2\n\
         pipeline_events,product_id=p3 duration_s=3.0 1",
    )
}

fn visible_rows(auths: &[&str]) -> usize {
    let session = QuerySession::with_authorizations(strings(auths));
    let (_, batches) =
        table_in_memory(&session, "pipeline_events", &vec![labelled()]).expect("aligned");
    batches.iter().map(|b| b.rows).sum()
}

#[test]
fn visibility_labels_gate_rows_and_aggregates() {
    assert_eq!(visible_rows(&[]), 1);
    assert_eq!(visible_rows(&["admin"]), 2);
    assert_eq!(visible_rows(&["ops"]), 1);
    assert_eq!(visible_rows(&["ops", "audit"]), 2);
    assert_eq!(visible_rows(&["admin", "ops", "audit"]), 3);
}

#[test]
fn a_hidden_row_does_not_count() {
    let session = QuerySession::with_authorizations(strings(&["ops", "audit"]));
    let b = labelled();
    let r = mandatory_predicate(&session, "pipeline_events", &b.schema()).expect("labels");
    assert_eq!(r.required_columns(), vec![VISIBILITY_COLUMN.to_string()]);
    let kept = apply_restriction(&r, &b).expect("readable labels");
    assert_eq!(kept.rows, 2);
    let (batches, dropped) = enforce(&vec![r], &vec![b]).expect("readable labels");
    assert_eq!(dropped, 1);
    let counted = count_rows(&batches);
    assert_eq!(counted.iter().map(|b| b.rows).sum::<usize>(), 2);
    assert!(counted.iter().all(|b| b.columns.is_empty()));
    assert!(mandatory_predicate(&session, "m", &buffer_with("m v=1 1").schema()).is_none());
}

#[test]
fn labels_that_are_no_text_hide_the_batch() {
    let b = Batch::new(
        vec![Column {
            field: Field::new(VISIBILITY_COLUMN, DataType::Int64, true),
            dictionary: vec![],
            cells: vec![Cell::Int(1)],
        }],
        1,
    );
    let session = QuerySession::with_authorizations(strings(&["admin"]));
    let r = mandatory_predicate(&session, "m", &b.schema()).expect("labels");
    assert!(apply_restriction(&r, &b).is_err());
}

// -------------------------------------------------------------------- the guard

fn plan(node: Node, inputs: Vec<Plan>) -> Plan {
    Plan {
        node,
        inputs,
        wrapped: Vec::new(),
    }
}

#[test]
fn plans_that_only_read_pass() {
    let scan = plan(Node::TableScan, vec![]);
    let p = plan(Node::Sort, vec![plan(Node::Projection, vec![scan])]);
    assert!(ensure_read_only(&p).is_ok());
    let explain = Plan {
        node: Node::Explain,
        inputs: vec![],
        wrapped: vec![plan(Node::TableScan, vec![])],
    };
    assert!(ensure_read_only(&explain).is_ok());
}

#[test]
fn effects_are_refused_wherever_they_hide() {
    let err = ensure_read_only(&plan(Node::Copy, vec![plan(Node::Values, vec![])])).unwrap_err();
    assert!(err.contains("COPY"), "{err}");
    let hidden = Plan {
        node: Node::Analyze,
        inputs: vec![],
        wrapped: vec![plan(Node::Copy, vec![])],
    };
    assert!(ensure_read_only(&hidden).is_err(), "nested COPY leaked through");
    assert!(ensure_read_only(&plan(Node::Ddl, vec![])).is_err());
    assert!(ensure_read_only(&plan(Node::Dml, vec![])).is_err());
    assert!(ensure_read_only(&plan(Node::Statement, vec![])).is_err());
    let deep = plan(Node::Filter, vec![plan(Node::Projection, vec![plan(Node::Dml, vec![])])]);
    assert!(ensure_read_only(&deep).is_err());
}

// ---------------------------------------------------------------------- metrics

const MS: u64 = 1_000_000;

fn secs(f: Fraction) -> f64 {
    f.num as f64 / f.den as f64 / 1_000.0
}

#[test]
fn buckets_are_cumulative_and_include_inf() {
    let mut h = Histogram::new(duration_buckets());
    h.observe(MS / 2);
    h.observe(200 * MS);
    h.observe(120_000 * MS);

    let text = h.render("q", "help");
    assert!(text.contains("q_bucket{le=\"0.001\"} 1"), "{text}");
    assert!(text.contains("q_bucket{le=\"0.25\"} 2"), "{text}");
    assert!(text.contains("q_bucket{le=\"30\"} 2"), "{text}");
    assert!(text.contains("q_bucket{le=\"+Inf\"} 3"), "{text}");
    assert!(text.contains("q_count 3"), "{text}");
}

#[test]
fn a_value_past_the_last_bound_still_counts_in_sum_and_count() {
    let mut h = Histogram::new(duration_buckets());
    h.observe(300_000 * MS);
    assert_eq!(h.count(), 1);
    let sum = h.sum_micros as f64 / 1_000_000.0;
    assert!((sum - 300.0).abs() < 0.01, "{sum}");
}

#[test]
fn quantile_is_none_before_any_observation() {
    let h = Histogram::new(duration_buckets());
    assert_eq!(h.quantile(95, 100), None);
}

#[test]
fn quantile_lands_in_the_right_bucket() {
    let mut h = Histogram::new(duration_buckets());
    for _ in 0..99 {
        h.observe(20 * MS);
    }
    h.observe(5_000 * MS);
    let p50 = secs(h.quantile(1, 2).unwrap());
    assert!((0.01..=0.025).contains(&p50), "p50 {p50}");
    let p99 = secs(h.quantile(99, 100).unwrap());
    assert!(p99 <= 0.025, "p99 {p99} should still be in the dense band");
    let p999 = secs(h.quantile(999, 1000).unwrap());
    assert!(p999 > 1.0, "p999 {p999} should reach the slow bucket");
}

#[test]
fn sum_survives_sub_millisecond_observations() {
    let mut h = Histogram::new(duration_buckets());
    for _ in 0..1000 {
        h.observe(MS / 5);
    }
    let sum = h.sum_micros as f64 / 1_000_000.0;
    assert!((sum - 0.2).abs() < 0.01, "{sum}");
}

#[test]
fn queries_enter_and_leave() {
    let mut m = QueryMetrics::new();
    m.enter_queue();
    assert_eq!(m.queued(), 1);
    m.enter_flight();
    assert_eq!(m.in_flight(), 1);
    m.leave_flight();
    m.leave_queue();
    assert_eq!(m.queued(), 0);
    assert_eq!(m.in_flight(), 0);
}

#[test]
fn outcomes_are_counted_separately() {
    let mut m = QueryMetrics::new();
    let stat = |outcome| QueryStats {
        ref_id: "q-0".into(),
        db: "poc".into(),
        identity: None,
        admission_wait: MS,
        duration: 10 * MS,
        rows: 0,
        outcome,
    };
    m.record(&stat(QueryOutcome::Success));
    m.record(&stat(QueryOutcome::Timeout));
    m.record(&stat(QueryOutcome::Refused));
    m.record(&stat(QueryOutcome::Refused));
    m.record(&stat(QueryOutcome::Failed));

    let text = m.render();
    assert!(text.contains("timelake_queries_total 5"), "{text}");
    assert!(text.contains("timelake_query_timeouts_total 1"), "{text}");
    assert!(text.contains("timelake_query_refused_total 2"), "{text}");
    assert!(text.contains("timelake_query_failed_total 1"), "{text}");
    assert_eq!(m.duration.count(), 5);
}

#[test]
fn seconds_are_shown_without_needless_digits() {
    assert_eq!(show_seconds(0), "0");
    assert_eq!(show_seconds(250_000), "0.25");
    assert_eq!(show_seconds(30_000_000), "30");
    assert_eq!(show_seconds(1_000_001), "1.000001");
    assert_eq!(duration_buckets().first(), Some(&1));
    assert!(!wait_buckets().is_empty());
    assert_eq!(QueryOutcome::Success.as_str(), "ok");
}

// -------------------------------------------------------------- the last values

#[test]
fn an_empty_snapshot_is_a_valid_zero_row_batch() {
    let batch = build_batch(&vec![]);
    assert_eq!(batch.rows, 0);
    assert_eq!(batch.columns.len(), 1, "just time");
}

fn bits(v: f64) -> FieldValue {
    FieldValue::Float(Float::Bits(v.to_bits()))
}

#[test]
fn a_snapshot_becomes_time_tag_and_field_columns() {
    let rows = vec![
        LastValue {
            tags: vec![("host".into(), "a".into())],
            timestamp_ns: 20,
            fields: vec![("usage".into(), bits(0.7))],
        },
        LastValue {
            tags: vec![("host".into(), "b".into())],
            timestamp_ns: 10,
            fields: vec![("usage".into(), bits(0.5))],
        },
    ];
    let batch = build_batch(&rows);
    assert_eq!(batch.rows, 2);
    let names: Vec<&str> = batch.columns.iter().map(|c| c.field.name.as_str()).collect();
    assert_eq!(names, vec!["time", "host", "usage"]);
    let usage = &batch.columns[2];
    assert_eq!(usage.cells[0], Cell::Float(Float::Bits(0.7f64.to_bits())));
    assert_eq!(usage.cells[1], Cell::Float(Float::Bits(0.5f64.to_bits())));
}

#[test]
fn the_table_function_takes_one_name() {
    let name = Expr::Literal(Scalar::Utf8(Some("cpu".into())));
    assert_eq!(table_argument(&vec![name]), Ok("cpu".to_string()));
    assert!(table_argument(&vec![]).is_err());
    assert!(table_argument(&vec![Expr::Column("cpu".into())]).is_err());
}

// ---------------------------------------------------------------------- pruning

fn compare(name: &str, op: Operator, s: Scalar) -> Expr {
    Expr::Binary(
        Box::new(Expr::Column(name.into())),
        op,
        Box::new(Expr::Literal(s)),
    )
}

#[test]
fn extracts_time_bounds_and_tag_literals() {
    let filters = vec![
        compare("time", Operator::GtEq, Scalar::TimestampNs(Some(100))),
        compare("time", Operator::Lt, Scalar::TimestampNs(Some(900))),
        compare("product_id", Operator::Eq, Scalar::Utf8(Some("p1".into()))),
    ];
    let p = extract_pruning(&filters);
    assert_eq!(p.min_ts_ns, Some(100));
    assert_eq!(p.max_ts_ns, Some(900));
    assert_eq!(
        p.tag_equals,
        vec![("product_id".to_string(), "p1".to_string())]
    );
}

#[test]
fn files_outside_the_bounds_are_skipped() {
    let p = Pruning {
        min_ts_ns: Some(100),
        max_ts_ns: Some(900),
        tag_equals: vec![],
    };
    assert!(time_prunes(&p, 0, 99));
    assert!(!time_prunes(&p, 0, 100));
    assert!(!time_prunes(&p, 900, 2_000));
    assert!(time_prunes(&p, 901, 2_000));
    let mut stats = ScanStats::default();
    assert!(!stats.consider_file(&p, 100, 200));
    assert!(stats.consider_file(&p, 0, 99));
    assert_eq!(stats.files_considered, 2);
    assert_eq!(stats.files_time_pruned, 1);
}

fn group(min: &str, max: &str, at: u64) -> RowGroup {
    RowGroup {
        ranges: vec![Some(Range {
            min: min.as_bytes().to_vec(),
            max: max.as_bytes().to_vec(),
        })],
        chunks: vec![(at, 1_000)],
    }
}

fn file() -> FileGroups {
    FileGroups {
        columns: vec!["pid".into()],
        groups: vec![
            group("p00", "p09", 0),
            group("p10", "p19", 1_000_000),
            group("p20", "p29", 2_000_000),
        ],
    }
}

const T0: i64 = 1_786_179_600_000_000_000;

/// A file of rows in groups: what its footer says of the tag `pid`, the values
/// of each group, and how many bytes it has.
struct Written {
    footer: FileGroups,
    pids: Vec<Vec<String>>,
    bytes: u64,
}

const BYTES_A_ROW: u64 = 16;

fn scattered(n: i64) -> String {
    (0..n)
        .map(|i| format!("m,pid=p{:05} v=1.0 {}\n", (i * 7919) % n, T0 + i))
        .collect()
}

fn written(b: &Batch, rows_a_group: usize) -> Written {
    let pid = &b.columns[find_column(&b.columns, "pid").expect("pid")];
    let all: Vec<String> = pid
        .cells
        .iter()
        .map(|c| match c {
            Cell::Str(s) => s.clone(),
            other => panic!("not a tag: {other:?}"),
        })
        .collect();
    let pids: Vec<Vec<String>> = all.chunks(rows_a_group).map(|c| c.to_vec()).collect();
    let mut at = 0;
    let mut groups = Vec::new();
    for g in &pids {
        let len = BYTES_A_ROW * g.len() as u64;
        groups.push(group(g.iter().min().unwrap(), g.iter().max().unwrap(), at));
        groups.last_mut().unwrap().chunks = vec![(at, len)];
        at += len;
    }
    Written {
        footer: FileGroups { columns: vec!["pid".into()], groups },
        pids,
        bytes: at,
    }
}

/// Looks a value up: how many rows of the groups that are read have it, and how
/// many bytes are read.
fn look_up(w: &Written, pid: &str, stats: &mut ScanStats) -> (usize, u64) {
    let p = Pruning {
        min_ts_ns: None,
        max_ts_ns: None,
        tag_equals: vec![("pid".into(), pid.into())],
    };
    let answers = stats_keep_row_groups(&w.footer, &p.tag_equals)
        .into_iter()
        .map(|g| {
            let there = w.pids[g].iter().any(|x| x == pid);
            vec![if there { Bloom::Maybe } else { Bloom::Absent }]
        })
        .collect();
    match plan_file(&w.footer, &p, &answers, &None, stats) {
        None => (0, 0),
        Some(read) => {
            let rows = read.groups.iter().flat_map(|g| &w.pids[*g]);
            let bytes = read.ranges.iter().map(|(from, to)| to - from).sum();
            (rows.filter(|x| *x == pid).count(), bytes)
        }
    }
}

#[test]
fn stats_prune_clustered_row_groups() {
    let parts = prepare_ordered(&buffer_with(&scattered(2000)), Some("pid")).unwrap();
    let w = written(&parts[0].1, 256);
    let total = w.footer.groups.len();
    assert!(total > 3);
    let keep = stats_keep_row_groups(&w.footer, &vec![("pid".into(), "p00042".into())]);
    assert!(
        keep.len() <= 2,
        "expected <=2 of {total} row groups, kept {}",
        keep.len()
    );
    assert!(!keep.is_empty());
    let keep = stats_keep_row_groups(&w.footer, &vec![("pid".into(), "zzzz".into())]);
    assert!(keep.is_empty());
    let keep = stats_keep_row_groups(&w.footer, &vec![]);
    assert_eq!(keep.len(), total);
}

#[test]
fn dict_columns_do_get_blooms() {
    let parts = prepare_ordered(&buffer_with(&scattered(2000)), Some("pid")).unwrap();
    let blooms = bloom_columns(&parts[0].1);
    assert!(blooms.iter().any(|(name, _)| name == "pid"), "no bloom for pid");
    assert!(!blooms.iter().any(|(name, _)| name == "v"));
    let w = written(&parts[0].1, 256);
    assert!(w.footer.groups.len() > 3, "small row groups requested");
    let mut prev_max: Option<Vec<u8>> = None;
    for g in &w.footer.groups {
        let r = g.ranges[0].as_ref().unwrap();
        if let Some(prev) = &prev_max {
            assert!(r.min >= *prev, "row-group entity ranges must be ordered");
        }
        prev_max = Some(r.max.clone());
    }
}

#[test]
fn a_pruned_scan_reads_ranges_not_the_whole_file() {
    let parts = prepare_ordered(&buffer_with(&scattered(20_000)), Some("pid")).unwrap();
    let w = written(&parts[0].1, 1024);
    let (rows, read) = look_up(&w, "p00042", &mut ScanStats::default());
    assert_eq!(rows, 1, "the row filter still returns exactly the entity");
    assert!(
        read < w.bytes / 2,
        "read {read} of {} bytes — pruning must not fetch the whole file",
        w.bytes
    );
}

#[test]
fn a_bloom_miss_skips_the_file_without_reading_it() {
    let lp: String = (0..20_000)
        .map(|i| format!("m,pid=p{:05} v=1.0 {}\n", i, T0 + i))
        .collect();
    let parts = prepare(&buffer_with(&lp)).unwrap();
    let w = written(&parts[0].1, 20_000);
    let (rows, missed) = look_up(&w, "definitely-absent", &mut ScanStats::default());
    assert_eq!(rows, 0);
    assert!(
        missed < w.bytes / 4,
        "bloom miss read {missed} of {} bytes — it should skip the data entirely",
        w.bytes
    );
    let (rows, _) = look_up(&w, "p00042", &mut ScanStats::default());
    assert_eq!(rows, 1);
}

#[test]
fn scan_stats_attribute_pruning_and_prove_l0_blooms_work() {
    let parts = prepare(&buffer_with(&scattered(20_000))).unwrap();
    let w = written(&parts[0].1, 256);
    let mut stats = ScanStats::default();
    let mut cached = false;
    let everything = Pruning { min_ts_ns: None, max_ts_ns: None, tag_equals: vec![] };
    let mut scan = |pid: &str, stats: &mut ScanStats| {
        assert!(!stats.consider_file(&everything, T0, T0 + 20_000));
        stats.note_footer(cached);
        cached = true;
        look_up(&w, pid, stats);
    };

    scan("p00042", &mut stats);
    let considered = stats.row_groups_considered;
    assert!(
        considered > 10,
        "small row groups: expected many, got {considered}"
    );
    assert_eq!(stats.files_considered, 1);
    assert_eq!(stats.files_time_pruned, 0);
    assert_eq!(stats.meta_cache_misses, 1, "first read is cold");
    assert_eq!(stats.meta_cache_hits, 0);
    let scanned = stats.row_groups_scanned;
    assert!(
        scanned >= 1 && scanned < considered,
        "pruning should scan few of {considered}, scanned {scanned}"
    );
    let bloom = stats.row_groups_bloom_pruned;
    assert!(bloom > 0, "blooms must exclude some L0 groups (the #69 point)");
    assert_eq!(considered, stats.row_groups_stats_pruned + bloom + scanned);

    scan("p00007", &mut stats);
    assert_eq!(stats.meta_cache_hits, 1, "second read is a cache hit");
    assert_eq!(stats.meta_cache_misses, 1, "no new cold read");

    let before = stats.row_groups_scanned;
    scan("p99999", &mut stats);
    assert_eq!(
        stats.row_groups_scanned, before,
        "an absent pid must scan no row groups"
    );
}

#[test]
fn finer_l0_row_groups_read_far_less_for_a_present_entity() {
    let parts = prepare(&buffer_with(&scattered(20_000))).unwrap();
    let bytes_read = |rows_a_group: usize| {
        let w = written(&parts[0].1, rows_a_group);
        let (rows, read) = look_up(&w, "p10000", &mut ScanStats::default());
        assert_eq!(rows, 1);
        read
    };
    let coarse = bytes_read(20_000);
    let fine = bytes_read(256);
    assert!(
        fine * 2 < coarse,
        "fine L0 groups should read far less for a present entity: fine {fine} vs coarse {coarse}"
    );
}

#[test]
fn ranges_and_blooms_choose_the_groups() {
    let lits = vec![("pid".to_string(), "p15".to_string())];
    assert_eq!(stats_keep_row_groups(&file(), &lits), vec![1]);
    assert_eq!(
        bloom_keep_row_groups(&vec![0, 1, 2], &vec![
            vec![Bloom::Absent],
            vec![Bloom::Maybe],
            vec![Bloom::Missing]
        ]),
        vec![1, 2]
    );
    assert_eq!(literal_columns(&vec!["pid".into()], &lits).len(), 1);
    let p = Pruning {
        min_ts_ns: None,
        max_ts_ns: None,
        tag_equals: lits,
    };
    let mut stats = ScanStats::default();
    assert_eq!(choose_groups(&file(), &p, &vec![vec![Bloom::Maybe]], &mut stats), vec![1]);
    assert_eq!(stats.row_groups_considered, 3);
    assert_eq!(stats.row_groups_stats_pruned, 2);
    assert_eq!(stats.row_groups_scanned, 1);
    let mut stats = ScanStats::default();
    assert!(choose_groups(&file(), &p, &vec![vec![Bloom::Absent]], &mut stats).is_empty());
    assert_eq!(stats.row_groups_bloom_pruned, 1);
}

#[test]
fn nearby_ranges_are_fetched_together() {
    let ranges = prefetch_ranges(&file(), &vec![0, 2]);
    assert_eq!(ranges, vec![(0, 1_000), (2_000_000, 2_001_000)]);
    let mut near = file();
    near.groups[1] = group("p10", "p19", 1_000 + GAP);
    assert_eq!(prefetch_ranges(&near, &vec![0, 1]), vec![(0, 2_000 + GAP)]);
}

#[test]
fn reads_are_served_from_blocks_that_hold_all_of_them() {
    let blocks = vec![(0, 100), (500, 50)];
    assert_eq!(serve(&blocks, 510, 40), Serve::Block { index: 1, from: 10 });
    assert_eq!(serve(&blocks, 510, 41), Serve::Fetch);
    assert_eq!(serve(&blocks, 200, 1), Serve::Fetch);
}

#[test]
fn a_reader_fetches_in_chunks_up_to_its_end() {
    let mut r = RangeReader::new(10, 10 + CHUNK + 5);
    assert_eq!(r.step(100), ReadStep::Fetch { offset: 10, len: CHUNK });
    r.fetched(CHUNK);
    assert_eq!(r.step(100), ReadStep::Copy { from: 0, len: 100 });
    r.copied(CHUNK);
    assert_eq!(r.step(100), ReadStep::Fetch { offset: 10 + CHUNK, len: 5 });
    r.fetched(5);
    r.copied(5);
    assert_eq!(r.step(100), ReadStep::Done);
}

// ------------------------------------------------------------------------ scans

/// A hundred rows, every other one with the label `secret`.
fn half_secret() -> Batch {
    let t = 1_786_179_600_000_000_000i64;
    let lp: String = (0..100)
        .map(|i| {
            if i % 2 == 0 {
                format!("m,pid=p{i:03},_visibility=secret v=1.0 {}\n", t + i)
            } else {
                format!("m,pid=p{i:03} v=1.0 {}\n", t + i)
            }
        })
        .collect();
    buffer_with(&lp)
}

fn scanned(auths: &[&str], projection: Option<Vec<usize>>) -> (Vec<Batch>, Vec<Vec<Source>>, u64) {
    let snapshot = half_secret();
    let schema = snapshot.schema();
    let session = QuerySession::with_authorizations(strings(auths));
    let rs: Vec<Restriction> = mandatory_predicate(&session, "m", &schema).into_iter().collect();
    let plan = plan_scan(&schema, &projection, &rs);
    let read = Loads::new(0).finish(reduce(&vec![snapshot], &plan.needed)).expect("nothing fails");
    let f = finish_scan(&plan, &rs, &read, 4).expect("readable labels");
    assert_eq!(f.partitions.concat(), (0..f.batches.len()).collect::<Vec<usize>>());
    (f.batches, f.columns, f.dropped)
}

#[test]
fn scan_enforces_visibility_even_for_count_star() {
    let (batches, columns, dropped) = scanned(&[], Some(Vec::new()));
    let n: usize = batches.iter().map(|b| b.rows).sum();
    assert_eq!(n, 50, "unauthorized COUNT(*) must not count hidden rows");
    assert_eq!(dropped, 50, "the filtered-rows counter records enforcement");
    assert!(batches.iter().all(|b| b.columns.is_empty()));
    assert!(columns.iter().all(|c| c.is_empty()));

    let (batches, _, dropped) = scanned(&["secret"], Some(Vec::new()));
    let n: usize = batches.iter().map(|b| b.rows).sum();
    assert_eq!(n, 100, "authorized session sees everything");
    assert_eq!(dropped, 0);

    // a projection that never mentions the label column: rows are filtered, and
    // the column that rode along does not leak into results
    let pid = half_secret().schema().iter().position(|f| f.name == "pid").expect("a tag");
    let (batches, columns, _) = scanned(&[], Some(vec![pid]));
    let rows: usize = batches.iter().map(|b| b.rows).sum();
    assert_eq!(rows, 50);
    for (b, c) in batches.iter().zip(&columns) {
        assert_eq!(c, &vec![Source::Keep(0)]);
        assert_eq!(b.columns[0].field.name, "pid");
    }
}

#[test]
fn scan_packs_batches_into_target_partitions() {
    let buffer: Vec<Batch> = (0..20)
        .map(|i| {
            Batch::new(
                vec![Column {
                    field: Field::new("v", DataType::Int64, false),
                    cells: (0..8).map(|_| Cell::Int(i)).collect(),
                    dictionary: vec![],
                }],
                8,
            )
        })
        .collect();
    let schema = buffer[0].schema();
    let f = finish_scan(&plan_scan(&schema, &None, &Vec::new()), &Vec::new(), &buffer, 4)
        .expect("no restriction");
    assert_eq!(
        f.partitions.len(),
        4,
        "20 batches must pack into target_partitions, not 20 partitions"
    );
    let counted =
        finish_scan(&plan_scan(&schema, &Some(Vec::new()), &Vec::new()), &Vec::new(), &buffer, 4)
            .expect("no restriction");
    let n: usize = counted.partitions.concat().iter().map(|i| counted.batches[*i].rows).sum();
    assert_eq!(n, 160, "every batch survives the packing");
}

#[test]
fn a_scan_refuses_labels_it_cannot_read() {
    let b = Batch::new(
        vec![Column {
            field: Field::new(VISIBILITY_COLUMN, DataType::Int64, true),
            cells: vec![Cell::Int(1)],
            dictionary: vec![],
        }],
        1,
    );
    let r = mandatory_predicate(&QuerySession::default(), "m", &b.schema()).expect("labels");
    let plan = plan_scan(&b.schema(), &None, &vec![r.clone()]);
    let whole = finish_scan(&plan, &vec![r.clone()], &vec![b.copy()], 1);
    assert_eq!(whole.err(), apply_restriction(&r, &b).err());
}

#[test]
fn a_file_is_read_as_far_as_its_groups_can_match() {
    let p = Pruning {
        min_ts_ns: None,
        max_ts_ns: None,
        tag_equals: vec![("pid".to_string(), "p15".to_string())],
    };
    let mut stats = ScanStats::default();
    stats.note_footer(false);
    stats.note_footer(true);
    assert_eq!((stats.meta_cache_misses, stats.meta_cache_hits), (1, 1));
    let needed = Some(strings(&["v", "pid"]));
    let read = plan_file(&file(), &p, &vec![vec![Bloom::Maybe]], &needed, &mut stats)
        .expect("one group may match");
    assert_eq!(read.groups, vec![1]);
    assert_eq!(read.ranges, vec![(1_000_000, 1_001_000)]);
    assert_eq!(read.columns, Some(vec![0]));
    assert_eq!(read.filters, vec![(0, 0)]);
    assert_eq!(stats.row_groups_scanned, 1);
    assert!(plan_file(&file(), &p, &vec![vec![Bloom::Absent]], &needed, &mut stats).is_none());
    assert_eq!(stats.row_groups_considered, 6);
    assert_eq!(stats.row_groups_bloom_pruned, 1);
    let all = Pruning { min_ts_ns: None, max_ts_ns: None, tag_equals: Vec::new() };
    let read = plan_file(&file(), &all, &Vec::new(), &None, &mut stats).expect("all groups");
    assert_eq!(read.groups, vec![0, 1, 2]);
    assert_eq!(read.columns, None);
    assert!(read.filters.is_empty());
}

#[test]
fn workers_load_files_in_any_order() {
    let one = |v: i64| buffer_with(&format!("m v={v}i {v}"));
    let first = |b: &Batch| b.columns[find_column(&b.columns, "time").expect("a time")].cells[0].clone();
    let mut l = Loads::new(3);
    assert_eq!(l.take(0, 10), Some(0));
    assert_eq!(l.take(0, 10), Some(1));
    assert_eq!(l.take(9, 10), Some(2));
    assert_eq!(l.take(9, 10), None, "no file is left");
    l.done(2, Ok(Some(vec![one(2)])));
    l.done(1, Ok(None));
    l.done(0, Ok(Some(vec![one(0)])));
    let buffered = reduce(&vec![one(9)], &Some(strings(&["time", "nope"])));
    let got = l.finish(buffered).expect("all loaded");
    assert_eq!(got.len(), 3);
    assert_eq!(got[0].columns.len(), 1, "the buffered batch is reduced");
    assert_eq!(
        got.iter().map(first).collect::<Vec<Cell>>(),
        vec![Cell::Time(9), Cell::Time(0), Cell::Time(2)]
    );
    assert_eq!(reduce(&vec![one(9)], &None)[0].columns.len(), 2);

    let mut late: Loads<Batch> = Loads::new(1);
    assert_eq!(late.take(10, 10), None);
    assert_eq!(late.finish(Vec::new()).err(), Some(TOO_SLOW.to_string()));

    let mut failed: Loads<Batch> = Loads::new(3);
    failed.take(0, 10);
    failed.take(0, 10);
    failed.done(1, Err("b".into()));
    failed.done(0, Err("a".into()));
    assert_eq!(failed.take(0, 10), None);
    assert_eq!(failed.finish(Vec::new()).err(), Some("b".to_string()));
}

#[test]
fn batches_are_packed_into_the_partitions_that_are_wanted() {
    let parts = pack(20, 4);
    assert_eq!(
        parts.len(),
        4,
        "20 batches must pack into target_partitions, not 20 partitions"
    );
    let mut seen: Vec<usize> = parts.concat();
    seen.sort();
    assert_eq!(seen, (0..20).collect::<Vec<usize>>(), "every batch survives the packing");
    assert_eq!(pack(0, 4).len(), 1);
    assert_eq!(pack(2, 8).len(), 2);
}

#[test]
fn a_scan_reads_what_its_restrictions_test() {
    let b = labelled();
    let schema = b.schema();
    let session = QuerySession::with_authorizations(strings(&["admin"]));
    let r = mandatory_predicate(&session, "t", &schema).expect("labels");
    let at = find_column(&b.columns, "product_id").expect("column");
    let plan = plan_scan(&schema, &Some(vec![at]), &vec![r]);
    assert!(!plan.count_only);
    let needed = plan.needed.expect("a projection");
    assert!(needed.contains(&"product_id".to_string()));
    assert!(needed.contains(&VISIBILITY_COLUMN.to_string()));
    let all: Vec<String> = b.columns.iter().map(|c| c.field.name.clone()).collect();
    assert_eq!(columns_to_decode(&all, &needed).len(), 2);
    assert_eq!(project(&b, &needed).columns.len(), 2);
    assert!(plan_scan(&schema, &Some(vec![]), &vec![]).count_only);
    assert!(plan_scan(&schema, &None, &vec![]).needed.is_none());
}

#[test]
fn files_are_loaded_in_their_order_or_not_at_all() {
    let one = || buffer_with("m v=1i 1");
    let two = || buffer_with("m v=1i 1\nm v=2i 2");
    let loaded = collect_loads(None, vec![one()], vec![Some(vec![two()]), None, Some(vec![one()])])
        .expect("loaded");
    let rows: Vec<usize> = loaded.iter().map(|b| b.rows).collect();
    assert_eq!(rows, vec![1, 2, 1]);
    assert_eq!(
        collect_loads::<u8>(Some("lost".into()), vec![], vec![]),
        Err("lost".to_string())
    );
    assert_eq!(scan_threads(100, 64), MAX_SCAN_THREADS);
    assert_eq!(scan_threads(3, 64), 3);
    assert_eq!(scan_threads(3, 0), 1);
}

#[test]
fn limits_are_at_least_one() {
    let l = QueryLimits::new(0, 0);
    assert_eq!((l.max_concurrent, l.timeout_secs), (1, 1));
    assert_eq!(
        QueryLimits::new(4, 30).timed_out(),
        "query timed out after 30s (server-side cap, RR-2)"
    );
}

// ---------------------------------------------------------------------- schemas

#[test]
fn batches_of_different_ages_are_brought_to_one_schema() {
    let old = buffer_with("m,h=a v=1i 1");
    let new = buffer_with("m,h=b,z=q v=2i,w=t 2");
    let (schema, out) = align(&vec![old.copy(), new.copy()]).expect("compatible");
    let names: Vec<&str> = schema.iter().map(|f| f.name.as_str()).collect();
    assert_eq!(names, vec!["time", "h", "v", "z", "w"]);
    for b in &out {
        assert_eq!(b.schema(), schema);
    }
    assert_eq!(out[0].columns[3].cells[0], Cell::Null);
    assert_eq!(
        align_to(&schema, &old.schema())[4],
        Source::Nothing
    );
}

#[test]
fn batches_without_a_column_have_no_joint_schema() {
    let bare = || Batch::new(vec![], 3);
    let told = "Invalid argument error: must either specify a row count or at least one column";
    assert_eq!(align(&vec![bare()]).unwrap_err(), told);
    let (schema, out) = align(&vec![]).unwrap();
    assert!(schema.is_empty() && out.is_empty());
    let (schema, out) = align(&vec![bare(), buffer_with("m v=1i 1")]).unwrap();
    assert_eq!(schema.len(), 2);
    assert_eq!(out[0].columns[1].cells, vec![Cell::Null, Cell::Null, Cell::Null]);
    let plan = plan_scan(&vec![], &None, &vec![]);
    let end = finish_scan(&plan, &vec![], &vec![bare()], 4);
    assert_eq!(end.err(), Some(told.to_string()));
}

#[test]
fn fields_of_one_name_and_two_types_are_refused() {
    let a = buffer_with("m v=1i 1").schema();
    let b = buffer_with("m v=\"x\" 1").schema();
    let e = schema_union(Some(a), b).unwrap_err();
    assert!(e.contains("v"), "{e}");
}

#[test]
fn tags_are_presented_as_views() {
    let b = buffer_with("m,pid=p1,step=s1 v=1.0 1");
    assert!(b
        .schema()
        .iter()
        .any(|f| matches!(f.data_type, DataType::Dictionary(_, _))));
    for f in view_schema(&b.schema()) {
        match f.name.as_str() {
            "pid" | "step" => assert_eq!(f.data_type, DataType::Utf8View),
            "v" => assert_eq!(f.data_type, DataType::Float64),
            _ => {}
        }
    }
    assert_eq!(to_view_batch(&b).schema(), view_schema(&b.schema()));
}

#[test]
fn rows_are_shown_by_the_names_of_their_columns() {
    let rows = batches_to_json(&vec![buffer_with("m,h=a v=7i,ok=t 1700000000000000000")]);
    assert_eq!(rows.len(), 1);
    for (name, cell) in &rows[0] {
        match (name.as_str(), cell) {
            ("h", JsonCell::Text(s)) => assert_eq!(s, "a"),
            ("v", JsonCell::Int(n)) => assert_eq!(*n, 7),
            ("ok", JsonCell::Bool(b)) => assert!(*b),
            ("time", JsonCell::Text(s)) => assert_eq!(s, "2023-11-14T22:13:20Z"),
            other => panic!("unexpected cell {other:?}"),
        }
    }
    assert!(matches!(
        cell_to_json(&DataType::Float64, &Cell::Float(Float::Bits(f64::NAN.to_bits()))),
        JsonCell::Null
    ));
}

#[test]
fn a_restriction_names_the_column_that_it_tests() {
    let r = Restriction::Visibility {
        column: VISIBILITY_COLUMN.into(),
        authorizations: strings(&["a"]),
    };
    assert_eq!(r.required_columns(), strings(&[VISIBILITY_COLUMN]));
}
