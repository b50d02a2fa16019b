use std::collections::BTreeSet;
use timelake::batch::{find_column, Batch, Cell, Column, DataType, Field};
use timelake::buffer::flush;
use timelake::buffer::TableBuffer;
use timelake::catalog::{
    level_of, manifest_path, Catalog, CommitRequest, CommitStep, FileMeta, Level, ManifestEntry,
    Tombstone, MAX_COMMIT_ATTEMPTS,
};
use timelake::ingest::{parse_line, parse_lines, precision_multiplier, FieldValue, Float};

fn column<'a>(b: &'a Batch, name: &str) -> &'a Column {
    &b.columns[find_column(&b.columns, name).expect("column")]
}

fn number(c: &Cell) -> f64 {
    match c {
        Cell::Float(Float::Numeral(s)) => s.parse().expect("numeral"),
        Cell::Float(Float::Bits(b)) => f64::from_bits(*b),
        Cell::Int(n) => *n as f64,
        other => panic!("not a number: {other:?}"),
    }
}

fn filled(lp: &str) -> TableBuffer {
    let mut buf = TableBuffer::default();
    for line in parse_lines(lp, 1, 0).unwrap() {
        buf.append(&line, 0).unwrap();
    }
    buf
}

// ---------------------------------------------------------------------- ingest

#[test]
fn workload_shapes_parse_exactly() {
    let lp = "pipeline_events,product_id=p00001-00002,step=01-download,route=alpha,worker_ip=172.16.1.7,event=start value=1i 1700000000000000001\npipeline_events,product_id=p00001-00002,step=01-download,route=alpha,worker_ip=172.16.1.7,event=stop duration_s=144.7 1700000000000000002\ndisk_metrics,host=host0001,device=nvme0n1 capacity_gb=240i,used_gb=166.26,used_pct=69.28,read_bps=2919372i,write_bps=4151719i 1700000000000000003";
    let rows = parse_lines(lp, 1, 0).unwrap();
    assert_eq!(rows.len(), 3);
    assert_eq!(rows[0].table, "pipeline_events");
    assert_eq!(rows[0].tags.len(), 5);
    assert_eq!(rows[0].fields, vec![("value".into(), FieldValue::Int(1))]);
    assert_eq!(rows[0].timestamp_ns, 1_700_000_000_000_000_001);
    assert_eq!(
        rows[1].fields,
        vec![("duration_s".into(), FieldValue::Float(Float::Numeral("144.7".into())))]
    );
    assert_eq!(rows[2].fields.len(), 5);
}

#[test]
fn escapes_strings_bools_and_precision() {
    let lp = "weird\\ table,k\\==v\\,x msg=\"say \\\"hi\\\"\",ok=true,n=7u 1700000000";
    let rows = parse_lines(lp, 1_000_000_000, 42).unwrap();
    assert_eq!(rows[0].table, "weird table");
    assert_eq!(rows[0].tags, vec![("k=".to_string(), "v,x".to_string())]);
    assert_eq!(rows[0].fields[0].1, FieldValue::Str("say \"hi\"".into()));
    assert_eq!(rows[0].fields[1].1, FieldValue::Bool(true));
    assert_eq!(rows[0].fields[2].1, FieldValue::UInt(7));
    assert_eq!(rows[0].timestamp_ns, 1_700_000_000_000_000_000);

    let rows = parse_lines("m f=1.5", 1, 42).unwrap();
    assert_eq!(rows[0].timestamp_ns, 42);
}

#[test]
fn errors_carry_line_numbers() {
    let err = parse_lines("m f=1\nbroken", 1, 0).unwrap_err();
    assert_eq!(err.line_no, 2);
    let err = parse_lines("m, f=1", 1, 0).unwrap_err();
    assert_eq!(err.line_no, 1);
    assert!(parse_lines("m f=notanumber", 1, 0).is_err());
    assert!(parse_lines("m f=\"unterminated", 1, 0).is_err());
}

#[test]
fn precisions_are_multiples_of_a_nanosecond() {
    assert_eq!(precision_multiplier("ns"), Some(1));
    assert_eq!(precision_multiplier("us"), Some(1_000));
    assert_eq!(precision_multiplier("ms"), Some(1_000_000));
    assert_eq!(precision_multiplier("s"), Some(1_000_000_000));
    assert_eq!(precision_multiplier("h"), None);
}

#[test]
fn numerals_of_all_kinds_are_told_apart() {
    let row = parse_line("m a=-3i,b=18446744073709551615u,c=1e3,d=f,e=\"\" 5", 1, 0).unwrap();
    let values: Vec<FieldValue> = row.fields.into_iter().map(|(_, v)| v).collect();
    assert_eq!(
        values,
        vec![
            FieldValue::Int(-3),
            FieldValue::UInt(u64::MAX),
            FieldValue::Float(Float::Numeral("1e3".into())),
            FieldValue::Bool(false),
            FieldValue::Str("".into()),
        ]
    );
    assert_eq!(
        parse_line("m a=9223372036854775808i 5", 1, 0),
        Err("bad integer \"9223372036854775808i\"".to_string())
    );
    assert_eq!(
        parse_line("m a=-1u 5", 1, 0),
        Err("bad uinteger \"-1u\"".to_string())
    );
    assert_eq!(
        parse_line("m a=x 5", 1, 0),
        Err("bad float \"x\"".to_string())
    );
}

// ---------------------------------------------------------------------- buffer

#[test]
fn append_snapshot_counts_and_schema_evolution() {
    let lp = "pipeline_events,product_id=p1,step=01-download,event=start value=1i 100\npipeline_events,product_id=p2,step=01-download,event=stop duration_s=9.5 200\npipeline_events,product_id=p1,step=02-extract,route=alpha,event=start value=1i 300";
    let buf = filled(lp);
    assert_eq!(buf.row_count(), 3);

    let batch = buf.snapshot();
    assert_eq!(batch.rows, 3);
    assert_eq!(batch.columns.len(), 7);
    let route = column(&batch, "route");
    assert_eq!(route.cells[0], Cell::Null);
    assert_eq!(route.cells[1], Cell::Null);
    assert_ne!(route.cells[2], Cell::Null);
    let step = column(&batch, "step");
    assert_eq!(step.dictionary.len(), 2);
}

#[test]
fn rejected_line_leaves_the_buffer_usable() {
    let mut buf = filled("tt,h=a v=1 100");

    let bad = parse_lines("tt,h=a v=\"oops\" 200", 1, 0).unwrap();
    let err = buf.append(&bad[0], 0).unwrap_err().message("");
    assert!(err.contains("type conflict"), "unexpected error: {err}");

    assert_eq!(buf.row_count(), 1, "rejected row must not be counted");
    assert_eq!(buf.snapshot().rows, 1);

    for line in parse_lines("tt,h=a v=2 300", 1, 0).unwrap() {
        buf.append(&line, 0).unwrap();
    }
    assert_eq!(buf.snapshot().rows, 2);
}

#[test]
fn repeated_key_in_one_line_stays_aligned_and_last_wins() {
    let buf = filled("dt,h=a,h=b v=1,v=2 100");
    let batch = buf.snapshot();
    assert_eq!(batch.rows, 1);
    assert_eq!(column(&batch, "h").cells[0], Cell::Str("b".into()));
    assert_eq!(number(&column(&batch, "v").cells[0]), 2.0);
}

#[test]
fn conflicting_repeat_within_one_line_is_rejected_cleanly() {
    let mut buf = filled("ct,h=a v=1 100");
    let bad = parse_lines("ct,h=a w=1,w=\"two\" 200", 1, 0).unwrap();
    assert!(buf.append(&bad[0], 0).is_err());
    assert_eq!(buf.row_count(), 1);
    assert_eq!(buf.snapshot().rows, 1);
}

#[test]
fn type_conflicts_name_the_field() {
    let mut buf = filled("m x=1i 1");
    let bad = parse_lines("m x=\"oops\" 2", 1, 0).unwrap();
    let err = buf.append(&bad[0], 0).unwrap_err().message("");
    assert!(err.contains("'x'"));
    assert_eq!(
        err,
        "field 'x' type conflict: column was created with a different type than Str(\"oops\")"
    );
    let bad = parse_lines("m x=1 2", 1, 0).unwrap();
    let conflict = buf.append(&bad[0], 0).unwrap_err();
    assert_eq!(conflict.column, "x");
    let number = match &conflict.value {
        FieldValue::Float(Float::Numeral(s)) => format!("{:?}", s.parse::<f64>().unwrap()),
        other => panic!("not a float: {other:?}"),
    };
    assert_eq!(
        conflict.message(&number),
        "field 'x' type conflict: column was created with a different type than Float(1.0)"
    );
    let buf = filled("m y=1.5 1\nm y=2i 2");
    assert_eq!(buf.row_count(), 2);
}

#[test]
fn every_column_of_a_snapshot_has_every_row() {
    let buf = filled("m,a=1 x=1i 1\nm,b=2 y=t 2\nm,a=3,b=4 x=2i,y=f 3");
    let batch = buf.snapshot();
    for c in &batch.columns {
        assert_eq!(c.cells.len(), 3, "{}", c.field.name);
    }
    assert_eq!(batch.schema(), buf.schema_only());
    assert_eq!(column(&batch, "time").cells[1], Cell::Time(2));
    assert_eq!(column(&batch, "x").cells[1], Cell::Null);
}

#[test]
fn a_buffer_ages_from_its_first_row() {
    let mut buf = TableBuffer::new();
    assert_eq!(buf.age_secs(100), 0);
    let rows = parse_lines("m v=1 1\nm v=2 2", 1, 0).unwrap();
    buf.append(&rows[0], 100).unwrap();
    buf.append(&rows[1], 150).unwrap();
    assert_eq!(buf.age_secs(160), 60);
    assert_eq!(buf.age_secs(90), 0);
}

#[test]
fn flush_prepare_dedups_lww_and_splits_hours() {
    let h0 = 1_754_600_000_000_000_000i64;
    let h1 = h0 + 3_600_000_000_000;
    let lp = format!(
        "m,tag=a v=1.0 {h0}\nm,tag=a v=2.0 {h0}\nm,tag=b v=3.0 {h0}\nm,tag=a v=4.0 {h1}"
    );
    let buf = filled(&lp);
    let parts = flush::prepare(&buf.snapshot()).unwrap();
    assert_eq!(parts.len(), 2, "two hour partitions");
    let (p0, b0) = &parts[0];
    let (p1, b1) = &parts[1];
    assert!(p0 < p1);
    assert_eq!(b0.rows, 2, "duplicate PK collapsed");
    assert_eq!(b1.rows, 1);
    let v = column(b0, "v");
    let tags = column(b0, "tag");
    let (a_idx, b_idx) = if tags.cells[0] == Cell::Str("a".into()) { (0, 1) } else { (1, 0) };
    assert_eq!(number(&v.cells[a_idx]), 2.0, "last write wins");
    assert_eq!(number(&v.cells[b_idx]), 3.0);
    let (min, max) = flush::time_bounds(b0);
    assert_eq!((min, max), (h0, h0));
    assert_eq!(b0.columns[0].field.name, "time");
}

#[test]
fn a_leading_tag_clusters_the_rows() {
    let t = 1_786_179_600_000_000_000i64;
    let lp: String = (0..200)
        .map(|i| format!("m,pid=p{:05} v=1.0 {}\n", (i * 79) % 200, t + i))
        .collect();
    let buf = filled(&lp);
    let parts = flush::prepare_ordered(&buf.snapshot(), Some("pid")).unwrap();
    assert_eq!(parts.len(), 1);
    let pids: Vec<&Cell> = column(&parts[0].1, "pid").cells.iter().collect();
    let mut names: Vec<String> = Vec::new();
    for c in pids {
        match c {
            Cell::Str(s) => names.push(s.clone()),
            other => panic!("not a tag: {other:?}"),
        }
    }
    let mut sorted = names.clone();
    sorted.sort();
    assert_eq!(names, sorted, "the leading tag orders the rows");
    assert!(flush::prepare_ordered(&buf.snapshot(), Some("nope")).is_ok());
}

#[test]
fn the_last_write_wins_with_a_leading_tag_and_without() {
    let buf = filled("m,h=a,r=x v=1i 5\nm,h=b,r=x v=2i 5\nm,h=a,r=x v=3i 5\nm,h=a,r=y v=4i 5");
    let values = |b: &Batch| {
        let mut all: Vec<f64> = column(b, "v").cells.iter().map(number).collect();
        all.sort_by(|x, y| x.total_cmp(y));
        all
    };
    let plain = flush::prepare_ordered(&buf.snapshot(), None).unwrap();
    let led = flush::prepare_ordered(&buf.snapshot(), Some("r")).unwrap();
    assert_eq!(plain.len(), 1);
    assert_eq!(led.len(), 1);
    assert_eq!(values(&plain[0].1), vec![2.0, 3.0, 4.0]);
    assert_eq!(values(&led[0].1), values(&plain[0].1));
}

#[test]
fn many_valued_tags_get_blooms() {
    let lp: String = (0..2000)
        .map(|i| format!("m,pid=p{i:05},kind=k{} v=1.0 {i}\n", i % 2))
        .collect();
    let blooms = flush::bloom_columns(&filled(&lp).snapshot());
    assert_eq!(blooms, vec![("pid".to_string(), 2000)]);
}

#[test]
fn hour_partition_format() {
    assert_eq!(
        flush::hour_partition(1_786_179_600_000_000_000),
        "2026080809"
    );
    assert_eq!(flush::hour_partition(0), "1970010100");
}

#[test]
fn hours_are_in_the_order_of_their_texts() {
    let hour = 3_600_000_000_000i64;
    for h in [-200_000i64, -25, -24, -1, 0, 1, 23, 24, 8_760, 500_000] {
        let text = flush::hour_partition(h * hour);
        assert_eq!(text.len(), 10);
        assert!(text.bytes().all(|b| b.is_ascii_digit()));
        assert_eq!(text, flush::hour_partition(h * hour + hour - 1));
        assert!(text < flush::hour_partition((h + 1) * hour));
    }
    assert_eq!(flush::hour_partition(i64::MIN).len(), 10);
    assert!(flush::hour_partition(i64::MIN) < flush::hour_partition(i64::MAX));
}

#[test]
fn a_row_adds_one_cell_to_every_column_and_a_refused_one_none() {
    let mut buf = filled("m,h=a v=1i 5");
    let before = buf.snapshot();
    let bad = parse_line("m,h=b,z=1 w=2i,v=t 6", 1, 0).unwrap();
    assert!(buf.append(&bad, 0).is_err());
    assert_eq!(buf.snapshot(), before);
    assert_eq!(buf.schema_only(), before.schema());
    assert_eq!(buf.row_count(), 1);
    let good = parse_line("m,z=1 w=2i,w=3i 6", 1, 0).unwrap();
    buf.append(&good, 0).unwrap();
    let after = buf.snapshot();
    assert_eq!(after.rows, 2);
    for c in &after.columns {
        assert_eq!(c.cells.len(), 2);
    }
    assert_eq!(column(&after, "h").cells, vec![Cell::Str("a".into()), Cell::Null]);
    assert_eq!(column(&after, "z").cells, vec![Cell::Null, Cell::Str("1".into())]);
    assert_eq!(column(&after, "v").cells, vec![Cell::Int(1), Cell::Null]);
    assert_eq!(column(&after, "w").cells, vec![Cell::Null, Cell::Int(3)]);
}

#[test]
fn times_before_the_epoch_have_partitions_too() {
    assert_eq!(flush::hour_partition(-1), "1969123123");
}

#[test]
fn preparing_what_has_no_time_is_refused() {
    let b = Batch::new(
        vec![Column {
            field: Field::new("x", DataType::Int64, true),
            dictionary: vec![],
            cells: vec![Cell::Int(1)],
        }],
        1,
    );
    assert!(flush::prepare(&b).is_err());
}

// --------------------------------------------------------------------- catalog

/// The log that several catalogs share.
struct Log {
    entries: Vec<(String, ManifestEntry)>,
}

fn log() -> Log {
    Log { entries: Vec::new() }
}

fn put_if_absent(log: &mut Log, path: String, e: &ManifestEntry) -> bool {
    if log.entries.iter().any(|(p, _)| *p == path) {
        return false;
    }
    log.entries.push((path, e.copy()));
    true
}

fn entries(log: &Log) -> Vec<ManifestEntry> {
    log.entries.iter().map(|(_, e)| e.copy()).collect()
}

fn load(log: &Log) -> Catalog {
    Catalog::load(&entries(log))
}

fn commit(log: &mut Log, cat: &mut Catalog, req: CommitRequest) -> Result<u64, String> {
    let mut tried = 0;
    loop {
        match cat.next_attempt(&req, tried) {
            CommitStep::Put(path, entry) => {
                if put_if_absent(log, path, &entry) {
                    cat.won(&entry);
                    return Ok(entry.seq);
                }
                cat.lost(&entries(log));
                tried += 1;
            }
            CommitStep::GiveUp(m) => return Err(m),
        }
    }
}

fn add(log: &mut Log, cat: &mut Catalog, files: Vec<FileMeta>) -> u64 {
    commit(log, cat, Catalog::commit_add(files)).unwrap()
}

fn meta(db: &str, table: &str, part: &str, path: &str) -> FileMeta {
    FileMeta {
        db: db.into(),
        table: table.into(),
        partition: part.into(),
        path: path.into(),
        rows: 10,
        size_bytes: 100,
        min_ts_ns: 1,
        max_ts_ns: 2,
    }
}

fn paths(cat: &Catalog) -> BTreeSet<String> {
    cat.files_for("poc", "t").into_iter().map(|f| f.path).collect()
}

fn names(list: &[&str]) -> BTreeSet<String> {
    list.iter().map(|s| s.to_string()).collect()
}

#[test]
fn level_is_derived_from_the_paths_the_engine_really_writes() {
    let flushed = format!("poc/events/data/{}/{:020}-{:06}.parquet", "2026080800", 7, 3);
    let compacted = format!("poc/events/data/{}/c{:020}-{:06}.parquet", "2026080800", 7, 3);
    let rewritten = format!("poc/events/data/{}/t{:020}-{:06}.parquet", "2026080800", 7, 3);

    assert_eq!(level_of(&flushed), Level::Flushed);
    assert_eq!(level_of(&compacted), Level::Compacted);
    assert_eq!(level_of(&rewritten), Level::Rewritten);

    let tricky = format!("customers/cpu/data/{}/{:020}-{:06}.parquet", "2026080800", 1, 1);
    assert_eq!(level_of(&tricky), Level::Flushed);
}

#[test]
fn storage_summary_totals_bytes_and_rows_per_table() {
    let mut log = log();
    let mut cat = load(&log);
    add(
        &mut log,
        &mut cat,
        vec![
            meta("poc", "events", "2026080800", "poc/events/data/p/1.parquet"),
            meta("poc", "events", "2026080801", "poc/events/data/p/2.parquet"),
            meta("poc", "cpu", "2026080801", "poc/cpu/data/p/3.parquet"),
        ],
    );

    let summary = cat.storage_summary();
    assert_eq!(summary.len(), 2, "one row per table, not per file");
    assert_eq!(summary[0].table, "cpu");
    assert_eq!(summary[0].files, 1);
    assert_eq!(summary[0].bytes, 100);
    assert_eq!(summary[1].table, "events");
    assert_eq!(summary[1].files, 2);
    assert_eq!(summary[1].bytes, 200, "two files of 100 bytes");
    assert_eq!(summary[1].rows, 20);
}

#[test]
fn level_counts_split_flushed_from_compacted() {
    let mut log = log();
    let mut cat = load(&log);
    add(
        &mut log,
        &mut cat,
        vec![
            meta("poc", "events", "p", "poc/events/data/p/00001.parquet"),
            meta("poc", "events", "p", "poc/events/data/p/00002.parquet"),
            meta("poc", "events", "p", "poc/events/data/p/c00003.parquet"),
            meta("poc", "events", "p", "poc/events/data/p/t00004.parquet"),
        ],
    );

    let counts = cat.level_counts();
    assert_eq!(counts.flushed, 2);
    assert_eq!(counts.compacted, 1);
    assert_eq!(counts.rewritten, 1);
    assert_eq!(
        counts.flushed + counts.compacted + counts.rewritten,
        cat.file_count() as u64,
        "every file must land in exactly one level"
    );
}

#[test]
fn commit_survives_reload() {
    let mut log = log();
    {
        let mut cat = load(&log);
        add(
            &mut log,
            &mut cat,
            vec![meta("poc", "pipeline_events", "2026080800", "a.parquet")],
        );
        add(
            &mut log,
            &mut cat,
            vec![
                meta("poc", "pipeline_events", "2026080801", "b.parquet"),
                meta("poc", "host_metrics", "2026080801", "c.parquet"),
            ],
        );
    }
    let mut cat = load(&log);
    assert_eq!(cat.files_for("poc", "pipeline_events").len(), 2);
    assert_eq!(cat.files_for("poc", "host_metrics").len(), 1);
    assert_eq!(
        cat.tables_for("poc"),
        vec!["host_metrics", "pipeline_events"]
    );
    assert_eq!(cat.file_count(), 3);
    add(
        &mut log,
        &mut cat,
        vec![meta("poc", "disk_metrics", "2026080802", "d.parquet")],
    );
    assert_eq!(cat.file_count(), 4);
    assert_eq!(cat.all_files().len(), 4);
    assert_eq!(cat.databases(), vec!["poc"]);
}

#[test]
fn two_writers_on_one_store_lose_nothing() {
    let mut log = log();
    let mut a = load(&log);
    let mut b = load(&log);

    let sa = add(&mut log, &mut a, vec![meta("poc", "t", "2026080800", "a.parquet")]);
    let sb = add(&mut log, &mut b, vec![meta("poc", "t", "2026080800", "b.parquet")]);
    assert_ne!(sa, sb, "two writers must not share a manifest slot");
    assert!(b.commit_conflicts() >= 1, "B should have lost the seq-1 race");

    add(&mut log, &mut a, vec![meta("poc", "t", "2026080801", "a2.parquet")]);
    add(&mut log, &mut b, vec![meta("poc", "t", "2026080801", "b2.parquet")]);

    let fresh = load(&log);
    assert_eq!(
        paths(&fresh),
        names(&["a.parquet", "a2.parquet", "b.parquet", "b2.parquet"])
    );
    assert_eq!(fresh.file_count(), 4, "no committed file was orphaned");
}

#[test]
fn the_loser_learns_the_winners_files() {
    let mut log = log();
    let mut a = load(&log);
    let mut b = load(&log);

    add(&mut log, &mut a, vec![meta("poc", "t", "2026080800", "a.parquet")]);
    add(&mut log, &mut b, vec![meta("poc", "t", "2026080800", "b.parquet")]);

    let bpaths = paths(&b);
    assert!(
        bpaths.contains("a.parquet") && bpaths.contains("b.parquet"),
        "after colliding, B must see both files, got {bpaths:?}"
    );
}

#[test]
fn removals_survive_a_cas_retry() {
    let mut log = log();
    let mut seed = load(&log);
    add(&mut log, &mut seed, vec![meta("poc", "t", "2026080800", "old.parquet")]);

    let mut a = load(&log);
    let mut b = load(&log);
    add(&mut log, &mut a, vec![meta("poc", "t", "2026080801", "concurrent.parquet")]);
    commit(
        &mut log,
        &mut b,
        Catalog::commit(
            vec![meta("poc", "t", "2026080800", "new.parquet")],
            vec!["old.parquet".to_string()],
        ),
    )
    .unwrap();

    let fresh = load(&log);
    assert_eq!(
        paths(&fresh),
        names(&["concurrent.parquet", "new.parquet"]),
        "old.parquet must be gone; both the add and the concurrent add kept"
    );
}

#[test]
fn concurrent_catch_up_applies_an_entry_once() {
    let mut log = log();
    let mut replica = load(&log);
    assert_eq!(replica.head(), 0, "the replica must start behind");

    let mut writer = load(&log);
    add(&mut log, &mut writer, vec![meta("poc", "t", "2026081300", "one.parquet")]);
    assert_eq!(writer.head(), 1);
    assert_eq!(replica.head(), 0, "still behind: this is the race window");

    let seen = entries(&log);
    for _ in 0..16 {
        replica.catch_up(&seen);
    }

    let files = replica.files_for("poc", "t");
    assert_eq!(
        files.len(),
        1,
        "one manifest entry must fold to one file however many callers raced; got {} copies",
        files.len()
    );
    assert_eq!(replica.head(), 1);
}

fn tomb(id: &str, db: &str, table: &str) -> Tombstone {
    Tombstone {
        id: id.into(),
        db: db.into(),
        table: table.into(),
        tag_equals: vec![("host".into(), "web-1".into())],
        min_ts_ns: Some(1),
        max_ts_ns: Some(100),
        created_seq: 0,
    }
}

#[test]
fn tombstone_survives_reload() {
    let mut log = log();
    {
        let mut cat = load(&log);
        add(&mut log, &mut cat, vec![meta("poc", "t", "2026081600", "a.parquet")]);
        commit(&mut log, &mut cat, Catalog::commit_tombstone(tomb("d1", "poc", "t"))).unwrap();
    }
    let cat = load(&log);
    let ts = cat.tombstones_for("poc", "t");
    assert_eq!(ts.len(), 1, "the tombstone must replay from the log");
    assert_eq!(ts[0].id, "d1");
    assert_eq!(ts[0].tag_equals, vec![("host".into(), "web-1".into())]);
    assert!(cat.tombstones_for("poc", "other").is_empty());
    assert_eq!(cat.files_for("poc", "t").len(), 1);
    assert_eq!(cat.tombstones().len(), 1);
}

#[test]
fn tombstone_created_seq_matches_landing_slot() {
    let mut log = log();
    let mut a = load(&log);
    let mut b = load(&log);
    let sa = add(&mut log, &mut a, vec![meta("poc", "t", "2026081600", "a.parquet")]);
    let sb = commit(&mut log, &mut b, Catalog::commit_tombstone(tomb("d1", "poc", "t"))).unwrap();
    assert_eq!(sa, 1);
    assert_eq!(sb, 2, "the tombstone must land past the file commit");
    assert!(b.commit_conflicts() >= 1, "B should have lost seq 1");

    let fresh = load(&log);
    let ts = fresh.tombstones_for("poc", "t");
    assert_eq!(ts.len(), 1);
    assert_eq!(
        ts[0].created_seq, 2,
        "created_seq must be the slot it won, not the slot first attempted"
    );
}

#[test]
fn tombstone_applied_once_by_id() {
    let mut log = log();
    let mut replica = load(&log);
    assert_eq!(replica.head(), 0, "the replica must start behind");

    let mut writer = load(&log);
    commit(&mut log, &mut writer, Catalog::commit_tombstone(tomb("d1", "poc", "t"))).unwrap();

    let seen = entries(&log);
    for _ in 0..16 {
        replica.catch_up(&seen);
    }
    assert_eq!(
        replica.tombstones_for("poc", "t").len(),
        1,
        "one tombstone entry must fold to one tombstone however many callers raced"
    );
}

#[test]
fn an_entry_folded_twice_changes_nothing() {
    let mut cat = Catalog::new();
    let e = ManifestEntry {
        seq: 1,
        add_files: vec![meta("poc", "t", "p", "a.parquet")],
        remove_paths: vec![],
        tombstones: vec![tomb("d1", "poc", "t")],
    };
    cat.apply_entry(&e);
    cat.apply_entry(&e);
    assert_eq!(cat.file_count(), 1);
    assert_eq!(cat.tombstones().len(), 1);
}

#[test]
fn a_commit_gives_up_after_many_lost_races() {
    let cat = Catalog::new();
    match cat.next_attempt(&Catalog::commit_add(vec![]), MAX_COMMIT_ATTEMPTS) {
        CommitStep::GiveUp(m) => assert!(m.contains("100 CAS races")),
        CommitStep::Put(_, _) => panic!("it must give up"),
    }
    assert_eq!(manifest_path(7), "catalog/manifest/000000000007.json");
}
