use timelake::ingest::{FieldValue, Float};
use timelake::lastvalue::LastValueCache;
use timelake::prometheus::{
    decode_block, decode_remote_write, map_write_request, read_request, Label, RemoteWriteError,
    Sample, TimeSeries, WriteRequest,
};

fn tags(pairs: &[(&str, &str)]) -> Vec<(String, String)> {
    pairs
        .iter()
        .map(|(k, v)| (k.to_string(), v.to_string()))
        .collect()
}

fn float(v: f64) -> FieldValue {
    FieldValue::Float(Float::Bits(v.to_bits()))
}

fn f(v: f64) -> Vec<(String, FieldValue)> {
    vec![("value".to_string(), float(v))]
}

// --------------------------------------------------------------- the last values

#[test]
fn disabled_table_is_a_no_op() {
    let mut c = LastValueCache::with_default_cap();
    assert!(!c.is_active());
    c.observe("db", "cpu", &tags(&[("host", "a")]), 10, &f(1.0));
    assert!(
        c.snapshot("db", "cpu").is_empty(),
        "nothing cached until enabled"
    );
}

#[test]
fn caches_latest_per_series_once_enabled() {
    let mut c = LastValueCache::with_default_cap();
    c.enable("db", "cpu");
    assert!(c.is_active());
    c.observe("db", "cpu", &tags(&[("host", "a")]), 10, &f(1.0));
    c.observe("db", "cpu", &tags(&[("host", "b")]), 10, &f(2.0));
    c.observe("db", "cpu", &tags(&[("host", "a")]), 20, &f(3.0));
    let snap = c.snapshot("db", "cpu");
    assert_eq!(snap.len(), 2, "one entry per series");
    let a = snap
        .iter()
        .find(|v| v.tags == tags(&[("host", "a")]))
        .unwrap();
    assert_eq!(a.timestamp_ns, 20);
    assert_eq!(a.fields, f(3.0));
}

#[test]
fn an_out_of_order_older_write_does_not_move_current_value_backwards() {
    let mut c = LastValueCache::with_default_cap();
    c.enable("db", "cpu");
    c.observe("db", "cpu", &tags(&[("host", "a")]), 20, &f(3.0));
    c.observe("db", "cpu", &tags(&[("host", "a")]), 10, &f(999.0));
    let a = &c.snapshot("db", "cpu")[0];
    assert_eq!(a.timestamp_ns, 20, "latest timestamp unchanged");
    assert_eq!(a.fields, f(3.0), "value did not flicker backwards");
}

#[test]
fn tag_order_does_not_split_a_series() {
    let mut c = LastValueCache::with_default_cap();
    c.enable("db", "cpu");
    c.observe(
        "db",
        "cpu",
        &tags(&[("host", "a"), ("dc", "x")]),
        10,
        &f(1.0),
    );
    c.observe(
        "db",
        "cpu",
        &tags(&[("dc", "x"), ("host", "a")]),
        20,
        &f(2.0),
    );
    assert_eq!(
        c.snapshot("db", "cpu").len(),
        1,
        "same series regardless of tag order"
    );
}

#[test]
fn series_that_differ_are_held_apart() {
    let mut c = LastValueCache::with_default_cap();
    c.enable("db", "cpu");
    let all = [
        tags(&[]),
        tags(&[("a", "b")]),
        tags(&[("a", "")]),
        tags(&[("", "a")]),
        tags(&[("a", "b"), ("c", "d")]),
        tags(&[("a", "b"), ("c", "e")]),
    ];
    for (i, t) in all.iter().enumerate() {
        c.observe("db", "cpu", t, i as i64, &f(i as f64));
    }
    assert_eq!(c.snapshot("db", "cpu").len(), all.len());
    c.observe("db", "cpu", &all[1], 99, &f(9.0));
    for v in c.snapshot("db", "cpu") {
        let i = all.iter().position(|t| *t == v.tags).expect("series");
        assert_eq!(v.timestamp_ns, if i == 1 { 99 } else { i as i64 });
    }
}

#[test]
fn the_cap_holds_under_more_series_than_it_can_hold() {
    let mut c = LastValueCache::new(100);
    c.enable("db", "cpu");
    for i in 0..1000 {
        c.observe(
            "db",
            "cpu",
            &tags(&[("host", &format!("h{i}"))]),
            i,
            &f(i as f64),
        );
    }
    assert_eq!(c.len(), 100, "entry count never exceeds the cap");
    let snap = c.snapshot("db", "cpu");
    assert!(
        snap.iter().any(|v| v.tags == tags(&[("host", "h999")])),
        "newest series is present"
    );
    assert!(
        !snap.iter().any(|v| v.tags == tags(&[("host", "h0")])),
        "oldest series was evicted"
    );
}

#[test]
fn disable_drops_the_tables_entries() {
    let mut c = LastValueCache::with_default_cap();
    c.enable("db", "cpu");
    c.observe("db", "cpu", &tags(&[("host", "a")]), 10, &f(1.0));
    assert_eq!(c.len(), 1);
    c.disable("db", "cpu");
    assert!(!c.is_active());
    assert_eq!(
        c.len(),
        0,
        "entries dropped once the table can't be queried"
    );
}

#[test]
fn tables_do_not_bleed_into_each_other() {
    let mut c = LastValueCache::with_default_cap();
    c.enable("db", "cpu");
    c.enable("db", "cpu2");
    c.observe("db", "cpu", &tags(&[("host", "a")]), 10, &f(1.0));
    c.observe("db", "cpu2", &tags(&[("host", "a")]), 10, &f(2.0));
    assert_eq!(c.snapshot("db", "cpu").len(), 1);
    assert_eq!(c.snapshot("db", "cpu2").len(), 1);
    assert_ne!(
        c.snapshot("db", "cpu")[0].fields,
        c.snapshot("db", "cpu2")[0].fields
    );
}

#[test]
fn enabled_tables_are_listed() {
    let mut c = LastValueCache::with_default_cap();
    c.enable("db", "mem");
    c.enable("db", "cpu");
    c.enable("db", "cpu");
    assert!(c.is_enabled("db", "cpu"));
    assert!(!c.is_enabled("other", "cpu"));
    assert!(c.is_empty());
    assert_eq!(
        c.enabled_tables(),
        vec![
            ("db".to_string(), "cpu".to_string()),
            ("db".to_string(), "mem".to_string())
        ]
    );
}

// ------------------------------------------------------------------ remote write

fn lbl(n: &str, v: &str) -> Label {
    Label {
        name: n.to_string(),
        value: v.to_string(),
    }
}

fn sample(value: f64, timestamp: i64) -> Sample {
    Sample {
        value: value.to_bits(),
        timestamp,
    }
}

fn series(labels: Vec<Label>, samples: Vec<Sample>) -> WriteRequest {
    WriteRequest {
        timeseries: vec![TimeSeries { labels, samples }],
    }
}

#[test]
fn a_series_maps_to_one_row_name_measurement_labels_tags_value_field() {
    let req = series(
        vec![
            lbl("__name__", "up"),
            lbl("job", "node"),
            lbl("instance", "h1"),
        ],
        vec![sample(1.0, 1_700_000_000_000)],
    );
    let rows = map_write_request(&req).unwrap();
    assert_eq!(rows.len(), 1);
    let r = &rows[0];
    assert_eq!(r.table, "up");
    assert_eq!(
        r.tags,
        vec![
            ("job".to_string(), "node".to_string()),
            ("instance".to_string(), "h1".to_string())
        ]
    );
    assert_eq!(r.fields, vec![("value".to_string(), float(1.0))]);
    assert_eq!(r.timestamp_ns, 1_700_000_000_000 * 1_000_000);
}

#[test]
fn the_whole_label_set_is_one_row_not_a_table_per_field() {
    let req = series(
        vec![
            lbl("__name__", "sensor_reading"),
            lbl("device_id", "d1"),
            lbl("room", "kitchen"),
        ],
        vec![sample(21.5, 1_000)],
    );
    let rows = map_write_request(&req).unwrap();
    assert_eq!(
        rows.len(),
        1,
        "one series is one row, never one row per label"
    );
    assert_eq!(rows[0].table, "sensor_reading");
    assert_eq!(rows[0].tags.len(), 2);
    assert_eq!(rows[0].fields.len(), 1);
}

#[test]
fn many_samples_in_one_series_become_many_rows() {
    let req = series(
        vec![lbl("__name__", "reqs")],
        vec![sample(1.0, 1), sample(2.0, 2), sample(3.0, 3)],
    );
    let rows = map_write_request(&req).unwrap();
    assert_eq!(rows.len(), 3);
    assert_eq!(rows[2].timestamp_ns, 3 * 1_000_000);
    assert!(rows.iter().all(|r| r.table == "reqs" && r.tags.is_empty()));
}

#[test]
fn each_number_of_each_series_is_one_row() {
    let one = TimeSeries {
        labels: vec![lbl("__name__", "up"), lbl("job", "a")],
        samples: vec![sample(1.0, 1), sample(f64::NAN, 2), sample(2.0, 3)],
    };
    let two = TimeSeries {
        labels: vec![lbl("__name__", "load")],
        samples: vec![sample(f64::NEG_INFINITY, 4), sample(0.5, 5)],
    };
    let rows = map_write_request(&WriteRequest {
        timeseries: vec![one, two],
    })
    .unwrap();
    assert_eq!(rows.len(), 3);
    for (row, (table, v)) in rows.iter().zip([("up", 1.0), ("up", 2.0), ("load", 0.5)]) {
        assert_eq!(row.table, table);
        assert_eq!(row.fields, vec![("value".to_string(), float(v))]);
    }
}

#[test]
fn a_series_without_a_name_is_rejected_whole() {
    let req = series(vec![lbl("job", "node")], vec![sample(1.0, 1)]);
    assert!(matches!(
        map_write_request(&req),
        Err(RemoteWriteError::MissingName)
    ));
}

#[test]
fn stale_and_infinite_samples_are_dropped_not_stored() {
    let req = series(
        vec![lbl("__name__", "up")],
        vec![
            sample(f64::NAN, 1),
            sample(1.0, 2),
            sample(f64::INFINITY, 3),
        ],
    );
    let rows = map_write_request(&req).unwrap();
    assert_eq!(rows.len(), 1, "only the finite sample survives");
    assert_eq!(rows[0].timestamp_ns, 2 * 1_000_000);
}

fn message(tag: u32, body: &[u8], out: &mut Vec<u8>) {
    prost::encoding::encode_key(tag, prost::encoding::WireType::LengthDelimited, out);
    prost::encoding::encode_varint(body.len() as u64, out);
    out.extend_from_slice(body);
}

fn encoded(req: &WriteRequest) -> Vec<u8> {
    let mut out = Vec::new();
    for t in &req.timeseries {
        let mut ts = Vec::new();
        for l in &t.labels {
            let mut b = Vec::new();
            prost::encoding::string::encode(1, &l.name, &mut b);
            prost::encoding::string::encode(2, &l.value, &mut b);
            message(1, &b, &mut ts);
        }
        for s in &t.samples {
            let mut b = Vec::new();
            prost::encoding::double::encode(1, &f64::from_bits(s.value), &mut b);
            prost::encoding::int64::encode(2, &s.timestamp, &mut b);
            message(2, &b, &mut ts);
        }
        message(1, &ts, &mut out);
    }
    out
}

#[test]
fn full_wire_roundtrip_snappy_then_protobuf() {
    let req = series(
        vec![lbl("__name__", "temp"), lbl("host", "a")],
        vec![sample(42.0, 5)],
    );
    let proto = encoded(&req);
    let compressed = snap::raw::Encoder::new().compress_vec(&proto).unwrap();

    let rows = decode_remote_write(&compressed).unwrap();
    assert_eq!(rows.len(), 1);
    assert_eq!(rows[0].table, "temp");
    assert_eq!(rows[0].tags, vec![("host".to_string(), "a".to_string())]);
    assert_eq!(rows[0].fields, vec![("value".to_string(), float(42.0))]);
    assert_eq!(rows[0].timestamp_ns, 5 * 1_000_000);
}

#[test]
fn a_body_that_is_not_snappy_is_a_client_error() {
    let err = decode_remote_write(b"not snappy at all").unwrap_err();
    assert!(matches!(err, RemoteWriteError::Snappy(_)));
    assert!(err.message().starts_with("remote_write body is not snappy: "));
}

#[test]
fn a_block_that_is_no_request_is_a_client_error() {
    let err = decode_block(Ok(vec![0x0a, 0x05, 0x01])).unwrap_err();
    assert!(matches!(err, RemoteWriteError::Protobuf(_)));
    assert!(err.message().starts_with("remote_write protobuf decode failed: "));
    assert!(read_request(&[0x0f]).is_err());
    assert!(decode_block(Err("x".into())).is_err());
}

#[test]
fn unknown_fields_are_passed_over_and_negative_times_are_read() {
    let mut proto = encoded(&series(vec![lbl("__name__", "m")], vec![sample(-0.5, -7)]));
    prost::encoding::string::encode(9, &"later".to_string(), &mut proto);
    let req = read_request(&proto).unwrap();
    assert_eq!(req.timeseries.len(), 1);
    assert_eq!(req.timeseries[0].samples[0], sample(-0.5, -7));
    assert_eq!(req.timeseries[0].labels[0].name, "__name__");
    let rows = map_write_request(&req).unwrap();
    assert_eq!(rows[0].timestamp_ns, -7_000_000);
}
