use timelake::auth::token::TokenError;
use timelake::batch::{Batch, Cell, Column, DataType, Field};
use timelake::buffer::TableBuffer;
use timelake::flight::doput::batch_to_rows;
use timelake::flight::{
    check_put_table, db_from_metadata, deny, listed_database, open_ticket, put_database,
    put_error_to_status, resolve_auths, rows_to_put, statement_handle, statement_of,
    ClientAuthCounts, Code, PeerIdentity, PutError, TicketParts,
};
use timelake::headers::{
    auths_from_headers, client_key, client_key_of, cookie_value, header, join, list, AUTHORIZATIONS,
};
use timelake::ingest::{parse_lines, FieldValue, Float};

fn strings(list: &[&str]) -> Vec<String> {
    list.iter().map(|s| s.to_string()).collect()
}

fn headers(pairs: &[(&str, &str)]) -> Vec<(String, String)> {
    pairs
        .iter()
        .map(|(k, v)| (k.to_string(), v.to_string()))
        .collect()
}

fn column(name: &str, data_type: DataType, cells: Vec<Cell>) -> Column {
    Column {
        field: Field::new(name, data_type, true),
        dictionary: vec![],
        cells,
    }
}

fn time(values: &[i64]) -> Column {
    column(
        "time",
        DataType::TimeNs(None),
        values.iter().map(|t| Cell::Time(*t)).collect(),
    )
}

fn text(s: &str) -> Cell {
    Cell::Str(s.into())
}

fn bits(v: f64) -> Float {
    Float::Bits(v.to_bits())
}

fn dict(name: &str, values: &[&str]) -> Column {
    let mut c = column(name, DataType::tag(), values.iter().map(|v| text(v)).collect());
    c.dictionary = strings(values);
    c
}

// -------------------------------------------------------------------- the rows

#[test]
fn strings_are_tags_numbers_are_fields_time_is_the_timestamp() {
    let batch = Batch::new(
        vec![
            time(&[10, 20]),
            column("host", DataType::Utf8, vec![text("a"), text("b")]),
            dict("region", &["west", "east"]),
            column(
                "temp",
                DataType::Float64,
                vec![Cell::Float(bits(1.5)), Cell::Float(bits(2.5))],
            ),
            column(
                "ok",
                DataType::Boolean,
                vec![Cell::Bool(true), Cell::Bool(false)],
            ),
        ],
        2,
    );

    let rows = batch_to_rows("weather", &batch).unwrap();
    assert_eq!(rows.len(), 2);
    assert_eq!(rows[0].table, "weather");
    assert_eq!(
        rows[0].tags,
        vec![
            ("host".to_string(), "a".to_string()),
            ("region".to_string(), "west".to_string())
        ]
    );
    assert_eq!(
        rows[0].fields,
        vec![
            ("temp".to_string(), FieldValue::Float(bits(1.5))),
            ("ok".to_string(), FieldValue::Bool(true)),
        ]
    );
    assert_eq!(rows[0].timestamp_ns, 10);
}

#[test]
fn a_string_field_needs_the_field_role_metadata() {
    let mut msg = column("msg", DataType::Utf8, vec![text("boom")]);
    msg.field.role = Some("field".into());
    let batch = Batch::new(vec![time(&[1]), msg], 1);
    let rows = batch_to_rows("logs", &batch).unwrap();
    assert!(rows[0].tags.is_empty());
    assert_eq!(
        rows[0].fields,
        vec![("msg".to_string(), FieldValue::Str("boom".to_string()))]
    );
}

#[test]
fn a_null_cell_omits_that_tag_or_field_on_that_row() {
    let batch = Batch::new(
        vec![
            time(&[1, 2]),
            column("host", DataType::Utf8, vec![text("a"), Cell::Null]),
            column("v", DataType::Int64, vec![Cell::Int(1), Cell::Null]),
            column("w", DataType::Int64, vec![Cell::Null, Cell::Int(9)]),
        ],
        2,
    );

    let rows = batch_to_rows("m", &batch).unwrap();
    assert_eq!(rows[0].tags, vec![("host".to_string(), "a".to_string())]);
    assert_eq!(rows[0].fields, vec![("v".to_string(), FieldValue::Int(1))]);
    assert!(rows[1].tags.is_empty());
    assert_eq!(rows[1].fields, vec![("w".to_string(), FieldValue::Int(9))]);
}

#[test]
fn a_batch_with_no_time_column_is_rejected() {
    let batch = Batch::new(
        vec![
            column("host", DataType::Utf8, vec![text("a")]),
            column("v", DataType::Int64, vec![Cell::Int(1)]),
        ],
        1,
    );
    let err = batch_to_rows("m", &batch).unwrap_err();
    assert!(err.contains("time"), "unexpected error: {err}");
}

#[test]
fn a_column_with_a_role_that_is_not_known_is_refused() {
    let mut c = column("x", DataType::Utf8, vec![text("a")]);
    c.field.role = Some("other".into());
    let batch = Batch::new(vec![time(&[1]), c], 1);
    assert_eq!(
        batch_to_rows("m", &batch).unwrap_err(),
        "column \"x\" has unknown timelake:role \"other\" (want \"tag\" or \"field\")"
    );
}

fn one(v: i64) -> Batch {
    Batch::new(
        vec![time(&[v]), column("v", DataType::Int64, vec![Cell::Int(v)])],
        1,
    )
}

#[test]
fn a_stream_is_put_whole_or_not_at_all() {
    let rows = rows_to_put("m", &vec![one(1), one(2)]).unwrap();
    assert_eq!(rows.len(), 2);
    assert_eq!(rows[1].timestamp_ns, 2);
    assert!(rows_to_put("m", &vec![]).unwrap().is_empty());
    let bad = Batch::new(vec![column("v", DataType::Int64, vec![Cell::Int(1)])], 1);
    let s = rows_to_put("m", &vec![one(1), bad]).unwrap_err();
    assert_eq!(s.code, Code::InvalidArgument);
    assert_eq!(s.message, "DoPut batch needs a `time` column");
}

// ------------------------------------------------------------------ the headers

#[test]
fn the_database_is_the_first_that_is_named() {
    assert_eq!(db_from_metadata(&headers(&[])), "poc");
    assert_eq!(db_from_metadata(&headers(&[("db", "d"), ("bucket", "b")])), "b");
    assert_eq!(
        db_from_metadata(&headers(&[("database", ""), ("bucket-name", "n")])),
        "n"
    );
    assert_eq!(
        listed_database(Some("c".into()), &headers(&[("db", "d")])),
        "c"
    );
    assert_eq!(
        listed_database(Some("".into()), &headers(&[("db", "d")])),
        "d"
    );
    assert_eq!(
        put_database(Some("s".into()), Some("c".into()), &headers(&[])),
        "s"
    );
    assert_eq!(put_database(None, Some("c".into()), &headers(&[])), "c");
    assert_eq!(
        put_database(Some("".into()), Some("c".into()), &headers(&[])),
        "poc",
        "an empty schema does not fall back to the catalog"
    );
}

#[test]
fn claims_are_a_list_with_commas() {
    assert_eq!(list(" a, ,b ,c,"), strings(&["a", "b", "c"]));
    assert_eq!(
        auths_from_headers(&headers(&[(AUTHORIZATIONS, "ops, audit")])),
        strings(&["ops", "audit"])
    );
    assert!(auths_from_headers(&headers(&[])).is_empty());
    assert_eq!(
        join(strings(&["a"]), &strings(&["b", "a", "b"])),
        strings(&["a", "b"])
    );
    assert_eq!(
        header(&headers(&[("x", "1"), ("x", "2")]), "x"),
        Some("1".to_string())
    );
}

#[test]
fn cookies_are_found_by_their_names() {
    let h = headers(&[("cookie", "a=1; tldb = two =2 ;b")]);
    assert_eq!(cookie_value(&h, "tldb"), Some("two =2".to_string()));
    assert_eq!(cookie_value(&h, "b"), None);
    assert_eq!(cookie_value(&headers(&[]), "a"), None);
}

#[test]
fn clients_are_counted_by_credential_then_by_address() {
    assert_eq!(
        client_key(Some(255), Some("1.2.3.4".into())),
        Some("tok:00000000000000ff".to_string())
    );
    assert_eq!(
        client_key(Some(0x0123_4567_89ab_cdef), None),
        Some("tok:0123456789abcdef".to_string())
    );
    assert_eq!(
        client_key(None, Some("1.2.3.4".into())),
        Some("ip:1.2.3.4".to_string())
    );
    assert_eq!(client_key(None, None), None);

    let shown = |v: &str, ip: Option<&str>| {
        client_key_of(&headers(&[("authorization", v)]), ip.map(String::from)).expect("a key")
    };
    let key = shown("Bearer tldb_s", Some("1.2.3.4"));
    assert_eq!(key, shown("Bearer tldb_s", None), "the credential alone counts");
    assert_ne!(key, shown("Bearer tldb_t", None));
    assert_eq!(key.len(), "tok:".len() + 16);
    let mut h = std::collections::hash_map::DefaultHasher::new();
    std::hash::Hash::hash("Bearer tldb_s", &mut h);
    assert_eq!(key, format!("tok:{:016x}", std::hash::Hasher::finish(&h)));
    assert_eq!(
        client_key_of(&headers(&[]), Some("1.2.3.4".into())),
        Some("ip:1.2.3.4".to_string())
    );
}

// ----------------------------------------------------------------- the decisions

#[test]
fn credentials_narrow_claims_and_refusals_end_the_call() {
    let claimed = || strings(&["admin", "ops"]);
    assert_eq!(
        resolve_auths(Ok(Some(strings(&["ops", "audit"]))), claimed()).unwrap(),
        strings(&["ops"])
    );
    assert_eq!(resolve_auths(Ok(None), claimed()).unwrap(), claimed());
    let s = resolve_auths(Err(TokenError::Forbidden), claimed()).unwrap_err();
    assert_eq!(s.code, Code::PermissionDenied);
    let s = deny(TokenError::Missing);
    assert_eq!(s.code, Code::Unauthenticated);
    assert_eq!(s.message, "authentication required");
    assert_eq!(deny(TokenError::Invalid).code, Code::Unauthenticated);
}

#[test]
fn failed_writes_have_statuses() {
    let s = put_error_to_status(PutError::BadRequest("b".into()));
    assert_eq!((s.code, s.message.as_str()), (Code::InvalidArgument, "b"));
    let s = put_error_to_status(PutError::Backpressure("p".into()));
    assert_eq!((s.code, s.message.as_str()), (Code::ResourceExhausted, "p"));
    let s = put_error_to_status(PutError::Internal("i".into()));
    assert_eq!((s.code, s.message.as_str()), (Code::Internal, "i"));
}

#[test]
fn rows_need_a_table() {
    assert!(check_put_table("m").is_ok());
    assert_eq!(
        check_put_table("").unwrap_err().message,
        "CommandStatementIngest.table is required"
    );
}

#[test]
fn a_ticket_runs_what_was_planned() {
    let sql = "SELECT \"x\"\n FROM t WHERE s = 'a\\b'";
    let handle = statement_handle("poc", sql, &strings(&["ops", "a\"b"]));
    let s = open_ticket(
        &handle.into_bytes(),
        &headers(&[(AUTHORIZATIONS, "ops,audit")]),
    )
    .unwrap();
    assert_eq!(s.db, "poc");
    assert_eq!(s.sql, sql);
    assert_eq!(s.auths, strings(&["ops", "a\"b", "audit"]));
}

#[test]
fn tickets_of_a_clients_own_making_are_read_with_care() {
    let open = |t: &str| open_ticket(&t.as_bytes().to_vec(), &headers(&[]));
    let s = open("{\"sql\":\"SELECT 1\",\"auths\":[\"a\",7,null,\"b\"]}").unwrap();
    assert_eq!(s.db, "poc");
    assert_eq!(s.auths, strings(&["a", "b"]));
    assert_eq!(open("{}").unwrap_err().message, "ticket missing sql");
    assert_eq!(open("[1]").unwrap_err().message, "ticket missing sql");
    assert!(open("{").unwrap_err().message.starts_with("bad ticket: "));
    let s = open_ticket(&vec![0xff], &headers(&[])).unwrap_err();
    assert_eq!(s.message, "ticket is not utf-8");
    assert_eq!(s.code, Code::InvalidArgument);
    let parts = TicketParts {
        db: None,
        sql: Some("q".into()),
        auths: vec![None, Some("x".into())],
    };
    let s = statement_of(Ok(parts), &strings(&["y"])).unwrap();
    assert_eq!((s.db.as_str(), s.auths), ("poc", strings(&["x", "y"])));
}

#[test]
fn connections_are_counted_by_whether_they_show_a_certificate() {
    let mut c = ClientAuthCounts::default();
    c.connected(&PeerIdentity::default());
    c.connected(&PeerIdentity(Some("cn".into())));
    c.connected(&PeerIdentity(None));
    assert_eq!((c.authenticated, c.anonymous), (1, 2));
}

#[test]
fn what_a_table_shows_can_be_put_back() {
    let lines = parse_lines("m,h=a v=1i,ok=t 5\nm,h=b v=2i 6\nm v=3i,ok=f 7", 1, 0).unwrap();
    let mut buf = TableBuffer::default();
    for line in &lines {
        buf.append(line, 0).unwrap();
    }
    let rows = rows_to_put("m", &vec![buf.snapshot()]).unwrap();
    assert_eq!(rows.len(), 3);
    for (row, line) in rows.iter().zip(&lines) {
        assert_eq!(row.table, "m");
        assert_eq!(row.timestamp_ns, line.timestamp_ns);
        assert_eq!(row.tags, line.tags);
        assert_eq!(row.fields, line.fields);
    }
}
