use std::io::Write;
use timelake::api::admin::{
    admin_delete, audit_page, cert_grants_remove, cert_grants_set, change_password, check_setting,
    config_delete, config_set, config_value_text, delete_mutation, issue_mutation,
    last_cache_delete, last_cache_set, logs_window, token_json, token_view, tokens_issue,
    tokens_revoke, AuditQuery, ConfigValue, DeleteRequest, LastCacheSet, PasswordChange,
    TokenRequest,
};
use timelake::api::changes::{
    answer, audit_event, config_err_response, settle, settle_config, Mutation, Operation,
};
use timelake::api::retention::{
    humanize_secs, listed, parse_duration_secs, retention_delete, retention_set, set_mutation,
    RetentionPolicy, RetentionSet, RETENTION_ANY_DB,
};
use timelake::api::rollups;
use timelake::api::rollups::{
    rollups_delete, rollups_set, Quantile, RollupAgg, RollupDef, RollupFn, RollupSet,
};
use timelake::api::{
    admin_guard, audit_gate, audit_record, body_or_refusal, deny_response, login_refusal,
    maybe_gunzip, query_authorizations, query_database, require, require_admin_session,
    session_cookie, too_many_queries, write_database, write_prometheus, write_result_response,
    Refusal, WriteError, WriteRoute,
};
use timelake::audit::{AuditLog, AuditSink, Policy};
use timelake::auth::guard::Decision;
use timelake::auth::token::{Scope, TokenError, TokenRecord};
use timelake::auth::{Auth, LoginError, Role, SessionInfo};
use timelake::config::{ConfigError, ConfigSetError};
use timelake::ordered::OrderedMap;

fn strings(list: &[&str]) -> Vec<String> {
    list.iter().map(|s| s.to_string()).collect()
}

fn headers(pairs: &[(&str, &str)]) -> Vec<(String, String)> {
    pairs
        .iter()
        .map(|(k, v)| (k.to_string(), v.to_string()))
        .collect()
}

fn session(role: Role) -> SessionInfo {
    SessionInfo {
        username: "rc".into(),
        role,
        must_change_password: false,
        csrf: "c".into(),
    }
}

fn log(healthy: bool) -> AuditLog {
    let sink = AuditSink::recover(&vec![], Policy::default(), 0);
    let mut l = AuditLog::open_with(sink, "n".into(), false);
    l.healthy = healthy;
    l
}

fn said(f: &Refusal) -> (u16, Option<&'static str>, &str) {
    (f.status, f.code, f.message.as_str())
}

// -------------------------------------------------------------------- the gates

fn console() -> Auth {
    let mut a = Auth::open(OrderedMap::new(), vec![], &vec![], OrderedMap::new());
    a.seed(None, 0).expect("seeding");
    a
}

fn logged_in() -> Auth {
    let mut a = console();
    a.login("admin", "admin", "tok".into(), "csrf".into(), 1_000, 1)
        .expect("login");
    a
}

fn rotated() -> Auth {
    let mut a = console();
    a.change_password("admin", "admin", "correct horse battery")
        .expect("rotation");
    a.login(
        "admin",
        "correct horse battery",
        "tok".into(),
        "csrf".into(),
        1_000,
        1,
    )
    .expect("login");
    a
}

#[test]
fn nothing_is_told_to_a_sender_without_a_session() {
    let mut a = logged_in();
    for h in [
        headers(&[]),
        headers(&[("authorization", "Bearer nope")]),
        headers(&[("authorization", "bearer tok")]),
        headers(&[("cookie", "other=tok")]),
    ] {
        let f = admin_guard(&mut a, "GET", "/admin/retention", &h, 2_000).unwrap_err();
        assert_eq!(
            said(&f),
            (401, Some("unauthenticated"), "authentication required")
        );
    }
}

#[test]
fn a_first_password_only_changes_itself() {
    let mut a = logged_in();
    let h = headers(&[("authorization", "Bearer tok")]);
    let f = admin_guard(&mut a, "GET", "/admin/retention", &h, 2_000).unwrap_err();
    assert_eq!(f.code, Some("password_change_required"));
    assert!(admin_guard(&mut a, "POST", "/admin/password", &h, 2_000).is_ok());
    for (method, path) in [
        ("GET", "/admin/session"),
        ("DELETE", "/admin/session"),
        ("GET", "/admin/password"),
    ] {
        let f = admin_guard(&mut a, method, path, &h, 2_000).unwrap_err();
        assert_eq!((f.status, f.code), (403, Some("password_change_required")));
    }
    let f = require_admin_session(&mut a, &h, 2_000).expect("refused");
    assert_eq!(f.message, "the password must be changed first");
}

#[test]
fn a_change_by_cookie_needs_the_second_token() {
    let mut a = rotated();
    let cookie = ("cookie", "tldb_admin_session=tok");
    let go = |a: &mut Auth, method: &str, h: &[(&str, &str)]| {
        admin_guard(a, method, "/admin/retention", &headers(h), 2_000)
            .map(|s| s.username)
            .map_err(|f| f.code)
    };
    assert_eq!(go(&mut a, "GET", &[cookie]), Ok("admin".into()));
    assert_eq!(go(&mut a, "PUT", &[cookie]), Err(Some("csrf")));
    assert_eq!(
        go(&mut a, "PUT", &[cookie, ("x-timelake-csrf", "wrong")]),
        Err(Some("csrf"))
    );
    let csrf = ("x-timelake-csrf", "csrf");
    assert!(go(&mut a, "PUT", &[cookie, csrf]).is_ok());
    assert_eq!(
        go(
            &mut a,
            "PUT",
            &[cookie, csrf, ("origin", "https://evil"), ("host", "db:1966")]
        ),
        Err(Some("origin"))
    );
    assert!(go(
        &mut a,
        "PUT",
        &[cookie, csrf, ("origin", "https://db:1966"), ("host", "db:1966")]
    )
    .is_ok());
    assert!(go(&mut a, "PUT", &[("authorization", "Bearer tok")]).is_ok());
    assert!(require_admin_session(&mut a, &headers(&[cookie]), 2_000).is_none());
}

#[test]
fn roles_that_do_not_suffice_are_told_so() {
    assert!(require(&session(Role::Admin), Role::Operator).is_none());
    let f = require(&session(Role::Viewer), Role::Operator).expect("refused");
    assert_eq!(
        said(&f),
        (
            403,
            Some("forbidden"),
            "role 'viewer' is not sufficient; 'operator' required"
        )
    );
}

#[test]
fn sessions_are_kept_in_cookies() {
    assert_eq!(
        session_cookie(Some("t"), true),
        "tldb_admin_session=t; HttpOnly; SameSite=Strict; Path=/admin; Secure"
    );
    assert_eq!(
        session_cookie(None, false),
        "tldb_admin_session=; HttpOnly; SameSite=Strict; Path=/admin; Max-Age=0"
    );
    let f = login_refusal(&LoginError::RateLimited(1_000));
    assert_eq!((f.status, f.code), (429, Some("rate_limited")));
    let f = login_refusal(&LoginError::Invalid);
    assert_eq!((f.status, f.code), (401, Some("invalid_credentials")));
}

// ---------------------------------------------------------------- the data plane

#[test]
fn refused_credentials_are_asked_for_or_forbidden() {
    let f = deny_response(TokenError::Missing);
    assert_eq!(said(&f), (401, Some("unauthenticated"), "authentication required"));
    assert_eq!(
        f.header,
        Some(("www-authenticate", "Bearer realm=\"timelake\""))
    );
    let f = deny_response(TokenError::Forbidden);
    assert_eq!((f.status, f.header), (403, None));
}

#[test]
fn writes_are_answered_by_what_came_of_them() {
    assert!(write_result_response(Ok(3)).is_none());
    let status = |e| write_result_response(Err(e)).expect("refused").status;
    assert_eq!(status(WriteError::BadRequest("x".into())), 400);
    assert_eq!(status(WriteError::Internal("x".into())), 500);
    assert_eq!(status(WriteError::NotHere("x".into())), 501);
    let f = write_result_response(Err(WriteError::Backpressure("full".into()))).expect("refused");
    assert_eq!(
        (f.status, f.header, f.message.as_str()),
        (429, Some(("retry-after", "1")), "full")
    );
}

#[test]
fn writes_name_their_database() {
    assert_eq!(
        write_database(WriteRoute::V2, Some("b".into())).unwrap(),
        "b"
    );
    assert_eq!(
        write_database(WriteRoute::V2, None).unwrap_err().message,
        "missing 'bucket' parameter"
    );
    assert_eq!(
        write_database(WriteRoute::Prometheus, None)
            .unwrap_err()
            .message,
        "missing 'db' parameter"
    );
}

#[test]
fn compressed_bodies_are_opened() {
    let mut e = flate2::write::GzEncoder::new(Vec::new(), flate2::Compression::default());
    e.write_all(b"m v=1 1").unwrap();
    let packed = e.finish().unwrap();
    let h = headers(&[("content-encoding", "GZip")]);
    assert_eq!(maybe_gunzip(&h, packed.clone()).unwrap(), b"m v=1 1");
    assert_eq!(maybe_gunzip(&headers(&[]), packed.clone()).unwrap(), packed);
    let f = maybe_gunzip(&h, b"plain".to_vec()).unwrap_err();
    assert_eq!(f.status, 400);
    assert!(f.message.starts_with("bad gzip body: "), "{}", f.message);
    assert_eq!(
        body_or_refusal(Err("x".into())).unwrap_err().message,
        "bad gzip body: x"
    );
}

#[test]
fn a_remote_write_without_rows_is_no_error() {
    let empty = snap::raw::Encoder::new().compress_vec(&[]).unwrap();
    assert!(write_prometheus(&empty).unwrap().is_none());
    assert_eq!(write_prometheus(b"not snappy at all").unwrap_err().status, 400);
}

#[test]
fn claims_of_header_and_body_are_joined_and_narrowed() {
    let h = headers(&[("x-timelake-authorizations", "ops, admin")]);
    let d = Decision::anonymous();
    assert_eq!(
        query_authorizations(&h, &strings(&["audit", "ops"]), &d),
        strings(&["ops", "admin", "audit"])
    );
    let d = Decision {
        identity: None,
        granted: Some(strings(&["audit", "ops"])),
    };
    assert_eq!(
        query_authorizations(&h, &strings(&["audit"]), &d),
        strings(&["ops", "audit"])
    );
    let d = Decision {
        identity: None,
        granted: Some(strings(&["root"])),
    };
    assert!(query_authorizations(&h, &strings(&["audit"]), &d).is_empty());
    assert_eq!(query_database(None), "poc");
    assert_eq!(too_many_queries().status, 429);
}

// --------------------------------------------------------------------- the trail

#[test]
fn a_broken_trail_refuses_changes() {
    assert!(audit_gate(&log(true)).is_none());
    assert_eq!(
        said(&audit_gate(&log(false)).expect("refused")),
        (503, None, "audit sink unavailable")
    );
    let nr = |s: &SessionInfo| audit_event(s, None, "x", None, None, None, "ok");
    let mut l = log(true);
    let a = l.sink.draft("n", nr(&session(Role::Admin)), "t".into(), 0);
    assert!(audit_record(&mut l, a, false, Ok(())).is_none());
    let a = l.sink.draft("n", nr(&session(Role::Admin)), "t".into(), 0);
    let f = audit_record(&mut l, a, false, Err("disk".into()));
    assert_eq!(f.expect("refused").status, 503);
    assert!(audit_gate(&l).is_some());
    l.fail_open = true;
    let a = l.sink.draft("n", nr(&session(Role::Admin)), "t".into(), 0);
    assert!(audit_record(&mut l, a, false, Err("disk".into())).is_none());
}

fn mutation(op: Operation) -> Mutation {
    Mutation {
        op,
        target: Some("t".into()),
        before: Some("1".into()),
        after: Some("2".into()),
    }
}

#[test]
fn changes_are_settled_by_what_came_of_them() {
    let s = session(Role::Admin);
    let done = settle(&s, None, mutation(Operation::RetentionSet), None, Ok(true));
    let e = done.event.expect("recorded");
    assert_eq!(
        (e.action.as_str(), e.outcome.as_str(), e.after.as_deref()),
        ("retention.set", "ok", Some("2"))
    );
    assert_eq!((e.principal.as_str(), e.role.as_str()), ("rc", "admin"));
    assert!(done.refusal.is_none());

    let gone = settle(&s, None, mutation(Operation::TokenRevoke), None, Ok(false));
    assert!(gone.event.is_none());
    assert_eq!(gone.refusal.expect("refused").status, 404);
    let gone = settle(&s, None, mutation(Operation::CertGrantsRemove), None, Ok(false));
    assert_eq!(
        gone.refusal.expect("refused").message,
        "no grants recorded for that identity"
    );

    let failed = |op, e: &str| {
        let r = settle(&s, None, mutation(op), Some("p".into()), Err(e.into()));
        let ev = r.event.expect("recorded");
        (r.refusal.expect("refused").status, ev.outcome, ev.after)
    };
    assert_eq!(
        failed(Operation::RetentionSet, "disk"),
        (500, "error".into(), None)
    );
    assert_eq!(
        failed(Operation::RollupSet, "bad"),
        (400, "denied".into(), None)
    );
    assert_eq!(
        failed(Operation::PasswordChange, "short"),
        (400, "denied".into(), None)
    );
    assert_eq!(
        failed(Operation::DataDelete, "table x does not exist"),
        (400, "denied".into(), Some("p".into()))
    );
    assert_eq!(
        failed(Operation::DataDelete, "disk"),
        (500, "error".into(), Some("p".into()))
    );
}

#[test]
fn refused_settings_are_conflicts() {
    let s = session(Role::Admin);
    let r = ConfigSetError::Rejected(ConfigError::Pinned("k".into()));
    assert_eq!(config_err_response(&r).status, 409);
    let done = settle_config(&s, None, mutation(Operation::ConfigSet), Err(r));
    assert_eq!(done.event.expect("recorded").outcome, "rejected");
    assert_eq!(done.refusal.expect("refused").status, 409);
    let done = settle_config(
        &s,
        None,
        mutation(Operation::ConfigRevert),
        Err(ConfigSetError::Store("disk".into())),
    );
    assert!(done.event.is_none());
    assert_eq!(done.refusal.expect("refused").status, 500);
    assert!(settle_config(&s, None, mutation(Operation::ConfigSet), Ok(true))
        .refusal
        .is_none());
}

#[test]
fn a_change_that_failed_is_answered_as_that() {
    let f = || require(&session(Role::Viewer), Role::Admin);
    assert_eq!(answer(f(), audit_gate(&log(false))).expect("refused").status, 403);
    assert_eq!(answer(None, audit_gate(&log(false))).expect("refused").status, 503);
    assert!(answer(None, None).is_none());
}

// --------------------------------------------------------------------- retention

#[test]
fn durations_read_back() {
    assert_eq!(parse_duration_secs("365d"), Some(365 * 86_400));
    assert_eq!(parse_duration_secs("72h"), Some(72 * 3_600));
    assert_eq!(parse_duration_secs("90m"), Some(5_400));
    assert_eq!(parse_duration_secs(" 7 d "), Some(7 * 86_400));
    assert_eq!(parse_duration_secs("45"), Some(45));
    assert_eq!(parse_duration_secs("45s"), Some(45));
    for bad in ["", "d", "0d", "0", "-1d", "1w", "1.5h", "18446744073709551615d"] {
        assert_eq!(parse_duration_secs(bad), None, "{bad:?}");
    }
    assert_eq!(humanize_secs(86_400), "1d");
    assert_eq!(humanize_secs(5_400), "90m");
    assert_eq!(humanize_secs(61), "61s");
    for n in [1, 59, 60, 3_600, 86_400, 90_061, u64::MAX] {
        assert_eq!(parse_duration_secs(&humanize_secs(n)), Some(n));
    }
}

fn policy(db: &str, table: &str, seconds: u64) -> RetentionPolicy {
    RetentionPolicy {
        db: db.into(),
        table: table.into(),
        seconds,
    }
}

#[test]
fn policies_reach_where_they_say() {
    let one = policy("poc", "m", 1);
    assert!(one.covers("poc", "m"));
    assert!(!one.covers("other", "m"));
    assert!(!one.covers("poc", "n"));
    assert!(!one.is_wildcard());
    let all = policy(RETENTION_ANY_DB, "m", 1);
    assert!(all.covers("poc", "m") && all.covers("other", "m") && all.is_wildcard());
    assert!(!all.covers("poc", "n"));
}

fn asked(db: Option<&str>, table: &str, duration: &str) -> Result<RetentionSet, String> {
    Ok(RetentionSet {
        db: db.map(String::from),
        table: table.into(),
        duration: duration.into(),
    })
}

#[test]
fn keeping_less_is_an_administrators() {
    let now = vec![policy("poc", "m", 86_400)];
    let set = |role, trail, body| retention_set(&session(role), &log(trail), body, &now);
    let longer = || asked(Some("poc"), " m ", "2d");
    let p = set(Role::Operator, true, longer()).unwrap();
    assert_eq!(
        (p.seconds, p.current, p.destructive, p.all_databases),
        (172_800, Some(86_400), false, false)
    );
    assert_eq!(p.table, "m");
    assert_eq!(set(Role::Viewer, true, longer()).unwrap_err().status, 403);
    assert_eq!(set(Role::Operator, false, longer()).unwrap_err().status, 503);

    let shorter = || asked(Some("poc"), "m", "1h");
    assert_eq!(set(Role::Operator, true, shorter()).unwrap_err().status, 403);
    assert!(set(Role::Admin, true, shorter()).unwrap().destructive);
    let everywhere = || asked(Some("*"), "m", "9d");
    assert_eq!(set(Role::Operator, true, everywhere()).unwrap_err().status, 403);
    let p = set(Role::Admin, true, everywhere()).unwrap();
    assert!(p.destructive && p.all_databases);

    let why = |body| set(Role::Admin, true, body).unwrap_err().message;
    assert_eq!(why(asked(Some("poc"), "  ", "1d")), "table must not be empty");
    assert!(why(asked(None, "m", "1d")).starts_with("db is required"));
    assert!(why(asked(Some(" "), "m", "1d")).starts_with("db is required"));
    assert_eq!(
        why(asked(Some("poc"), "m", "soon")),
        "duration \"soon\" is not <n>d, <n>h, <n>m, or seconds (and must be > 0)"
    );
    assert_eq!(why(Err("no json".into())), "no json");
}

#[test]
fn the_trail_tells_how_long_a_table_was_kept() {
    let now = vec![policy("poc", "m", 86_400)];
    let p = retention_set(
        &session(Role::Admin),
        &log(true),
        asked(Some("poc"), "m", "1h"),
        &now,
    )
    .unwrap();
    let m = set_mutation(&p);
    assert_eq!(m.target.as_deref(), Some("poc.m"));
    assert_eq!(
        m.before.as_deref(),
        Some("{\"duration\":\"1d\",\"seconds\":86400}")
    );
    assert_eq!(
        m.after.as_deref(),
        Some("{\"db\":\"poc\",\"duration\":\"1h\",\"seconds\":3600}")
    );
    let m = retention_delete(&session(Role::Admin), &log(true), "poc", "m", &now).unwrap();
    assert_eq!(m.op, Operation::RetentionRemove);
    assert_eq!(
        m.before.as_deref(),
        Some("{\"db\":\"poc\",\"duration\":\"1d\",\"seconds\":86400}")
    );
    assert!(retention_delete(&session(Role::Operator), &log(true), "poc", "m", &now).is_err());
}

#[test]
fn policies_are_listed_by_table_then_database() {
    let all = vec![policy("b", "n", 1), policy("b", "m", 1), policy("a", "n", 1)];
    assert_eq!(listed(&all), vec![1, 2, 0]);
}

// ----------------------------------------------------------------------- rollups

fn agg(function: RollupFn, target: &str, quantile: Option<f64>) -> RollupAgg {
    RollupAgg {
        function,
        source_column: "v".into(),
        target_column: target.into(),
        quantile: quantile.map(|q| Quantile {
            bits: q.to_bits(),
            shown: format!("{q}"),
        }),
    }
}

fn def(aggregations: Vec<RollupAgg>) -> RollupDef {
    RollupDef {
        db: "poc".into(),
        name: "r".into(),
        source: "m".into(),
        target: "m_1h".into(),
        interval_secs: 3_600,
        lookback_secs: 7_200,
        group_by: strings(&["host"]),
        aggregations,
        filter: None,
    }
}

#[test]
fn sound_rollups_pass() {
    let d = def(vec![
        agg(RollupFn::Avg, "a", None),
        agg(RollupFn::Percentile, "p", Some(0.0)),
        agg(RollupFn::Percentile, "q", Some(1.0)),
        agg(RollupFn::Percentile, "r", Some(-0.0)),
    ]);
    assert_eq!(d.validate(), Ok(()));
    assert!(RollupFn::Percentile.takes_quantile());
    assert!(!RollupFn::CountDistinct.takes_quantile());
}

#[test]
fn unsound_rollups_say_what_is_wrong() {
    let base = || def(vec![agg(RollupFn::Avg, "a", None)]);
    let why = |d: RollupDef| d.validate().unwrap_err();
    assert_eq!(
        why(RollupDef { db: " ".into(), ..base() }),
        "db must not be empty: name the database this rollup runs in"
    );
    assert_eq!(
        why(RollupDef { name: "".into(), ..base() }),
        "rollup name must not be empty"
    );
    assert_eq!(
        why(RollupDef { source: "".into(), ..base() }),
        "source table must not be empty"
    );
    assert_eq!(
        why(RollupDef { target: "".into(), ..base() }),
        "target table must not be empty"
    );
    assert_eq!(
        why(RollupDef { target: "m".into(), ..base() }),
        "source and target must differ — a rollup cannot feed itself"
    );
    assert_eq!(
        why(RollupDef { interval_secs: 0, ..base() }),
        "interval must be > 0"
    );
    assert_eq!(
        why(RollupDef { lookback_secs: 1, ..base() }),
        "lookback must be ≥ interval: a pass has to cover at least one whole bucket"
    );
    assert_eq!(
        why(def(vec![])),
        "a rollup needs at least one aggregation"
    );
    assert_eq!(
        why(def(vec![agg(RollupFn::Avg, " ", None)])),
        "each aggregation needs a source_column and a target_column"
    );
    assert_eq!(
        why(def(vec![agg(RollupFn::Avg, "time", None)])),
        "a target_column may not be named 'time' (the bucket column)"
    );
    assert_eq!(
        why(def(vec![agg(RollupFn::Avg, "a", None), agg(RollupFn::Min, "a", None)])),
        "two aggregations write the same target_column \"a\""
    );
    assert_eq!(
        why(def(vec![agg(RollupFn::Percentile, "p", None)])),
        "aggregation \"p\" is a percentile and needs a quantile (0.0–1.0)"
    );
    for q in [1.5, -0.1, f64::NAN, f64::INFINITY] {
        assert_eq!(
            why(def(vec![agg(RollupFn::Percentile, "p", Some(q))])),
            format!("percentile quantile for \"p\" must be within 0.0–1.0, got {q}")
        );
    }
    assert_eq!(
        why(def(vec![agg(RollupFn::Avg, "a", Some(0.5))])),
        "aggregation \"a\" takes no quantile — only percentile does"
    );
    assert_eq!(
        why(RollupDef { filter: Some(" ".into()), ..base() }),
        "filter, if given, must not be blank"
    );
    assert_eq!(
        why(RollupDef { group_by: strings(&["a"]), ..base() }),
        "group_by tag \"a\" collides with an aggregation's target_column"
    );
}

fn rollup(interval: &str, lookback: Option<&str>) -> Result<RollupSet, String> {
    Ok(RollupSet {
        db: " poc ".into(),
        name: "r".into(),
        source: " m ".into(),
        target: Some(" ".into()),
        interval: interval.into(),
        lookback: lookback.map(String::from),
        group_by: None,
        aggregations: vec![agg(RollupFn::Avg, " a ", None)],
        filter: Some("  ".into()),
    })
}

#[test]
fn rollups_have_defaults() {
    let admin = session(Role::Admin);
    let d = rollups_set(&admin, &log(true), rollup("1h", None)).unwrap();
    assert_eq!((d.db.as_str(), d.source.as_str(), d.target.as_str()), ("poc", "m", "m_1h"));
    assert_eq!((d.interval_secs, d.lookback_secs), (3_600, 3_600));
    assert_eq!(d.aggregations[0].target_column, "a");
    assert!(d.group_by.is_empty() && d.filter.is_none());
    assert_eq!(d.validate(), Ok(()));
    let m = rollups::set_mutation(&d, &vec![]);
    assert_eq!(m.target.as_deref(), Some("poc.r"));
    assert_eq!(m.before, None);
    assert_eq!(
        m.after.as_deref(),
        Some("{\"db\":\"poc\",\"interval_secs\":3600,\"lookback_secs\":3600,\"name\":\"r\",\"source\":\"m\",\"target\":\"m_1h\"}")
    );
    let m = rollups::set_mutation(&d, &vec![def(vec![])]);
    assert_eq!(
        m.before.as_deref(),
        Some("{\"interval_secs\":3600,\"source\":\"m\",\"target\":\"m_1h\"}")
    );
}

#[test]
fn rollups_are_an_administrators() {
    let set = |role, trail, body| rollups_set(&session(role), &log(trail), body).unwrap_err();
    assert_eq!(set(Role::Operator, true, rollup("1h", None)).status, 403);
    assert_eq!(set(Role::Admin, false, rollup("1h", None)).status, 503);
    assert_eq!(set(Role::Admin, true, Err("no json".into())).message, "no json");
    assert_eq!(
        set(Role::Admin, true, rollup("x", None)).message,
        "interval \"x\" is not <n>d/<n>h/<n>m/seconds (> 0)"
    );
    assert_eq!(
        set(Role::Admin, true, rollup("1h", Some("y"))).message,
        "lookback \"y\" is not <n>d/<n>h/<n>m/seconds (> 0)"
    );
    let m = rollups_delete(&session(Role::Admin), &log(true), "poc", "r", &vec![def(vec![])])
        .unwrap();
    assert_eq!(
        m.before.as_deref(),
        Some("{\"source\":\"m\",\"target\":\"m_1h\"}")
    );
    assert!(rollups_delete(&session(Role::Operator), &log(true), "poc", "r", &vec![]).is_err());
    let mut b = def(vec![]);
    b.name = "a".into();
    assert_eq!(rollups::listed(&vec![def(vec![]), b]), vec![1, 0]);
}

// ------------------------------------------------------------------ the rest of it

#[test]
fn caching_a_table_is_an_operators() {
    let body = |db: &str, table: &str| {
        Ok(LastCacheSet {
            db: db.into(),
            table: table.into(),
        })
    };
    let m = last_cache_set(&session(Role::Operator), &log(true), body(" poc ", "m")).unwrap();
    assert_eq!((m.op, m.target.as_deref()), (Operation::LastCacheEnable, Some("poc.m")));
    let f = last_cache_set(&session(Role::Viewer), &log(true), body("", "m")).unwrap_err();
    assert_eq!(f.message, "db and table must not be empty");
    let f = last_cache_set(&session(Role::Viewer), &log(true), body("poc", "m")).unwrap_err();
    assert_eq!(f.status, 403);
    let m = last_cache_delete(&session(Role::Operator), &log(true), "poc", "m").unwrap();
    assert_eq!(m.op, Operation::LastCacheDisable);
    assert!(last_cache_delete(&session(Role::Operator), &log(false), "poc", "m").is_err());
}

#[test]
fn settings_are_changed_by_the_role_that_they_ask_for() {
    let admin = session(Role::Admin);
    let set = |s: &SessionInfo, trail, key: &str, v, param: Option<&str>| {
        config_set(s, &log(trail), key, v, param.map(String::from))
    };
    let p = set(&admin, true, "gc_grace_secs", Ok(ConfigValue::Number("1500".into())), None)
        .unwrap();
    assert_eq!((p.value.as_deref(), p.dry_run), (Some("1500"), false));
    let p = set(&admin, false, "gc_grace_secs", Ok(ConfigValue::Null), Some("1")).unwrap();
    assert_eq!((p.value, p.dry_run), (None, true));
    let f = set(&admin, true, "nope", Ok(ConfigValue::Null), None).unwrap_err();
    assert_eq!(said(&f), (404, None, "unknown setting `nope`"));
    let f = set(&session(Role::Viewer), true, "gc_grace_secs", Ok(ConfigValue::Null), None)
        .unwrap_err();
    assert_eq!(f.status, 403);
    let f = set(&admin, true, "gc_grace_secs", Ok(ConfigValue::Other), None).unwrap_err();
    assert_eq!(f.message, "value must be a string, number, boolean, or null");
    let f = set(&admin, true, "gc_grace_secs", Err("eof".into()), None).unwrap_err();
    assert_eq!(
        f.message,
        "body must be {\"value\": <string|number|bool|null>}: eof"
    );
    let f = set(&admin, false, "gc_grace_secs", Ok(ConfigValue::Bool(true)), None).unwrap_err();
    assert_eq!(f.status, 503);
    assert_eq!(
        config_value_text(ConfigValue::Bool(false)).unwrap().as_deref(),
        Some("false")
    );
    assert_eq!(
        config_value_text(ConfigValue::Text("x".into())).unwrap().as_deref(),
        Some("x")
    );
    assert!(check_setting(&admin, "gc_grace_secs").is_none());
    assert!(config_delete(&admin, &log(true), "gc_grace_secs").is_none());
    assert!(config_delete(&admin, &log(false), "gc_grace_secs").is_some());
}

fn deletion(db: &str) -> Result<DeleteRequest, String> {
    Ok(DeleteRequest {
        db: db.into(),
        table: " m ".into(),
        tags: vec![("host".into(), "a".into()), ("r".into(), "\"x\"".into())],
        start_ns: Some(-5),
        end_ns: None,
    })
}

#[test]
fn deletions_are_an_administrators_and_leave_a_trace() {
    let p = admin_delete(&session(Role::Admin), &log(true), &deletion(" poc ")).unwrap();
    assert_eq!((p.db.as_str(), p.table.as_str()), ("poc", "m"));
    assert_eq!(
        p.predicate,
        "{\"end_ns\":null,\"start_ns\":-5,\"tags\":{\"host\":\"a\",\"r\":\"\\\"x\\\"\"}}"
    );
    let m = delete_mutation(&p, Some(("t1".into(), 9)));
    assert_eq!(
        m.after.as_deref(),
        Some("{\"predicate\":{\"end_ns\":null,\"start_ns\":-5,\"tags\":{\"host\":\"a\",\"r\":\"\\\"x\\\"\"}},\"seq\":9,\"tombstone_id\":\"t1\"}")
    );
    assert_eq!(delete_mutation(&p, None).after, None);
    let why = |role, trail, body| admin_delete(&session(role), &log(trail), &body).unwrap_err();
    assert_eq!(why(Role::Operator, true, deletion("poc")).status, 403);
    assert_eq!(
        why(Role::Admin, true, deletion(" ")).message,
        "db and table must not be empty"
    );
    assert_eq!(why(Role::Admin, true, Err("eof".into())).message, "eof");
    assert_eq!(why(Role::Admin, false, deletion("poc")).status, 503);
}

fn request(description: &str, scope: &str) -> Result<TokenRequest, String> {
    Ok(TokenRequest {
        description: description.into(),
        scope: scope.into(),
        databases: strings(&["poc"]),
        authorizations: vec![],
        expires_in_secs: Some(60),
    })
}

#[test]
fn tokens_are_an_administrators() {
    let p = tokens_issue(&session(Role::Admin), &log(true), request("probe", "read_write"), 100)
        .unwrap();
    assert_eq!((p.scope, p.expires_at_secs), (Scope::ReadWrite, Some(160)));
    let why = |role, trail, body| {
        tokens_issue(&session(role), &log(trail), body, 100).unwrap_err()
    };
    assert_eq!(why(Role::Operator, true, request("x", "read")).status, 403);
    assert!(why(Role::Admin, true, request(" ", "read"))
        .message
        .starts_with("description must not be empty"));
    assert_eq!(
        why(Role::Admin, true, request("x", "all")).message,
        "scope \"all\" is not read, write, or read_write"
    );
    assert_eq!(why(Role::Admin, true, Err("eof".into())).message, "eof");
    assert_eq!(why(Role::Admin, false, request("x", "read")).status, 503);
    let m = tokens_revoke(&session(Role::Admin), &log(true), "t1").unwrap();
    assert_eq!((m.op, m.target.as_deref()), (Operation::TokenRevoke, Some("t1")));
    assert!(tokens_revoke(&session(Role::Operator), &log(true), "t1").is_err());
}

#[test]
fn tokens_are_shown_without_their_digests() {
    let r = TokenRecord {
        id: "t1".into(),
        description: "d".into(),
        hash: "SECRET".into(),
        scope: Scope::Read,
        databases: strings(&["a", "b"]),
        authorizations: vec![],
        created_by: "admin".into(),
        created_at_secs: 7,
        expires_at_secs: None,
        revoked: false,
        last_used_secs: Some(9),
    };
    assert_eq!(
        token_json(&r),
        "{\"authorizations\":[],\"created_at_secs\":7,\"created_by\":\"admin\",\"databases\":[\"a\",\"b\"],\"description\":\"d\",\"expires_at_secs\":null,\"id\":\"t1\",\"last_used_secs\":9,\"revoked\":false,\"scope\":\"read\"}"
    );
    assert!(!format!("{:?}", token_view(&r)).contains("SECRET"));
    let m = issue_mutation(Some(&r));
    assert_eq!(m.target.as_deref(), Some("t1"));
    assert_eq!(m.after, Some(token_json(&r)));
    assert_eq!(issue_mutation(None).after, None);
}

#[test]
fn grants_are_an_administrators() {
    let set = |role, trail, cn: &str, body| {
        cert_grants_set(&session(role), &log(trail), cn, &body, &Some(strings(&["x"])))
    };
    let m = set(Role::Admin, true, "cn", Ok(strings(&["a", "b"]))).unwrap();
    assert_eq!(m.before.as_deref(), Some("{\"authorizations\":[\"x\"]}"));
    assert_eq!(m.after.as_deref(), Some("{\"authorizations\":[\"a\",\"b\"]}"));
    assert_eq!(
        set(Role::Admin, true, " ", Ok(vec![])).unwrap_err().message,
        "certificate CN must not be empty"
    );
    assert_eq!(set(Role::Operator, true, "cn", Ok(vec![])).unwrap_err().status, 403);
    assert_eq!(set(Role::Admin, false, "cn", Ok(vec![])).unwrap_err().status, 503);
    assert_eq!(set(Role::Admin, true, "cn", Err("eof".into())).unwrap_err().message, "eof");
    let m = cert_grants_remove(&session(Role::Admin), &log(true), "cn", &None).unwrap();
    assert_eq!((m.op, m.before), (Operation::CertGrantsRemove, None));
}

#[test]
fn a_change_of_password_leaves_no_password_in_the_trail() {
    let body = Ok(PasswordChange {
        current_password: "old".into(),
        new_password: "new".into(),
    });
    let m = change_password(&session(Role::Viewer), &log(true), &body).unwrap();
    assert_eq!((m.target.as_deref(), m.before, m.after), (Some("rc"), None, None));
    assert!(change_password(&session(Role::Viewer), &log(false), &body).is_err());
    let f = change_password(&session(Role::Viewer), &log(true), &Err("eof".into())).unwrap_err();
    assert_eq!(f.message, "eof");
}

#[test]
fn pages_are_limited() {
    assert_eq!(logs_window(None, None), ("info".to_string(), 500));
    assert_eq!(
        logs_window(Some("warn".into()), Some(9_999)),
        ("warn".to_string(), 5_000)
    );
    let mut records = Vec::new();
    let mut sink = AuditSink::recover(&vec![], Policy::default(), 0);
    for i in 0..5 {
        let nr = audit_event(
            &session(Role::Admin),
            None,
            if i % 2 == 0 { "a" } else { "b" },
            Some(format!("t{i}")),
            None,
            None,
            "ok",
        );
        let a = sink.draft("n", nr, format!("2025-01-0{}T00:00:00.000000Z", i + 1), 0);
        sink.commit(&a, false);
        records.push(a.record);
    }
    let query = || AuditQuery {
        action: None,
        principal: None,
        target: None,
        since: None,
        limit: None,
        verify: false,
    };
    assert_eq!(audit_page(&query(), &records), vec![0, 1, 2, 3, 4]);
    let q = AuditQuery { action: Some("a".into()), ..query() };
    assert_eq!(audit_page(&q, &records), vec![0, 2, 4]);
    let q = AuditQuery { action: Some("a".into()), limit: Some(2), ..query() };
    assert_eq!(audit_page(&q, &records), vec![2, 4], "the newest are kept");
    let q = AuditQuery { since: Some("2025-01-04".into()), ..query() };
    assert_eq!(audit_page(&q, &records), vec![3, 4]);
    let q = AuditQuery { target: Some("t1".into()), ..query() };
    assert_eq!(audit_page(&q, &records), vec![1]);
    let q = AuditQuery { principal: Some("someone".into()), ..query() };
    assert!(audit_page(&q, &records).is_empty());
}
