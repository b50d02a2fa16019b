use timelake::cluster::{
    parse_peers, ClusterError, Discovery, NodeInfo, Role, StaticDiscovery,
};
use timelake::config::{
    setting_at, spec, Apply, ConfigError, ConfigSetError, Kind, Layered, Scope, SettingsDoc,
    Source, SCHEMA_VERSION, SETTINGS,
};
use timelake::config;
use timelake::discovery::{
    base_url, check_id, members_of, parse_members, registration, registration_body, sort_members,
    split_host_port,
    ConsulDiscovery, Notice, Service, CHECK_TTL_SECS, SERVICE,
};
use timelake::ordered::OrderedMap;

// ------------------------------------------------------------------ membership

#[test]
fn role_parsing_defaults_to_all_and_rejects_typos() {
    assert_eq!(Role::parse("").unwrap(), Role::All);
    assert_eq!(Role::parse("all").unwrap(), Role::All);
    assert_eq!(Role::parse(" Ingester ").unwrap(), Role::Ingester);
    assert_eq!(Role::parse("QUERIER").unwrap(), Role::Querier);
    assert!(matches!(
        Role::parse("ingster"),
        Err(ClusterError::UnknownRole(_))
    ));
}

#[test]
fn implemented_roles_are_everything_but_the_compactor() {
    assert!(Role::All.implemented());
    assert!(Role::Ingester.implemented(), "CL-2 shipped the ingester");
    assert!(Role::Router.implemented(), "phase 3 shipped the router");
    assert!(Role::Querier.implemented(), "phase 4 shipped the querier");
    assert!(
        !Role::Compactor.implemented(),
        "the compactor gate stays shut until the lease lands on top of \
         the commit fence — flipping this is a decision, not a tidy-up"
    );
}

#[test]
fn peers_parse_into_addressable_nodes() {
    let peers = parse_peers("ing-a=ingester@ing-a:1965, qry-b=querier@qry-b:1966").unwrap();
    assert_eq!(peers.len(), 2);
    let a = peers.iter().find(|n| n.id == "ing-a").unwrap();
    assert_eq!(a.role, Role::Ingester);
    assert_eq!(a.address, "ing-a:1965");
}

#[test]
fn blank_entries_are_skipped_and_a_repeated_id_keeps_the_last() {
    let peers = parse_peers("a=ingester@a:1, ,a=querier@a:2,").unwrap();
    assert_eq!(peers.len(), 1, "trailing comma and blank skipped");
    assert_eq!(peers[0].role, Role::Querier, "last wins on duplicate id");
}

#[test]
fn a_peer_can_carry_a_public_data_address_for_the_router() {
    let peers = parse_peers("ing-a=ingester@ing-a:1965|ing-a:1963").unwrap();
    assert_eq!(peers[0].address, "ing-a:1965", "intra-cluster addr");
    assert_eq!(peers[0].data_address, "ing-a:1963", "public data addr");
    let bare = parse_peers("ing-b=ingester@ing-b:1965").unwrap();
    assert_eq!(bare[0].data_address, "");
}

#[test]
fn malformed_peers_are_a_loud_error_not_a_silent_drop() {
    assert!(parse_peers("no-at-sign").is_err());
    assert!(parse_peers("id=ingester@").is_err(), "empty address");
    assert!(parse_peers("=ingester@h:1").is_err(), "empty id");
    assert!(parse_peers("id=notarole@h:1").is_err(), "bad role");
}

fn node(id: &str, role: Role, addr: &str, data: &str) -> NodeInfo {
    NodeInfo {
        id: id.to_string(),
        role,
        address: addr.to_string(),
        data_address: data.to_string(),
    }
}

#[test]
fn discovery_reports_self_and_filters_peers_by_role() {
    let this = node("ing-a", Role::Ingester, "ing-a:1965", "ing-a:1963");
    let peers = parse_peers("ing-b=ingester@ing-b:1965, qry=querier@qry:1966").unwrap();
    let d = StaticDiscovery::new(this, peers);
    assert_eq!(d.this_node().id, "ing-a");
    let ingesters = d.peers_with_role(Role::Ingester);
    assert_eq!(ingesters.len(), 1);
    assert_eq!(ingesters[0].id, "ing-b", "the pair peer, not self");
    assert_eq!(d.peers_with_role(Role::Querier).len(), 1);
    assert!(d.peers_with_role(Role::Router).is_empty());
}

#[test]
fn a_lone_node_has_no_peers() {
    let d = StaticDiscovery::new(node("node-local", Role::All, "", ""), Vec::new());
    assert!(d.peers().is_empty());
    assert!(d.peers_with_role(Role::Ingester).is_empty());
}

#[test]
fn nodes_come_from_settings() {
    let d = StaticDiscovery::from_settings(Role::All, None, None, None, None).unwrap();
    assert_eq!(d.this_node().id, "node-local");
    assert_eq!(d.this_node().address, "");
    assert!(d.peers().is_empty());
    let d = StaticDiscovery::from_settings(
        Role::Querier,
        Some("q1".into()),
        Some("q1:1966".into()),
        Some("q1:1963".into()),
        Some("ing-a=ingester@ing-a:1965|ing-a:1963".into()),
    )
    .unwrap();
    assert_eq!(d.this_node().id, "q1");
    assert_eq!(d.this_node().role, Role::Querier);
    assert_eq!(d.this_node().data_address, "q1:1963");
    assert_eq!(d.peers()[0].data_address, "ing-a:1963");
    let refused =
        StaticDiscovery::from_settings(Role::All, None, None, None, Some("ing-a".into()));
    assert!(refused.is_err());
}

#[test]
fn role_names_read_back() {
    for r in [
        Role::All,
        Role::Ingester,
        Role::Querier,
        Role::Router,
        Role::Compactor,
    ] {
        assert_eq!(Role::parse(r.as_str()).unwrap(), r);
    }
    let e = Role::parse("ingster").unwrap_err();
    assert!(e.message().contains("ingster"), "{}", e.message());
}

// ------------------------------------------------------------------- discovery

const CATALOG: &str = r#"[
  {"Service":{"ID":"ing-a","Meta":{"role":"ingester","cluster_addr":"ing-a:1965","data_addr":"ing-a:1963"}}},
  {"Service":{"ID":"ing-b","Meta":{"role":"ingester","cluster_addr":"ing-b:1965","data_addr":"ing-b:1963"}}},
  {"Service":{"ID":"self","Meta":{"role":"querier","cluster_addr":"self:1965","data_addr":"self:1963"}}},
  {"Service":{"ID":"garbled","Meta":{"cluster_addr":"x:1965"}}}
]"#;

#[test]
fn parse_skips_self_and_garbled_entries() {
    let peers = parse_members(CATALOG.as_bytes(), "self");
    let ids: Vec<&str> = peers.iter().map(|n| n.id.as_str()).collect();
    assert_eq!(
        ids,
        vec!["ing-a", "ing-b"],
        "self excluded, role-less entry skipped"
    );
    assert_eq!(peers[0].role, Role::Ingester);
    assert_eq!(peers[0].address, "ing-a:1965");
    assert_eq!(peers[0].data_address, "ing-a:1963");
}

#[test]
fn a_refresh_takes_up_members_and_a_failure_keeps_them() {
    let mut d = ConsulDiscovery::new(node("self", Role::Querier, "self:1965", "self:1963"));
    assert_eq!(d.refreshed(None), Notice::Degraded);
    assert!(d.peers().is_empty());
    assert!(d.stats().degraded, "degraded alarm raised");
    assert_eq!(d.stats().refreshes, 0);
    assert_eq!(d.stats().refresh_failures, 1);

    assert_eq!(
        d.refreshed(Some(parse_members(CATALOG.as_bytes(), "self"))),
        Notice::Recovered
    );
    let ids: Vec<String> = d.peers().into_iter().map(|n| n.id).collect();
    assert_eq!(ids, vec!["ing-a", "ing-b"], "reports peers, minus self");
    assert_eq!(d.this_node().id, "self");
    assert_eq!(d.stats().refreshes, 1);
    assert!(!d.stats().degraded);

    d.refreshed(None);
    assert_eq!(d.peers().len(), 2, "the last good members stay");
}

#[test]
fn what_is_no_list_of_services_has_no_members() {
    assert!(parse_members(b"{}", "self").is_empty());
    assert!(parse_members(b"not json", "self").is_empty());
    assert!(members_of(&None, "self").is_empty());
    let s = Service {
        id: Some("a".into()),
        role: Some("nonsense".into()),
        cluster_addr: Some("a:1".into()),
        data_addr: None,
    };
    assert!(members_of(&Some(vec![s]), "self").is_empty());
}

#[test]
fn a_node_registers_under_its_name_and_addresses() {
    let r = registration(&node("ing-a", Role::Ingester, "ing-a:1965", "ing-a:1963"));
    assert_eq!(r.id, "ing-a");
    assert_eq!(SERVICE, "timelakedb");
    assert_eq!(CHECK_TTL_SECS, 30);
    assert!(check_id("ing-a").contains("ing-a"));
    assert_eq!(split_host_port("h:1965"), ("h".to_string(), 1965));
    assert_eq!(split_host_port("h"), ("h".to_string(), 0));
    assert_eq!(base_url("http://c:8500/"), "http://c:8500");
}

#[test]
fn what_a_node_registers_is_read_back_by_the_others() {
    let n = node("ing-a", Role::Ingester, "ing-a:1965", "ing-a:1963");
    let body = registration_body(&registration(&n));
    assert_eq!(
        body,
        "{\"Address\":\"ing-a\",\"Check\":{\"CheckID\":\"service:ing-a\",\
         \"DeregisterCriticalServiceAfter\":\"1m\",\"TTL\":\"30s\"},\"ID\":\"ing-a\",\
         \"Meta\":{\"cluster_addr\":\"ing-a:1965\",\"data_addr\":\"ing-a:1963\",\
         \"role\":\"ingester\"},\"Name\":\"timelakedb\",\"Port\":1965}"
    );
    let answer = format!("[{{\"Service\":{body}}},{{\"Service\":7}},null]");
    let peers = parse_members(answer.as_bytes(), "self");
    assert_eq!(peers.len(), 1);
    assert_eq!(peers[0].id, "ing-a");
    assert_eq!(peers[0].role, Role::Ingester);
    assert_eq!(peers[0].address, "ing-a:1965");
    assert_eq!(peers[0].data_address, "ing-a:1963");
    assert!(parse_members(answer.as_bytes(), "ing-a").is_empty());
}

#[test]
fn members_are_in_the_order_of_their_names() {
    let sorted = sort_members(&vec![
        node("b", Role::All, "b:1", ""),
        node("a", Role::All, "a:1", ""),
    ]);
    let ids: Vec<String> = sorted.into_iter().map(|n| n.id).collect();
    assert_eq!(ids, vec!["a", "b"]);
}

// -------------------------------------------------------------------- settings

fn layered() -> Layered {
    let mut prop = OrderedMap::new();
    prop.insert("gc_grace_secs".to_string(), "1200".to_string());
    prop.insert("flush_rows".to_string(), "80000".to_string());
    Layered::new(prop, Vec::new())
}

#[test]
fn resolution_order_is_default_then_property_then_override() {
    let mut l = layered();
    assert_eq!(
        l.effective("flush_age_secs").unwrap().source,
        Source::Default
    );
    assert_eq!(l.effective("flush_age_secs").unwrap().value, "60");
    let e = l.effective("gc_grace_secs").unwrap();
    assert_eq!((e.source, e.value.as_str()), (Source::Property, "1200"));
    l.set("gc_grace_secs", Some("1500".into()), "rc", "t0")
        .unwrap();
    let e = l.effective("gc_grace_secs").unwrap();
    assert_eq!((e.source, e.value.as_str()), (Source::Override, "1500"));
}

#[test]
fn revert_falls_back_to_the_property_not_the_default() {
    let mut l = layered();
    l.set("flush_rows", Some("120000".into()), "rc", "t0")
        .unwrap();
    assert_eq!(l.effective("flush_rows").unwrap().value, "120000");
    assert!(l.revert("flush_rows").unwrap());
    let e = l.effective("flush_rows").unwrap();
    assert_eq!((e.source, e.value.as_str()), (Source::Property, "80000"));
}

#[test]
fn explicit_none_is_distinct_from_absent_and_only_valid_for_optuint() {
    let mut l = layered();
    l.set("l0_row_group_rows", None, "rc", "t0").unwrap();
    let e = l.effective("l0_row_group_rows").unwrap();
    assert_eq!((e.source, e.value.as_str()), (Source::Override, ""));
    assert!(matches!(
        l.set("gc_grace_secs", None, "rc", "t0"),
        Err(ConfigError::NullNotAllowed(k)) if k == "gc_grace_secs"
    ));
}

#[test]
fn bounds_are_enforced_and_reject_applies_nothing() {
    let mut l = layered();
    assert!(matches!(
        l.set("compact_min_files", Some("100".into()), "rc", "t0"),
        Err(ConfigError::Invalid { .. })
    ));
    assert_eq!(
        l.effective("compact_min_files").unwrap().source,
        Source::Default
    );
    assert!(matches!(
        l.set("data_auth", Some("maybe".into()), "rc", "t0"),
        Err(ConfigError::Invalid { .. })
    ));
}

#[test]
fn cross_field_gc_grace_must_exceed_query_timeout() {
    let mut l = layered();
    let err = l
        .set("gc_grace_secs", Some("300".into()), "rc", "t0")
        .unwrap_err();
    match err {
        ConfigError::CrossField(m) => {
            assert!(
                m.contains("gc_grace_secs") && m.contains("query_timeout_secs"),
                "{m}"
            );
        }
        other => panic!("expected cross-field error, got {other:?}"),
    }
    assert_eq!(l.effective("gc_grace_secs").unwrap().value, "1200");
    assert!(matches!(
        l.set("query_timeout_secs", Some("2000".into()), "rc", "t0"),
        Err(ConfigError::CrossField(_))
    ));
}

#[test]
fn pinned_keys_reject_writes_and_reverts() {
    let mut l = Layered::new(OrderedMap::new(), vec!["gc_grace_secs".to_string()]);
    assert!(l.is_pinned("gc_grace_secs"));
    assert!(matches!(
        l.set("gc_grace_secs", Some("1000".into()), "rc", "t0"),
        Err(ConfigError::Pinned(k)) if k == "gc_grace_secs"
    ));
    assert!(matches!(
        l.revert("gc_grace_secs"),
        Err(ConfigError::Pinned(k)) if k == "gc_grace_secs"
    ));
}

#[test]
fn divergence_is_detected_when_the_property_changes_under_an_override() {
    let mut prop = OrderedMap::new();
    prop.insert("gc_grace_secs".to_string(), "1200".to_string());
    let mut l = Layered::new(prop, Vec::new());
    l.set("gc_grace_secs", Some("1500".into()), "rc", "t0")
        .unwrap();
    assert!(l.divergent().is_empty());
    l.property
        .insert("gc_grace_secs".to_string(), "1800".to_string());
    assert_eq!(l.divergent(), vec!["gc_grace_secs".to_string()]);
    let prov = l.provenance("gc_grace_secs").unwrap();
    let (now, then) = prov.diverged.expect("diverged");
    assert_eq!(then, "1200");
    assert_eq!(now.as_deref(), Some("1800"));
}

#[test]
fn a_document_loads_as_it_was_stored() {
    let mut l = layered();
    l.set(
        "flush_rows",
        Some("120000".into()),
        "rc",
        "2026-08-27T00:00:00Z",
    )
    .unwrap();
    l.set("l0_row_group_rows", None, "rc", "2026-08-27T00:00:01Z")
        .unwrap();
    let doc = l.to_doc();
    assert_eq!(doc.revision, 2);
    assert_eq!(doc.schema_version, SCHEMA_VERSION);
    let l2 = Layered::load(layered().property, Vec::new(), doc);
    assert_eq!(l2.revision(), 2);
    assert_eq!(l2.effective("flush_rows").unwrap().value, "120000");
    assert_eq!(
        l2.effective("l0_row_group_rows").unwrap().source,
        Source::Override
    );
    assert_eq!(l2.effective_all().entries, l.effective_all().entries);
    let keys: Vec<String> = l.effective_all().entries.into_iter().map(|e| e.0).collect();
    let mut sorted = keys.clone();
    sorted.sort();
    assert_eq!(keys, sorted, "by key");
    assert_eq!(keys.len(), SETTINGS);
    assert_eq!(SettingsDoc::empty().revision, 0);
}

#[test]
fn provenance_shows_the_whole_stack() {
    let mut l = layered();
    l.set(
        "gc_grace_secs",
        Some("1500".into()),
        "rcowell",
        "2026-08-27T09:52:11Z",
    )
    .unwrap();
    let p = l.provenance("gc_grace_secs").unwrap();
    assert_eq!(p.effective.value, "1500");
    assert_eq!(p.effective.source, Source::Override);
    assert_eq!(p.spec.default, "900");
    assert_eq!(p.property.as_deref(), Some("1200"));
    assert_eq!(p.spec.env, "TIMELAKE_GC_GRACE_SECS");
    let o = p.stored.expect("override");
    assert_eq!(o.value.as_deref(), Some("1500"));
    assert_eq!(o.actor, "rcowell");
    assert_eq!(p.spec.scope, Scope::Cluster);
    assert_eq!(p.spec.apply, Apply::Hot);
    assert_eq!(p.spec.min_role, config::Role::Admin);
}

#[test]
fn every_setting_is_found_by_its_key() {
    let l = layered();
    let all = l.provenance_all();
    assert_eq!(all.len(), SETTINGS);
    for i in 0..SETTINGS {
        let s = setting_at(i);
        assert_eq!(spec(s.key).expect("known").env, s.env);
        assert_eq!(all[i].spec.key, s.key);
        assert!(s.kind.check(s.default).is_ok(), "{} = {:?}", s.key, s.default);
    }
    assert!(spec("nope").is_none());
    assert!(l.provenance("nope").is_none());
}

#[test]
fn a_refused_change_applies_nothing_and_a_second_revert_is_none() {
    let mut l = layered();
    l.set("flush_rows", Some("90000".into()), "ops", "now").unwrap();
    let before = l.to_doc();
    assert!(l.set("flush_rows", Some("many".into()), "ops", "now").is_err());
    assert!(l.set("nope", Some("1".into()), "ops", "now").is_err());
    assert_eq!(l.revision(), before.revision);
    assert_eq!(l.effective("flush_rows").unwrap().value, "90000");
    assert_eq!(l.revert("flush_rows").ok(), Some(true));
    let between = l.revision();
    assert_eq!(l.revert("flush_rows").ok(), Some(false));
    assert_eq!(l.revision(), between);
    assert_eq!(l.effective("flush_rows").unwrap().value, "80000");
}

#[test]
fn refused_changes_say_why() {
    let mut l = layered();
    let e = l.set("nope", Some("1".into()), "rc", "t0").unwrap_err();
    assert!(e.message().contains("nope"), "{}", e.message());
    assert_eq!(
        ConfigSetError::Store("disk full".into()).message(),
        "disk full"
    );
    let k = Kind::Uint { min: 1, max: 5 };
    assert!(k.check("5").is_ok());
    assert!(k.check("0").is_err());
    assert!(k.check("6").is_err());
    assert!(k.check("x").is_err());
}
