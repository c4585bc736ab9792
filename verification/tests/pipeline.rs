use headscale_traefik_dns::headscale::HeadscaleNode;
use headscale_traefik_dns::headscale::HeadscaleUser;
use headscale_traefik_dns::headscale::headscale_user_list_contains_a_user;
use headscale_traefik_dns::processing::ConfigError;
use headscale_traefik_dns::processing::Processing;
use headscale_traefik_dns::processing::ProcessingSetup;
use headscale_traefik_dns::processing::RecordType;
use headscale_traefik_dns::traefik::TraefikAPIClientDetails;
use headscale_traefik_dns::traefik::TraefikRouter;

fn details() -> TraefikAPIClientDetails {
    TraefikAPIClientDetails {
        host: None,
        prefix: Some("http://".to_string()),
        suffix: Some(":8080".to_string()),
        user: "admin".to_string(),
        password: "secret".to_string(),
    }
}

fn setup() -> ProcessingSetup {
    ProcessingSetup {
        middlewares: vec![],
        allowed_users: vec![],
        node_blacklist: vec![],
        domain_whitelist_regex: None,
        domain_blacklist_regex: None,
        output_path: "extra_records.json".to_string(),
        old_magicdns: false,
    }
}

fn node(name: &str, owner: &str, addrs: &[&str]) -> HeadscaleNode {
    HeadscaleNode {
        ip_addresses: addrs.iter().map(|a| a.to_string()).collect(),
        given_name: name.to_string(),
        user: HeadscaleUser { name: owner.to_string() },
        online: true,
    }
}

fn route(service: &str, rule: &str, middlewares: Option<&[&str]>) -> TraefikRouter {
    TraefikRouter {
        service: service.to_string(),
        rule: rule.to_string(),
        middlewares: middlewares.map(|m| m.iter().map(|s| s.to_string()).collect()),
    }
}

fn run(
    setup: ProcessingSetup,
    users: Vec<HeadscaleUser>,
    nodes: Vec<HeadscaleNode>,
    lists: Vec<Vec<TraefikRouter>>,
) -> Vec<headscale_traefik_dns::processing::DnsRecord> {
    let mut p = Processing::new(setup, details(), vec![]).unwrap();
    let clients = p.update_servers(users, nodes).unwrap();
    assert_eq!(clients.len(), lists.len());
    p.update_routers(lists);
    p.generate_records().unwrap()
}

#[test]
fn ipv4_route_yields_a_record() {
    let users = vec![HeadscaleUser { name: "alice".to_string() }];
    let nodes = vec![node("web1", "alice", &["10.0.0.5"])];
    let routes = vec![vec![route("svc", "Host(`app.example.com`)", None)]];
    let recs = run(setup(), users, nodes, routes);
    assert_eq!(recs.len(), 1);
    assert_eq!(recs[0].name, "app.example.com");
    assert_eq!(recs[0].record_type, RecordType::A);
    assert_eq!(recs[0].value, "10.0.0.5");
}

#[test]
fn ipv6_route_yields_aaaa_record() {
    let users = vec![HeadscaleUser { name: "alice".to_string() }];
    let nodes = vec![node("web1", "alice", &["fd00::5"])];
    let routes = vec![vec![route("svc", "Host(`app.example.com`)", None)]];
    let recs = run(setup(), users, nodes, routes);
    assert_eq!(recs.len(), 1);
    assert_eq!(recs[0].record_type, RecordType::AAAA);
    assert_eq!(recs[0].value, "fd00::5");
}

#[test]
fn legacy_naming_emits_node_records() {
    let mut s = setup();
    s.old_magicdns = true;
    let users = vec![HeadscaleUser { name: "alice".to_string() }];
    let nodes = vec![node("web1", "alice", &["10.0.0.5", "fd00::5"])];
    let mut p = Processing::new(s, details(), vec!["mesh".to_string()]).unwrap();
    p.update_servers(users, nodes).unwrap();
    p.update_routers(vec![vec![]]);
    let recs = p.generate_records().unwrap();
    assert_eq!(recs.len(), 2);
    assert_eq!(recs[0].name, "web1.alice.mesh");
    assert_eq!(recs[0].record_type, RecordType::A);
    assert_eq!(recs[0].value, "10.0.0.5");
    assert_eq!(recs[1].name, "web1.alice.mesh");
    assert_eq!(recs[1].record_type, RecordType::AAAA);
    assert_eq!(recs[1].value, "fd00::5");
}

#[test]
fn blocklisted_node_gets_no_client_but_keeps_legacy_record() {
    let mut s = setup();
    s.node_blacklist = vec!["web1".to_string()];
    s.old_magicdns = true;
    let users = vec![HeadscaleUser { name: "alice".to_string() }];
    let nodes = vec![node("web1", "alice", &["10.0.0.5"])];
    let mut p = Processing::new(s, details(), vec!["mesh".to_string()]).unwrap();
    let clients = p.update_servers(users, nodes).unwrap();
    assert!(clients.is_empty());
    p.update_routers(vec![]);
    let recs = p.generate_records().unwrap();
    assert_eq!(recs.len(), 1);
    assert_eq!(recs[0].name, "web1.alice.mesh");
}

#[test]
fn blocklisted_node_without_legacy_yields_nothing() {
    let mut s = setup();
    s.node_blacklist = vec!["web1".to_string()];
    let users = vec![HeadscaleUser { name: "alice".to_string() }];
    let nodes = vec![node("web1", "alice", &["10.0.0.5"])];
    let recs = run(s, users, nodes, vec![]);
    assert!(recs.is_empty());
}

#[test]
fn domain_blocklist_excludes_matching_name() {
    let mut s = setup();
    s.domain_whitelist_regex = Some(".*".to_string());
    s.domain_blacklist_regex = Some(r".*\.internal$".to_string());
    let users = vec![HeadscaleUser { name: "alice".to_string() }];
    let nodes = vec![node("web1", "alice", &["10.0.0.5"])];
    let routes = vec![vec![route("svc", "Host(`svc.internal`) || Host(`ok.example`)", None)]];
    let recs = run(s, users, nodes, routes);
    assert_eq!(recs.len(), 1);
    assert_eq!(recs[0].name, "ok.example");
}

#[test]
fn domain_whitelist_keeps_only_matching_names() {
    let mut s = setup();
    s.domain_whitelist_regex = Some(r"^app\.".to_string());
    let users = vec![HeadscaleUser { name: "alice".to_string() }];
    let nodes = vec![node("web1", "alice", &["10.0.0.5"])];
    let routes = vec![vec![route(
        "svc",
        "Host(`app.example.com`) || Host(`other.example.com`)",
        None,
    )]];
    let recs = run(s, users, nodes, routes);
    assert_eq!(recs.len(), 1);
    assert_eq!(recs[0].name, "app.example.com");
}

#[test]
fn duplicate_record_key_keeps_first_value() {
    let users = vec![HeadscaleUser { name: "alice".to_string() }];
    let nodes = vec![
        node("web1", "alice", &["10.0.0.5"]),
        node("web2", "alice", &["10.0.0.6"]),
    ];
    let routes = vec![
        vec![route("svc1", "Host(`app.example.com`)", None)],
        vec![route("svc2", "Host(`app.example.com`)", None)],
    ];
    let recs = run(setup(), users, nodes, routes);
    assert_eq!(recs.len(), 1);
    assert_eq!(recs[0].value, "10.0.0.5");
}

#[test]
fn route_dedup_ignores_middlewares() {
    let users = vec![HeadscaleUser { name: "alice".to_string() }];
    let nodes = vec![
        node("web1", "alice", &["10.0.0.5"]),
        node("web2", "alice", &["10.0.0.6"]),
    ];
    let routes = vec![
        vec![route("svc", "Host(`app.example.com`)", Some(&["mw1"]))],
        vec![route("svc", "Host(`app.example.com`)", Some(&["mw2"]))],
    ];
    let recs = run(setup(), users, nodes, routes);
    assert_eq!(recs.len(), 1);
    assert_eq!(recs[0].value, "10.0.0.5");
}

#[test]
fn middleware_allowlist_rejects_route_without_middlewares() {
    let mut s = setup();
    s.middlewares = vec!["auth".to_string()];
    let users = vec![HeadscaleUser { name: "alice".to_string() }];
    let nodes = vec![node("web1", "alice", &["10.0.0.5"])];
    let routes = vec![vec![route("svc", "Host(`app.example.com`)", None)]];
    let recs = run(s, users, nodes, routes);
    assert!(recs.is_empty());
}

#[test]
fn middleware_allowlist_accepts_intersecting_route() {
    let mut s = setup();
    s.middlewares = vec!["auth".to_string()];
    let users = vec![HeadscaleUser { name: "alice".to_string() }];
    let nodes = vec![node("web1", "alice", &["10.0.0.5"])];
    let routes = vec![vec![route("svc", "Host(`app.example.com`)", Some(&["other", "auth"]))]];
    let recs = run(s, users, nodes, routes);
    assert_eq!(recs.len(), 1);
}

#[test]
fn middleware_allowlist_rejects_disjoint_route() {
    let mut s = setup();
    s.middlewares = vec!["auth".to_string()];
    let users = vec![HeadscaleUser { name: "alice".to_string() }];
    let nodes = vec![node("web1", "alice", &["10.0.0.5"])];
    let routes = vec![vec![route("svc", "Host(`app.example.com`)", Some(&["other"]))]];
    let recs = run(s, users, nodes, routes);
    assert!(recs.is_empty());
}

#[test]
fn user_allowlist_filters_nodes() {
    let mut s = setup();
    s.allowed_users = vec!["bob".to_string()];
    let users = vec![
        HeadscaleUser { name: "alice".to_string() },
        HeadscaleUser { name: "bob".to_string() },
    ];
    let nodes = vec![
        node("web1", "alice", &["10.0.0.5"]),
        node("web2", "bob", &["10.0.0.6"]),
    ];
    let mut p = Processing::new(s, details(), vec![]).unwrap();
    let clients = p.update_servers(users, nodes).unwrap();
    assert_eq!(p.headscale_users.len(), 1);
    assert_eq!(p.headscale_users[0].name, "bob");
    assert_eq!(clients.len(), 1);
    assert_eq!(clients[0].host.as_deref(), Some("10.0.0.6"));
}

#[test]
fn generation_is_deterministic() {
    let mut s = setup();
    s.old_magicdns = true;
    let users = vec![HeadscaleUser { name: "alice".to_string() }];
    let nodes = vec![node("web1", "alice", &["10.0.0.5"])];
    let routes = vec![vec![route("svc", "Host(`app.example.com`)", None)]];
    let mut p = Processing::new(s, details(), vec!["mesh".to_string()]).unwrap();
    p.update_servers(users, nodes).unwrap();
    p.update_routers(routes);
    let r1 = p.generate_records().unwrap();
    let r2 = p.generate_records().unwrap();
    assert_eq!(r1.len(), r2.len());
    for (a, b) in r1.iter().zip(r2.iter()) {
        assert_eq!(a.name, b.name);
        assert_eq!(a.record_type, b.record_type);
        assert_eq!(a.value, b.value);
    }
}

#[test]
fn invalid_whitelist_regex_is_rejected() {
    let mut s = setup();
    s.domain_whitelist_regex = Some("(".to_string());
    let err = Processing::new(s, details(), vec![]).unwrap_err();
    assert_eq!(err, ConfigError::InvalidWhitelistRegex);
}

#[test]
fn invalid_blacklist_regex_is_rejected() {
    let mut s = setup();
    s.domain_blacklist_regex = Some("[".to_string());
    let err = Processing::new(s, details(), vec![]).unwrap_err();
    assert_eq!(err, ConfigError::InvalidBlacklistRegex);
}

#[test]
fn address_less_ineligible_node_is_tolerated() {
    let mut s = setup();
    s.node_blacklist = vec!["stale".to_string()];
    s.old_magicdns = true;
    let users = vec![HeadscaleUser { name: "alice".to_string() }];
    let nodes = vec![
        node("web1", "alice", &["10.0.0.5"]),
        node("stale", "alice", &[]),
        node("orphan", "bob", &[]),
    ];
    let mut p = Processing::new(s, details(), vec!["mesh".to_string()]).unwrap();
    let clients = p.update_servers(users, nodes).unwrap();
    assert_eq!(clients.len(), 1);
    assert_eq!(clients[0].host.as_deref(), Some("10.0.0.5"));
    p.update_routers(vec![vec![route("svc", "Host(`app.example.com`)", None)]]);
    let recs = p.generate_records().unwrap();
    assert_eq!(recs.len(), 2);
    assert_eq!(recs[0].name, "app.example.com");
    assert_eq!(recs[1].name, "web1.alice.mesh");
}

#[test]
fn record_types_have_wire_names() {
    assert_eq!(RecordType::A.as_str(), "A");
    assert_eq!(RecordType::AAAA.as_str(), "AAAA");
}

#[test]
fn user_list_lookup_finds_only_present_names() {
    let users = vec![
        HeadscaleUser { name: "alice".to_string() },
        HeadscaleUser { name: "bob".to_string() },
    ];
    assert!(headscale_user_list_contains_a_user(&users, "alice"));
    assert!(headscale_user_list_contains_a_user(&users, "bob"));
    assert!(!headscale_user_list_contains_a_user(&users, "carol"));
    assert!(!headscale_user_list_contains_a_user(&vec![], "alice"));
}
