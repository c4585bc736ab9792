use headscale_traefik_dns::headscale::HeadscaleNode;
use headscale_traefik_dns::headscale::HeadscaleUser;
use headscale_traefik_dns::processing::RecordType;
use headscale_traefik_dns::processing::record_type_of_address;
use headscale_traefik_dns::rules::extract_rule_domains;
use headscale_traefik_dns::traefik::TraefikAPIClientDetails;
use headscale_traefik_dns::traefik::TraefikRouter;
use headscale_traefik_dns::traefik::TraefikUserError;
use headscale_traefik_dns::traefik::route_key_eq;

fn router(rule: &str) -> TraefikRouter {
    TraefikRouter { service: "svc".to_string(), rule: rule.to_string(), middlewares: None }
}

#[test]
fn single_host_clause_is_extracted() {
    assert_eq!(extract_rule_domains("Host(`app.example.com`)"), vec!["app.example.com"]);
}

#[test]
fn several_host_clauses_come_in_order() {
    let d = extract_rule_domains("Host(`b.example`) && PathPrefix(`/x`) || Host(`a.example`)");
    assert_eq!(d, vec!["b.example", "a.example"]);
}

#[test]
fn rule_without_host_clause_yields_nothing() {
    assert!(extract_rule_domains("PathPrefix(`/api`)").is_empty());
    assert!(extract_rule_domains("").is_empty());
    assert!(extract_rule_domains("Host()").is_empty());
    assert!(extract_rule_domains("Host(``)").is_empty());
}

#[test]
fn uppercase_domains_are_not_matched() {
    assert!(extract_rule_domains("Host(`App.Example.Com`)").is_empty());
}

#[test]
fn digits_commas_and_dots_are_domain_characters() {
    assert_eq!(extract_rule_domains("Host(`a1.b2,c3`)"), vec!["a1.b2,c3"]);
}

#[test]
fn unterminated_clause_is_ignored() {
    assert!(extract_rule_domains("Host(`abc").is_empty());
    assert!(extract_rule_domains("Host(`abc`").is_empty());
    assert_eq!(extract_rule_domains("Host(`abc` ) Host(`ok`)"), vec!["ok"]);
}

#[test]
fn get_domain_list_uses_the_rule_field() {
    let r = router("Host(`one.two`) || Host(`three.four`)");
    assert_eq!(r.get_domain_list(), vec!["one.two", "three.four"]);
}

#[test]
fn route_key_ignores_middlewares() {
    let a = TraefikRouter {
        service: "svc".to_string(),
        rule: "Host(`x.y`)".to_string(),
        middlewares: Some(vec!["auth".to_string()]),
    };
    let b = TraefikRouter {
        service: "svc".to_string(),
        rule: "Host(`x.y`)".to_string(),
        middlewares: None,
    };
    let c = TraefikRouter {
        service: "other".to_string(),
        rule: "Host(`x.y`)".to_string(),
        middlewares: None,
    };
    assert!(route_key_eq(&a, &b));
    assert!(!route_key_eq(&a, &c));
}

#[test]
fn address_family_decides_record_type() {
    assert_eq!(record_type_of_address("10.0.0.5"), RecordType::A);
    assert_eq!(record_type_of_address("fd00::5"), RecordType::AAAA);
    assert_eq!(record_type_of_address(""), RecordType::A);
}

#[test]
fn magic_dns_domains_join_name_owner_and_suffix() {
    let n = HeadscaleNode {
        ip_addresses: vec!["10.0.0.5".to_string()],
        given_name: "web1".to_string(),
        user: HeadscaleUser { name: "alice".to_string() },
        online: true,
    };
    let tlds = vec!["mesh".to_string(), "ts.net".to_string()];
    assert_eq!(n.get_magic_dns_domains(&tlds), vec!["web1.alice.mesh", "web1.alice.ts.net"]);
}

#[test]
fn validate_reports_missing_parts_in_order() {
    let full = TraefikAPIClientDetails {
        host: Some("10.0.0.5".to_string()),
        prefix: Some("http://".to_string()),
        suffix: Some(":8080".to_string()),
        user: "u".to_string(),
        password: "p".to_string(),
    };
    assert!(full.validate().is_ok());
    let mut no_prefix = full.clone();
    no_prefix.prefix = None;
    no_prefix.suffix = None;
    assert_eq!(no_prefix.validate().unwrap_err(), TraefikUserError::NoPrefix);
    let mut no_suffix = full.clone();
    no_suffix.suffix = None;
    assert_eq!(no_suffix.validate().unwrap_err(), TraefikUserError::NoSuffix);
    let mut no_host = full.clone();
    no_host.host = None;
    assert_eq!(no_host.validate().unwrap_err(), TraefikUserError::NoHosts);
}

#[test]
fn from_custom_host_targets_the_given_address() {
    let base = TraefikAPIClientDetails {
        host: None,
        prefix: Some("http://".to_string()),
        suffix: Some(":8080".to_string()),
        user: "u".to_string(),
        password: "p".to_string(),
    };
    let d = base.from_custom_host("10.0.0.7").unwrap();
    assert_eq!(d.host.as_deref(), Some("10.0.0.7"));
    assert_eq!(d.base_url_string(), "http://10.0.0.7:8080");
    let mut bad = base.clone();
    bad.prefix = None;
    assert_eq!(bad.from_custom_host("10.0.0.7").unwrap_err(), TraefikUserError::NoPrefix);
}

#[test]
fn basic_auth_value_encodes_credentials() {
    let d = TraefikAPIClientDetails {
        host: None,
        prefix: None,
        suffix: None,
        user: "user".to_string(),
        password: "pass".to_string(),
    };
    assert_eq!(d.basic_auth_value(), "Basic dXNlcjpwYXNz");
}
