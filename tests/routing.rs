use proxs::config::{Config, Global, Rule, Server};
use proxs::control::{Fallback, Route, Switcher};
use proxs::error::{ConflictError, ProxyError, ValidationError};
use proxs::matcher::{match_host, match_site};
use proxs::validate::check_upstream;

fn server(addr: &str, sites: &[&str]) -> Server {
    Server { ipaddr: addr.to_string(), sites: sites.iter().map(|s| s.to_string()).collect() }
}

fn rule(name: &str, sites: &[&str]) -> Rule {
    Rule { name: name.to_string(), server: server("10.0.0.1:1080", sites) }
}

fn global(start: u16, ports: u16) -> Global {
    Global { start_port: start, ports, identity_file: "/home/u/.ssh/id".to_string() }
}

fn switcher(start: u16, ports: u16, fallback: Fallback) -> Switcher {
    match Switcher::new(global(start, ports), fallback) {
        Ok(s) => s,
        Err(e) => panic!("{:?}", e),
    }
}

#[test]
fn exact_beats_wildcard() {
    let rules = vec![rule("A", &["*.example.com"]), rule("B", &["mail.example.com"])];
    assert_eq!(match_host("mail.example.com", &rules), Some(1));
    assert_eq!(match_host("api.example.com", &rules), Some(0));
    assert_eq!(match_host("example.org", &rules), None);
}

#[test]
fn longer_suffix_wins() {
    let rules = vec![rule("A", &["*.example.com"]), rule("B", &["*.mail.example.com"])];
    assert_eq!(match_host("x.mail.example.com", &rules), Some(1));
    assert_eq!(match_host("x.example.com", &rules), Some(0));
}

#[test]
fn wildcard_needs_a_label() {
    let rules = vec![rule("A", &["*.example.com"])];
    assert_eq!(match_host("example.com", &rules), None);
    assert_eq!(match_host("badexample.com", &rules), None);
}

#[test]
fn matching_ignores_ascii_case() {
    let rules = vec![rule("A", &["Mail.Example.COM"]), rule("B", &["*.EXAMPLE.com"])];
    assert_eq!(match_host("MAIL.example.com", &rules), Some(0));
    assert_eq!(match_host("Api.Example.Com", &rules), Some(1));
}

#[test]
fn equal_matches_go_to_earliest_rule() {
    let rules = vec![rule("A", &["*.example.com"]), rule("B", &["*.example.com"])];
    assert_eq!(match_host("a.example.com", &rules), Some(0));
    let rules = vec![rule("A", &["other.org", "*.example.com"]), rule("B", &["*.example.com"])];
    assert_eq!(match_host("a.example.com", &rules), Some(0));
}

#[test]
fn site_scores() {
    assert_eq!(match_site("*.example.com", "a.example.com"), Some(11));
    assert_eq!(match_site("a.example.com", "a.example.com"), Some(13));
    assert_eq!(match_site("b.example.com", "a.example.com"), None);
}

#[test]
fn upstream_addresses() {
    assert!(check_upstream("127.0.0.1:1080"));
    assert!(check_upstream("proxy.local:65535"));
    assert!(check_upstream("h:1"));
    assert!(!check_upstream("proxy.local"));
    assert!(!check_upstream(":1080"));
    assert!(!check_upstream("h:0"));
    assert!(!check_upstream("h:65536"));
    assert!(!check_upstream("h:123456"));
    assert!(!check_upstream("h:10a0"));
    assert!(!check_upstream("h:"));
    assert!(!check_upstream(""));
}

#[test]
fn add_takes_lowest_free_port() {
    let mut s = switcher(9000, 3, Fallback::Reject);
    assert_eq!(s.add_rule("a".to_string(), server("1.1.1.1:1080", &["a.com"])), Ok(9000));
    assert_eq!(s.add_rule("b".to_string(), server("1.1.1.1:1080", &["b.com"])), Ok(9001));
    assert_eq!(s.add_rule("c".to_string(), server("1.1.1.1:1080", &["c.com"])), Ok(9002));
    assert_eq!(s.del_rule(&"b".to_string()), Ok(9001));
    assert_eq!(s.add_rule("d".to_string(), server("1.1.1.1:1080", &["d.com"])), Ok(9001));
    assert_eq!(s.names(), vec!["a".to_string(), "c".to_string(), "d".to_string()]);
}

#[test]
fn validation_errors() {
    let mut s = switcher(9000, 2, Fallback::Reject);
    assert_eq!(
        s.add_rule("".to_string(), server("1.1.1.1:1080", &["a.com"])),
        Err(ProxyError::Validation(ValidationError::EmptyName))
    );
    assert_eq!(
        s.add_rule("a".to_string(), server("1.1.1.1", &["a.com"])),
        Err(ProxyError::Validation(ValidationError::InvalidUpstream))
    );
    assert_eq!(
        s.add_rule("a".to_string(), server("1.1.1.1:1080", &[])),
        Err(ProxyError::Validation(ValidationError::EmptySites))
    );
    assert!(s.names().is_empty());
}

#[test]
fn pool_past_last_port_is_invalid() {
    assert!(matches!(
        Switcher::new(global(65535, 2), Fallback::Direct),
        Err(ProxyError::Validation(ValidationError::InvalidPool))
    ));
    assert!(Switcher::new(global(65535, 1), Fallback::Direct).is_ok());
}

#[test]
fn duplicate_name_is_a_conflict() {
    let mut s = switcher(9000, 4, Fallback::Reject);
    assert_eq!(s.add_rule("a".to_string(), server("1.1.1.1:1080", &["a.com"])), Ok(9000));
    let before = s.snapshot();
    assert_eq!(
        s.add_rule("a".to_string(), server("2.2.2.2:1080", &["b.com"])),
        Err(ProxyError::Conflict(ConflictError::DuplicateName))
    );
    let after = s.snapshot();
    assert_eq!(after.servers.len(), before.servers.len());
    assert_eq!(after.servers[0].server.ipaddr, "1.1.1.1:1080");
    assert_eq!(after.servers[0].server.sites, vec!["a.com".to_string()]);
}

#[test]
fn delete_unknown_is_not_found() {
    let mut s = switcher(9000, 4, Fallback::Reject);
    assert_eq!(s.add_rule("a".to_string(), server("1.1.1.1:1080", &["a.com"])), Ok(9000));
    assert_eq!(s.del_rule(&"zz".to_string()), Err(ProxyError::NotFound));
    assert_eq!(s.names(), vec!["a".to_string()]);
    assert_eq!(s.route("a.com"), Route::Tunnel(9000));
}

#[test]
fn pool_exhausted_keeps_earlier_rules() {
    let mut s = switcher(7000, 2, Fallback::Reject);
    assert_eq!(s.add_rule("a".to_string(), server("1.1.1.1:1080", &["a.com"])), Ok(7000));
    assert_eq!(s.add_rule("b".to_string(), server("1.1.1.1:1080", &["b.com"])), Ok(7001));
    assert_eq!(
        s.add_rule("c".to_string(), server("1.1.1.1:1080", &["c.com"])),
        Err(ProxyError::Conflict(ConflictError::PoolExhausted))
    );
    assert_eq!(s.names(), vec!["a".to_string(), "b".to_string()]);
    assert_eq!(s.route("b.com"), Route::Tunnel(7001));
}

#[test]
fn deleted_rule_drains() {
    let mut s = switcher(8000, 2, Fallback::Direct);
    assert_eq!(s.add_rule("a".to_string(), server("1.1.1.1:1080", &["*.a.com"])), Ok(8000));
    assert_eq!(s.route("x.a.com"), Route::Tunnel(8000));
    assert!(s.open_session(8000));
    assert_eq!(s.status()[0].sessions, 1);
    assert_eq!(s.del_rule(&"a".to_string()), Ok(8000));
    assert_eq!(s.route("x.a.com"), Route::Direct);
    assert!(!s.open_session(8000));
    // the draining port is not handed out again
    assert_eq!(s.add_rule("b".to_string(), server("1.1.1.1:1080", &["*.a.com"])), Ok(8001));
    assert_eq!(s.route("x.a.com"), Route::Tunnel(8001));
    assert_eq!(s.close_session(8000), Some(true));
    assert_eq!(s.close_session(8000), None);
    assert_eq!(s.add_rule("c".to_string(), server("1.1.1.1:1080", &["c.com"])), Ok(8000));
}

#[test]
fn sessions_on_live_endpoint() {
    let mut s = switcher(8000, 1, Fallback::Reject);
    assert_eq!(s.close_session(8000), None);
    assert!(!s.open_session(8000));
    assert_eq!(s.add_rule("a".to_string(), server("1.1.1.1:1080", &["a.com"])), Ok(8000));
    assert!(s.open_session(8000));
    assert!(s.open_session(8000));
    assert!(!s.open_session(8001));
    assert_eq!(s.status()[0].sessions, 2);
    assert_eq!(s.close_session(8000), Some(false));
    assert_eq!(s.status()[0].sessions, 1);
    assert_eq!(s.route("b.com"), Route::Reject);
}

#[test]
fn snapshot_round_trip() {
    let mut s = switcher(9100, 4, Fallback::Reject);
    assert!(s.add_rule("a".to_string(), server("1.1.1.1:1080", &["a.com", "*.a.org"])).is_ok());
    assert!(s.add_rule("b".to_string(), server("2.2.2.2:1081", &["b.com"])).is_ok());
    assert!(s.add_rule("c".to_string(), server("3.3.3.3:1082", &["*.c.net"])).is_ok());
    assert!(s.del_rule(&"a".to_string()).is_ok());
    let cfg = s.snapshot();
    let t = match Switcher::from_config(&cfg, Fallback::Reject) {
        Ok(t) => t,
        Err(e) => panic!("{:?}", e),
    };
    let back = t.snapshot();
    assert_eq!(back.global.start_port, 9100);
    assert_eq!(back.global.ports, 4);
    assert_eq!(back.global.identity_file, "/home/u/.ssh/id");
    assert_eq!(back.servers.len(), 2);
    for (x, y) in back.servers.iter().zip(cfg.servers.iter()) {
        assert_eq!(x.name, y.name);
        assert_eq!(x.server.ipaddr, y.server.ipaddr);
        assert_eq!(x.server.sites, y.server.sites);
    }
    assert_eq!(t.names(), vec!["b".to_string(), "c".to_string()]);
}

#[test]
fn loading_reports_first_error() {
    let cfg = Config {
        global: global(9000, 1),
        servers: vec![rule("a", &["a.com"]), rule("b", &["b.com"])],
    };
    assert!(matches!(
        Switcher::from_config(&cfg, Fallback::Reject),
        Err(ProxyError::Conflict(ConflictError::PoolExhausted))
    ));
    let cfg = Config { global: global(9000, 4), servers: vec![rule("a", &["a.com"]), rule("a", &["b.com"])] };
    assert!(matches!(
        Switcher::from_config(&cfg, Fallback::Reject),
        Err(ProxyError::Conflict(ConflictError::DuplicateName))
    ));
}

#[test]
fn two_adds_get_distinct_ports() {
    let mut s = switcher(9000, 2, Fallback::Reject);
    let p = s.add_rule("x".to_string(), server("1.1.1.1:1080", &["x.com"]));
    let q = s.add_rule("y".to_string(), server("1.1.1.1:1080", &["y.com"]));
    assert!(p.is_ok() && q.is_ok());
    assert_ne!(p, q);
}

#[test]
fn status_lists_rules_with_ports() {
    let mut s = switcher(9000, 3, Fallback::Reject);
    assert!(s.add_rule("x".to_string(), server("1.1.1.1:1080", &["x.com"])).is_ok());
    assert!(s.add_rule("y".to_string(), server("1.1.1.1:1080", &["y.com"])).is_ok());
    let st = s.status();
    assert_eq!(st.len(), 2);
    assert_eq!(st[1].name, "y");
    assert_eq!(st[1].port, 9001);
    assert_eq!(st[1].sessions, 0);
}
