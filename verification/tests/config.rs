//! The configuration and its rules.

use bulwark::config::settings::{
    default_upstreams, AuthConfig, CacheConfig, ClientConfig, Config, ConfigError,
    FilterListConfig, UpstreamsConfig, SCHEMA_VERSION,
};
use bulwark::net::{IpAddr, Ipv4Addr, SocketAddr};

fn upstreams(servers: &str) -> UpstreamsConfig {
    UpstreamsConfig {
        servers: servers.to_string(),
        ..UpstreamsConfig::default()
    }
}

fn list(id: u32) -> FilterListConfig {
    FilterListConfig {
        id,
        name: format!("list {id}"),
        url: None,
        enabled: true,
        rule_count: 0,
        last_updated: None,
    }
}

fn client(id: &str) -> ClientConfig {
    ClientConfig {
        id: id.to_string(),
        name: "someone".to_string(),
        ids: vec!["10.0.0.1".to_string()],
        tags: vec![],
        filtering_enabled: true,
    }
}

#[test]
fn validate_rejects_bad_ttl() {
    let mut cfg = Config::default();
    cfg.cache.min_ttl_secs = 100;
    cfg.cache.max_ttl_secs = 50;
    assert!(cfg.validate().is_err());
}

#[test]
fn bad_ttl_is_explained() {
    let mut cfg = Config::default();
    cfg.cache.min_ttl_secs = 100;
    cfg.cache.max_ttl_secs = 50;
    assert_eq!(
        cfg.validate().unwrap_err().message(),
        "invalid config: cache.min_ttl_secs (100) exceeds max_ttl_secs (50)"
    );
    cfg.cache.max_ttl_secs = 0;
    assert!(cfg.validate().is_ok(), "0 means no upper clamp");
}

#[test]
fn active_specs_skips_comments_and_blanks() {
    let cfg = upstreams("# Cloudflare\nhttps://cloudflare-dns.com/dns-query\n\n#tls://one.one.one.one\n  1.1.1.1  \n");
    let specs = cfg.active_specs();
    assert_eq!(specs, ["https://cloudflare-dns.com/dns-query", "1.1.1.1"]);
}

#[test]
fn normalize_trims_lines_and_collapses_blanks() {
    let mut cfg = upstreams("\n\n  # Cloudflare  \n\n\n  https://cloudflare-dns.com/dns-query  \n\n\n\n#tls://one.one.one.one\n\n");
    cfg.normalize();
    assert_eq!(
        cfg.servers,
        "# Cloudflare\n\nhttps://cloudflare-dns.com/dns-query\n\n#tls://one.one.one.one\n"
    );
}

#[test]
fn normalize_empty_stays_empty() {
    let mut cfg = upstreams("\n  \n\n");
    cfg.normalize();
    assert_eq!(cfg.servers, "");
}

#[test]
fn normalize_twice_is_normalize_once() {
    let mut cfg = upstreams("\r\n 1.1.1.1\t\r\n\r\n\r\n# off\n\n9.9.9.9");
    let before = cfg.active_specs();
    cfg.normalize();
    let once = cfg.servers.clone();
    assert_eq!(once, "1.1.1.1\n\n# off\n\n9.9.9.9\n");
    assert_eq!(cfg.active_specs(), before);
    cfg.normalize();
    assert_eq!(cfg.servers, once);
}

#[test]
fn all_comments_fails_validation() {
    let mut cfg = Config::default();
    cfg.upstreams.servers = "# everything is off\n#1.1.1.1\n".to_string();
    assert!(cfg.validate().is_err());
    assert_eq!(
        cfg.validate().unwrap_err().message(),
        "invalid config: at least one upstream must be configured"
    );
}

#[test]
fn no_address_to_serve_on_fails_validation() {
    let mut cfg = Config::default();
    cfg.server.dns_bind.clear();
    match cfg.validate() {
        Err(ConfigError::Invalid(why)) => assert_eq!(why, "server.dns_bind must not be empty"),
        _ => panic!("expected an error"),
    }
}

#[test]
fn error_messages() {
    assert_eq!(ConfigError::Io("gone".to_string()).message(), "i/o error: gone");
    assert_eq!(ConfigError::Yaml("odd".to_string()).message(), "yaml error: odd");
}

#[test]
fn defaults_are_valid() {
    let cfg = Config::default();
    assert!(cfg.validate().is_ok());
    assert_eq!(cfg.version, SCHEMA_VERSION);
    assert_eq!(cfg.upstreams.servers, default_upstreams());
    assert_eq!(
        cfg.upstreams.active_specs(),
        ["https://dns.quad9.net/dns-query", "1.1.1.1"]
    );
    assert_eq!(
        cfg.server.http_bind,
        SocketAddr {
            ip: IpAddr::V4(Ipv4Addr::new(0, 0, 0, 0)),
            port: 3000
        }
    );
    assert_eq!(cfg.cache, CacheConfig::default());
    assert_eq!(cfg.cache.size, 10_000);
}

#[test]
fn setup_is_needed_until_both_are_set() {
    let mut auth = AuthConfig::default();
    assert!(auth.needs_setup());
    auth.username = "admin".to_string();
    assert!(auth.needs_setup());
    auth.password_hash = Some("hash".to_string());
    assert!(!auth.needs_setup());
}

#[test]
fn list_ids_go_up() {
    let mut cfg = Config::default();
    assert_eq!(cfg.next_list_id(), 1);
    cfg.filtering.lists = vec![list(4), list(9), list(2)];
    assert_eq!(cfg.next_list_id(), 10);
}

#[test]
fn clients_without_an_id_go() {
    let mut cfg = Config::default();
    cfg.clients = vec![client("a"), client(""), client("b"), client("")];
    assert_eq!(cfg.drop_unaddressed_clients(), 2);
    let ids: Vec<&str> = cfg.clients.iter().map(|c| c.id.as_str()).collect();
    assert_eq!(ids, ["a", "b"]);
}
