//! Clients by their addresses.

use bulwark::config::settings::ClientConfig;
use bulwark::engine::clients::ClientMatcher;
use bulwark::net::IpAddr;

fn cfg(name: &str, ids: &[&str], tags: &[&str]) -> ClientConfig {
    ClientConfig {
        id: name.to_string(),
        name: name.to_string(),
        ids: ids.iter().map(|s| s.to_string()).collect(),
        tags: tags.iter().map(|s| s.to_string()).collect(),
        filtering_enabled: true,
    }
}

fn ip(s: &str) -> IpAddr {
    IpAddr::parse(s).unwrap()
}

#[test]
fn matches_exact_ip_and_cidr() {
    let m = ClientMatcher::build(&[
        cfg("laptop", &["192.168.1.10"], &["trusted"]),
        cfg("guests", &["10.0.0.0/8"], &["device_guest"]),
    ]);
    assert_eq!(m.identify(ip("192.168.1.10")).name.as_deref(), Some("laptop"));
    assert_eq!(m.identify(ip("10.5.6.7")).name.as_deref(), Some("guests"));
    assert_eq!(m.identify(ip("8.8.8.8")).name, None);
}

#[test]
fn longest_prefix_wins_over_config_order() {
    let m = ClientMatcher::build(&[
        ClientConfig {
            filtering_enabled: false,
            ..cfg("lan", &["10.0.0.0/8"], &["broad"])
        },
        cfg("server", &["10.1.2.3"], &["specific"]),
    ]);
    let c = m.identify(ip("10.1.2.3"));
    assert_eq!(c.name.as_deref(), Some("server"));
    assert!(c.filtering_enabled, "specific entry's policy applies");
    assert_eq!(m.identify(ip("10.9.9.9")).name.as_deref(), Some("lan"));
}

#[test]
fn unknown_client_defaults_to_filtering_on() {
    let m = ClientMatcher::default();
    let c = m.identify(ip("1.2.3.4"));
    assert!(c.filtering_enabled);
    assert_eq!(c.label(), "1.2.3.4");
}

#[test]
fn narrower_network_wins() {
    let m = ClientMatcher::build(&[
        cfg("wide", &["2001:db8::/32"], &[]),
        cfg("narrow", &["2001:db8:1::/48"], &["near"]),
    ]);
    let c = m.identify(ip("2001:db8:1::5"));
    assert_eq!(c.label(), "narrow");
    assert_eq!(c.tags, ["near"]);
    assert_eq!(m.name_for(ip("2001:db8:2::5")), Some("wide"));
    assert_eq!(m.name_for_str("2001:db8:2::5"), Some("wide"));
    assert_eq!(m.name_for_str("not an address"), None);
    assert_eq!(m.name_for_str("10.0.0.1"), None);
}
