use std::time::Duration;
use zenoh_plugin_lcm::addr::Ipv4Addr;
use zenoh_plugin_lcm::config::Config;
use zenoh_plugin_lcm::mapping::KeyExpr;
use zenoh_plugin_lcm::plugin::{
    adminspace_getter, transport_config, try_adminspace_getter, with_extended_string, AdminContent,
};

#[test]
fn test_transport_config() {
    let config = Config {
        lcm_url: "udpm://239.1.2.3:1234?ttl=1".to_string(),
        network_interface: Some("192.168.1.100".to_string()),
        max_message_size: 77,
        ..Config::default()
    };
    let transport = transport_config(&config).unwrap();
    assert_eq!(transport.lcm_url.multicast_group, Ipv4Addr::new(239, 1, 2, 3));
    assert_eq!(transport.lcm_url.port, 1234);
    assert_eq!(transport.lcm_url.ttl, 1);
    assert_eq!(transport.network_interface, Some(Ipv4Addr::new(192, 168, 1, 100)));
    assert_eq!(transport.fragment_mtu, 1400);
    assert_eq!(transport.fragment_timeout, Duration::from_secs(1));
    assert_eq!(transport.max_message_size, 77);
}

#[test]
fn test_invalid_interface_left_out() {
    for interface in ["eth0", "192.168.1", "::1", "1.2.3.4 "] {
        let config = Config {
            network_interface: Some(interface.to_string()),
            ..Config::default()
        };
        assert_eq!(transport_config(&config).unwrap().network_interface, None);
    }
    assert_eq!(transport_config(&Config::default()).unwrap().network_interface, None);
}

#[test]
fn test_invalid_url_refused() {
    let config = Config { lcm_url: "udpm://x".to_string(), ..Config::default() };
    assert_eq!(
        transport_config(&config).unwrap_err(),
        "LCM URL must contain GROUP:PORT: udpm://x"
    );
}

#[test]
fn test_extended_string_restored() {
    let mut text = String::from("clé");
    let seen = with_extended_string(&mut text, &["/a", "/é"], |key| key.clone());
    assert_eq!(seen, "clé/a/é");
    assert_eq!(text, "clé");
}

#[test]
fn test_extended_string_cut_back() {
    let mut text = String::from("ab");
    with_extended_string(&mut text, &["/c"], |key| {
        key.clear();
        key.push_str("xyz");
    });
    assert_eq!(text, "xy");
    with_extended_string(&mut text, &[], |key| key.clear());
    assert_eq!(text, "");
}

fn answers(query: &str, readable: bool) -> Vec<(String, AdminContent)> {
    let query = KeyExpr::new(query).unwrap();
    let list = adminspace_getter(&query, "@/1f/lcm", readable);
    let again = try_adminspace_getter(&query, "@/1f/lcm", readable).unwrap();
    let pairs = |list: Vec<_>| -> Vec<(String, AdminContent)> { list };
    let first = pairs(list.into_iter().map(|answer| (answer.key, answer.content)).collect());
    let second = pairs(again.into_iter().map(|answer| (answer.key, answer.content)).collect());
    assert_eq!(first, second);
    first
}

#[test]
fn test_adminspace_answers() {
    let version = ("@/1f/lcm/version".to_string(), AdminContent::Version);
    let config = ("@/1f/lcm/config".to_string(), AdminContent::Config);
    assert_eq!(answers("@/1f/lcm/version", true), vec![version.clone()]);
    assert_eq!(answers("@/*/lcm/config", true), vec![config.clone()]);
    assert_eq!(answers("@/*/lcm/**", true), vec![version.clone(), config]);
    assert_eq!(answers("@/*/lcm/**", false), vec![version]);
    assert_eq!(answers("@/*/mqtt/**", true), vec![]);
}

#[test]
fn test_adminspace_needs_a_key() {
    let query = KeyExpr::new("**").unwrap();
    assert!(try_adminspace_getter(&query, "", true).is_none());
    assert!(try_adminspace_getter(&query, "a//b", true).is_none());
}
