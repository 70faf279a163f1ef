use zenoh_plugin_lcm::addr::Ipv4Addr;
use zenoh_plugin_lcm::config::DEFAULT_LCM_URL;
use zenoh_plugin_lcm::text::trim;
use zenoh_plugin_lcm::{LcmMessage, LcmUrl};

#[test]
fn test_parse_default_url() {
    let url = LcmUrl::parse("udpm://239.255.76.67:7667").unwrap();
    assert_eq!(url.multicast_group, Ipv4Addr::new(239, 255, 76, 67));
    assert_eq!(url.port, 7667);
    assert_eq!(url.ttl, 0);
    assert_eq!(url.recv_buf_size, None);
}

#[test]
fn test_parse_url_with_params() {
    let url = LcmUrl::parse("udpm://239.255.76.67:7667?ttl=1&recv_buf_size=2097152").unwrap();
    assert_eq!(url.ttl, 1);
    assert_eq!(url.recv_buf_size, Some(2097152));
}

#[test]
fn test_parse_invalid_scheme() {
    assert!(LcmUrl::parse("tcp://239.255.76.67:7667").is_err());
}

#[test]
fn test_parse_empty_url() {
    assert!(LcmUrl::parse("").is_err());
}

#[test]
fn test_parse_scheme_only() {
    assert!(LcmUrl::parse("udpm://").is_err());
}

#[test]
fn test_parse_missing_port() {
    assert!(LcmUrl::parse("udpm://239.255.76.67").is_err());
}

#[test]
fn test_parse_invalid_ip() {
    assert!(LcmUrl::parse("udpm://999.999.999.999:7667").is_err());
}

#[test]
fn test_parse_invalid_port() {
    assert!(LcmUrl::parse("udpm://239.255.76.67:99999").is_err());
}

#[test]
fn test_parse_non_numeric_port() {
    assert!(LcmUrl::parse("udpm://239.255.76.67:abc").is_err());
}

#[test]
fn test_parse_invalid_ttl() {
    assert!(LcmUrl::parse("udpm://239.255.76.67:7667?ttl=not_a_number").is_err());
}

#[test]
fn test_parse_invalid_recv_buf_size() {
    assert!(LcmUrl::parse("udpm://239.255.76.67:7667?recv_buf_size=xyz").is_err());
}

#[test]
fn test_parse_high_ttl() {
    let url = LcmUrl::parse("udpm://239.255.76.67:7667?ttl=255").unwrap();
    assert_eq!(url.ttl, 255);
}

#[test]
fn test_parse_port_zero() {
    let url = LcmUrl::parse("udpm://239.255.76.67:0").unwrap();
    assert_eq!(url.port, 0);
}

#[test]
fn test_parse_whitespace_trimmed() {
    let url = LcmUrl::parse("  udpm://239.255.76.67:7667  ").unwrap();
    assert_eq!(url.port, 7667);
}

#[test]
fn test_parse_unknown_param_ignored() {
    // Unknown params should not cause an error (just a warning log).
    let url = LcmUrl::parse("udpm://239.255.76.67:7667?ttl=1&unknown=42").unwrap();
    assert_eq!(url.ttl, 1);
}

#[test]
fn test_parse_param_no_value() {
    // "ttl" without "=value" — split_once('=') returns None, so it's skipped.
    let url = LcmUrl::parse("udpm://239.255.76.67:7667?ttl").unwrap();
    assert_eq!(url.ttl, 0); // Default, since param wasn't parsed.
}

#[test]
fn test_parse_large_recv_buf_size() {
    let url =
        LcmUrl::parse("udpm://239.255.76.67:7667?recv_buf_size=134217728").unwrap();
    assert_eq!(url.recv_buf_size, Some(134217728)); // 128 MB
}

#[test]
fn test_default_url_values() {
    let url = LcmUrl::default();
    assert_eq!(url.multicast_group, Ipv4Addr::new(239, 255, 76, 67));
    assert_eq!(url.port, 7667);
    assert_eq!(url.ttl, 0);
    assert_eq!(url.recv_buf_size, None);
}

// --- What is said of an invalid URL ---

fn said(url: &str) -> String {
    LcmUrl::parse(url).unwrap_err()
}

#[test]
fn test_scheme_error_text() {
    assert_eq!(said(" tcp://1.2.3.4:5 "), "LCM URL must start with 'udpm://': tcp://1.2.3.4:5");
}

#[test]
fn test_endpoint_error_text() {
    assert_eq!(
        said("udpm://1.2.3.4?ttl=1"),
        "LCM URL must contain GROUP:PORT: udpm://1.2.3.4?ttl=1"
    );
}

#[test]
fn test_group_error_text() {
    for group in ["1.2.3", "1.2.3.256", "01.2.3.4", "1.2.3.4.5", "", "::1", "1.2.3.4 "] {
        assert_eq!(
            said(&format!("udpm://{group}:5")),
            format!("Invalid multicast group '{group}': invalid IPv4 address syntax")
        );
    }
}

#[test]
fn test_port_error_text() {
    for port in ["", "x", "65536", "-1", "+", " 1", "99999999999999999999999"] {
        assert_eq!(
            said(&format!("udpm://1.2.3.4:{port}")),
            format!("Invalid port '{port}': {}", port.parse::<u16>().unwrap_err())
        );
    }
}

#[test]
fn test_ttl_error_text() {
    for ttl in ["", "x", "4294967296", "-1", "1.5"] {
        assert_eq!(
            said(&format!("udpm://1.2.3.4:5?ttl={ttl}")),
            format!("Invalid ttl '{ttl}': {}", ttl.parse::<u32>().unwrap_err())
        );
    }
}

#[test]
fn test_recv_buf_size_error_text() {
    for size in ["", "k", "18446744073709551616"] {
        assert_eq!(
            said(&format!("udpm://1.2.3.4:5?recv_buf_size={size}")),
            format!("Invalid recv_buf_size '{size}': {}", size.parse::<usize>().unwrap_err())
        );
    }
}

#[test]
fn test_numbers_with_sign_and_zeros() {
    let url = LcmUrl::parse("udpm://1.2.3.4:+0080?ttl=+007&recv_buf_size=00").unwrap();
    assert_eq!(url.port, 80);
    assert_eq!(url.ttl, 7);
    assert_eq!(url.recv_buf_size, Some(0));
}

#[test]
fn test_last_param_counts() {
    let url = LcmUrl::parse("udpm://1.2.3.4:5?ttl=1&&ttl=2&ttl==3").unwrap_err();
    assert_eq!(url, format!("Invalid ttl '=3': {}", "=3".parse::<u32>().unwrap_err()));
    assert_eq!(LcmUrl::parse("udpm://1.2.3.4:5?ttl=1&&ttl=2").unwrap().ttl, 2);
}

#[test]
fn test_default_is_the_default_config_url() {
    let parsed = LcmUrl::parse(DEFAULT_LCM_URL).unwrap();
    assert_eq!(parsed, LcmUrl::default());
}

#[test]
fn test_whitespace_beyond_ascii_trimmed() {
    for space in ["\t\n", "\u{b}\u{c}\r", "\u{85}", "\u{a0}", "\u{2003}", "\u{3000}"] {
        let text = format!("{space}udpm://1.2.3.4:5{space}");
        assert_eq!(text.trim(), "udpm://1.2.3.4:5");
        assert_eq!(LcmUrl::parse(&text).unwrap().port, 5);
    }
    assert!(LcmUrl::parse("\u{200b}udpm://1.2.3.4:5").is_err());
}

#[test]
fn test_every_space_is_a_space() {
    for code in 0..0x11_0000u32 {
        if let Some(c) = char::from_u32(code) {
            let text = format!("{c}x");
            assert_eq!(trim(&text), text.trim());
        }
    }
}

#[test]
fn test_message_clone() {
    let message = LcmMessage { channel: "CH".to_string(), sequence_number: 3, data: vec![1, 2] };
    let copy = message.clone();
    assert_eq!(copy.channel, "CH");
    assert_eq!(copy.sequence_number, 3);
    assert_eq!(copy.data, vec![1, 2]);
}
