use zenoh_plugin_lcm::bridge::{parse_args, BridgeArgs, Setting};

fn no_args() -> BridgeArgs {
    BridgeArgs {
        id: None,
        mode: None,
        connect: None,
        listen: None,
        no_multicast_scouting: false,
        rest_http_port: None,
        lcm_url: None,
        key_prefix: None,
        allow: None,
        deny: None,
        network_interface: None,
        max_message_size: None,
    }
}

fn some(text: &str) -> Option<String> {
    Some(text.to_string())
}

fn shown(settings: Vec<Setting>) -> Vec<String> {
    settings
        .into_iter()
        .map(|setting| match setting {
            Setting::Json { key, value } => format!("{key} = {value}"),
            Setting::Id { hex } => format!("id {hex}"),
            Setting::Mode { mode } => format!("mode {mode}"),
            Setting::Connect { endpoints } => format!("connect {endpoints:?}"),
            Setting::Listen { endpoints } => format!("listen {endpoints:?}"),
            Setting::MulticastScouting { enabled } => format!("scouting {enabled}"),
            Setting::Timestamping { enabled } => format!("timestamping {enabled}"),
            Setting::AdminSpace { enabled } => format!("adminspace {enabled}"),
            Setting::PluginsLoading { enabled } => format!("plugins_loading {enabled}"),
        })
        .collect()
}

#[test]
fn test_no_arguments() {
    assert_eq!(
        shown(parse_args(no_args(), false)),
        vec![
            "plugins/lcm = {}",
            "timestamping true",
            "adminspace true",
            "plugins_loading true"
        ]
    );
    assert_eq!(
        shown(parse_args(no_args(), true)),
        vec!["timestamping true", "adminspace true", "plugins_loading true"]
    );
}

#[test]
fn test_all_arguments() {
    let args = BridgeArgs {
        id: some("0A0B"),
        mode: some("client"),
        connect: Some(vec!["tcp/1.2.3.4:7447".to_string(), "udp/a:1".to_string()]),
        listen: Some(vec!["tcp/0.0.0.0:7447".to_string()]),
        no_multicast_scouting: true,
        rest_http_port: some("8000"),
        lcm_url: some("udpm://239.255.76.67:7667?ttl=1"),
        key_prefix: some("robot1/lcm"),
        allow: some(r"SENSOR_\d+"),
        deny: some("\"DEBUG\""),
        network_interface: some("192.168.1.100"),
        max_message_size: some("1024"),
    };
    assert_eq!(
        shown(parse_args(args, true)),
        vec![
            "id 0A0B",
            "mode client",
            r#"connect ["tcp/1.2.3.4:7447", "udp/a:1"]"#,
            r#"listen ["tcp/0.0.0.0:7447"]"#,
            "scouting false",
            r#"plugins/rest/http_port = "8000""#,
            "timestamping true",
            "adminspace true",
            "plugins_loading true",
            r#"plugins/lcm/lcm_url = "udpm://239.255.76.67:7667?ttl=1""#,
            r#"plugins/lcm/key_prefix = "robot1/lcm""#,
            r#"plugins/lcm/allow = "SENSOR_\\d+""#,
            r#"plugins/lcm/deny = "\"DEBUG\"""#,
            r#"plugins/lcm/network_interface = "192.168.1.100""#,
            "plugins/lcm/max_message_size = 1024",
        ]
    );
}

#[test]
fn test_json_string_escapes() {
    let args = BridgeArgs {
        allow: some("\u{0}\u{8}\t\n\u{b}\u{c}\r\u{1f} \"\\/\u{7f}é"),
        ..no_args()
    };
    let settings = shown(parse_args(args, true));
    assert_eq!(
        settings[3],
        "plugins/lcm/allow = \"\\u0000\\b\\t\\n\\u000b\\f\\r\\u001f \\\"\\\\/\u{7f}é\""
    );
}

#[test]
fn test_rest_port_as_written() {
    let args = BridgeArgs { rest_http_port: some("127.0.0.1:8000"), ..no_args() };
    assert_eq!(
        shown(parse_args(args, true))[0],
        r#"plugins/rest/http_port = "127.0.0.1:8000""#
    );
}
