use std::collections::HashSet;
use zenoh_plugin_lcm::addr::{Ipv4Addr, SocketAddr, SocketAddrV4};
use zenoh_plugin_lcm::config::{deserialize_regex, Config};
use zenoh_plugin_lcm::lcm_to_zenoh::{new_reassembler, on_lcm_event, LcmAction, LcmEvent};
use zenoh_plugin_lcm::mapping::{KeyExpr, MappingError};
use zenoh_plugin_lcm::zenoh_to_lcm::{
    on_zenoh_event, record_sent, Locality, ZenohAction, ZenohEvent,
};
use zenoh_plugin_lcm::{LcmMessage, LcmTransport};

const SENDER: SocketAddr = SocketAddr::V4(SocketAddrV4 {
    ip: Ipv4Addr { a: 127, b: 0, c: 0, d: 1 },
    port: 40000,
});

fn config_with_prefix(prefix: &str) -> Config {
    Config { key_prefix: prefix.to_string(), ..Config::default() }
}

fn transport() -> LcmTransport {
    LcmTransport::from_url("udpm://239.255.76.67:18000").unwrap()
}

fn message(channel: &str, sequence_number: u32, data: &[u8]) -> LcmEvent {
    LcmEvent::Message {
        message: LcmMessage {
            channel: channel.to_string(),
            sequence_number,
            data: data.to_vec(),
        },
    }
}

fn sample(key: &str, payload: &[u8]) -> ZenohEvent {
    ZenohEvent::Sample { key: KeyExpr::new(key).unwrap(), payload: payload.to_vec() }
}

/// LCM app publishes, the bridge receives the datagrams and publishes to Zenoh.
#[test]
fn test_lcm_to_zenoh_bridge() {
    let prefix = "test_l2z";
    let config = config_with_prefix(prefix);
    let mut app_transport = transport();
    let bridge_transport = transport();
    let mut reassembler = new_reassembler(&config);
    let mut sent_sequences = HashSet::new();

    let out = app_transport.send("SENSOR_IMU", b"imu_data_123").unwrap();
    let message = bridge_transport.recv(&out.datagrams[0], SENDER, &mut reassembler).unwrap();
    let action = on_lcm_event(LcmEvent::Message { message }, &config, &mut sent_sequences);

    match action {
        LcmAction::Publish { key, payload, destination } => {
            assert_eq!(key.as_str(), &format!("{prefix}/SENSOR_IMU"));
            assert_eq!(payload, b"imu_data_123");
            assert_eq!(destination, Locality::Remote);
        }
        other => panic!("{other:?}"),
    }
}

/// Zenoh publisher publishes, the bridge sends datagrams, an LCM app receives them.
#[test]
fn test_zenoh_to_lcm_bridge() {
    let prefix = "test_z2l";
    let config = config_with_prefix(prefix);
    let mut bridge_transport = transport();
    let app_transport = transport();

    let action = on_zenoh_event(sample(&format!("{prefix}/MOTOR_CMD"), b"cmd_data_456"), &config);
    let out = match action {
        ZenohAction::Send { channel, payload } => {
            bridge_transport.send(&channel, &payload).unwrap()
        }
        other => panic!("{other:?}"),
    };
    let mut reassembler = new_reassembler(&config);
    let msg = app_transport.recv(&out.datagrams[0], SENDER, &mut reassembler).unwrap();

    assert_eq!(msg.channel, "MOTOR_CMD");
    assert_eq!(msg.data, b"cmd_data_456");
}

/// A message sent by the bridge to LCM is not bridged back.
#[test]
fn test_loop_prevention() {
    let config = config_with_prefix("test_loop");
    let mut bridge_transport = transport();
    let mut sent_sequences = HashSet::new();
    let mut reassembler = new_reassembler(&config);

    let out = bridge_transport.send("LOOPBACK", b"should_not_bridge").unwrap();
    record_sent(&mut sent_sequences, out.sequence_number);

    let message = bridge_transport.recv(&out.datagrams[0], SENDER, &mut reassembler).unwrap();
    let action = on_lcm_event(LcmEvent::Message { message }, &config, &mut sent_sequences);
    assert!(matches!(action, LcmAction::SkipLoopback));

    // The number was recorded for one message only.
    assert!(sent_sequences.is_empty());
    let message = bridge_transport.recv(&out.datagrams[0], SENDER, &mut reassembler).unwrap();
    let action = on_lcm_event(LcmEvent::Message { message }, &config, &mut sent_sequences);
    assert!(matches!(action, LcmAction::Publish { .. }));
}

#[test]
fn test_receive_error_retried() {
    let mut sent = HashSet::from([3]);
    let action = on_lcm_event(LcmEvent::ReceiveError, &Config::default(), &mut sent);
    assert!(matches!(action, LcmAction::Retry));
    assert_eq!(sent, HashSet::from([3]));
}

#[test]
fn test_lcm_channel_filtered() {
    let mut config = Config::default();
    config.deny = deserialize_regex(Some("DEBUG_.*")).unwrap();
    let mut sent = HashSet::from([3]);
    let action = on_lcm_event(message("DEBUG_X", 1, b"a"), &config, &mut sent);
    assert!(matches!(action, LcmAction::SkipNotAllowed));
    let action = on_lcm_event(message("DEBUG_X", 3, b"a"), &config, &mut sent);
    assert!(matches!(action, LcmAction::SkipLoopback));
}

#[test]
fn test_lcm_channel_unmapped() {
    let config = Config::default();
    let mut sent = HashSet::new();
    let action = on_lcm_event(message("A*", 1, b"a"), &config, &mut sent);
    assert!(matches!(
        action,
        LcmAction::SkipUnmapped { error: MappingError::Reserved { .. } }
    ));
    let action = on_lcm_event(message("", 1, b"a"), &config, &mut sent);
    assert!(matches!(action, LcmAction::SkipUnmapped { error: MappingError::EmptyChannel }));
}

#[test]
fn test_subscriber_error_stops() {
    let action = on_zenoh_event(ZenohEvent::SubscriberError, &Config::default());
    assert!(matches!(action, ZenohAction::Stop));
}

#[test]
fn test_sample_filtered() {
    let mut config = Config::default();
    config.allow = deserialize_regex(Some("^SENSOR_")).unwrap();
    let action = on_zenoh_event(sample("lcm/MOTOR", b"x"), &config);
    assert!(matches!(action, ZenohAction::SkipNotAllowed));
    let action = on_zenoh_event(sample("lcm/SENSOR_1", b"x"), &config);
    assert!(matches!(action, ZenohAction::Send { .. }));
    let action = on_zenoh_event(sample("lcm", b"x"), &config);
    assert!(matches!(
        action,
        ZenohAction::SkipNoChannel { error: MappingError::WrongPrefix { .. } }
    ));
}

/// What one site publishes, another site sends on unchanged.
#[test]
fn test_message_gets_across() {
    let config = config_with_prefix("robot1/lcm");
    let mut sent = HashSet::new();
    let payload: Vec<u8> = (0..=255).collect();
    let action = on_lcm_event(message("a/b/c", 9, &payload), &config, &mut sent);
    let event = match action {
        LcmAction::Publish { key, payload, .. } => ZenohEvent::Sample { key, payload },
        other => panic!("{other:?}"),
    };
    match on_zenoh_event(event, &config) {
        ZenohAction::Send { channel, payload: data } => {
            assert_eq!(channel, "a/b/c");
            assert_eq!(data, payload);
        }
        other => panic!("{other:?}"),
    }
}

#[test]
fn test_configured_message_size() {
    let config = Config { max_message_size: 10, ..Config::default() };
    let mut app_transport = transport();
    let bridge_transport = transport();
    let out = app_transport.send("BIG", &[0; 3000]).unwrap();
    let mut reassembler = new_reassembler(&config);
    for datagram in &out.datagrams {
        assert!(bridge_transport.recv(datagram, SENDER, &mut reassembler).is_none());
    }
    assert!(!reassembler.has_pending());
}
