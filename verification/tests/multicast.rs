use std::time::Duration;
use zenoh_plugin_lcm::addr::{Ipv4Addr, SocketAddr, SocketAddrV4, SocketAddrV6};
use zenoh_plugin_lcm::multicast::{SendError, DEFAULT_FRAGMENT_MTU};
use zenoh_plugin_lcm::protocol::{parse_datagram, Packet};
use zenoh_plugin_lcm::{
    FragmentReassembler, LcmMessage, LcmTransport, LcmTransportConfig, LcmUrl,
};

const SENDER: SocketAddr = SocketAddr::V4(SocketAddrV4 {
    ip: Ipv4Addr { a: 127, b: 0, c: 0, d: 1 },
    port: 40000,
});

fn test_config(port: u16) -> LcmTransportConfig {
    LcmTransportConfig {
        lcm_url: LcmUrl {
            multicast_group: Ipv4Addr::new(239, 255, 76, 67),
            port,
            ttl: 0,
            recv_buf_size: None,
        },
        network_interface: None,
        ..Default::default()
    }
}

fn test_config_with_mtu(port: u16, mtu: usize) -> LcmTransportConfig {
    LcmTransportConfig {
        fragment_mtu: mtu,
        ..test_config(port)
    }
}

fn new_reassembler() -> FragmentReassembler {
    FragmentReassembler::new(Duration::from_secs(2), 4 * 1024 * 1024)
}

/// Hands datagrams over one by one and collects the messages that come out.
fn recv_all(
    transport: &LcmTransport,
    datagrams: &[Vec<u8>],
    reassembler: &mut FragmentReassembler,
) -> Vec<LcmMessage> {
    datagrams
        .iter()
        .filter_map(|datagram| transport.recv(datagram, SENDER, reassembler))
        .collect()
}

/// Sends a message and receives it back.
fn send_and_recv(transport: &mut LcmTransport, channel: &str, data: &[u8]) -> LcmMessage {
    let out = transport.send(channel, data).expect("send failed");
    let mut msgs = recv_all(transport, &out.datagrams, &mut new_reassembler());
    assert_eq!(msgs.len(), 1);
    msgs.remove(0)
}

#[test]
fn test_short_message_loopback() {
    let mut transport = LcmTransport::new(test_config(17000));
    let msg = send_and_recv(&mut transport, "TEST_CHAN", b"hello");

    assert_eq!(msg.channel, "TEST_CHAN");
    assert_eq!(msg.data, b"hello");
    assert_eq!(msg.sequence_number, 0);
}

#[test]
fn test_empty_payload() {
    let mut transport = LcmTransport::new(test_config(17000));
    let msg = send_and_recv(&mut transport, "EMPTY", b"");

    assert_eq!(msg.channel, "EMPTY");
    assert!(msg.data.is_empty());
}

#[test]
fn test_fragmented_message_loopback() {
    // Default MTU is 1400, so a 5000-byte payload will fragment.
    let mut transport = LcmTransport::new(test_config(17000));
    let payload: Vec<u8> = (0..5000).map(|i| (i % 256) as u8).collect();

    let msg = send_and_recv(&mut transport, "FRAG_TEST", &payload);

    assert_eq!(msg.channel, "FRAG_TEST");
    assert_eq!(msg.data, payload);
}

#[test]
fn test_many_fragments() {
    // Small MTU forces many fragments.
    let mut transport = LcmTransport::new(test_config_with_mtu(17000, 200));
    let payload: Vec<u8> = vec![0xAB; 10_000];

    let msg = send_and_recv(&mut transport, "MANY_FRAGS", &payload);

    assert_eq!(msg.channel, "MANY_FRAGS");
    assert_eq!(msg.data.len(), 10_000);
    assert_eq!(msg.data, payload);
}

#[test]
fn test_multiple_channels() {
    let mut transport = LcmTransport::new(test_config(17000));
    let mut datagrams = Vec::new();
    datagrams.extend(transport.send("CHAN_A", b"aaa").unwrap().datagrams);
    datagrams.extend(transport.send("CHAN_B", b"bbb").unwrap().datagrams);
    datagrams.extend(transport.send("CHAN_C", b"ccc").unwrap().datagrams);

    let msgs = recv_all(&transport, &datagrams, &mut new_reassembler());

    assert_eq!(msgs.len(), 3);
    assert_eq!(msgs[0].channel, "CHAN_A");
    assert_eq!(msgs[0].data, b"aaa");
    assert_eq!(msgs[1].channel, "CHAN_B");
    assert_eq!(msgs[1].data, b"bbb");
    assert_eq!(msgs[2].channel, "CHAN_C");
    assert_eq!(msgs[2].data, b"ccc");
}

#[test]
fn test_sequence_numbers_increment() {
    let mut transport = LcmTransport::new(test_config(17000));
    let mut datagrams = Vec::new();
    let mut send_seqs = Vec::new();
    for i in 0u8..5 {
        let out = transport.send("SEQ_TEST", &[i]).unwrap();
        send_seqs.push(out.sequence_number);
        datagrams.extend(out.datagrams);
    }

    assert_eq!(send_seqs, vec![0, 1, 2, 3, 4]);

    let msgs = recv_all(&transport, &datagrams, &mut new_reassembler());

    assert_eq!(msgs.len(), 5);
    for (i, msg) in msgs.iter().enumerate() {
        assert_eq!(msg.sequence_number, i as u32);
        assert_eq!(msg.data, &[i as u8]);
    }
}

#[test]
fn test_two_transports_same_group() {
    let mut transport_a = LcmTransport::new(test_config(17000));
    let transport_b = LcmTransport::new(test_config(17000));

    // Send from transport A.
    let out = transport_a.send("CROSS", b"from_a").unwrap();

    // Receive on transport B.
    let msgs = recv_all(&transport_b, &out.datagrams, &mut new_reassembler());

    assert_eq!(msgs.len(), 1);
    assert_eq!(msgs[0].channel, "CROSS");
    assert_eq!(msgs[0].data, b"from_a");
}

#[test]
fn test_fragment_boundaries() {
    // 20 + 2 + 1 bytes of header and name leave 7 in the first fragment, 10 in the next ones.
    let mut transport = LcmTransport::new(test_config_with_mtu(17000, 30));
    let payload: Vec<u8> = (0..28).collect();
    let out = transport.send("CH", &payload).unwrap();
    assert_eq!(out.datagrams.len(), 4);
    let expected = [(0, 7), (7, 17), (17, 27), (27, 28)];
    for (i, (start, end)) in expected.iter().enumerate() {
        assert!(out.datagrams[i].len() <= 30);
        match parse_datagram(&out.datagrams[i]).unwrap() {
            Packet::Fragment(frag) => {
                assert_eq!(frag.sequence_number, 0);
                assert_eq!(frag.payload_size, 28);
                assert_eq!(frag.fragment_offset, *start as u32);
                assert_eq!(frag.fragment_number, i as u16);
                assert_eq!(frag.n_fragments, 4);
                assert_eq!(frag.channel, if i == 0 { Some("CH") } else { None });
                assert_eq!(frag.data, &payload[*start..*end]);
            }
            Packet::Short(_) => panic!("expected fragment"),
        }
    }
}

#[test]
fn test_one_datagram_up_to_the_mtu() {
    let mut transport = LcmTransport::new(test_config_with_mtu(17000, 30));
    // 8 bytes of header, 3 of name.
    assert_eq!(transport.send("CH", &[1; 19]).unwrap().datagrams.len(), 1);
    assert_eq!(transport.send("CH", &[1; 20]).unwrap().datagrams.len(), 3);
}

#[test]
fn test_fragments_in_reverse_and_twice() {
    let mut transport = LcmTransport::new(test_config_with_mtu(17000, 30));
    let payload: Vec<u8> = (0..28).collect();
    let mut datagrams = transport.send("CH", &payload).unwrap().datagrams;
    datagrams.reverse();
    let last = datagrams.pop().unwrap();
    let mut arriving = datagrams.clone();
    arriving.extend(datagrams);
    let mut reassembler = new_reassembler();
    assert!(recv_all(&transport, &arriving, &mut reassembler).is_empty());
    let msg = transport.recv(&last, SENDER, &mut reassembler).unwrap();
    assert_eq!(msg.channel, "CH");
    assert_eq!(msg.data, payload);
}

#[test]
fn test_mtu_too_small() {
    let mut transport = LcmTransport::new(test_config_with_mtu(17000, 23));
    let error = transport.send("CH", &[1; 50]).unwrap_err();
    assert_eq!(error, SendError::MtuTooSmall);
    assert_eq!(error.message(), "Fragment MTU too small for channel name");
    // The number was used up.
    assert_eq!(transport.send("CH", &[1]).unwrap().sequence_number, 1);
    let mut transport = LcmTransport::new(test_config_with_mtu(17000, 24));
    assert_eq!(transport.send("CH", &[1; 50]).unwrap().datagrams.len(), 14);
}

#[test]
fn test_unrecognized_datagram_skipped() {
    let transport = LcmTransport::new(test_config(17000));
    let mut reassembler = new_reassembler();
    assert!(transport.recv(&[1, 2, 3], SENDER, &mut reassembler).is_none());
    assert!(transport.recv(&[0; 40], SENDER, &mut reassembler).is_none());
    assert!(!reassembler.has_pending());
}

#[test]
fn test_timeout_by_given_clock() {
    let mut transport = LcmTransport::new(test_config_with_mtu(17000, 30));
    let datagrams = transport.send("CH", &[7; 20]).unwrap().datagrams;
    let mut reassembler = new_reassembler();
    assert!(transport.recv_at(&datagrams[0], SENDER, &mut reassembler, 0, 0).is_none());
    assert!(transport.recv_at(&datagrams[1], SENDER, &mut reassembler, 1, 1).is_none());
    let late = 2_000_000_001;
    assert!(transport.recv_at(&datagrams[2], SENDER, &mut reassembler, late, late).is_none());
    assert!(transport.recv_at(&datagrams[0], SENDER, &mut reassembler, late, late).is_none());
    assert!(transport.recv_at(&datagrams[1], SENDER, &mut reassembler, late, late).is_some());
}

#[test]
fn test_senders_told_apart() {
    let other = SocketAddr::V6(SocketAddrV6 { ip: 1, port: 40000, flowinfo: 0, scope_id: 0 });
    let mut transport = LcmTransport::new(test_config_with_mtu(17000, 30));
    let datagrams = transport.send("CH", &[7; 17]).unwrap();
    assert_eq!(datagrams.datagrams.len(), 1);
    let datagrams = transport.send("CH", &[7; 20]).unwrap().datagrams;
    let mut reassembler = new_reassembler();
    assert!(transport.recv(&datagrams[0], SENDER, &mut reassembler).is_none());
    assert!(transport.recv(&datagrams[1], other, &mut reassembler).is_none());
    assert!(transport.recv(&datagrams[2], other, &mut reassembler).is_none());
    assert!(transport.recv(&datagrams[1], SENDER, &mut reassembler).is_none());
    assert!(transport.recv(&datagrams[2], SENDER, &mut reassembler).is_some());
    assert!(transport.recv(&datagrams[0], other, &mut reassembler).is_some());
}

#[test]
fn test_from_url() {
    let transport = LcmTransport::from_url("udpm://239.1.2.3:1234?ttl=1").unwrap();
    assert_eq!(
        transport.multicast_addr(),
        SocketAddr::V4(SocketAddrV4 { ip: Ipv4Addr::new(239, 1, 2, 3), port: 1234 })
    );
    assert_eq!(
        LcmTransport::from_url("x").unwrap_err(),
        "LCM URL must start with 'udpm://': x"
    );
}

#[test]
fn test_socket_options() {
    let mut config = test_config(17000);
    let options = config.socket_options();
    assert_eq!(options.bind_addr.ip, Ipv4Addr::new(0, 0, 0, 0));
    assert_eq!(options.bind_addr.port, 17000);
    assert!(options.reuse_address && options.reuse_port && options.nonblocking);
    assert_eq!(options.recv_buffer_size, None);
    assert_eq!(options.multicast_ttl, 0);
    assert!(options.multicast_loop);
    assert_eq!(options.multicast_group, Ipv4Addr::new(239, 255, 76, 67));
    assert_eq!(options.interface, Ipv4Addr::new(0, 0, 0, 0));

    config.network_interface = Some(Ipv4Addr::new(192, 168, 1, 100));
    config.lcm_url.ttl = 3;
    config.lcm_url.recv_buf_size = Some(99);
    let options = config.socket_options();
    assert_eq!(options.recv_buffer_size, Some(99));
    assert_eq!(options.multicast_ttl, 3);
    assert_eq!(options.interface, Ipv4Addr::new(192, 168, 1, 100));
}

#[test]
fn test_default_transport_config() {
    let config = LcmTransportConfig::default();
    assert_eq!(config.lcm_url, LcmUrl::default());
    assert_eq!(config.network_interface, None);
    assert_eq!(config.fragment_mtu, DEFAULT_FRAGMENT_MTU);
    assert_eq!(config.fragment_mtu, 1400);
    assert_eq!(config.fragment_timeout, Duration::from_secs(1));
    assert_eq!(config.max_message_size, 4 * 1024 * 1024);
}

#[test]
fn test_fragments_without_data() {
    // The name alone exceeds one datagram, so that an empty message is fragmented.
    let mut transport = LcmTransport::new(test_config_with_mtu(17000, 200));
    let channel = "N".repeat(170);
    let out = transport.send(&channel, &[5; 25]).unwrap();
    assert_eq!(out.datagrams.len(), 2);
    let msg = send_and_recv(&mut transport, &channel, &[5; 25]);
    assert_eq!(msg.channel, channel);
    assert_eq!(msg.data, &[5; 25]);
}

#[test]
fn test_too_many_fragments() {
    // One byte goes in the first fragment, two in each of the next ones.
    let mut transport = LcmTransport::new(test_config_with_mtu(17000, 22));
    let error = transport.send("", &vec![7; 131_071]).unwrap_err();
    assert_eq!(error, SendError::TooLarge);
    assert_eq!(error.message(), "Message too large to be fragmented");
    assert_eq!(
        transport.send_fragmented(0, "", &vec![7; 131_071]).unwrap_err(),
        SendError::TooLarge
    );
    // One byte less takes as many fragments again, two bytes less take the last number there is.
    assert_eq!(transport.send("", &vec![7; 131_070]).unwrap_err(), SendError::TooLarge);
    let payload: Vec<u8> = (0..131_069u32).map(|i| (i % 251) as u8).collect();
    let out = transport.send("", &payload).unwrap();
    assert_eq!(out.sequence_number, 2);
    assert_eq!(out.datagrams.len(), 65_535);
    let msgs = recv_all(&transport, &out.datagrams, &mut new_reassembler());
    assert_eq!(msgs.len(), 1);
    assert_eq!(msgs[0].channel, "");
    assert_eq!(msgs[0].data, payload);
}

#[test]
fn test_datagrams_carry_the_number() {
    let mut transport = LcmTransport::new(test_config_with_mtu(17000, 30));
    transport.send("CH", b"").unwrap();
    let out = transport.send("CH", &[1; 100]).unwrap();
    assert_eq!(out.sequence_number, 1);
    for datagram in &out.datagrams {
        assert_eq!(datagram[4..8], [0, 0, 0, 1]);
    }
}
