use std::time::Duration;
use zenoh_plugin_lcm::addr::{Ipv4Addr, SocketAddr, SocketAddrV4};
use zenoh_plugin_lcm::protocol::Fragment;
use zenoh_plugin_lcm::FragmentReassembler;

const SENDER_A: SocketAddr = SocketAddr::V4(SocketAddrV4 {
    ip: Ipv4Addr { a: 192, b: 168, c: 1, d: 10 },
    port: 5000,
});
const SENDER_B: SocketAddr = SocketAddr::V4(SocketAddrV4 {
    ip: Ipv4Addr { a: 192, b: 168, c: 1, d: 20 },
    port: 5001,
});

fn make_fragment<'a>(
    seq: u32,
    payload_size: u32,
    offset: u32,
    frag_num: u16,
    n_frags: u16,
    channel: Option<&'a str>,
    data: &'a [u8],
) -> Fragment<'a> {
    Fragment {
        sequence_number: seq,
        payload_size,
        fragment_offset: offset,
        fragment_number: frag_num,
        n_fragments: n_frags,
        channel,
        data,
    }
}

#[test]
fn test_reassemble_two_fragments() {
    let mut reassembler =
        FragmentReassembler::new(Duration::from_secs(1), 4 * 1024 * 1024);

    let data_a = [1u8, 2, 3, 4, 5];
    let data_b = [6u8, 7, 8, 9, 10];

    let frag0 = make_fragment(1, 10, 0, 0, 2, Some("CHAN"), &data_a);
    assert!(reassembler.process(&frag0, SENDER_A).is_none());

    let frag1 = make_fragment(1, 10, 5, 1, 2, None, &data_b);
    let msg = reassembler.process(&frag1, SENDER_A).expect("should reassemble");

    assert_eq!(msg.channel, "CHAN");
    assert_eq!(msg.sequence_number, 1);
    assert_eq!(msg.data, &[1, 2, 3, 4, 5, 6, 7, 8, 9, 10]);
}

#[test]
fn test_duplicate_fragment_ignored() {
    let mut reassembler =
        FragmentReassembler::new(Duration::from_secs(1), 4 * 1024 * 1024);

    let data = [1u8, 2, 3];
    let frag0 = make_fragment(1, 6, 0, 0, 2, Some("CH"), &data);
    assert!(reassembler.process(&frag0, SENDER_A).is_none());
    // Sending the same fragment again should not complete the message.
    assert!(reassembler.process(&frag0, SENDER_A).is_none());
}

#[test]
fn test_oversized_message_rejected() {
    let mut reassembler =
        FragmentReassembler::new(Duration::from_secs(1), 10);

    let data = [1u8; 5];
    let frag0 = make_fragment(1, 100, 0, 0, 2, Some("BIG"), &data);
    assert!(reassembler.process(&frag0, SENDER_A).is_none());
    // The set should not have been created.
    assert!(!reassembler.has_pending());
}

#[test]
fn test_different_senders_same_seqno() {
    let mut reassembler =
        FragmentReassembler::new(Duration::from_secs(1), 4 * 1024 * 1024);

    // Two senders, both with sequence number 1, different data.
    let data_a0 = [1u8, 2, 3];
    let data_a1 = [4u8, 5, 6];
    let data_b0 = [10u8, 20, 30];
    let data_b1 = [40u8, 50, 60];

    let frag_a0 = make_fragment(1, 6, 0, 0, 2, Some("CH_A"), &data_a0);
    let frag_b0 = make_fragment(1, 6, 0, 0, 2, Some("CH_B"), &data_b0);
    let frag_a1 = make_fragment(1, 6, 3, 1, 2, None, &data_a1);
    let frag_b1 = make_fragment(1, 6, 3, 1, 2, None, &data_b1);

    // Interleave fragments from both senders.
    assert!(reassembler.process(&frag_a0, SENDER_A).is_none());
    assert!(reassembler.process(&frag_b0, SENDER_B).is_none());

    let msg_a = reassembler.process(&frag_a1, SENDER_A).expect("should reassemble A");
    let msg_b = reassembler.process(&frag_b1, SENDER_B).expect("should reassemble B");

    assert_eq!(msg_a.channel, "CH_A");
    assert_eq!(msg_a.data, &[1, 2, 3, 4, 5, 6]);
    assert_eq!(msg_b.channel, "CH_B");
    assert_eq!(msg_b.data, &[10, 20, 30, 40, 50, 60]);
}

const SECOND: u128 = 1_000_000_000;

#[test]
fn test_any_order() {
    let data = [1u8, 2, 3, 4, 5, 6];
    let frags = [
        make_fragment(7, 6, 0, 0, 3, Some("CH"), &data[0..2]),
        make_fragment(7, 6, 2, 1, 3, None, &data[2..5]),
        make_fragment(7, 6, 5, 2, 3, None, &data[5..6]),
    ];
    let orders = [[0, 1, 2], [0, 2, 1], [1, 0, 2], [1, 2, 0], [2, 0, 1], [2, 1, 0]];
    for order in orders {
        let mut reassembler = FragmentReassembler::new(Duration::from_secs(1), 6);
        assert!(reassembler.process(&frags[order[0]], SENDER_A).is_none());
        assert!(reassembler.process(&frags[order[1]], SENDER_A).is_none());
        assert!(reassembler.process(&frags[order[0]], SENDER_A).is_none());
        let msg = reassembler.process(&frags[order[2]], SENDER_A).unwrap();
        assert_eq!(msg.channel, "CH");
        assert_eq!(msg.sequence_number, 7);
        assert_eq!(msg.data, data);
        assert!(!reassembler.has_pending());
    }
}

#[test]
fn test_at_the_timeout_and_after_it() {
    let first = make_fragment(1, 4, 0, 0, 2, Some("CH"), &[1, 2]);
    let second = make_fragment(1, 4, 2, 1, 2, None, &[3, 4]);

    let mut reassembler = FragmentReassembler::new(Duration::from_secs(1), 100);
    assert!(reassembler.process_at(&first, SENDER_A, 0, 5).is_none());
    let msg = reassembler.process_at(&second, SENDER_A, 5 + SECOND, 5 + SECOND).unwrap();
    assert_eq!(msg.data, &[1, 2, 3, 4]);

    assert!(reassembler.process_at(&first, SENDER_A, 0, 5).is_none());
    let late = 6 + SECOND;
    assert!(reassembler.process_at(&second, SENDER_A, late, late).is_none());
    // The second fragment began the message afresh.
    let msg = reassembler.process_at(&first, SENDER_A, late, late).unwrap();
    assert_eq!(msg.data, &[1, 2, 3, 4]);
}

#[test]
fn test_stale_sets_expire() {
    let first = make_fragment(1, 4, 0, 0, 2, Some("CH"), &[1, 2]);
    let mut reassembler = FragmentReassembler::new(Duration::from_secs(1), 100);
    assert!(reassembler.process_at(&first, SENDER_A, 0, 0).is_none());
    reassembler.expire_stale(SECOND);
    assert!(reassembler.has_pending());
    reassembler.expire_stale(SECOND + 1);
    assert!(!reassembler.has_pending());
}

#[test]
fn test_oversized_fragment_drops_nothing_else() {
    let small = make_fragment(1, 4, 0, 0, 2, Some("CH"), &[1, 2]);
    let rest = make_fragment(1, 4, 2, 1, 2, None, &[3, 4]);
    let big = make_fragment(2, 11, 0, 0, 2, Some("BIG"), &[1]);
    let mut reassembler = FragmentReassembler::new(Duration::from_secs(1), 10);
    assert!(reassembler.process(&small, SENDER_A).is_none());
    assert!(reassembler.process(&big, SENDER_A).is_none());
    assert_eq!(reassembler.process(&rest, SENDER_A).unwrap().data, &[1, 2, 3, 4]);
}

#[test]
fn test_fragment_outside_payload_ignored() {
    let mut reassembler = FragmentReassembler::new(Duration::from_secs(1), 100);
    let outside = make_fragment(1, 4, 3, 1, 2, None, &[3, 4]);
    let number = make_fragment(1, 4, 2, 2, 2, None, &[3, 4]);
    let first = make_fragment(1, 4, 0, 0, 2, Some("CH"), &[1, 2]);
    let other_size = make_fragment(1, 5, 2, 1, 2, None, &[3, 4]);
    let rest = make_fragment(1, 4, 2, 1, 2, None, &[3, 4]);
    assert!(reassembler.process(&outside, SENDER_A).is_none());
    assert!(reassembler.process(&number, SENDER_A).is_none());
    assert!(reassembler.process(&first, SENDER_A).is_none());
    assert!(reassembler.process(&other_size, SENDER_A).is_none());
    assert_eq!(reassembler.process(&rest, SENDER_A).unwrap().data, &[1, 2, 3, 4]);
}

#[test]
fn test_duplicate_does_not_rename() {
    let mut reassembler = FragmentReassembler::new(Duration::from_secs(1), 1024);
    let first = make_fragment(1, 6, 0, 0, 2, Some("A"), &[1, 2, 3]);
    let again = make_fragment(1, 6, 0, 0, 2, Some("B"), &[9, 9, 9]);
    let rest = make_fragment(1, 6, 3, 1, 2, None, &[4, 5, 6]);
    assert!(reassembler.process(&first, SENDER_A).is_none());
    assert!(reassembler.process(&again, SENDER_A).is_none());
    let msg = reassembler.process(&rest, SENDER_A).unwrap();
    assert_eq!(msg.channel, "A");
    assert_eq!(msg.sequence_number, 1);
    assert_eq!(msg.data, vec![1, 2, 3, 4, 5, 6]);
}

#[test]
fn test_dropped_first_fragment_names_the_message() {
    let first = make_fragment(1, 6, 0, 0, 2, Some("A"), &[1, 2, 3]);
    let rest = make_fragment(1, 6, 3, 1, 2, None, &[4, 5, 6]);
    let dropped = [
        (make_fragment(1, 7, 0, 0, 2, Some("B"), &[9, 9, 9]), "B"),
        (make_fragment(1, 6, 0, 0, 3, Some("B"), &[9, 9, 9]), "B"),
        // This one is a duplicate, too.
        (make_fragment(1, 6, 4, 0, 2, Some("B"), &[9, 9, 9]), "A"),
    ];
    for (fragment, name) in &dropped {
        let mut reassembler = FragmentReassembler::new(Duration::from_secs(1), 1024);
        assert!(reassembler.process(&first, SENDER_A).is_none());
        assert!(reassembler.process(fragment, SENDER_A).is_none());
        let msg = reassembler.process(&rest, SENDER_A).unwrap();
        assert_eq!(msg.channel, *name);
        assert_eq!(msg.data, vec![1, 2, 3, 4, 5, 6]);

        let mut reassembler = FragmentReassembler::new(Duration::from_secs(1), 1024);
        assert!(reassembler.process(&rest, SENDER_A).is_none());
        assert!(reassembler.process(fragment, SENDER_A).is_none());
        let msg = reassembler.process(&first, SENDER_A).unwrap();
        assert_eq!(msg.channel, "A");
        assert_eq!(msg.data, vec![1, 2, 3, 4, 5, 6]);
    }
}

#[test]
fn test_reassembly_among_others() {
    let mut reassembler = FragmentReassembler::new(Duration::from_secs(1), 1024);
    let own = [
        make_fragment(1, 6, 0, 0, 3, Some("A"), &[1, 2]),
        make_fragment(1, 6, 2, 1, 3, None, &[3, 4]),
        make_fragment(1, 6, 4, 2, 3, None, &[5, 6]),
    ];
    let other = make_fragment(1, 6, 0, 0, 3, Some("B"), &[9, 9]);
    let next = make_fragment(2, 1, 0, 0, 1, Some("C"), &[7]);
    assert!(reassembler.process(&other, SENDER_B).is_none());
    assert!(reassembler.process(&own[2], SENDER_A).is_none());
    assert_eq!(reassembler.process(&next, SENDER_A).unwrap().channel, "C");
    assert!(reassembler.process(&own[0], SENDER_A).is_none());
    assert!(reassembler.process(&other, SENDER_B).is_none());
    assert!(reassembler.process(&own[2], SENDER_A).is_none());
    let msg = reassembler.process(&own[1], SENDER_A).unwrap();
    assert_eq!(msg.channel, "A");
    assert_eq!(msg.data, vec![1, 2, 3, 4, 5, 6]);
    assert!(reassembler.has_pending());
}
