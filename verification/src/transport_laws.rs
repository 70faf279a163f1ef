//! Laws of the transport: what is sent fits the MTU, and is received as it was sent.
use crate::addr::{Ipv4Addr, SocketAddr, SocketAddrV4};
use crate::fragment::{
    clocked_step, process_fragment, unexpired, ClockedView, FragmentKey, ReassemblerView,
};
use crate::fragment_laws::{
    arrived, byte_carried, covers, fragment_of, holds_byte, in_range, in_time, is_split,
    law_incomplete_message_withheld, law_reassembly_in_any_order, process_all,
};
use crate::multicast::{
    clocked_receive, first_capacity, fragment_datagrams, fragment_start, fragments_needed,
    lemma_fragment_start, message_datagrams, message_fragments, new_transport, next_capacity,
    next_sequence_number, receive, send_error_text, short_size, socket_setup,
    LcmTransportConfig, SendError, DEFAULT_FRAGMENT_MTU, DEFAULT_FRAGMENT_TIMEOUT_SECS,
    DEFAULT_MAX_MESSAGE_SIZE, MAX_DATAGRAM_SIZE,
};
use crate::protocol::{
    be32, datagram_contents, fragment_datagram, read_be32, short_datagram, FragmentView,
    PacketView, ShortView,
};
use crate::protocol_laws::{
    fragment_expressible, law_fragment_round_trip, law_fragment_wire_format,
    law_short_message_round_trip, law_short_wire_format, lemma_be32, number_at,
};
use crate::types::{default_url, MessageView};
use vstd::arithmetic::div_mod::lemma_fundamental_div_mod;
use vstd::prelude::*;
use vstd::utf8::encode_utf8;

verus! {

/// What a reassembler holds after a run of datagrams from one sender, and what each of them
/// completed. Datagram `k` is handled at the clock readings `times[k]`.
pub open spec fn receive_all(
    state: ReassemblerView,
    datagrams: Seq<Seq<u8>>,
    sender: SocketAddr,
    times: Seq<(nat, nat)>,
) -> (ReassemblerView, Seq<Option<MessageView>>)
    decreases datagrams.len(),
{
    if datagrams.len() == 0 {
        (state, Seq::empty())
    } else {
        let (before, outcomes) = receive_all(state, datagrams.drop_last(), sender, times);
        let (now, created_at) = times[datagrams.len() - 1];
        let (after, outcome) = receive(before, datagrams.last(), sender, now, created_at);
        (after, outcomes.push(outcome))
    }
}

/// The datagrams that the numbers in `arrivals` stand for.
pub open spec fn arrived_datagrams(datagrams: Seq<Seq<u8>>, arrivals: Seq<int>) -> Seq<Seq<u8>> {
    arrivals.map_values(|i: int| datagrams[i])
}

/// Each byte in front of where a fragment starts lies in an earlier fragment.
proof fn lemma_byte_carried(p: int, i: int, len: nat, first: nat, next: nat) -> (j: int)
    requires
        0 <= i,
        0 <= p < fragment_start(i, len, first, next),
    ensures
        0 <= j < i,
        fragment_start(j, len, first, next) <= p < fragment_start(j + 1, len, first, next),
    decreases i,
{
    if fragment_start(i - 1, len, first, next) <= p {
        i - 1
    } else {
        lemma_byte_carried(p, i - 1, len, first, next)
    }
}

/// The fragments needed hold all of the data.
proof fn lemma_fragments_suffice(len: nat, first: nat, next: nat)
    requires
        next > 0,
    ensures
        fragment_start(fragments_needed(len, first, next) as int, len, first, next) == len,
{
    let remaining = if len < first {
        0
    } else {
        len - first
    };
    let x = remaining + next - 1;
    let q = x / (next as int);
    lemma_fundamental_div_mod(x, next as int);
    assert(next * q == q * next) by (nonlinear_arith);
    assert(q >= 0) by (nonlinear_arith)
        requires
            q == x / (next as int),
            x >= 0,
            next > 0,
    ;
    assert(fragments_needed(len, first, next) == 1 + q);
}

/// Whenever a message is cut into fragments, they are a split of it.
pub proof fn law_fragments_split_message(
    sequence_number: u32,
    channel: Seq<char>,
    data: Seq<u8>,
    mtu: nat,
)
    ensures
        message_fragments(sequence_number, channel, data, mtu) matches Ok(frags) ==> is_split(
            frags,
            MessageView { channel, sequence_number, data },
        ),
{
    if let Ok(frags) = message_fragments(sequence_number, channel, data, mtu) {
        let msg = MessageView { channel, sequence_number, data };
        let first = first_capacity(mtu, encode_utf8(channel).len());
        let next = next_capacity(mtu);
        let n = fragments_needed(data.len(), first, next);
        assert(frags.len() == n);
        assert forall|i: int| 0 <= i < frags.len() implies fragment_of(
            #[trigger] frags[i],
            i,
            frags.len(),
            msg,
        ) by {
            lemma_fragment_start(i, data.len(), first, next);
            lemma_fragment_start(i + 1, data.len(), first, next);
        }
        lemma_fragments_suffice(data.len(), first, next);
        assert forall|p: int| 0 <= p < data.len() implies #[trigger] byte_carried(frags, p) by {
            let j = lemma_byte_carried(p, n as int, data.len(), first, next);
            assert(fragment_of(frags[j], j, frags.len(), msg));
            assert(holds_byte(frags[j], p));
        }
    }
}

/// No datagram of a message exceeds the MTU.
pub proof fn law_datagrams_within_mtu(
    sequence_number: u32,
    channel: Seq<char>,
    data: Seq<u8>,
    mtu: nat,
    i: int,
)
    requires
        message_datagrams(sequence_number, channel, data, mtu) matches Ok(datagrams) && 0 <= i
            < datagrams.len(),
    ensures
        message_datagrams(sequence_number, channel, data, mtu)->Ok_0[i].len() <= mtu,
{
    if short_size(encode_utf8(channel).len(), data.len()) > mtu {
        let first = first_capacity(mtu, encode_utf8(channel).len());
        let next = next_capacity(mtu);
        lemma_fragment_start(i, data.len(), first, next);
        lemma_fragment_start(i + 1, data.len(), first, next);
    }
}

/// How many datagrams a message of `len` bytes takes on a channel whose name has `name` bytes: one
/// where everything fits, with a header of nine bytes beside the name. Else the first takes what
/// the MTU leaves beside twenty-one bytes and the name, each other one what it leaves beside twenty
/// bytes.
pub open spec fn datagrams_taken(name: int, len: int, mtu: int) -> int {
    if 9 + name + len <= mtu {
        1
    } else {
        1 + (len - (mtu - 21 - name) + (mtu - 20) - 1) / (mtu - 20)
    }
}

/// A message that does not fit in one datagram is refused in two cases, and in no others: its
/// name leaves no room for data within the MTU, or else the header cannot express its size in
/// thirty-two bits or the number of its fragments in sixteen.
pub proof fn law_when_refused(sequence_number: u32, channel: Seq<char>, data: Seq<u8>, mtu: nat)
    ensures
        ({
            let name = encode_utf8(channel).len() as int;
            let len = data.len() as int;
            let short = 9 + name + len <= mtu;
            let room = mtu >= 22 + name;
            let fits = len <= 0xffff_ffff && 1 + (len - (mtu - 21 - name) + (mtu - 20) - 1) / (mtu
                - 20) <= 0xffff;
            let result = message_datagrams(sequence_number, channel, data, mtu);
            &&& result == Err::<Seq<Seq<u8>>, SendError>(SendError::MtuTooSmall) <==> !short
                && !room
            &&& result == Err::<Seq<Seq<u8>>, SendError>(SendError::TooLarge) <==> !short && room
                && !fits
            &&& result is Ok <==> short || (room && fits)
        }),
{
}

/// A message that is not refused takes as many datagrams as it needs, and no more.
pub proof fn law_datagram_count(sequence_number: u32, channel: Seq<char>, data: Seq<u8>, mtu: nat)
    ensures
        message_datagrams(sequence_number, channel, data, mtu) matches Ok(datagrams)
            ==> datagrams.len() == datagrams_taken(
            encode_utf8(channel).len() as int,
            data.len() as int,
            mtu as int,
        ),
{
}

/// When a message is cut into fragments, be it short or long, and into which. It is refused where
/// its name leaves no room for data within the MTU, or else where its size exceeds thirty-two bits
/// or the number of its fragments sixteen. Fragment number `i` says all this of the message and
/// holds the data that follows that of the one before.
pub proof fn law_when_fragmented(
    sequence_number: u32,
    channel: Seq<char>,
    data: Seq<u8>,
    mtu: nat,
    i: int,
)
    ensures
        ({
            let name = encode_utf8(channel).len() as int;
            let len = data.len() as int;
            let first = mtu - 21 - name;
            let next = mtu - 20;
            let count = if len <= first {
                1
            } else {
                1 + (len - first + next - 1) / next
            };
            let room = mtu >= 22 + name;
            let fits = len <= 0xffff_ffff && count <= 0xffff;
            let result = message_fragments(sequence_number, channel, data, mtu);
            &&& result == Err::<Seq<FragmentView>, SendError>(SendError::MtuTooSmall) <==> !room
            &&& result == Err::<Seq<FragmentView>, SendError>(SendError::TooLarge) <==> room
                && !fits
            &&& result matches Ok(frags) ==> frags.len() == count
            &&& result is Ok && 0 <= i < count ==> {
                let frag = result->Ok_0[i];
                let start = if i == 0 {
                    0
                } else {
                    first + (i - 1) * next
                };
                let end = if i == count - 1 {
                    len
                } else {
                    first + i * next
                };
                &&& frag.sequence_number == sequence_number
                &&& frag.payload_size == len
                &&& frag.fragment_number == i
                &&& frag.n_fragments == count
                &&& frag.fragment_offset == start
                &&& frag.channel == if i == 0 {
                    Some(channel)
                } else {
                    None
                }
                &&& frag.data == data.subrange(start, end)
            }
        }),
{
    let name = encode_utf8(channel).len();
    let first = first_capacity(mtu, name);
    let next = next_capacity(mtu);
    let len = data.len();
    if first > 0 {
        let n = fragments_needed(len, first, next) as int;
        if len <= first {
            assert((next - 1) / (next as int) == 0) by (nonlinear_arith)
                requires
                    next > 0,
            ;
            assert(n == 1);
        } else {
            lemma_fragments_suffice(len, first, next);
            let x = len - first + next - 1;
            let q = x / (next as int);
            lemma_fundamental_div_mod(x, next as int);
            assert(n == 1 + q);
            assert(next * q == q * next) by (nonlinear_arith);
            if 0 < i < n {
                assert((i - 1) * next <= q * next - next) by (nonlinear_arith)
                    requires
                        i - 1 <= q - 1,
                        next >= 0,
                ;
            }
            if 0 <= i < n - 1 {
                assert(i * next <= q * next - next) by (nonlinear_arith)
                    requires
                        i <= q - 1,
                        next >= 0,
                ;
            }
            if 0 <= i {
                lemma_fragment_start(i, len, first, next);
                lemma_fragment_start(i + 1, len, first, next);
            }
        }
    }
}

/// What is said of a message that cannot be sent.
pub proof fn law_send_error_texts(error: SendError)
    ensures
        send_error_text(error) == if error == SendError::MtuTooSmall {
            "Fragment MTU too small for channel name"@
        } else {
            "Message too large to be fragmented"@
        },
{
}

/// A message that fits in one datagram goes out as a short message, and one that does not goes out
/// as fragments.
pub proof fn law_short_or_fragmented(
    sequence_number: u32,
    channel: Seq<char>,
    data: Seq<u8>,
    mtu: nat,
    i: int,
)
    requires
        message_datagrams(sequence_number, channel, data, mtu) matches Ok(datagrams) && 0 <= i
            < datagrams.len(),
    ensures
        ({
            let datagram = message_datagrams(sequence_number, channel, data, mtu)->Ok_0[i];
            number_at(datagram, 0) == if 9 + encode_utf8(channel).len() + data.len() <= mtu {
                0x4c43_3032int
            } else {
                0x4c43_3033int
            }
        }),
{
    if 9 + encode_utf8(channel).len() + data.len() <= mtu {
        law_short_wire_format(ShortView { sequence_number, channel, data });
    } else {
        let frags = message_fragments(sequence_number, channel, data, mtu)->Ok_0;
        law_fragment_wire_format(frags[i]);
    }
}

/// The layout of a fragmented message. The fragments are numbered in order, each says how large the
/// message is and how many fragments it has, the first carries the name and the others none, and
/// each holds the data that follows that of the one before. All but the last fill the MTU.
pub proof fn law_fragment_layout(
    sequence_number: u32,
    channel: Seq<char>,
    data: Seq<u8>,
    mtu: nat,
    i: int,
)
    requires
        9 + encode_utf8(channel).len() + data.len() > mtu,
        message_datagrams(sequence_number, channel, data, mtu) matches Ok(datagrams) && 0 <= i
            < datagrams.len(),
    ensures
        ({
            let name = encode_utf8(channel);
            let datagrams = message_datagrams(sequence_number, channel, data, mtu)->Ok_0;
            let buf = datagrams[i];
            let start = if i == 0 {
                0
            } else {
                (mtu - 21 - name.len()) + (i - 1) * (mtu - 20)
            };
            let end = if i == datagrams.len() - 1 {
                data.len() as int
            } else {
                (mtu - 21 - name.len()) + i * (mtu - 20)
            };
            let head = if i == 0 {
                name + seq![0u8]
            } else {
                Seq::empty()
            };
            &&& 0 <= start <= end <= data.len()
            &&& number_at(buf, 4) == sequence_number
            &&& number_at(buf, 8) == data.len()
            &&& number_at(buf, 12) == start
            &&& buf[16] * 0x100 + buf[17] == i
            &&& buf[18] * 0x100 + buf[19] == datagrams.len()
            &&& buf.subrange(20, 20int + head.len()) == head
            &&& buf.skip(20int + head.len()) == data.subrange(start, end)
            &&& i < datagrams.len() - 1 ==> buf.len() == mtu
        }),
{
    let name = encode_utf8(channel);
    let first = first_capacity(mtu, name.len());
    let next = next_capacity(mtu);
    let len = data.len();
    let frags = message_fragments(sequence_number, channel, data, mtu)->Ok_0;
    let n = fragments_needed(len, first, next) as int;
    law_fragment_wire_format(frags[i]);
    lemma_fragment_start(i, len, first, next);
    lemma_fragment_start(i + 1, len, first, next);
    lemma_fragments_suffice(len, first, next);
    let x = len - first + next - 1;
    let q = x / (next as int);
    lemma_fundamental_div_mod(x, next as int);
    assert(n == 1 + q);
    assert(next * q == q * next) by (nonlinear_arith);
    assert(q * next <= x);
    if i > 0 {
        assert((i - 1) * next <= q * next - next) by (nonlinear_arith)
            requires
                i - 1 <= q - 1,
                next >= 0,
        ;
    }
    if i < n - 1 {
        assert(i * next <= q * next - next) by (nonlinear_arith)
            requires
                i <= q - 1,
                next >= 0,
        ;
    }
    let start = fragment_start(i, len, first, next);
    let end = fragment_start(i + 1, len, first, next);
    assert(data.subrange(start, end) == frags[i].data);
    if 0 < i < n - 1 {
        assert(i * next == (i - 1) * next + next) by (nonlinear_arith);
    }
}

/// What becomes of a datagram that arrives: a short message is handed out as it is and a datagram
/// that is neither short message nor fragment is skipped, both without touching what is pending; a
/// fragment is reassembled.
pub proof fn law_datagram_handled(
    state: ReassemblerView,
    datagram: Seq<u8>,
    sender: SocketAddr,
    now: nat,
    created_at: nat,
)
    ensures
        receive(state, datagram, sender, now, created_at) == match datagram_contents(datagram) {
            Some(PacketView::Short(msg)) => (
                state,
                Some(
                    MessageView {
                        channel: msg.channel,
                        sequence_number: msg.sequence_number,
                        data: msg.data,
                    },
                ),
            ),
            Some(PacketView::Fragment(frag)) => process_fragment(
                state,
                frag,
                sender,
                now,
                created_at,
            ),
            None => (state, None),
        },
{
}

/// What becomes of a datagram by the reassembler's own clock: a short message is handed out as it
/// is and an unrecognized datagram is skipped, both without touching the reassembler; a fragment is
/// reassembled.
pub proof fn law_datagram_handled_by_clock(
    before: ClockedView,
    datagram: Seq<u8>,
    sender: SocketAddr,
    after: ClockedView,
    outcome: Option<MessageView>,
)
    requires
        clocked_receive(before, datagram, sender, after, outcome),
    ensures
        match datagram_contents(datagram) {
            Some(PacketView::Short(msg)) => {
                &&& after == before
                &&& outcome == Some(
                    MessageView {
                        channel: msg.channel,
                        sequence_number: msg.sequence_number,
                        data: msg.data,
                    },
                )
            },
            Some(PacketView::Fragment(frag)) => clocked_step(before, frag, sender, after, outcome),
            None => after == before && outcome is None,
        },
{
}

/// What a transport is set up with is what its configuration says: it sends to the group and port
/// of the URL, binds that port on any interface, joins the group on the configured interface, or
/// on any, and takes over time-to-live, buffer size and MTU. Local applications hear it, and may
/// share its port.
pub proof fn law_transport_as_configured(config: LcmTransportConfig)
    ensures
        ({
            let options = socket_setup(config);
            let transport = new_transport(config);
            &&& transport.multicast_addr == SocketAddr::V4(
                SocketAddrV4 { ip: config.lcm_url.multicast_group, port: config.lcm_url.port },
            )
            &&& transport.fragment_mtu == config.fragment_mtu
            &&& transport.sequence_counter == 0
            &&& options.bind_addr.ip == (Ipv4Addr { a: 0, b: 0, c: 0, d: 0 })
            &&& options.bind_addr.port == config.lcm_url.port
            &&& options.multicast_group == config.lcm_url.multicast_group
            &&& options.multicast_ttl == config.lcm_url.ttl
            &&& options.recv_buffer_size == config.lcm_url.recv_buf_size
            &&& config.network_interface is Some ==> options.interface
                == config.network_interface->0
            &&& config.network_interface is None ==> options.interface == (Ipv4Addr {
                a: 0,
                b: 0,
                c: 0,
                d: 0,
            })
            &&& options.multicast_loop && options.reuse_address && options.reuse_port
                && options.nonblocking
        }),
{
}

/// The limits that hold where nothing is configured: an MTU of 1400 bytes, one second for a
/// message to be complete, four megabytes for its size. A datagram has at most 65536 bytes.
pub proof fn law_transport_defaults()
    ensures
        MAX_DATAGRAM_SIZE == 65536,
        DEFAULT_FRAGMENT_MTU == 1400,
        DEFAULT_FRAGMENT_TIMEOUT_SECS == 1,
        DEFAULT_MAX_MESSAGE_SIZE == 4_194_304,
        default_url().multicast_group == (Ipv4Addr { a: 239, b: 255, c: 76, d: 67 }),
        default_url().port == 7667,
        default_url().ttl == 0,
        default_url().recv_buf_size is None,
{
}

/// Every datagram of a message carries the message's sequence number, and there is at least one.
pub proof fn law_datagrams_carry_number(
    sequence_number: u32,
    channel: Seq<char>,
    data: Seq<u8>,
    mtu: nat,
)
    ensures
        message_datagrams(sequence_number, channel, data, mtu) matches Ok(datagrams) ==> {
            &&& datagrams.len() > 0
            &&& forall|i: int|
                0 <= i < datagrams.len() ==> #[trigger] datagrams[i].len() >= 8 && read_be32(
                    datagrams[i],
                    4,
                ) == sequence_number
        },
{
    if let Ok(datagrams) = message_datagrams(sequence_number, channel, data, mtu) {
        assert forall|i: int| 0 <= i < datagrams.len() implies #[trigger] datagrams[i].len() >= 8
            && read_be32(datagrams[i], 4) == sequence_number by {
            let datagram = datagrams[i];
            assert(datagram.subrange(4, 8) =~= be32(sequence_number));
            lemma_be32(datagram, 4, sequence_number);
        }
    }
}

/// The sequence number of the message sent `count` messages after one with number `from`.
pub open spec fn sequence_number_after(from: u32, count: nat) -> u32
    decreases count,
{
    if count == 0 {
        from
    } else {
        next_sequence_number(sequence_number_after(from, (count - 1) as nat))
    }
}

/// Sequence numbers count up and wrap around: none recurs before all others were used.
pub proof fn law_sequence_numbers_count_up(from: u32, count: nat)
    ensures
        sequence_number_after(from, count) == (from + count) % 0x1_0000_0000,
        0 < count < 0x1_0000_0000 ==> sequence_number_after(from, count) != from,
    decreases count,
{
    if count > 0 {
        law_sequence_numbers_count_up(from, (count - 1) as nat);
    }
}

/// The first message of a new transport has the number zero, and every later one the number of
/// messages before it, be they sent or refused, up to the wrap around.
pub proof fn law_message_number(config: LcmTransportConfig, before: nat)
    ensures
        sequence_number_after(new_transport(config).sequence_counter, before) == before
            % 0x1_0000_0000,
{
    law_sequence_numbers_count_up(0, before);
}

/// Datagrams of fragments are received as those fragments are processed.
proof fn lemma_receive_fragments(
    state: ReassemblerView,
    frags: Seq<FragmentView>,
    arrivals: Seq<int>,
    sender: SocketAddr,
    times: Seq<(nat, nat)>,
)
    requires
        in_range(arrivals, frags.len()),
        forall|i: int| 0 <= i < frags.len() ==> fragment_expressible(#[trigger] frags[i]),
    ensures
        receive_all(
            state,
            arrived_datagrams(fragment_datagrams(frags), arrivals),
            sender,
            times,
        ) == process_all(state, arrived(frags, arrivals), sender, times),
    decreases arrivals.len(),
{
    if arrivals.len() > 0 {
        let earlier = arrivals.drop_last();
        let datagrams = fragment_datagrams(frags);
        assert forall|k: int| 0 <= k < earlier.len() implies 0 <= #[trigger] earlier[k]
            < frags.len() by {
            assert(earlier[k] == arrivals[k]);
        }
        lemma_receive_fragments(state, frags, earlier, sender, times);
        assert(arrived_datagrams(datagrams, arrivals).drop_last() =~= arrived_datagrams(
            datagrams,
            earlier,
        ));
        assert(arrived(frags, arrivals).drop_last() =~= arrived(frags, earlier));
        let i = arrivals[arrivals.len() - 1];
        assert(fragment_expressible(frags[i]));
        law_fragment_round_trip(frags[i]);
        assert(datagrams[i] == fragment_datagram(frags[i]));
    }
}

proof fn lemma_fragments_expressible(
    sequence_number: u32,
    channel: Seq<char>,
    data: Seq<u8>,
    mtu: nat,
)
    requires
        !channel.contains('\0'),
    ensures
        message_fragments(sequence_number, channel, data, mtu) matches Ok(frags) ==> forall|
            i: int,
        |
            0 <= i < frags.len() ==> fragment_expressible(#[trigger] frags[i]),
{
}

/// What is sent is received: once every datagram of a message has arrived, in whatever order and
/// with whatever repetitions before that, the message comes out as it was sent, and just once.
///
/// The channel name must hold no zero character, which the wire format cannot express. A message
/// in several datagrams must not exceed the receiver's limit, no set may be pending for it, and no
/// datagram may come later than the timeout after the first one.
pub proof fn law_sent_message_received(
    sequence_number: u32,
    channel: Seq<char>,
    data: Seq<u8>,
    mtu: nat,
    state: ReassemblerView,
    sender: SocketAddr,
    arrivals: Seq<int>,
    times: Seq<(nat, nat)>,
)
    requires
        !channel.contains('\0'),
        times.len() == arrivals.len(),
        ({
            &&& message_datagrams(sequence_number, channel, data, mtu) matches Ok(datagrams)
            &&& in_range(arrivals, datagrams.len())
            &&& covers(arrivals, datagrams.len())
            &&& !covers(arrivals.drop_last(), datagrams.len())
        }),
        short_size(encode_utf8(channel).len(), data.len()) > mtu ==> {
            &&& data.len() <= state.max_message_size
            &&& in_time(times, state.timeout)
            &&& !unexpired(state.pending, times[0].0, state.timeout).contains_key(
                FragmentKey { sender, sequence_number },
            )
        },
    ensures
        ({
            let datagrams = message_datagrams(sequence_number, channel, data, mtu)->Ok_0;
            let (_, outcomes) = receive_all(
                state,
                arrived_datagrams(datagrams, arrivals),
                sender,
                times,
            );
            &&& outcomes.len() == arrivals.len()
            &&& forall|k: int| 0 <= k < arrivals.len() - 1 ==> #[trigger] outcomes[k] is None
            &&& outcomes.last() == Some(MessageView { channel, sequence_number, data })
        }),
{
    let datagrams = message_datagrams(sequence_number, channel, data, mtu)->Ok_0;
    if short_size(encode_utf8(channel).len(), data.len()) <= mtu {
        let msg = ShortView { sequence_number, channel, data };
        assert(arrivals.contains(0));
        if arrivals.len() > 1 {
            assert(0 <= arrivals[0] < 1);
            assert(arrivals.drop_last()[0] == 0);
            assert(covers(arrivals.drop_last(), 1));
        }
        let arrived = arrived_datagrams(datagrams, arrivals);
        assert(arrivals[0] == 0);
        assert(arrived.last() == short_datagram(msg));
        law_short_message_round_trip(msg);
        assert(receive_all(state, arrived.drop_last(), sender, times) == (
            state,
            Seq::<Option<MessageView>>::empty(),
        ));
    } else {
        let frags = message_fragments(sequence_number, channel, data, mtu)->Ok_0;
        let msg = MessageView { channel, sequence_number, data };
        law_fragments_split_message(sequence_number, channel, data, mtu);
        lemma_fragments_expressible(sequence_number, channel, data, mtu);
        lemma_receive_fragments(state, frags, arrivals, sender, times);
        law_reassembly_in_any_order(state, frags, msg, sender, arrivals, times);
    }
}

/// As long as a datagram of a message is missing, nothing of the message comes out.
pub proof fn law_partly_received_message_withheld(
    sequence_number: u32,
    channel: Seq<char>,
    data: Seq<u8>,
    mtu: nat,
    state: ReassemblerView,
    sender: SocketAddr,
    arrivals: Seq<int>,
    times: Seq<(nat, nat)>,
)
    requires
        !channel.contains('\0'),
        times.len() == arrivals.len(),
        ({
            &&& message_datagrams(sequence_number, channel, data, mtu) matches Ok(datagrams)
            &&& in_range(arrivals, datagrams.len())
            &&& !covers(arrivals, datagrams.len())
        }),
        arrivals.len() > 0 ==> {
            &&& data.len() <= state.max_message_size
            &&& in_time(times, state.timeout)
            &&& !unexpired(state.pending, times[0].0, state.timeout).contains_key(
                FragmentKey { sender, sequence_number },
            )
        },
    ensures
        ({
            let datagrams = message_datagrams(sequence_number, channel, data, mtu)->Ok_0;
            let (_, outcomes) = receive_all(
                state,
                arrived_datagrams(datagrams, arrivals),
                sender,
                times,
            );
            &&& outcomes.len() == arrivals.len()
            &&& forall|k: int| 0 <= k < arrivals.len() ==> #[trigger] outcomes[k] is None
        }),
{
    if arrivals.len() > 0 {
        if short_size(encode_utf8(channel).len(), data.len()) <= mtu {
            assert(0 <= arrivals[0] < 1);
            assert(covers(arrivals, 1));
        } else {
            let frags = message_fragments(sequence_number, channel, data, mtu)->Ok_0;
            let msg = MessageView { channel, sequence_number, data };
            law_fragments_split_message(sequence_number, channel, data, mtu);
            lemma_fragments_expressible(sequence_number, channel, data, mtu);
            lemma_receive_fragments(state, frags, arrivals, sender, times);
            law_incomplete_message_withheld(state, frags, msg, sender, arrivals, times);
        }
    }
}

} // verus!
