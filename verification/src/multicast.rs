//! The LCM multicast transport without its socket: what is sent, and what is made of what arrives.
use crate::addr::{Ipv4Addr, SocketAddr, SocketAddrV4};
use crate::clock::duration_nanos;
use crate::fragment::{
    clocked_step, fragment_step, process_fragment, ClockedView, FragmentReassembler,
    ReassemblerView,
};
use crate::protocol::{
    datagram_contents, encode_fragment, encode_short_message, fragment_datagram, parse_datagram,
    short_datagram, FragmentView, Packet, PacketView, ShortView, FRAGMENT_HEADER_SIZE,
};
use crate::types::{
    default_url, message_contents, read_url, LcmMessage, LcmUrl, MessageView,
};
use core::time::Duration;
use vstd::prelude::*;
use vstd::slice::{slice_subrange, slice_to_vec};
use vstd::utf8::encode_utf8;

verus! {

/// Maximum UDP datagram size for receiving.
pub const MAX_DATAGRAM_SIZE: usize = 65536;

/// Default MTU for fragmenting outgoing messages: well under a typical Ethernet MTU minus IP and
/// UDP headers.
pub const DEFAULT_FRAGMENT_MTU: usize = 1400;

/// Default fragment reassembly timeout in seconds.
pub const DEFAULT_FRAGMENT_TIMEOUT_SECS: u64 = 1;

/// Default maximum reassembled message size (4 MB).
pub const DEFAULT_MAX_MESSAGE_SIZE: usize = 4 * 1024 * 1024;

/// Configuration for the LCM transport.
#[derive(Clone, Copy, Debug)]
pub struct LcmTransportConfig {
    pub lcm_url: LcmUrl,
    pub network_interface: Option<Ipv4Addr>,
    pub fragment_mtu: usize,
    pub fragment_timeout: Duration,
    pub max_message_size: usize,
}

impl Default for LcmTransportConfig {
    fn default() -> (config: Self)
        ensures
            config.lcm_url == default_url(),
            config.network_interface is None,
            config.fragment_mtu == DEFAULT_FRAGMENT_MTU,
            duration_nanos(config.fragment_timeout) == DEFAULT_FRAGMENT_TIMEOUT_SECS
                * 1_000_000_000,
            config.max_message_size == DEFAULT_MAX_MESSAGE_SIZE,
    {
        LcmTransportConfig {
            lcm_url: LcmUrl::default(),
            network_interface: None,
            fragment_mtu: DEFAULT_FRAGMENT_MTU,
            fragment_timeout: Duration::from_secs(DEFAULT_FRAGMENT_TIMEOUT_SECS),
            max_message_size: DEFAULT_MAX_MESSAGE_SIZE,
        }
    }
}

/// How the socket of a transport is set up.
#[derive(Clone, Copy, Debug, PartialEq, Eq, Structural)]
pub struct SocketOptions {
    /// The port of the group, on any interface.
    pub bind_addr: SocketAddrV4,
    /// Several sockets may be bound to the address.
    pub reuse_address: bool,
    /// Several processes may be bound to the port, where the system knows the option.
    pub reuse_port: bool,
    pub nonblocking: bool,
    /// The kernel's receive buffer size in bytes, where it is not left to the system.
    pub recv_buffer_size: Option<usize>,
    pub multicast_ttl: u32,
    /// Local LCM applications receive what this socket sends. Loops are prevented by sequence
    /// number, not at the socket.
    pub multicast_loop: bool,
    pub multicast_group: Ipv4Addr,
    /// The interface on which the group is joined.
    pub interface: Ipv4Addr,
}

/// How the socket for a configuration is set up.
pub open spec fn socket_setup(config: LcmTransportConfig) -> SocketOptions {
    let any = Ipv4Addr { a: 0, b: 0, c: 0, d: 0 };
    SocketOptions {
        bind_addr: SocketAddrV4 { ip: any, port: config.lcm_url.port },
        reuse_address: true,
        reuse_port: true,
        nonblocking: true,
        recv_buffer_size: config.lcm_url.recv_buf_size,
        multicast_ttl: config.lcm_url.ttl,
        multicast_loop: true,
        multicast_group: config.lcm_url.multicast_group,
        interface: match config.network_interface {
            Some(interface) => interface,
            None => any,
        },
    }
}

impl LcmTransportConfig {
    /// How the socket is set up.
    pub fn socket_options(&self) -> (options: SocketOptions)
        ensures
            options == socket_setup(*self),
    {
        SocketOptions {
            bind_addr: SocketAddrV4 { ip: Ipv4Addr::unspecified(), port: self.lcm_url.port },
            reuse_address: true,
            reuse_port: true,
            nonblocking: true,
            recv_buffer_size: self.lcm_url.recv_buf_size,
            multicast_ttl: self.lcm_url.ttl,
            multicast_loop: true,
            multicast_group: self.lcm_url.multicast_group,
            interface: match self.network_interface {
                Some(interface) => interface,
                None => Ipv4Addr::unspecified(),
            },
        }
    }
}

/// Why a message cannot be sent.
#[derive(Clone, Copy, Debug, PartialEq, Eq, Structural)]
pub enum SendError {
    /// Not a single byte of data fits beside the header and the channel name.
    MtuTooSmall,
    /// The header has too few bits for the size of the message or the number of its fragments.
    TooLarge,
}

/// What is said of a message that cannot be sent.
pub open spec fn send_error_text(error: SendError) -> Seq<char> {
    match error {
        SendError::MtuTooSmall => "Fragment MTU too small for channel name"@,
        SendError::TooLarge => "Message too large to be fragmented"@,
    }
}

impl SendError {
    /// What is said of a message that cannot be sent.
    pub fn message(&self) -> (text: &'static str)
        ensures
            text@ == send_error_text(*self),
    {
        match self {
            SendError::MtuTooSmall => "Fragment MTU too small for channel name",
            SendError::TooLarge => "Message too large to be fragmented",
        }
    }
}

/// The size of a message as a single datagram, for a channel name of `name_len` bytes.
pub open spec fn short_size(name_len: nat, data_len: nat) -> nat {
    4 + 4 + name_len + 1 + data_len
}

/// How much data the first fragment takes.
pub open spec fn first_capacity(mtu: nat, name_len: nat) -> nat {
    if mtu < FRAGMENT_HEADER_SIZE + name_len + 1 {
        0
    } else {
        (mtu - (FRAGMENT_HEADER_SIZE + name_len + 1)) as nat
    }
}

/// How much data each further fragment takes.
pub open spec fn next_capacity(mtu: nat) -> nat {
    if mtu < FRAGMENT_HEADER_SIZE {
        0
    } else {
        (mtu - FRAGMENT_HEADER_SIZE) as nat
    }
}

/// How many fragments it takes to hold `len` bytes.
pub open spec fn fragments_needed(len: nat, first: nat, next: nat) -> nat {
    let remaining = if len < first {
        0
    } else {
        (len - first) as nat
    };
    1 + (remaining + next - 1) as nat / next
}

/// Where the data of fragment number `i` starts. The data of each fragment ends where that of the
/// next one starts.
pub open spec fn fragment_start(i: int, len: nat, first: nat, next: nat) -> int {
    if i <= 0 {
        0
    } else if first + (i - 1) * next < len {
        first + (i - 1) * next
    } else {
        len as int
    }
}

/// Whether the header can express the size of a message and the number of its fragments.
pub open spec fn sizes_expressible(channel: Seq<char>, data: Seq<u8>, mtu: nat) -> bool {
    &&& data.len() <= u32::MAX
    &&& fragments_needed(
        data.len(),
        first_capacity(mtu, encode_utf8(channel).len()),
        next_capacity(mtu),
    ) <= u16::MAX
}

/// The fragments of a message, or why there are none: the MTU leaves no room for data, or the
/// header cannot express the sizes.
pub open spec fn message_fragments(
    sequence_number: u32,
    channel: Seq<char>,
    data: Seq<u8>,
    mtu: nat,
) -> Result<Seq<FragmentView>, SendError> {
    let first = first_capacity(mtu, encode_utf8(channel).len());
    let next = next_capacity(mtu);
    if first == 0 || next == 0 {
        Err(SendError::MtuTooSmall)
    } else if !sizes_expressible(channel, data, mtu) {
        Err(SendError::TooLarge)
    } else {
        let n = fragments_needed(data.len(), first, next);
        Ok(
            Seq::new(
                n,
                |i: int|
                    {
                        let start = fragment_start(i, data.len(), first, next);
                        let end = fragment_start(i + 1, data.len(), first, next);
                        FragmentView {
                            sequence_number,
                            payload_size: data.len() as u32,
                            fragment_offset: start as u32,
                            fragment_number: i as u16,
                            n_fragments: n as u16,
                            channel: if i == 0 {
                                Some(channel)
                            } else {
                                None
                            },
                            data: data.subrange(start, end),
                        }
                    },
            ),
        )
    }
}

/// The datagrams of fragments.
pub open spec fn fragment_datagrams(fragments: Seq<FragmentView>) -> Seq<Seq<u8>> {
    fragments.map_values(|frag: FragmentView| fragment_datagram(frag))
}

/// The datagrams of a message: one if it fits within the MTU as a short message, else those of
/// its fragments.
pub open spec fn message_datagrams(
    sequence_number: u32,
    channel: Seq<char>,
    data: Seq<u8>,
    mtu: nat,
) -> Result<Seq<Seq<u8>>, SendError> {
    if short_size(encode_utf8(channel).len(), data.len()) <= mtu {
        Ok(seq![short_datagram(ShortView { sequence_number, channel, data })])
    } else {
        match message_fragments(sequence_number, channel, data, mtu) {
            Ok(fragments) => Ok(fragment_datagrams(fragments)),
            Err(e) => Err(e),
        }
    }
}

/// The bytes of a list of datagrams.
pub open spec fn bytes_of(list: Seq<Vec<u8>>) -> Seq<Seq<u8>> {
    list.map_values(|datagram: Vec<u8>| datagram@)
}

/// A message that is ready to be sent.
#[derive(Debug)]
pub struct Outgoing {
    /// The sequence number used.
    pub sequence_number: u32,
    /// The datagrams to send, in order.
    pub datagrams: Vec<Vec<u8>>,
}

/// What becomes of a datagram that arrives: a short message is handed out, a fragment goes to the
/// reassembler, anything else is skipped.
pub open spec fn receive(
    state: ReassemblerView,
    datagram: Seq<u8>,
    sender: SocketAddr,
    now: nat,
    created_at: nat,
) -> (ReassemblerView, Option<MessageView>) {
    match datagram_contents(datagram) {
        Some(PacketView::Short(msg)) => (
            state,
            Some(
                MessageView {
                    channel: msg.channel,
                    sequence_number: msg.sequence_number,
                    data: msg.data,
                },
            ),
        ),
        Some(PacketView::Fragment(frag)) => process_fragment(state, frag, sender, now, created_at),
        None => (state, None),
    }
}

/// Whether a datagram may lead from one state to another with the given outcome, at some pair of
/// clock readings.
pub open spec fn receive_step(
    before: ReassemblerView,
    datagram: Seq<u8>,
    sender: SocketAddr,
    after: ReassemblerView,
    outcome: Option<MessageView>,
) -> bool {
    exists|now: nat, created_at: nat|
        #[trigger] receive(before, datagram, sender, now, created_at) == (after, outcome)
}

/// Whether a datagram leads from one state of a reassembler to another with the given outcome, by
/// the reassembler's own clock. A datagram that is no fragment leaves everything as it is.
pub open spec fn clocked_receive(
    before: ClockedView,
    datagram: Seq<u8>,
    sender: SocketAddr,
    after: ClockedView,
    outcome: Option<MessageView>,
) -> bool {
    match datagram_contents(datagram) {
        Some(PacketView::Short(msg)) => after == before && outcome == Some(
            MessageView {
                channel: msg.channel,
                sequence_number: msg.sequence_number,
                data: msg.data,
            },
        ),
        Some(PacketView::Fragment(frag)) => clocked_step(before, frag, sender, after, outcome),
        None => after == before && outcome is None,
    }
}

/// The state of a transport.
pub struct TransportView {
    pub multicast_addr: SocketAddr,
    pub fragment_mtu: nat,
    /// The sequence number of the next message.
    pub sequence_counter: u32,
}

/// The sequence number after the given one: the next number, with zero after the last one.
pub open spec fn next_sequence_number(sequence_number: u32) -> u32 {
    ((sequence_number + 1) % 0x1_0000_0000) as u32
}

/// The state of the transport for a configuration, before anything was sent.
pub open spec fn new_transport(config: LcmTransportConfig) -> TransportView {
    TransportView {
        multicast_addr: SocketAddr::V4(
            SocketAddrV4 { ip: config.lcm_url.multicast_group, port: config.lcm_url.port },
        ),
        fragment_mtu: config.fragment_mtu as nat,
        sequence_counter: 0,
    }
}

/// LCM UDP multicast transport.
///
/// Turns complete LCM messages into datagrams and back, handling fragmentation and reassembly
/// transparently.
#[derive(Debug)]
pub struct LcmTransport {
    multicast_addr: SocketAddr,
    fragment_mtu: usize,
    sequence_counter: u32,
}

impl View for LcmTransport {
    type V = TransportView;

    closed spec fn view(&self) -> TransportView {
        TransportView {
            multicast_addr: self.multicast_addr,
            fragment_mtu: self.fragment_mtu as nat,
            sequence_counter: self.sequence_counter,
        }
    }
}

impl LcmTransport {
    /// Create a new LCM transport from a URL string, with defaults for the rest.
    pub fn from_url(url: &str) -> (result: Result<Self, String>)
        ensures
            match result {
                Ok(transport) => {
                    &&& read_url(url@) matches Ok(lcm_url)
                    &&& transport@ == (TransportView {
                        multicast_addr: SocketAddr::V4(
                            SocketAddrV4 { ip: lcm_url.multicast_group, port: lcm_url.port },
                        ),
                        fragment_mtu: DEFAULT_FRAGMENT_MTU as nat,
                        sequence_counter: 0,
                    })
                },
                Err(e) => read_url(url@) == Err::<LcmUrl, Seq<char>>(e@),
            },
    {
        match LcmUrl::parse(url) {
            Ok(lcm_url) => {
                let mut config = LcmTransportConfig::default();
                config.lcm_url = lcm_url;
                Ok(Self::new(config))
            },
            Err(e) => Err(e),
        }
    }

    /// Create a new LCM transport with full configuration.
    pub fn new(config: LcmTransportConfig) -> (transport: Self)
        ensures
            transport@ == new_transport(config),
    {
        LcmTransport {
            multicast_addr: SocketAddr::V4(
                SocketAddrV4 { ip: config.lcm_url.multicast_group, port: config.lcm_url.port },
            ),
            fragment_mtu: config.fragment_mtu,
            sequence_counter: 0,
        }
    }

    /// What a datagram from the multicast group completes.
    ///
    /// Handles fragment reassembly transparently, by the clock of the reassembler. `None` means
    /// that more datagrams must arrive first.
    pub fn recv(
        &self,
        datagram: &[u8],
        sender: SocketAddr,
        reassembler: &mut FragmentReassembler,
    ) -> (message: Option<LcmMessage>)
        requires
            old(reassembler).wf(),
        ensures
            final(reassembler).wf(),
            receive_step(
                old(reassembler)@,
                datagram@,
                sender,
                final(reassembler)@,
                message_contents(message),
            ),
            clocked_receive(
                old(reassembler).clocked(),
                datagram@,
                sender,
                final(reassembler).clocked(),
                message_contents(message),
            ),
    {
        let ghost before = reassembler@;
        match parse_datagram(datagram) {
            Some(Packet::Fragment(frag)) => {
                let message = reassembler.process(&frag, sender);
                proof {
                    let (now, created_at) = choose|now: nat, created_at: nat|
                        #[trigger] process_fragment(before, frag@, sender, now, created_at) == (
                            reassembler@,
                            message_contents(message),
                        );
                    assert(fragment_step(
                        before,
                        frag@,
                        sender,
                        reassembler@,
                        message_contents(message),
                    ));
                    assert(receive(before, datagram@, sender, now, created_at) == (
                        reassembler@,
                        message_contents(message),
                    ));
                }
                message
            },
            _ => {
                let message = self.recv_at(datagram, sender, reassembler, 0, 0);
                assert(receive(before, datagram@, sender, 0, 0) == (
                    reassembler@,
                    message_contents(message),
                ));
                message
            },
        }
    }

    /// What a datagram from the multicast group completes, at given clock readings: `now` is what
    /// old fragment sets expire by, `created_at` what a new one is stamped with.
    pub fn recv_at(
        &self,
        datagram: &[u8],
        sender: SocketAddr,
        reassembler: &mut FragmentReassembler,
        now: u128,
        created_at: u128,
    ) -> (message: Option<LcmMessage>)
        requires
            old(reassembler).wf(),
        ensures
            final(reassembler).wf(),
            (final(reassembler)@, message_contents(message)) == receive(
                old(reassembler)@,
                datagram@,
                sender,
                now as nat,
                created_at as nat,
            ),
            final(reassembler).clock_origin() == old(reassembler).clock_origin(),
            final(reassembler).clock_reading() == old(reassembler).clock_reading(),
    {
        match parse_datagram(datagram) {
            Some(Packet::Short(msg)) => Some(
                LcmMessage {
                    channel: msg.channel.to_owned(),
                    sequence_number: msg.sequence_number,
                    data: slice_to_vec(msg.data),
                },
            ),
            Some(Packet::Fragment(frag)) => reassembler.process_at(&frag, sender, now, created_at),
            None => None,
        }
    }

    /// Makes the datagrams of an LCM message to the multicast group.
    ///
    /// Automatically fragments if the message exceeds the MTU. The sequence number is used up
    /// even where the message cannot be sent.
    pub fn send(&mut self, channel: &str, data: &[u8]) -> (result: Result<Outgoing, SendError>)
        ensures
            final(self)@ == (TransportView {
                sequence_counter: next_sequence_number(old(self)@.sequence_counter),
                ..old(self)@
            }),
            match message_datagrams(
                old(self)@.sequence_counter,
                channel@,
                data@,
                old(self)@.fragment_mtu,
            ) {
                Ok(datagrams) => {
                    &&& result matches Ok(out)
                    &&& out.sequence_number == old(self)@.sequence_counter
                    &&& bytes_of(out.datagrams@) == datagrams
                },
                Err(e) => result == Err::<Outgoing, SendError>(e),
            },
    {
        let sequence_number: u32 = self.sequence_counter;
        self.sequence_counter = self.sequence_counter.wrapping_add(1);
        if self.fits_one_datagram(channel, data) {
            let mut buf: Vec<u8> = Vec::new();
            encode_short_message(&mut buf, sequence_number, channel, data);
            let mut datagrams: Vec<Vec<u8>> = Vec::new();
            datagrams.push(buf);
            assert(bytes_of(datagrams@) =~= seq![
                short_datagram(ShortView { sequence_number, channel: channel@, data: data@ }),
            ]);
            Ok(Outgoing { sequence_number, datagrams })
        } else {
            match self.send_fragmented(sequence_number, channel, data) {
                Ok(datagrams) => Ok(Outgoing { sequence_number, datagrams }),
                Err(e) => Err(e),
            }
        }
    }

    /// Whether a message fits within the MTU as a short message.
    fn fits_one_datagram(&self, channel: &str, data: &[u8]) -> (fits: bool)
        ensures
            fits == (short_size(encode_utf8(channel@).len(), data@.len()) <= self@.fragment_mtu),
    {
        let name_len: usize = channel.as_bytes().len();
        if self.fragment_mtu < 9 || name_len > self.fragment_mtu - 9 {
            return false;
        }
        data.len() <= self.fragment_mtu - 9 - name_len
    }

    /// Makes the datagrams of the fragments of a message.
    pub fn send_fragmented(&self, sequence_number: u32, channel: &str, data: &[u8]) -> (result:
        Result<Vec<Vec<u8>>, SendError>)
        ensures
            match message_fragments(sequence_number, channel@, data@, self@.fragment_mtu) {
                Ok(fragments) => {
                    &&& result matches Ok(datagrams)
                    &&& bytes_of(datagrams@) == fragment_datagrams(fragments)
                },
                Err(e) => result == Err::<Vec<Vec<u8>>, SendError>(e),
            },
    {
        let mtu: usize = self.fragment_mtu;
        let name_len: usize = channel.as_bytes().len();
        let subsequent_frag_capacity: usize = mtu.saturating_sub(FRAGMENT_HEADER_SIZE);
        let first_frag_capacity: usize = subsequent_frag_capacity.saturating_sub(
            name_len,
        ).saturating_sub(1);
        if first_frag_capacity == 0 || subsequent_frag_capacity == 0 {
            return Err(SendError::MtuTooSmall);
        }
        let len: usize = data.len();
        let ghost first = first_frag_capacity as nat;
        let ghost next = subsequent_frag_capacity as nat;
        let needed: usize = if len <= first_frag_capacity {
            1
        } else {
            let remaining_after_first: usize = len - first_frag_capacity;
            2 + (remaining_after_first - 1) / subsequent_frag_capacity
        };
        proof {
            lemma_fragments_needed(len as nat, first, next);
        }
        if len as u64 > u32::MAX as u64 || needed > u16::MAX as usize {
            return Err(SendError::TooLarge);
        }
        let n_fragments: u16 = needed as u16;
        let payload_size: u32 = len as u32;
        let ghost fragments = message_fragments(
            sequence_number,
            channel@,
            data@,
            mtu as nat,
        )->Ok_0;
        let mut datagrams: Vec<Vec<u8>> = Vec::new();
        let mut offset: usize = 0;
        let mut frag_num: u16 = 0;
        assert(bytes_of(datagrams@) =~= fragment_datagrams(fragments.take(0)));
        while frag_num < n_fragments
            invariant
                frag_num <= n_fragments,
                len == data@.len(),
                len <= u32::MAX,
                payload_size == len,
                first == first_frag_capacity,
                next == subsequent_frag_capacity,
                first > 0,
                next > 0,
                message_fragments(sequence_number, channel@, data@, mtu as nat) == Ok::<
                    Seq<FragmentView>,
                    SendError,
                >(fragments),
                first == first_capacity(mtu as nat, encode_utf8(channel@).len()),
                next == next_capacity(mtu as nat),
                n_fragments == fragments.len(),
                n_fragments == fragments_needed(len as nat, first, next),
                offset == fragment_start(frag_num as int, len as nat, first, next),
                bytes_of(datagrams@) == fragment_datagrams(fragments.take(frag_num as int)),
            decreases n_fragments - frag_num,
        {
            proof {
                lemma_fragment_start(frag_num as int, len as nat, first, next);
            }
            let capacity: usize = if frag_num == 0 {
                first_frag_capacity
            } else {
                subsequent_frag_capacity
            };
            let end: usize = if len - offset <= capacity {
                len
            } else {
                offset + capacity
            };
            let chunk_data = slice_subrange(data, offset, end);
            let chan = if frag_num == 0 {
                Some(channel)
            } else {
                None
            };
            let mut buf: Vec<u8> = Vec::new();
            encode_fragment(
                &mut buf,
                sequence_number,
                payload_size,
                offset as u32,
                frag_num,
                n_fragments,
                chan,
                chunk_data,
            );
            assert(buf@ == fragment_datagram(fragments[frag_num as int]));
            let ghost done = fragments.take(frag_num as int);
            let ghost made = bytes_of(datagrams@);
            let ghost bytes = buf@;
            datagrams.push(buf);
            offset = end;
            frag_num = frag_num + 1;
            assert(fragments.take(frag_num as int) =~= done.push(fragments[frag_num - 1]));
            assert(bytes_of(datagrams@) =~= made.push(bytes));
            assert(fragment_datagrams(done.push(fragments[frag_num - 1])) =~= fragment_datagrams(
                done,
            ).push(bytes));
        }
        assert(fragments.take(frag_num as int) =~= fragments);
        Ok(datagrams)
    }

    /// Get the multicast address this transport sends to.
    pub fn multicast_addr(&self) -> (addr: SocketAddr)
        ensures
            addr == self@.multicast_addr,
    {
        self.multicast_addr
    }
}

/// The number of fragments, counted without a sum that could be too large.
proof fn lemma_fragments_needed(len: nat, first: nat, next: nat)
    requires
        next > 0,
    ensures
        fragments_needed(len, first, next) == if len <= first {
            1
        } else {
            2 + (len - first - 1) / (next as int)
        },
        len > first > 0 ==> fragments_needed(len, first, next) <= len,
{
    if len <= first {
        assert((next - 1) / (next as int) == 0) by (nonlinear_arith)
            requires
                next > 0,
        ;
    } else {
        let r = len - first - 1;
        assert((r + next) / (next as int) == r / (next as int) + 1 && r / (next as int) <= r)
            by (nonlinear_arith)
            requires
                next > 0,
                r >= 0,
        ;
    }
}

/// The data of a fragment ends after its capacity, or where there is no more.
pub proof fn lemma_fragment_start(i: int, len: nat, first: nat, next: nat)
    requires
        0 <= i,
        next > 0,
    ensures
        ({
            let start = fragment_start(i, len, first, next);
            let capacity = if i == 0 {
                first
            } else {
                next
            };
            &&& 0 <= start <= len
            &&& fragment_start(i + 1, len, first, next) == if len - start <= capacity {
                len as int
            } else {
                start + capacity
            }
        }),
{
    if i > 0 {
        assert(i * next == (i - 1) * next + next && 0 <= (i - 1) * next) by (nonlinear_arith)
            requires
                i > 0,
        ;
    }
}

} // verus!
