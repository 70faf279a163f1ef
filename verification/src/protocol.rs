//! The LCM wire protocol: `LC02` short messages and `LC03` fragments.
use vstd::prelude::*;
use vstd::slice::slice_subrange;
use vstd::utf8::{decode_utf8, encode_utf8, valid_utf8};

verus! {

/// LCM short message magic number: "LC02" in ASCII.
pub const MAGIC_SHORT: u32 = 0x4c433032;

/// LCM fragment message magic number: "LC03" in ASCII.
pub const MAGIC_FRAGMENT: u32 = 0x4c433033;

/// Size of a short message header: magic and sequence number.
pub const SHORT_HEADER_SIZE: usize = 4 + 4;

/// Size of a fragment header.
pub const FRAGMENT_HEADER_SIZE: usize = 20;

/// A parsed short (non-fragmented) LCM message.
#[derive(Debug)]
pub struct ShortMessage<'a> {
    pub sequence_number: u32,
    pub channel: &'a str,
    pub data: &'a [u8],
}

/// A parsed LCM fragment.
#[derive(Debug)]
pub struct Fragment<'a> {
    pub sequence_number: u32,
    pub payload_size: u32,
    pub fragment_offset: u32,
    pub fragment_number: u16,
    pub n_fragments: u16,
    /// Channel name, only present in the first fragment (`fragment_number == 0`).
    pub channel: Option<&'a str>,
    /// Fragment data payload.
    pub data: &'a [u8],
}

/// Result of parsing an LCM UDP datagram.
#[derive(Debug)]
pub enum Packet<'a> {
    Short(ShortMessage<'a>),
    Fragment(Fragment<'a>),
}

/// The contents of a short message.
pub struct ShortView {
    pub sequence_number: u32,
    pub channel: Seq<char>,
    pub data: Seq<u8>,
}

/// The contents of a fragment.
pub struct FragmentView {
    pub sequence_number: u32,
    pub payload_size: u32,
    pub fragment_offset: u32,
    pub fragment_number: u16,
    pub n_fragments: u16,
    pub channel: Option<Seq<char>>,
    pub data: Seq<u8>,
}

/// The contents of a datagram.
pub enum PacketView {
    Short(ShortView),
    Fragment(FragmentView),
}

/// The text of an optional string slice.
pub open spec fn text_of(text: Option<&str>) -> Option<Seq<char>> {
    match text {
        Some(s) => Some(s@),
        None => None,
    }
}

impl<'a> View for ShortMessage<'a> {
    type V = ShortView;

    open spec fn view(&self) -> ShortView {
        ShortView {
            sequence_number: self.sequence_number,
            channel: self.channel@,
            data: self.data@,
        }
    }
}

impl<'a> View for Fragment<'a> {
    type V = FragmentView;

    open spec fn view(&self) -> FragmentView {
        FragmentView {
            sequence_number: self.sequence_number,
            payload_size: self.payload_size,
            fragment_offset: self.fragment_offset,
            fragment_number: self.fragment_number,
            n_fragments: self.n_fragments,
            channel: text_of(self.channel),
            data: self.data@,
        }
    }
}

impl<'a> View for Packet<'a> {
    type V = PacketView;

    open spec fn view(&self) -> PacketView {
        match self {
            Packet::Short(msg) => PacketView::Short(msg@),
            Packet::Fragment(frag) => PacketView::Fragment(frag@),
        }
    }
}

/// The four bytes of `x`, most significant first.
pub open spec fn be32(x: u32) -> Seq<u8> {
    seq![
        (x / 0x100_0000) as u8,
        (x / 0x1_0000 % 0x100) as u8,
        (x / 0x100 % 0x100) as u8,
        (x % 0x100) as u8,
    ]
}

/// The two bytes of `x`, most significant first.
pub open spec fn be16(x: u16) -> Seq<u8> {
    seq![(x / 0x100) as u8, (x % 0x100) as u8]
}

/// The number whose four big-endian bytes stand at `at`.
pub open spec fn read_be32(bytes: Seq<u8>, at: int) -> u32 {
    (bytes[at] * 0x100_0000 + bytes[at + 1] * 0x1_0000 + bytes[at + 2] * 0x100 + bytes[at
        + 3]) as u32
}

/// The number whose two big-endian bytes stand at `at`.
pub open spec fn read_be16(bytes: Seq<u8>, at: int) -> u16 {
    (bytes[at] * 0x100 + bytes[at + 1]) as u16
}

/// A null-terminated channel name and what follows it: the name is the UTF-8 text before the
/// first zero byte. There is none if no byte is zero or the text is not UTF-8.
pub open spec fn split_channel(bytes: Seq<u8>) -> Option<(Seq<char>, Seq<u8>)> {
    match bytes.index_of_first(0u8) {
        Some(n) => if valid_utf8(bytes.take(n)) {
            Some((decode_utf8(bytes.take(n)), bytes.skip(n + 1)))
        } else {
            None
        },
        None => None,
    }
}

/// What a datagram with the short message magic holds.
pub open spec fn short_contents(buf: Seq<u8>) -> Option<ShortView> {
    if buf.len() < SHORT_HEADER_SIZE {
        None
    } else {
        match split_channel(buf.skip(SHORT_HEADER_SIZE as int)) {
            Some((channel, data)) => Some(
                ShortView { sequence_number: read_be32(buf, 4), channel, data },
            ),
            None => None,
        }
    }
}

/// What a datagram with the fragment magic holds.
pub open spec fn fragment_contents(buf: Seq<u8>) -> Option<FragmentView> {
    if buf.len() < FRAGMENT_HEADER_SIZE {
        None
    } else {
        let rest = buf.skip(FRAGMENT_HEADER_SIZE as int);
        let headed = |channel: Option<Seq<char>>, data: Seq<u8>|
            FragmentView {
                sequence_number: read_be32(buf, 4),
                payload_size: read_be32(buf, 8),
                fragment_offset: read_be32(buf, 12),
                fragment_number: read_be16(buf, 16),
                n_fragments: read_be16(buf, 18),
                channel,
                data,
            };
        if read_be16(buf, 16) == 0 {
            match split_channel(rest) {
                Some((channel, data)) => Some(headed(Some(channel), data)),
                None => None,
            }
        } else {
            Some(headed(None, rest))
        }
    }
}

/// What a datagram holds: nothing unless it starts with one of the two magic numbers and the
/// rest has the form that the magic number calls for.
pub open spec fn datagram_contents(buf: Seq<u8>) -> Option<PacketView> {
    if buf.len() < 4 {
        None
    } else if read_be32(buf, 0) == MAGIC_SHORT {
        match short_contents(buf) {
            Some(msg) => Some(PacketView::Short(msg)),
            None => None,
        }
    } else if read_be32(buf, 0) == MAGIC_FRAGMENT {
        match fragment_contents(buf) {
            Some(frag) => Some(PacketView::Fragment(frag)),
            None => None,
        }
    } else {
        None
    }
}

/// The contents of an optional packet.
pub open spec fn packet_contents(packet: Option<Packet<'_>>) -> Option<PacketView> {
    match packet {
        Some(p) => Some(p@),
        None => None,
    }
}

/// The datagram of a short message.
pub open spec fn short_datagram(msg: ShortView) -> Seq<u8> {
    be32(MAGIC_SHORT) + be32(msg.sequence_number) + encode_utf8(msg.channel) + seq![0u8] + msg.data
}

/// A channel name on the wire: its UTF-8 bytes and a zero byte, or nothing at all.
pub open spec fn channel_bytes(channel: Option<Seq<char>>) -> Seq<u8> {
    match channel {
        Some(text) => encode_utf8(text) + seq![0u8],
        None => Seq::empty(),
    }
}

/// The header of a fragment.
pub open spec fn fragment_header(frag: FragmentView) -> Seq<u8> {
    be32(MAGIC_FRAGMENT) + be32(frag.sequence_number) + be32(frag.payload_size) + be32(
        frag.fragment_offset,
    ) + be16(frag.fragment_number) + be16(frag.n_fragments)
}

/// The datagram of a fragment.
pub open spec fn fragment_datagram(frag: FragmentView) -> Seq<u8> {
    fragment_header(frag) + channel_bytes(frag.channel) + frag.data
}

/// Checks that `bytes` is UTF-8 and hands it out as text.
///
/// Calls [`core::str::from_utf8`]. It is believed to succeed exactly on valid UTF-8 and to
/// return the text whose encoding the bytes are.
#[verifier::external_body]
fn utf8_text(bytes: &[u8]) -> (text: Result<&str, core::str::Utf8Error>)
    ensures
        text is Ok == valid_utf8(bytes@),
        text matches Ok(s) ==> s@ == decode_utf8(bytes@),
{
    core::str::from_utf8(bytes)
}

/// What [`core::str::from_utf8`] fails with. Nothing in it is read.
#[verifier::external_type_specification]
#[verifier::external_body]
pub struct ExUtf8Error(core::str::Utf8Error);

fn get_be32(buf: &[u8], at: usize) -> (x: u32)
    requires
        at + 4 <= buf@.len(),
    ensures
        x == read_be32(buf@, at as int),
{
    buf[at] as u32 * 0x100_0000 + buf[at + 1] as u32 * 0x1_0000 + buf[at + 2] as u32 * 0x100 + buf[
    at + 3] as u32
}

fn get_be16(buf: &[u8], at: usize) -> (x: u16)
    requires
        at + 2 <= buf@.len(),
    ensures
        x == read_be16(buf@, at as int),
{
    buf[at] as u16 * 0x100 + buf[at + 1] as u16
}

fn put_be32(buf: &mut Vec<u8>, x: u32)
    ensures
        final(buf)@ == old(buf)@ + be32(x),
{
    buf.push((x / 0x100_0000) as u8);
    buf.push((x / 0x1_0000 % 0x100) as u8);
    buf.push((x / 0x100 % 0x100) as u8);
    buf.push((x % 0x100) as u8);
}

fn put_be16(buf: &mut Vec<u8>, x: u16)
    ensures
        final(buf)@ == old(buf)@ + be16(x),
{
    buf.push((x / 0x100) as u8);
    buf.push((x % 0x100) as u8);
}

/// Splits off a null-terminated channel name.
fn take_channel(bytes: &[u8]) -> (split: Option<(&str, &[u8])>)
    ensures
        match split {
            Some((channel, data)) => split_channel(bytes@) == Some((channel@, data@)),
            None => split_channel(bytes@) is None,
        },
{
    proof {
        bytes@.index_of_first_ensures(0u8);
    }
    let mut n: usize = 0;
    while n < bytes.len() && bytes[n] != 0
        invariant
            n <= bytes@.len(),
            forall|j: int| 0 <= j < n ==> bytes@[j] != 0,
        decreases bytes@.len() - n,
    {
        n = n + 1;
    }
    if n == bytes.len() {
        return None;
    }
    assert(bytes@.contains(bytes@[n as int]));
    assert(bytes@.index_of_first(0u8) == Some(n as int));
    let name = slice_subrange(bytes, 0, n);
    assert(name@ == bytes@.take(n as int));
    match utf8_text(name) {
        Ok(channel) => Some((channel, slice_subrange(bytes, n + 1, bytes.len()))),
        Err(_) => None,
    }
}

/// Parse a raw UDP datagram into an LCM packet.
///
/// Returns `None` if the datagram is too small, has an unrecognized magic number, or lacks a
/// null-terminated UTF-8 channel name where there must be one.
pub fn parse_datagram(buf: &[u8]) -> (packet: Option<Packet<'_>>)
    ensures
        packet_contents(packet) == datagram_contents(buf@),
{
    if buf.len() < 4 {
        return None;
    }
    let magic: u32 = get_be32(buf, 0);
    if magic == MAGIC_SHORT {
        parse_short_message(buf)
    } else if magic == MAGIC_FRAGMENT {
        parse_fragment(buf)
    } else {
        None
    }
}

/// Parse what follows the short message magic.
pub fn parse_short_message(buf: &[u8]) -> (packet: Option<Packet<'_>>)
    ensures
        match short_contents(buf@) {
            Some(msg) => packet_contents(packet) == Some(PacketView::Short(msg)),
            None => packet is None,
        },
{
    if buf.len() < SHORT_HEADER_SIZE {
        return None;
    }
    let sequence_number: u32 = get_be32(buf, 4);
    let channel_and_data = slice_subrange(buf, SHORT_HEADER_SIZE, buf.len());
    assert(channel_and_data@ == buf@.skip(SHORT_HEADER_SIZE as int));
    match take_channel(channel_and_data) {
        Some((channel, data)) => Some(
            Packet::Short(ShortMessage { sequence_number, channel, data }),
        ),
        None => None,
    }
}

/// Parse what follows the fragment magic.
pub fn parse_fragment(buf: &[u8]) -> (packet: Option<Packet<'_>>)
    ensures
        match fragment_contents(buf@) {
            Some(frag) => packet_contents(packet) == Some(PacketView::Fragment(frag)),
            None => packet is None,
        },
{
    if buf.len() < FRAGMENT_HEADER_SIZE {
        return None;
    }
    let sequence_number: u32 = get_be32(buf, 4);
    let payload_size: u32 = get_be32(buf, 8);
    let fragment_offset: u32 = get_be32(buf, 12);
    let fragment_number: u16 = get_be16(buf, 16);
    let n_fragments: u16 = get_be16(buf, 18);
    let rest = slice_subrange(buf, FRAGMENT_HEADER_SIZE, buf.len());
    assert(rest@ == buf@.skip(FRAGMENT_HEADER_SIZE as int));
    let (channel, data) = if fragment_number == 0 {
        match take_channel(rest) {
            Some((channel, data)) => (Some(channel), data),
            None => {
                return None;
            },
        }
    } else {
        (None, rest)
    };
    Some(
        Packet::Fragment(
            Fragment {
                sequence_number,
                payload_size,
                fragment_offset,
                fragment_number,
                n_fragments,
                channel,
                data,
            },
        ),
    )
}

/// Encode a short (non-fragmented) LCM message into a buffer.
///
/// Whatever the buffer held before is dropped. Returns the number of bytes written.
pub fn encode_short_message(
    buf: &mut Vec<u8>,
    sequence_number: u32,
    channel: &str,
    data: &[u8],
) -> (written: usize)
    ensures
        final(buf)@ == short_datagram(
            (ShortView { sequence_number, channel: channel@, data: data@ }),
        ),
        written == final(buf)@.len(),
{
    buf.clear();
    put_be32(buf, MAGIC_SHORT);
    put_be32(buf, sequence_number);
    buf.extend_from_slice(channel.as_bytes());
    buf.push(0);
    buf.extend_from_slice(data);
    assert(buf@ =~= short_datagram(
        (ShortView { sequence_number, channel: channel@, data: data@ }),
    ));
    buf.len()
}

/// Encode a single fragment header and its data into a buffer.
///
/// Whatever the buffer held before is dropped. A channel name, where one is given, follows the
/// header; only the first fragment (`fragment_number == 0`) is read back with one.
pub fn encode_fragment(
    buf: &mut Vec<u8>,
    sequence_number: u32,
    payload_size: u32,
    fragment_offset: u32,
    fragment_number: u16,
    n_fragments: u16,
    channel: Option<&str>,
    data: &[u8],
)
    ensures
        final(buf)@ == fragment_datagram(
            (FragmentView {
                sequence_number,
                payload_size,
                fragment_offset,
                fragment_number,
                n_fragments,
                channel: text_of(channel),
                data: data@,
            }),
        ),
{
    buf.clear();
    put_be32(buf, MAGIC_FRAGMENT);
    put_be32(buf, sequence_number);
    put_be32(buf, payload_size);
    put_be32(buf, fragment_offset);
    put_be16(buf, fragment_number);
    put_be16(buf, n_fragments);
    let ghost frag = FragmentView {
        sequence_number,
        payload_size,
        fragment_offset,
        fragment_number,
        n_fragments,
        channel: text_of(channel),
        data: data@,
    };
    assert(buf@ =~= fragment_header(frag));
    if let Some(channel) = channel {
        buf.extend_from_slice(channel.as_bytes());
        buf.push(0);
    }
    assert(buf@ =~= fragment_header(frag) + channel_bytes(frag.channel));
    buf.extend_from_slice(data);
    assert(buf@ =~= fragment_datagram(frag));
}

} // verus!
