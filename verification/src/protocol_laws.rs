//! Laws of the wire protocol: what is encoded is read back, and what is read is what was encoded.
use crate::protocol::{
    be16, be32, channel_bytes, datagram_contents, fragment_datagram, fragment_header, read_be16,
    read_be32, short_datagram, split_channel, FragmentView, PacketView, ShortView,
    FRAGMENT_HEADER_SIZE, MAGIC_FRAGMENT, MAGIC_SHORT, SHORT_HEADER_SIZE,
};
use vstd::prelude::*;
use vstd::utf8::{
    char_is_scalar, char_u32_cast, decode_utf8_encode_utf8, encode_scalar, encode_utf8,
    encode_utf8_decode_utf8, encode_utf8_valid_utf8, has_width_1_encoding, has_width_2_encoding,
    has_width_3_encoding, is_scalar, last_continuation_byte, leading_byte_width_1,
    leading_byte_width_2, leading_byte_width_3, leading_byte_width_4,
    second_last_continuation_byte, third_last_continuation_byte,
};

verus! {

/// The datagram of a packet.
pub open spec fn packet_datagram(packet: PacketView) -> Seq<u8> {
    match packet {
        PacketView::Short(msg) => short_datagram(msg),
        PacketView::Fragment(frag) => fragment_datagram(frag),
    }
}

/// The fragments that the wire format can express: the first one carries a channel name, the
/// others carry none, and a name holds no zero character.
pub open spec fn fragment_expressible(frag: FragmentView) -> bool {
    match frag.channel {
        Some(channel) => frag.fragment_number == 0 && !channel.contains('\0'),
        None => frag.fragment_number != 0,
    }
}

proof fn lemma_scalar_bytes_nonzero(c: u32)
    requires
        is_scalar(c),
        c != 0,
    ensures
        !encode_scalar(c).contains(0u8),
{
    if has_width_1_encoding(c) {
        assert(leading_byte_width_1(c) != 0) by (bit_vector)
            requires
                has_width_1_encoding(c),
                c != 0,
        ;
    } else if has_width_2_encoding(c) {
        assert(leading_byte_width_2(c) != 0 && last_continuation_byte(c) != 0) by (bit_vector);
    } else if has_width_3_encoding(c) {
        assert(leading_byte_width_3(c) != 0 && second_last_continuation_byte(c) != 0
            && last_continuation_byte(c) != 0) by (bit_vector);
    } else {
        assert(leading_byte_width_4(c) != 0 && third_last_continuation_byte(c) != 0
            && second_last_continuation_byte(c) != 0 && last_continuation_byte(c) != 0)
            by (bit_vector);
    }
}

/// The UTF-8 bytes of a text without zero characters hold no zero byte.
proof fn lemma_no_zero_byte(text: Seq<char>)
    requires
        !text.contains('\0'),
    ensures
        !encode_utf8(text).contains(0u8),
    decreases text.len(),
{
    if text.len() > 0 {
        let first = text[0];
        let rest = text.drop_first();
        char_is_scalar(first);
        assert(text.contains(first));
        if first as u32 == 0 {
            char_u32_cast(first, 0);
            assert(first == '\0');
        }
        lemma_scalar_bytes_nonzero(first as u32);
        assert forall|i: int| 0 <= i < rest.len() implies rest[i] != '\0' by {
            assert(rest[i] == text[i + 1]);
            assert(text.contains(text[i + 1]));
        }
        lemma_no_zero_byte(rest);
        let head = encode_scalar(first as u32);
        let tail = encode_utf8(rest);
        assert forall|i: int| 0 <= i < (head + tail).len() implies (head + tail)[i] != 0u8 by {
            if i < head.len() {
                assert(head.contains(head[i]));
            } else {
                assert(tail.contains(tail[i - head.len()]));
            }
        }
    }
}

/// A channel name written in front of some data is read back, and the data with it.
proof fn lemma_channel_round_trip(channel: Seq<char>, data: Seq<u8>)
    requires
        !channel.contains('\0'),
    ensures
        split_channel(channel_bytes(Some(channel)) + data) == Some((channel, data)),
{
    let name = encode_utf8(channel);
    let bytes = channel_bytes(Some(channel)) + data;
    lemma_no_zero_byte(channel);
    bytes.index_of_first_ensures(0u8);
    assert(bytes[name.len() as int] == 0u8);
    assert(bytes.contains(0u8));
    assert forall|i: int| 0 <= i < name.len() implies bytes[i] != 0u8 by {
        assert(name.contains(name[i]));
    }
    assert(bytes.index_of_first(0u8) == Some(name.len() as int));
    assert(bytes.take(name.len() as int) =~= name);
    assert(bytes.skip(name.len() as int + 1) =~= data);
    encode_utf8_valid_utf8(channel);
    encode_utf8_decode_utf8(channel);
}

/// What is split off is what was there.
proof fn lemma_channel_split_exact(bytes: Seq<u8>)
    ensures
        split_channel(bytes) matches Some((channel, data)) ==> {
            &&& channel_bytes(Some(channel)) + data == bytes
            &&& !channel.contains('\0')
        },
{
    bytes.index_of_first_ensures(0u8);
    if let Some((channel, data)) = split_channel(bytes) {
        let n = bytes.index_of_first(0u8)->0;
        decode_utf8_encode_utf8(bytes.take(n));
        assert(channel_bytes(Some(channel)) + data =~= bytes);
        if channel.contains('\0') {
            lemma_zero_byte(channel);
            let i = encode_utf8(channel).index_of(0u8);
            assert(bytes.take(n)[i] == 0u8);
            assert(false);
        }
    }
}

/// A text with a zero character has a zero byte.
proof fn lemma_zero_byte(text: Seq<char>)
    requires
        text.contains('\0'),
    ensures
        encode_utf8(text).contains(0u8),
    decreases text.len(),
{
    let head = encode_scalar(text[0] as u32);
    let rest = text.drop_first();
    if text[0] == '\0' {
        let c = 0u32;
        assert(has_width_1_encoding(c) && leading_byte_width_1(c) == 0) by (bit_vector)
            requires
                c == 0,
        ;
        assert(encode_utf8(text)[0] == 0u8);
    } else {
        let i = text.index_of('\0');
        assert(rest[i - 1] == '\0');
        lemma_zero_byte(rest);
        let j = encode_utf8(rest).index_of(0u8);
        assert(encode_utf8(text)[head.len() + j] == 0u8);
    }
}

/// Four bytes of a number stand for the number.
pub proof fn lemma_be32(bytes: Seq<u8>, at: int, x: u32)
    requires
        0 <= at,
        at + 4 <= bytes.len(),
        bytes.subrange(at, at + 4) == be32(x),
    ensures
        read_be32(bytes, at) == x,
{
    let part = bytes.subrange(at, at + 4);
    assert(part[0] == bytes[at] && part[1] == bytes[at + 1] && part[2] == bytes[at + 2] && part[3]
        == bytes[at + 3]);
}

proof fn lemma_be16(bytes: Seq<u8>, at: int, x: u16)
    requires
        0 <= at,
        at + 2 <= bytes.len(),
        bytes.subrange(at, at + 2) == be16(x),
    ensures
        read_be16(bytes, at) == x,
{
    let part = bytes.subrange(at, at + 2);
    assert(part[0] == bytes[at] && part[1] == bytes[at + 1]);
}

/// Four base-256 digits are recovered from the number that they make up.
proof fn lemma_digits(a: int, b: int, c: int, d: int)
    requires
        0 <= a < 0x100,
        0 <= b < 0x100,
        0 <= c < 0x100,
        0 <= d < 0x100,
    ensures
        ({
            let x = a * 0x100_0000 + b * 0x1_0000 + c * 0x100 + d;
            &&& 0 <= x < 0x1_0000_0000
            &&& x / 0x100_0000 == a
            &&& x / 0x1_0000 % 0x100 == b
            &&& x / 0x100 % 0x100 == c
            &&& x % 0x100 == d
        }),
{
    let x = a * 0x100_0000 + b * 0x1_0000 + c * 0x100 + d;
    assert(x / 0x100_0000 == a);
    assert(x / 0x1_0000 == a * 0x100 + b);
    assert(x / 0x100 == a * 0x1_0000 + b * 0x100 + c);
}

proof fn lemma_be32_back(bytes: Seq<u8>, at: int)
    requires
        0 <= at,
        at + 4 <= bytes.len(),
    ensures
        be32(read_be32(bytes, at)) == bytes.subrange(at, at + 4),
{
    let (a, b, c, d) = (
        bytes[at] as int,
        bytes[at + 1] as int,
        bytes[at + 2] as int,
        bytes[at + 3] as int,
    );
    let x = a * 0x100_0000 + b * 0x1_0000 + c * 0x100 + d;
    lemma_digits(a, b, c, d);
    assert(read_be32(bytes, at) == x);
    let part = seq![bytes[at], bytes[at + 1], bytes[at + 2], bytes[at + 3]];
    assert(be32(read_be32(bytes, at)) =~= part);
    assert(bytes.subrange(at, at + 4) =~= part);
}

proof fn lemma_be16_back(bytes: Seq<u8>, at: int)
    requires
        0 <= at,
        at + 2 <= bytes.len(),
    ensures
        be16(read_be16(bytes, at)) == bytes.subrange(at, at + 2),
{
    assert(be16(read_be16(bytes, at)) =~= bytes.subrange(at, at + 2));
}

/// The number that four bytes make up, the first of them the most significant.
pub open spec fn number_at(bytes: Seq<u8>, at: int) -> int {
    bytes[at] * 0x100_0000 + bytes[at + 1] * 0x1_0000 + bytes[at + 2] * 0x100 + bytes[at + 3]
}

/// The datagram of a short message, byte by byte: `LC02`, the sequence number, the name in UTF-8, a
/// zero byte, and the data.
pub proof fn law_short_wire_format(msg: ShortView)
    ensures
        ({
            let buf = short_datagram(msg);
            let name = encode_utf8(msg.channel);
            &&& buf.len() == 9 + name.len() + msg.data.len()
            &&& buf[0] == 0x4c && buf[1] == 0x43 && buf[2] == 0x30 && buf[3] == 0x32
            &&& number_at(buf, 4) == msg.sequence_number
            &&& buf.subrange(8, 8int + name.len()) == name
            &&& buf[8int + name.len()] == 0
            &&& buf.skip(9int + name.len()) == msg.data
        }),
{
    let buf = short_datagram(msg);
    let name = encode_utf8(msg.channel);
    assert(buf.subrange(4, 8) =~= be32(msg.sequence_number));
    lemma_number_at(buf, 4, msg.sequence_number);
    assert(buf.subrange(8, 8int + name.len()) =~= name);
    assert(buf.skip(9int + name.len()) =~= msg.data);
}

/// The datagram of a fragment, byte by byte: `LC03`, the sequence number, the size of the message,
/// the offset, the fragment's number, the number of fragments, the name in UTF-8 with a zero byte
/// where there is one, and the data.
pub proof fn law_fragment_wire_format(frag: FragmentView)
    ensures
        ({
            let buf = fragment_datagram(frag);
            let name = match frag.channel {
                Some(channel) => encode_utf8(channel) + seq![0u8],
                None => Seq::empty(),
            };
            &&& buf.len() == 20 + name.len() + frag.data.len()
            &&& buf[0] == 0x4c && buf[1] == 0x43 && buf[2] == 0x30 && buf[3] == 0x33
            &&& number_at(buf, 4) == frag.sequence_number
            &&& number_at(buf, 8) == frag.payload_size
            &&& number_at(buf, 12) == frag.fragment_offset
            &&& buf[16] * 0x100 + buf[17] == frag.fragment_number
            &&& buf[18] * 0x100 + buf[19] == frag.n_fragments
            &&& buf.subrange(20, 20int + name.len()) == name
            &&& buf.skip(20int + name.len()) == frag.data
        }),
{
    let buf = fragment_datagram(frag);
    let name = channel_bytes(frag.channel);
    assert(buf.subrange(4, 8) =~= be32(frag.sequence_number));
    lemma_number_at(buf, 4, frag.sequence_number);
    assert(buf.subrange(8, 12) =~= be32(frag.payload_size));
    lemma_number_at(buf, 8, frag.payload_size);
    assert(buf.subrange(12, 16) =~= be32(frag.fragment_offset));
    lemma_number_at(buf, 12, frag.fragment_offset);
    assert(buf.subrange(20, 20int + name.len()) =~= name);
    assert(buf.skip(20int + name.len()) =~= frag.data);
}

proof fn lemma_number_at(bytes: Seq<u8>, at: int, x: u32)
    requires
        0 <= at,
        at + 4 <= bytes.len(),
        bytes.subrange(at, at + 4) == be32(x),
    ensures
        number_at(bytes, at) == x,
{
    let part = bytes.subrange(at, at + 4);
    assert(part[0] == bytes[at] && part[1] == bytes[at + 1] && part[2] == bytes[at + 2] && part[3]
        == bytes[at + 3]);
}

/// A short message is read back from its own datagram, whatever its sequence number, channel and
/// data, as long as the channel name holds no zero character.
pub proof fn law_short_message_round_trip(msg: ShortView)
    requires
        !msg.channel.contains('\0'),
    ensures
        datagram_contents(short_datagram(msg)) == Some(PacketView::Short(msg)),
{
    let buf = short_datagram(msg);
    let rest = channel_bytes(Some(msg.channel)) + msg.data;
    assert(buf =~= be32(MAGIC_SHORT) + be32(msg.sequence_number) + rest);
    assert(buf.subrange(0, 4) =~= be32(MAGIC_SHORT));
    lemma_be32(buf, 0, MAGIC_SHORT);
    assert(buf.subrange(4, 8) =~= be32(msg.sequence_number));
    lemma_be32(buf, 4, msg.sequence_number);
    assert(buf.skip(SHORT_HEADER_SIZE as int) =~= rest);
    lemma_channel_round_trip(msg.channel, msg.data);
}

/// A fragment is read back from its own datagram, whatever its fields, as long as it is one that
/// the format can express.
pub proof fn law_fragment_round_trip(frag: FragmentView)
    requires
        fragment_expressible(frag),
    ensures
        datagram_contents(fragment_datagram(frag)) == Some(PacketView::Fragment(frag)),
{
    let buf = fragment_datagram(frag);
    let rest = channel_bytes(frag.channel) + frag.data;
    let head = fragment_header(frag);
    assert(head.len() == FRAGMENT_HEADER_SIZE);
    assert(buf =~= head + rest);
    assert(buf.subrange(0, 4) =~= be32(MAGIC_FRAGMENT));
    lemma_be32(buf, 0, MAGIC_FRAGMENT);
    assert(buf.subrange(4, 8) =~= be32(frag.sequence_number));
    lemma_be32(buf, 4, frag.sequence_number);
    assert(buf.subrange(8, 12) =~= be32(frag.payload_size));
    lemma_be32(buf, 8, frag.payload_size);
    assert(buf.subrange(12, 16) =~= be32(frag.fragment_offset));
    lemma_be32(buf, 12, frag.fragment_offset);
    assert(buf.subrange(16, 18) =~= be16(frag.fragment_number));
    lemma_be16(buf, 16, frag.fragment_number);
    assert(buf.subrange(18, 20) =~= be16(frag.n_fragments));
    lemma_be16(buf, 18, frag.n_fragments);
    assert(buf.skip(FRAGMENT_HEADER_SIZE as int) =~= rest);
    match frag.channel {
        Some(channel) => {
            lemma_channel_round_trip(channel, frag.data);
        },
        None => {
            assert(rest =~= frag.data);
        },
    }
}

/// A datagram that is read as a packet is, byte for byte, the datagram of that packet: reading
/// loses nothing, and no two datagrams are read as the same packet.
pub proof fn law_datagram_exact(buf: Seq<u8>)
    ensures
        datagram_contents(buf) matches Some(packet) ==> {
            &&& packet_datagram(packet) == buf
            &&& packet matches PacketView::Short(msg) ==> !msg.channel.contains('\0')
            &&& packet matches PacketView::Fragment(frag) ==> fragment_expressible(frag)
        },
{
    if let Some(packet) = datagram_contents(buf) {
        lemma_be32_back(buf, 0);
        lemma_be32_back(buf, 4);
        match packet {
            PacketView::Short(msg) => {
                let rest = buf.skip(SHORT_HEADER_SIZE as int);
                lemma_channel_split_exact(rest);
                assert(short_datagram(msg) =~= be32(MAGIC_SHORT) + be32(msg.sequence_number) + (
                channel_bytes(Some(msg.channel)) + msg.data));
                assert(buf =~= buf.subrange(0, 4) + buf.subrange(4, 8) + rest);
            },
            PacketView::Fragment(frag) => {
                let rest = buf.skip(FRAGMENT_HEADER_SIZE as int);
                lemma_be32_back(buf, 8);
                lemma_be32_back(buf, 12);
                lemma_be16_back(buf, 16);
                lemma_be16_back(buf, 18);
                if frag.fragment_number == 0 {
                    lemma_channel_split_exact(rest);
                }
                assert(channel_bytes(frag.channel) + frag.data =~= rest);
                assert(fragment_datagram(frag) =~= fragment_header(frag) + rest);
                assert(buf =~= buf.subrange(0, 4) + buf.subrange(4, 8) + buf.subrange(8, 12)
                    + buf.subrange(12, 16) + buf.subrange(16, 18) + buf.subrange(18, 20) + rest);
            },
        }
    }
}

/// No datagram of fewer than four bytes, and none with another magic number, holds anything.
pub proof fn law_unrecognized_datagram_skipped(buf: Seq<u8>)
    requires
        buf.len() < 4 || (number_at(buf, 0) != 0x4c43_3032 && number_at(buf, 0) != 0x4c43_3033),
    ensures
        datagram_contents(buf) is None,
{
}

} // verus!
