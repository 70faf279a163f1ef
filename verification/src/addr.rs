//! Network addresses as plain values.
use crate::number::{
    decimal, digits_value, is_digit, lemma_decimal, lemma_decimal_unique, lemma_digit_run,
    lemma_digit_run_bounds, parse_number,
};
use crate::text::{
    chars_of, lemma_first_piece, lemma_text_from_pieces, pieces, split, texts,
};
use vstd::prelude::*;

verus! {

/// An IPv4 address, by its four octets in the order in which they are written.
#[derive(Clone, Copy, Debug, PartialEq, Eq, Structural)]
pub struct Ipv4Addr {
    pub a: u8,
    pub b: u8,
    pub c: u8,
    pub d: u8,
}

/// The octet that a row of one to three digits denotes. A zero stands in front of no other digit.
pub open spec fn octet_of(text: Seq<char>) -> Option<u8> {
    if 1 <= text.len() <= 3 && (text.len() > 1 ==> text[0] != '0') && (forall|i: int|
        0 <= i < text.len() ==> is_digit(#[trigger] text[i])) && digits_value(text) <= 255 {
        Some(digits_value(text) as u8)
    } else {
        None
    }
}

/// The address that a text denotes: four octets with dots between them, and nothing else.
pub open spec fn ipv4_of(text: Seq<char>) -> Option<Ipv4Addr> {
    let parts = pieces(text, '.');
    if parts.len() == 4 {
        match (octet_of(parts[0]), octet_of(parts[1]), octet_of(parts[2]), octet_of(parts[3])) {
            (Some(a), Some(b), Some(c), Some(d)) => Some(Ipv4Addr { a, b, c, d }),
            _ => None,
        }
    } else {
        None
    }
}

/// An address in dotted decimal notation.
pub open spec fn ipv4_text(addr: Ipv4Addr) -> Seq<char> {
    decimal(addr.a as nat) + seq!['.'] + (decimal(addr.b as nat) + seq!['.'] + (decimal(
        addr.c as nat,
    ) + seq!['.'] + decimal(addr.d as nat)))
}

/// Reads one octet.
fn parse_octet(text: &str) -> (octet: Option<u8>)
    ensures
        octet == octet_of(text@),
{
    let chars = chars_of(text);
    if chars.len() < 1 || chars.len() > 3 || (chars.len() > 1 && chars[0] == '0') {
        return None;
    }
    if chars[0] == '+' {
        assert(!is_digit(text@[0]));
        return None;
    }
    proof {
        lemma_digit_run_bounds(text@);
        if forall|i: int| 0 <= i < text@.len() ==> is_digit(#[trigger] text@[i]) {
            lemma_digit_run(text@, text@.len() as int);
        }
        assert(text@.take(text@.len() as int) =~= text@);
    }
    match parse_number(text, 255) {
        Ok(n) => Some(n as u8),
        Err(_) => None,
    }
}

impl Ipv4Addr {
    /// Reads an address in dotted decimal notation.
    pub fn parse(text: &str) -> (addr: Option<Self>)
        ensures
            addr == ipv4_of(text@),
    {
        let parts = split(text, '.');
        assert(parts@.len() == pieces(text@, '.').len());
        if parts.len() != 4 {
            return None;
        }
        assert forall|i: int| 0 <= i < 4 implies (#[trigger] parts@[i])@ == pieces(
            text@,
            '.',
        )[i] by {
            assert(texts(parts@)[i] == parts@[i]@);
        }
        match (
            parse_octet(parts[0]),
            parse_octet(parts[1]),
            parse_octet(parts[2]),
            parse_octet(parts[3]),
        ) {
            (Some(a), Some(b), Some(c), Some(d)) => Some(Ipv4Addr { a, b, c, d }),
            _ => None,
        }
    }

    /// The address `a.b.c.d`.
    pub fn new(a: u8, b: u8, c: u8, d: u8) -> (addr: Self)
        ensures
            addr == (Ipv4Addr { a, b, c, d }),
    {
        Ipv4Addr { a, b, c, d }
    }

    /// The address `0.0.0.0`, which stands for any interface.
    pub fn unspecified() -> (addr: Self)
        ensures
            addr == (Ipv4Addr { a: 0, b: 0, c: 0, d: 0 }),
    {
        Ipv4Addr { a: 0, b: 0, c: 0, d: 0 }
    }
}

/// Decimal digits of an octet are read back, and hold no dot.
proof fn lemma_octet(n: u8)
    ensures
        octet_of(decimal(n as nat)) == Some(n),
        !decimal(n as nat).contains('.'),
{
    let text = decimal(n as nat);
    lemma_decimal(n as nat);
    reveal_with_fuel(decimal, 4);
    if text.contains('.') {
        let i = text.index_of('.');
        assert(is_digit(text[i]));
    }
}

/// Every address is read back from its dotted decimal notation.
pub proof fn law_ipv4_round_trip(addr: Ipv4Addr)
    ensures
        ipv4_of(ipv4_text(addr)) == Some(addr),
{
    let (a, b, c, d) = (
        decimal(addr.a as nat),
        decimal(addr.b as nat),
        decimal(addr.c as nat),
        decimal(addr.d as nat),
    );
    lemma_octet(addr.a);
    lemma_octet(addr.b);
    lemma_octet(addr.c);
    lemma_octet(addr.d);
    let after_b = c + seq!['.'] + d;
    let after_a = b + seq!['.'] + after_b;
    lemma_first_piece(a, '.', after_a);
    lemma_first_piece(b, '.', after_b);
    lemma_first_piece(c, '.', d);
    d.index_of_first_ensures('.');
    assert(pieces(ipv4_text(addr), '.') =~= seq![a, b, c, d]);
}

/// The dotted decimal notation of an address is the only text that is read as it.
pub proof fn law_ipv4_exact(text: Seq<char>, addr: Ipv4Addr)
    ensures
        ipv4_of(text) == Some(addr) <==> text == ipv4_text(addr),
{
    law_ipv4_round_trip(addr);
    if ipv4_of(text) == Some(addr) {
        let parts = pieces(text, '.');
        lemma_text_from_pieces(text, '.');
        let after_a = choose|rest: Seq<char>|
            text == parts[0] + seq!['.'] + rest && #[trigger] pieces(rest, '.')
                == parts.drop_first();
        lemma_text_from_pieces(after_a, '.');
        let after_b = choose|rest: Seq<char>|
            after_a == pieces(after_a, '.')[0] + seq!['.'] + rest && #[trigger] pieces(rest, '.')
                == pieces(after_a, '.').drop_first();
        lemma_text_from_pieces(after_b, '.');
        let after_c = choose|rest: Seq<char>|
            after_b == pieces(after_b, '.')[0] + seq!['.'] + rest && #[trigger] pieces(rest, '.')
                == pieces(after_b, '.').drop_first();
        lemma_text_from_pieces(after_c, '.');
        lemma_decimal_unique(parts[0]);
        lemma_decimal_unique(parts[1]);
        lemma_decimal_unique(parts[2]);
        lemma_decimal_unique(parts[3]);
        assert(text == ipv4_text(addr));
    }
}

/// An IPv4 socket address.
#[derive(Clone, Copy, Debug, PartialEq, Eq, Structural)]
pub struct SocketAddrV4 {
    pub ip: Ipv4Addr,
    pub port: u16,
}

/// An IPv6 socket address; the address itself is its 128 bits, first octet most significant.
#[derive(Clone, Copy, Debug, PartialEq, Eq, Structural)]
pub struct SocketAddrV6 {
    pub ip: u128,
    pub port: u16,
    pub flowinfo: u32,
    pub scope_id: u32,
}

/// The address of a socket, as it identifies the sender of a datagram.
#[derive(Clone, Copy, Debug, PartialEq, Eq, Structural)]
pub enum SocketAddr {
    V4(SocketAddrV4),
    V6(SocketAddrV6),
}

} // verus!
