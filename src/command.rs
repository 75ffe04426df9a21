use vstd::prelude::*;
use vstd::utf8::{is_leading_byte_width_1, pop_first_scalar, valid_first_scalar, valid_utf8};

use crate::addr::{
    ipv4_text, lemma_decimal, lemma_ipv4_text_ascii, lemma_ipv4_text_round_trip,
    lemma_socket_text_ascii, lemma_socket_text_round_trip, parse_ipv4, parse_ipv4_text,
    parse_socket, parse_socket_text, socket_text, write_ipv4, write_socket, SocketAddrV4,
};
use crate::arrays::{array_of, lemma_array_of, read_array};

verus! {

pub const TAG_BLOCK: u8 = 0x01;

pub const TAG_UNBLOCK: u8 = 0x02;

pub const TAG_FILTER_LOCAL_PORT: u8 = 0x03;

pub const TAG_FILTER_REMOTE_ADDR: u8 = 0x04;

pub const TAG_DISCONNECTED: u8 = 0x05;

/// A directive from the node to the firewall daemon.
#[derive(Clone, Copy, Debug, PartialEq, Eq)]
pub enum Command {
    /// Drop every packet from this address.
    Block([u8; 4]),
    /// Take this address off the blacklist.
    Unblock([u8; 4]),
    /// The local port the node listens on.
    FilterLocalPort(u16),
    /// A remote end the node is about to talk to.
    FilterRemoteAddr(SocketAddrV4),
    /// The peer at this address, with this public key, went away.
    Disconnected(SocketAddrV4, [u8; 32]),
}

/// Why a frame could not be decoded.
#[derive(Clone, Copy, Debug, PartialEq, Eq)]
pub enum Error {
    /// The frame starts with an unknown tag.
    WrongTag(u8),
    /// The text of an address is not an IPv4 address (or socket address).
    AddrParse,
    /// A text field is not UTF-8.
    Deserialization,
}

/// The decoder of command frames.
#[derive(Clone, Copy, Debug, PartialEq, Eq)]
pub struct CommandDecoder;

/// A length as four big-endian bytes.
pub open spec fn be32(n: nat) -> Seq<u8> {
    seq![
        (n / 0x100_0000 % 0x100) as u8,
        (n / 0x1_0000 % 0x100) as u8,
        (n / 0x100 % 0x100) as u8,
        (n % 0x100) as u8,
    ]
}

/// The number stored big-endian in four bytes at `i`.
pub open spec fn be32_at(s: Seq<u8>, i: int) -> nat {
    (s[i] * 0x100_0000 + s[i + 1] * 0x1_0000 + s[i + 2] * 0x100 + s[i + 3]) as nat
}

/// A text field: its length as four big-endian bytes, then its bytes.
pub open spec fn text_field(t: Seq<u8>) -> Seq<u8> {
    be32(t.len()) + t
}

/// The frame of a command: a tag byte, then the payload of that tag.
pub open spec fn encode(c: Command) -> Seq<u8> {
    match c {
        Command::Block(ip) => seq![TAG_BLOCK] + text_field(ipv4_text(ip)),
        Command::Unblock(ip) => seq![TAG_UNBLOCK] + text_field(ipv4_text(ip)),
        Command::FilterLocalPort(p) => seq![
            TAG_FILTER_LOCAL_PORT,
            (p / 0x100) as u8,
            (p % 0x100) as u8,
        ],
        Command::FilterRemoteAddr(a) => seq![TAG_FILTER_REMOTE_ADDR] + text_field(socket_text(a)),
        Command::Disconnected(a, pk) => seq![TAG_DISCONNECTED] + text_field(socket_text(a)) + pk@,
    }
}

/// The command of a frame with a text payload, once the frame is whole.
pub open spec fn text_command(tag: u8, text: Seq<u8>) -> Result<Command, Error> {
    if !valid_utf8(text) {
        Err(Error::Deserialization)
    } else if tag == TAG_BLOCK || tag == TAG_UNBLOCK {
        match parse_ipv4(text) {
            Some(ip) => Ok(
                if tag == TAG_BLOCK {
                    Command::Block(ip)
                } else {
                    Command::Unblock(ip)
                },
            ),
            None => Err(Error::AddrParse),
        }
    } else {
        match parse_socket(text) {
            Some(a) => Ok(Command::FilterRemoteAddr(a)),
            None => Err(Error::AddrParse),
        }
    }
}

/// What the decoder makes of the bytes at the front of a stream, and how
/// many of them it takes: `Ok(None)` while the first frame is not whole;
/// a command and its frame's length once it is; an error for a bad frame.
/// A text that is not UTF-8 and an unknown tag leave the bytes in place; an
/// address that does not parse takes its frame.
pub open spec fn decode(b: Seq<u8>) -> (Result<Option<Command>, Error>, nat) {
    if b.len() == 0 {
        (Ok(None), 0)
    } else if b[0] < TAG_BLOCK || b[0] > TAG_DISCONNECTED {
        (Err(Error::WrongTag(b[0])), 0)
    } else if b[0] == TAG_FILTER_LOCAL_PORT {
        if b.len() < 3 {
            (Ok(None), 0)
        } else {
            (Ok(Some(Command::FilterLocalPort((b[1] * 0x100 + b[2]) as u16))), 3)
        }
    } else if b.len() < 5 {
        (Ok(None), 0)
    } else {
        let n = be32_at(b, 1) as int;
        let total: int = if b[0] == TAG_DISCONNECTED {
            5 + n + 32
        } else {
            5 + n
        };
        let text = b.subrange(5, 5 + n);
        if b.len() < total {
            (Ok(None), 0)
        } else if !valid_utf8(text) {
            (Err(Error::Deserialization), 0)
        } else if b[0] == TAG_DISCONNECTED {
            match parse_socket(text) {
                Some(a) => (
                    Ok(Some(Command::Disconnected(a, array_of::<32>(b.subrange(5 + n, total))))),
                    total as nat,
                ),
                None => (Err(Error::AddrParse), total as nat),
            }
        } else {
            match text_command(b[0], text) {
                Ok(c) => (Ok(Some(c)), total as nat),
                Err(e) => (Err(e), total as nat),
            }
        }
    }
}

/// Relies on `std::str::from_utf8`: it accepts exactly the well-formed UTF-8
/// byte strings.
#[verifier::external_body]
fn is_utf8(b: &[u8]) -> (r: bool)
    ensures
        r == valid_utf8(b@),
{
    std::str::from_utf8(b).is_ok()
}

fn push_be32(out: &mut Vec<u8>, n: u32)
    ensures
        final(out)@ == old(out)@ + be32(n as nat),
{
    out.push((n / 0x100_0000 % 0x100) as u8);
    out.push((n / 0x1_0000 % 0x100) as u8);
    out.push((n / 0x100 % 0x100) as u8);
    out.push((n % 0x100) as u8);
    assert(final(out)@ =~= old(out)@ + be32(n as nat));
}

fn push_all(out: &mut Vec<u8>, s: &[u8])
    ensures
        final(out)@ == old(out)@ + s@,
{
    let len: usize = s.len();
    let mut i: usize = 0;
    while i < len
        invariant
            0 <= i <= len,
            len == s@.len(),
            out@ == old(out)@ + s@.subrange(0, i as int),
        decreases len - i,
    {
        out.push(s[i]);
        i += 1;
        assert(out@ =~= old(out)@ + s@.subrange(0, i as int));
    }
    assert(s@.subrange(0, len as int) =~= s@);
}

proof fn lemma_ipv4_text_len(ip: [u8; 4])
    ensures
        ipv4_text(ip).len() <= 15,
{
    lemma_decimal(ip[0] as nat);
    lemma_decimal(ip[1] as nat);
    lemma_decimal(ip[2] as nat);
    lemma_decimal(ip[3] as nat);
}

proof fn lemma_socket_text_len(a: SocketAddrV4)
    ensures
        socket_text(a).len() <= 21,
{
    lemma_decimal(a.ip[0] as nat);
    lemma_decimal(a.ip[1] as nat);
    lemma_decimal(a.ip[2] as nat);
    lemma_decimal(a.ip[3] as nat);
    lemma_decimal(a.port as nat);
}

fn push_text_field(out: &mut Vec<u8>, t: &Vec<u8>)
    requires
        t@.len() <= 21,
    ensures
        final(out)@ == old(out)@ + text_field(t@),
{
    push_be32(out, t.len() as u32);
    push_all(out, t.as_slice());
    assert(final(out)@ =~= old(out)@ + text_field(t@));
}

impl Command {
    /// The frame of the command.
    pub fn as_bytes(&self) -> (r: Vec<u8>)
        ensures
            r@ == encode(*self),
    {
        let mut r: Vec<u8> = Vec::new();
        let mut text: Vec<u8> = Vec::new();
        match self {
            Command::Block(ip) | Command::Unblock(ip) => {
                r.push(
                    match self {
                        Command::Block(_) => TAG_BLOCK,
                        _ => TAG_UNBLOCK,
                    },
                );
                write_ipv4(&mut text, ip);
                proof {
                    lemma_ipv4_text_len(*ip);
                }
                push_text_field(&mut r, &text);
            },
            Command::FilterLocalPort(p) => {
                r.push(TAG_FILTER_LOCAL_PORT);
                r.push((*p / 0x100) as u8);
                r.push((*p % 0x100) as u8);
            },
            Command::FilterRemoteAddr(a) => {
                r.push(TAG_FILTER_REMOTE_ADDR);
                write_socket(&mut text, a);
                proof {
                    lemma_socket_text_len(*a);
                }
                push_text_field(&mut r, &text);
            },
            Command::Disconnected(a, pk) => {
                r.push(TAG_DISCONNECTED);
                write_socket(&mut text, a);
                proof {
                    lemma_socket_text_len(*a);
                }
                push_text_field(&mut r, &text);
                push_all(&mut r, pk.as_slice());
            },
        }
        assert(r@ =~= encode(*self));
        r
    }
}

impl CommandDecoder {
    /// Decodes the first frame of `src`. Returns `Ok(None)` and leaves `src`
    /// alone while the frame is not whole; on a command, removes exactly its
    /// frame from the front of `src`.
    pub fn decode(&mut self, src: &mut Vec<u8>) -> (r: Result<Option<Command>, Error>)
        ensures
            r == decode(old(src)@).0,
            decode(old(src)@).1 <= old(src)@.len(),
            final(src)@ == old(src)@.subrange(decode(old(src)@).1 as int, old(src)@.len() as int),
    {
        let ghost b = src@;
        let len: usize = src.len();
        if len == 0 {
            assert(src@.subrange(0, 0) =~= src@);
            return Ok(None);
        }
        let tag = src[0];
        if tag < TAG_BLOCK || tag > TAG_DISCONNECTED {
            assert(src@.subrange(0, len as int) =~= src@);
            return Err(Error::WrongTag(tag));
        }
        if tag == TAG_FILTER_LOCAL_PORT {
            if len < 3 {
                assert(src@.subrange(0, len as int) =~= src@);
                return Ok(None);
            }
            let port = (src[1] as u16) * 0x100 + src[2] as u16;
            let rest = src.split_off(3);
            *src = rest;
            return Ok(Some(Command::FilterLocalPort(port)));
        }
        if len < 5 {
            assert(src@.subrange(0, len as int) =~= src@);
            return Ok(None);
        }
        let n: u64 = (src[1] as u64) * 0x100_0000 + (src[2] as u64) * 0x1_0000 + (src[3] as u64)
            * 0x100 + src[4] as u64;
        let extra: u64 = if tag == TAG_DISCONNECTED {
            32
        } else {
            0
        };
        if (len as u64) - 5 < n + extra {
            assert(src@.subrange(0, len as int) =~= src@);
            return Ok(None);
        }
        let text_end: usize = 5 + n as usize;
        let total: usize = text_end + extra as usize;
        let text_ok = is_utf8(&src.as_slice()[5..text_end]);
        if !text_ok {
            assert(src@.subrange(0, len as int) =~= src@);
            return Err(Error::Deserialization);
        }
        let result = if tag == TAG_DISCONNECTED {
            match parse_socket_text(&src.as_slice()[5..text_end]) {
                Some(a) => Ok(Some(Command::Disconnected(a, read_array(src.as_slice(), text_end)))),
                None => Err(Error::AddrParse),
            }
        } else if tag == TAG_FILTER_REMOTE_ADDR {
            match parse_socket_text(&src.as_slice()[5..text_end]) {
                Some(a) => Ok(Some(Command::FilterRemoteAddr(a))),
                None => Err(Error::AddrParse),
            }
        } else {
            match parse_ipv4_text(&src.as_slice()[5..text_end]) {
                Some(ip) => Ok(
                    Some(
                        if tag == TAG_BLOCK {
                            Command::Block(ip)
                        } else {
                            Command::Unblock(ip)
                        },
                    ),
                ),
                None => Err(Error::AddrParse),
            }
        };
        let rest = src.split_off(total);
        *src = rest;
        result
    }
}

proof fn lemma_ascii_utf8(b: Seq<u8>)
    requires
        forall|j: int| 0 <= j < b.len() ==> #[trigger] b[j] < 0x80,
    ensures
        valid_utf8(b),
    decreases b.len(),
{
    if b.len() > 0 {
        let c = b[0];
        assert(c < 0x80);
        assert(is_leading_byte_width_1(c));
        assert((c & 0x7f) as u32 <= 0x7f) by (bit_vector);
        assert(valid_first_scalar(b));
        let rest = pop_first_scalar(b);
        assert(rest =~= b.subrange(1, b.len() as int));
        assert forall|j: int| 0 <= j < rest.len() implies #[trigger] rest[j] < 0x80 by {
            assert(rest[j] == b[j + 1]);
        }
        lemma_ascii_utf8(rest);
    }
}

proof fn lemma_text_frame(tag: u8, t: Seq<u8>, tail: Seq<u8>, rest: Seq<u8>)
    requires
        t.len() < 0x100,
    ensures
        ({
            let b = seq![tag] + text_field(t) + tail + rest;
            let n = t.len() as int;
            &&& b[0] == tag
            &&& be32_at(b, 1) == t.len()
            &&& b.subrange(5, 5 + n) == t
            &&& b.subrange(5 + n, 5 + n + tail.len()) == tail
            &&& b.len() == 5 + t.len() + tail.len() + rest.len()
        }),
{
    let b = seq![tag] + text_field(t) + tail + rest;
    assert(b[1] == 0 && b[2] == 0 && b[3] == 0 && b[4] == t.len());
    let n = t.len() as int;
    assert(b.subrange(5, 5 + n) =~= t);
    assert(b.subrange(5 + n, 5 + n + tail.len()) =~= tail);
}

/// A frame followed by other bytes decodes to its command and takes exactly
/// its own bytes.
pub proof fn lemma_decode_frame_then_rest(c: Command, rest: Seq<u8>)
    ensures
        decode(encode(c) + rest) == (Ok::<Option<Command>, Error>(Some(c)), encode(c).len()),
{
    let b = encode(c) + rest;
    match c {
        Command::Block(ip) | Command::Unblock(ip) => {
            let t = ipv4_text(ip);
            lemma_ipv4_text_len(ip);
            let tag = if c is Block {
                TAG_BLOCK
            } else {
                TAG_UNBLOCK
            };
            lemma_text_frame(tag, t, Seq::empty(), rest);
            assert(b =~= seq![tag] + text_field(t) + Seq::<u8>::empty() + rest);
            lemma_ipv4_text_ascii(ip);
            lemma_ascii_utf8(t);
            lemma_ipv4_text_round_trip(ip);
        },
        Command::FilterLocalPort(p) => {
            assert(b[1] * 0x100 + b[2] == p);
        },
        Command::FilterRemoteAddr(a) => {
            let t = socket_text(a);
            lemma_socket_text_len(a);
            lemma_text_frame(TAG_FILTER_REMOTE_ADDR, t, Seq::empty(), rest);
            assert(b =~= seq![TAG_FILTER_REMOTE_ADDR] + text_field(t) + Seq::<u8>::empty() + rest);
            lemma_socket_text_ascii(a);
            lemma_ascii_utf8(t);
            lemma_socket_text_round_trip(a);
        },
        Command::Disconnected(a, pk) => {
            let t = socket_text(a);
            lemma_socket_text_len(a);
            lemma_text_frame(TAG_DISCONNECTED, t, pk@, rest);
            lemma_socket_text_ascii(a);
            lemma_ascii_utf8(t);
            lemma_socket_text_round_trip(a);
            lemma_array_of(pk);
        },
    }
}

/// Decoding the frame of a command gives the command back and takes the
/// whole frame.
pub proof fn lemma_decode_encode(c: Command)
    ensures
        decode(encode(c)) == (Ok::<Option<Command>, Error>(Some(c)), encode(c).len()),
{
    lemma_decode_frame_then_rest(c, Seq::empty());
    assert(encode(c) + Seq::<u8>::empty() =~= encode(c));
}

/// A strict prefix of a frame asks for more bytes and takes none.
pub proof fn lemma_decode_prefix(c: Command, k: int)
    requires
        0 <= k < encode(c).len(),
    ensures
        decode(encode(c).subrange(0, k)) == (Ok::<Option<Command>, Error>(None), 0nat),
{
    let b = encode(c).subrange(0, k);
    let full = encode(c);
    match c {
        Command::FilterLocalPort(p) => {},
        Command::Block(ip) | Command::Unblock(ip) => {
            lemma_ipv4_text_len(ip);
            let t = ipv4_text(ip);
            if k >= 5 {
                assert(full[1] == 0 && full[2] == 0 && full[3] == 0 && full[4] == t.len());
                assert(b[1] == 0 && b[2] == 0 && b[3] == 0 && b[4] == t.len());
            }
        },
        Command::FilterRemoteAddr(a) => {
            lemma_socket_text_len(a);
            let t = socket_text(a);
            if k >= 5 {
                assert(full[1] == 0 && full[2] == 0 && full[3] == 0 && full[4] == t.len());
                assert(b[1] == 0 && b[2] == 0 && b[3] == 0 && b[4] == t.len());
            }
        },
        Command::Disconnected(a, pk) => {
            lemma_socket_text_len(a);
            let t = socket_text(a);
            if k >= 5 {
                assert(full[1] == 0 && full[2] == 0 && full[3] == 0 && full[4] == t.len());
                assert(b[1] == 0 && b[2] == 0 && b[3] == 0 && b[4] == t.len());
            }
        },
    }
}

} // verus!
