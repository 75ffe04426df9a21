use vstd::prelude::*;

use crate::arrays::read_array;
use crate::endpoint::{endpoint_at, endpoint_bytes, pair_at, pair_bytes, Endpoint, EndpointPair};

verus! {

/// The length of the proof-of-work stamp carried by a handshake.
pub const POW_LEN: usize = 56;

/// The length of an event record: the pair, a four-byte tag and the payload.
pub const RECORD_LEN: usize = 72;

/// The length of a tagged proof-of-work union: a four-byte tag and the stamp.
pub const POW_UNION_LEN: usize = 60;

/// What the classifier reports about the first payload of a flow.
#[derive(Clone, Copy, Debug, PartialEq, Eq)]
pub enum EventKind {
    /// The stamp to check in user space.
    ReceivedPow([u8; 56]),
    /// The first payload was too short to hold a stamp.
    NotEnoughBytesForPow,
    /// A public key already bound to another remote was presented again.
    BlockedReusingPow { already_connected: Endpoint, try_connect: Endpoint },
}

/// An event of the classifier: the flow and what happened on it.
#[derive(Clone, Copy, Debug, PartialEq, Eq)]
pub struct Event {
    pub pair: EndpointPair,
    pub event: EventKind,
}

/// The stamp of a flow as an older record layout carried it.
#[derive(Clone, Copy, Debug, PartialEq, Eq)]
pub enum PowBytes {
    Nothing,
    NotEnough,
    Bytes([u8; 56]),
}

/// `n` zero bytes.
pub open spec fn zeros(n: nat) -> Seq<u8> {
    Seq::new(n, |i: int| 0u8)
}

/// A small tag as four little-endian bytes.
pub open spec fn tag_bytes(t: u8) -> Seq<u8> {
    seq![t, 0u8, 0u8, 0u8]
}

/// The tag stored little-endian in four bytes at `at`.
pub open spec fn tag_at(s: Seq<u8>, at: int) -> int {
    s[at] + s[at + 1] * 0x100 + s[at + 2] * 0x1_0000 + s[at + 3] * 0x100_0000
}

pub open spec fn kind_tag(k: EventKind) -> u8 {
    match k {
        EventKind::ReceivedPow(_) => 0,
        EventKind::NotEnoughBytesForPow => 1,
        EventKind::BlockedReusingPow { .. } => 2,
    }
}

/// The 56 payload bytes of an event kind, zero-padded.
pub open spec fn kind_payload(k: EventKind) -> Seq<u8> {
    match k {
        EventKind::ReceivedPow(b) => b@,
        EventKind::NotEnoughBytesForPow => zeros(56),
        EventKind::BlockedReusingPow { already_connected, try_connect } => endpoint_bytes(
            already_connected,
        ) + endpoint_bytes(try_connect) + zeros(44),
    }
}

/// The record of an event as the classifier emits it.
pub open spec fn event_record(e: Event) -> Seq<u8> {
    pair_bytes(e.pair) + tag_bytes(kind_tag(e.event)) + kind_payload(e.event)
}

/// Whether `rec` is a record that stands for `e`; padding is not looked at.
pub open spec fn record_holds(rec: Seq<u8>, e: Event) -> bool {
    &&& rec.len() == RECORD_LEN
    &&& e.pair == pair_at(rec, 0)
    &&& tag_at(rec, 12) == kind_tag(e.event)
    &&& match e.event {
        EventKind::ReceivedPow(b) => b@ == rec.subrange(16, 72),
        EventKind::NotEnoughBytesForPow => true,
        EventKind::BlockedReusingPow { already_connected, try_connect } => {
            &&& already_connected == endpoint_at(rec, 16)
            &&& try_connect == endpoint_at(rec, 22)
        },
    }
}

/// The tagged union of a stamp.
pub open spec fn pow_union(p: PowBytes) -> Seq<u8> {
    match p {
        PowBytes::Nothing => tag_bytes(0) + zeros(56),
        PowBytes::NotEnough => tag_bytes(1) + zeros(56),
        PowBytes::Bytes(b) => tag_bytes(2) + b@,
    }
}

/// Whether `u` is a union that stands for `p`; padding is not looked at.
pub open spec fn pow_union_holds(u: Seq<u8>, p: PowBytes) -> bool {
    &&& u.len() == POW_UNION_LEN
    &&& match p {
        PowBytes::Nothing => tag_at(u, 0) == 0,
        PowBytes::NotEnough => tag_at(u, 0) == 1,
        PowBytes::Bytes(b) => tag_at(u, 0) == 2 && b@ == u.subrange(4, 60),
    }
}

fn push_zeros(out: &mut Vec<u8>, n: usize)
    ensures
        final(out)@ == old(out)@ + zeros(n as nat),
{
    let mut i: usize = 0;
    while i < n
        invariant
            0 <= i <= n,
            out@ == old(out)@ + zeros(i as nat),
        decreases n - i,
    {
        out.push(0);
        i += 1;
        assert(out@ =~= old(out)@ + zeros(i as nat));
    }
}

fn push_tag(out: &mut Vec<u8>, t: u8)
    ensures
        final(out)@ == old(out)@ + tag_bytes(t),
{
    out.push(t);
    out.push(0);
    out.push(0);
    out.push(0);
    assert(out@ =~= old(out)@ + tag_bytes(t));
}

fn push_stamp(out: &mut Vec<u8>, b: &[u8; 56])
    ensures
        final(out)@ == old(out)@ + b@,
{
    let mut i: usize = 0;
    while i < POW_LEN
        invariant
            0 <= i <= POW_LEN,
            out@ == old(out)@ + b@.subrange(0, i as int),
        decreases POW_LEN - i,
    {
        out.push(b[i]);
        i += 1;
        assert(out@ =~= old(out)@ + b@.subrange(0, i as int));
    }
    assert(b@.subrange(0, 56) =~= b@);
}

fn read_tag(s: &[u8], at: usize) -> (r: u32)
    requires
        at + 4 <= s@.len(),
    ensures
        r == tag_at(s@, at as int),
{
    (s[at] as u32) + (s[at + 1] as u32) * 0x100 + (s[at + 2] as u32) * 0x1_0000 + (s[at + 3]
        as u32) * 0x100_0000
}

impl Event {
    /// The record of the event: the pair, the little-endian tag, the payload.
    pub fn to_record(&self) -> (r: Vec<u8>)
        ensures
            r@ == event_record(*self),
            r@.len() == RECORD_LEN,
    {
        let mut r = Vec::new();
        self.pair.write(&mut r);
        match &self.event {
            EventKind::ReceivedPow(b) => {
                push_tag(&mut r, 0);
                push_stamp(&mut r, b);
            },
            EventKind::NotEnoughBytesForPow => {
                push_tag(&mut r, 1);
                push_zeros(&mut r, POW_LEN);
            },
            EventKind::BlockedReusingPow { already_connected, try_connect } => {
                push_tag(&mut r, 2);
                already_connected.write(&mut r);
                try_connect.write(&mut r);
                push_zeros(&mut r, 44);
            },
        }
        assert(r@ =~= event_record(*self));
        r
    }

    /// The event that a record stands for; `None` for a record of another
    /// length or with an unknown tag.
    pub fn from_record(rec: &[u8]) -> (r: Option<Event>)
        ensures
            match r {
                Some(e) => record_holds(rec@, e),
                None => rec@.len() != RECORD_LEN || !(0 <= tag_at(rec@, 12) <= 2),
            },
    {
        if rec.len() != RECORD_LEN {
            return None;
        }
        let pair = EndpointPair::read(rec, 0);
        let tag = read_tag(rec, 12);
        if tag == 0 {
            Some(Event { pair, event: EventKind::ReceivedPow(read_array(rec, 16)) })
        } else if tag == 1 {
            Some(Event { pair, event: EventKind::NotEnoughBytesForPow })
        } else if tag == 2 {
            Some(
                Event {
                    pair,
                    event: EventKind::BlockedReusingPow {
                        already_connected: Endpoint::read(rec, 16),
                        try_connect: Endpoint::read(rec, 22),
                    },
                },
            )
        } else {
            None
        }
    }
}

impl PowBytes {
    /// The tagged union: a little-endian tag, then the stamp or zeros.
    pub fn to_bytes(&self) -> (r: Vec<u8>)
        ensures
            r@ == pow_union(*self),
            r@.len() == POW_UNION_LEN,
    {
        let mut r = Vec::new();
        match self {
            PowBytes::Nothing => {
                push_tag(&mut r, 0);
                push_zeros(&mut r, POW_LEN);
            },
            PowBytes::NotEnough => {
                push_tag(&mut r, 1);
                push_zeros(&mut r, POW_LEN);
            },
            PowBytes::Bytes(b) => {
                push_tag(&mut r, 2);
                push_stamp(&mut r, b);
            },
        }
        assert(r@ =~= pow_union(*self));
        r
    }

    /// The stamp that a union stands for; `None` for another length or an
    /// unknown tag.
    pub fn from_bytes(u: &[u8]) -> (r: Option<PowBytes>)
        ensures
            match r {
                Some(p) => pow_union_holds(u@, p),
                None => u@.len() != POW_UNION_LEN || !(0 <= tag_at(u@, 0) <= 2),
            },
    {
        if u.len() != POW_UNION_LEN {
            return None;
        }
        let tag = read_tag(u, 0);
        if tag == 0 {
            Some(PowBytes::Nothing)
        } else if tag == 1 {
            Some(PowBytes::NotEnough)
        } else if tag == 2 {
            Some(PowBytes::Bytes(read_array(u, 4)))
        } else {
            None
        }
    }
}

/// Every event reads back from its own record.
pub proof fn lemma_event_record_round_trip(e: Event)
    ensures
        record_holds(event_record(e), e),
{
    let rec = event_record(e);
    assert(rec.subrange(0, 12) =~= pair_bytes(e.pair));
    crate::endpoint::lemma_pair_round_trip(e.pair, rec, 0);
    assert(rec[12] == kind_tag(e.event));
    assert(rec[13] == 0 && rec[14] == 0 && rec[15] == 0);
    match e.event {
        EventKind::ReceivedPow(b) => {
            assert(b@ =~= rec.subrange(16, 72));
        },
        EventKind::NotEnoughBytesForPow => {},
        EventKind::BlockedReusingPow { already_connected, try_connect } => {
            assert(rec.subrange(16, 22) =~= endpoint_bytes(already_connected));
            assert(rec.subrange(22, 28) =~= endpoint_bytes(try_connect));
            crate::endpoint::lemma_endpoint_round_trip(already_connected, rec, 16);
            crate::endpoint::lemma_endpoint_round_trip(try_connect, rec, 22);
        },
    }
}

/// Every stamp union reads back from its own bytes.
pub proof fn lemma_pow_union_round_trip(p: PowBytes)
    ensures
        pow_union_holds(pow_union(p), p),
{
    let u = pow_union(p);
    assert(u[1] == 0 && u[2] == 0 && u[3] == 0);
    match p {
        PowBytes::Bytes(b) => {
            assert(b@ =~= u.subrange(4, 60));
        },
        _ => {},
    }
}

} // verus!
