use vstd::prelude::*;

use crate::addr::{socket_text, write_socket, SocketAddrV4};
use crate::maps::MapKey;

verus! {

/// An IPv4 address and a TCP port, both in the byte order of the wire.
#[derive(Clone, Copy, Debug, PartialEq, Eq, Hash)]
pub struct Endpoint {
    pub ipv4: [u8; 4],
    pub port: [u8; 2],
}

/// The two ends of a flow: the key of the per-flow status table.
#[derive(Clone, Copy, Debug, PartialEq, Eq, Hash)]
pub struct EndpointPair {
    pub remote: Endpoint,
    pub local: Endpoint,
}

/// What is known of the remote end that claims a public key.
#[derive(Clone, Copy, Debug, PartialEq, Eq)]
pub enum Peer {
    Uncertain(Endpoint),
    Valid(Endpoint),
}

/// The six bytes of an endpoint: the address, then the port.
pub open spec fn endpoint_bytes(e: Endpoint) -> Seq<u8> {
    e.ipv4@ + e.port@
}

/// The endpoint stored in six bytes.
pub open spec fn endpoint_at(s: Seq<u8>, at: int) -> Endpoint {
    Endpoint { ipv4: [s[at], s[at + 1], s[at + 2], s[at + 3]], port: [s[at + 4], s[at + 5]] }
}

/// The twelve bytes of a pair: the local endpoint, then the remote one.
pub open spec fn pair_bytes(p: EndpointPair) -> Seq<u8> {
    endpoint_bytes(p.local) + endpoint_bytes(p.remote)
}

/// The pair stored in twelve bytes.
pub open spec fn pair_at(s: Seq<u8>, at: int) -> EndpointPair {
    EndpointPair { local: endpoint_at(s, at), remote: endpoint_at(s, at + 6) }
}

/// The port of an endpoint as a number: its two bytes read big-endian.
pub open spec fn port_number(e: Endpoint) -> u16 {
    (e.port[0] as int * 256 + e.port[1] as int) as u16
}

pub proof fn lemma_endpoint_round_trip(e: Endpoint, s: Seq<u8>, at: int)
    requires
        0 <= at,
        at + 6 <= s.len(),
        s.subrange(at, at + 6) == endpoint_bytes(e),
    ensures
        endpoint_at(s, at) == e,
{
    assert(s[at] == endpoint_bytes(e)[0]);
    assert(s[at + 1] == endpoint_bytes(e)[1]);
    assert(s[at + 2] == endpoint_bytes(e)[2]);
    assert(s[at + 3] == endpoint_bytes(e)[3]);
    assert(s[at + 4] == endpoint_bytes(e)[4]);
    assert(s[at + 5] == endpoint_bytes(e)[5]);
    assert(endpoint_at(s, at).ipv4 =~= e.ipv4);
    assert(endpoint_at(s, at).port =~= e.port);
}

pub proof fn lemma_pair_round_trip(p: EndpointPair, s: Seq<u8>, at: int)
    requires
        0 <= at,
        at + 12 <= s.len(),
        s.subrange(at, at + 12) == pair_bytes(p),
    ensures
        pair_at(s, at) == p,
{
    assert(s.subrange(at, at + 6) =~= s.subrange(at, at + 12).subrange(0, 6));
    assert(s.subrange(at + 6, at + 12) =~= s.subrange(at, at + 12).subrange(6, 12));
    assert(pair_bytes(p).subrange(0, 6) =~= endpoint_bytes(p.local));
    assert(pair_bytes(p).subrange(6, 12) =~= endpoint_bytes(p.remote));
    lemma_endpoint_round_trip(p.local, s, at);
    lemma_endpoint_round_trip(p.remote, s, at + 6);
}

impl Endpoint {
    /// The endpoint stored in six bytes at `at`.
    pub fn read(s: &[u8], at: usize) -> (r: Endpoint)
        requires
            at + 6 <= s@.len(),
        ensures
            r == endpoint_at(s@, at as int),
    {
        Endpoint {
            ipv4: [s[at], s[at + 1], s[at + 2], s[at + 3]],
            port: [s[at + 4], s[at + 5]],
        }
    }

    /// Appends the six bytes of the endpoint.
    pub fn write(&self, out: &mut Vec<u8>)
        ensures
            final(out)@ == old(out)@ + endpoint_bytes(*self),
    {
        out.push(self.ipv4[0]);
        out.push(self.ipv4[1]);
        out.push(self.ipv4[2]);
        out.push(self.ipv4[3]);
        out.push(self.port[0]);
        out.push(self.port[1]);
        assert(final(out)@ =~= old(out)@ + endpoint_bytes(*self));
    }

    /// The six bytes of the endpoint.
    pub fn to_bytes(&self) -> (r: Vec<u8>)
        ensures
            r@ == endpoint_bytes(*self),
    {
        let mut r = Vec::new();
        self.write(&mut r);
        assert(r@ =~= endpoint_bytes(*self));
        r
    }

    /// The endpoint stored in exactly six bytes.
    pub fn from_bytes(s: &[u8]) -> (r: Option<Endpoint>)
        ensures
            r == (if s@.len() == 6 {
                Some(endpoint_at(s@, 0))
            } else {
                None
            }),
    {
        if s.len() == 6 {
            Some(Endpoint::read(s, 0))
        } else {
            None
        }
    }

    /// The port as a number.
    pub fn port_number(&self) -> (r: u16)
        ensures
            r == port_number(*self),
    {
        (self.port[0] as u16) * 256 + self.port[1] as u16
    }
}

impl EndpointPair {
    /// The pair stored in twelve bytes at `at`.
    pub fn read(s: &[u8], at: usize) -> (r: EndpointPair)
        requires
            at + 12 <= s@.len(),
        ensures
            r == pair_at(s@, at as int),
    {
        let len: usize = s.len();
        assert(at + 6 <= len);
        EndpointPair { local: Endpoint::read(s, at), remote: Endpoint::read(s, at + 6) }
    }

    /// Appends the twelve bytes of the pair.
    pub fn write(&self, out: &mut Vec<u8>)
        ensures
            final(out)@ == old(out)@ + pair_bytes(*self),
    {
        self.local.write(out);
        self.remote.write(out);
        assert(final(out)@ =~= old(out)@ + pair_bytes(*self));
    }

    /// The twelve bytes of the pair.
    pub fn to_bytes(&self) -> (r: Vec<u8>)
        ensures
            r@ == pair_bytes(*self),
    {
        let mut r = Vec::new();
        self.write(&mut r);
        assert(r@ =~= pair_bytes(*self));
        r
    }

    /// The pair stored in exactly twelve bytes.
    pub fn from_bytes(s: &[u8]) -> (r: Option<EndpointPair>)
        ensures
            r == (if s@.len() == 12 {
                Some(pair_at(s@, 0))
            } else {
                None
            }),
    {
        if s.len() == 12 {
            Some(EndpointPair::read(s, 0))
        } else {
            None
        }
    }
}

impl Endpoint {
    /// The text of the endpoint: `a.b.c.d:port`.
    pub fn text(&self) -> (r: Vec<u8>)
        ensures
            r@ == socket_text(SocketAddrV4 { ip: self.ipv4, port: port_number(*self) }),
    {
        let mut r = Vec::new();
        write_socket(&mut r, &SocketAddrV4 { ip: self.ipv4, port: self.port_number() });
        r
    }
}

impl MapKey for Endpoint {
    fn same(&self, other: &Self) -> (r: bool) {
        self.ipv4.same(&other.ipv4) && self.port.same(&other.port)
    }
}

impl MapKey for EndpointPair {
    fn same(&self, other: &Self) -> (r: bool) {
        self.remote.same(&other.remote) && self.local.same(&other.local)
    }
}

/// Reading back the bytes of an endpoint gives the endpoint.
pub proof fn lemma_endpoint_bytes_round_trip(e: Endpoint)
    ensures
        endpoint_at(endpoint_bytes(e), 0) == e,
{
    assert(endpoint_bytes(e).subrange(0, 6) =~= endpoint_bytes(e));
    lemma_endpoint_round_trip(e, endpoint_bytes(e), 0);
}

/// Reading back the bytes of a pair gives the pair.
pub proof fn lemma_pair_bytes_round_trip(p: EndpointPair)
    ensures
        pair_at(pair_bytes(p), 0) == p,
{
    assert(pair_bytes(p).subrange(0, 12) =~= pair_bytes(p));
    lemma_pair_round_trip(p, pair_bytes(p), 0);
}

} // verus!
