use vstd::prelude::*;

use crate::arrays::{array_of, read_array};
use crate::endpoint::{port_number, Endpoint, EndpointPair};
use crate::event::{Event, EventKind};
use crate::maps::{BoundedMap, MapKey};
use crate::ring::{ring_push, PerfRing};
use crate::status::{is_pow_sent, lemma_flags, with_flags, Status, BLOCKED, POW_SENT};

verus! {

pub const BLACKLIST_CAPACITY: usize = 1024;

pub const PEERS_CAPACITY: usize = 1024;

pub const PENDING_PEERS_CAPACITY: usize = 1024;

pub const NODE_CAPACITY: usize = 1;

pub const STATUS_CAPACITY: usize = 4096;

pub const EVENTS_CAPACITY: usize = 256;

/// The length of an Ethernet header.
pub const ETHERNET_HEADER_LEN: usize = 14;

/// The first bytes of a handshake: a preamble, the public key, the stamp.
pub const HANDSHAKE_PREFIX_LEN: usize = 60;

/// What becomes of a frame.
#[derive(Clone, Copy, Debug, PartialEq, Eq)]
pub enum Verdict {
    Pass,
    Drop,
}

/// The contents of the shared tables and of the event ring.
pub struct TablesView {
    pub blacklist: Map<[u8; 4], u32>,
    pub peers: Map<[u8; 32], Endpoint>,
    pub pending_peers: Map<Endpoint, u32>,
    pub node: Map<u16, u32>,
    pub status: Map<EndpointPair, Status>,
    pub events: Seq<Event>,
}

/// What the classifier does with one frame.
pub struct Step {
    pub tables: TablesView,
    pub verdict: Verdict,
    pub event: Option<Event>,
}

/// The table after `key` is set to `value`: a new key is refused when the
/// table is full.
pub open spec fn table_set<K, V>(m: Map<K, V>, capacity: nat, key: K, value: V) -> Map<K, V> {
    if m.contains_key(key) || m.dom().len() < capacity {
        m.insert(key, value)
    } else {
        m
    }
}

/// Where the TCP header starts: after the Ethernet header and the IPv4
/// header, whose length is given in words by the low nibble of its first byte.
pub open spec fn tcp_offset(f: Seq<u8>) -> int {
    ETHERNET_HEADER_LEN + (f[14] % 16) * 4
}

/// Whether the frame holds an IPv4 packet that carries a whole TCP header.
pub open spec fn is_ipv4_tcp(f: Seq<u8>) -> bool {
    &&& f.len() >= 34
    &&& f[12] == 0x08 && f[13] == 0x00
    &&& f[14] / 16 == 4
    &&& f[14] % 16 >= 5
    &&& f[23] == 6
    &&& tcp_offset(f) + 20 <= f.len()
}

/// The flow of a TCP frame, in the byte order of the wire.
pub open spec fn frame_pair(f: Seq<u8>) -> EndpointPair {
    let t = tcp_offset(f);
    EndpointPair {
        remote: Endpoint { ipv4: [f[26], f[27], f[28], f[29]], port: [f[t], f[t + 1]] },
        local: Endpoint { ipv4: [f[30], f[31], f[32], f[33]], port: [f[t + 2], f[t + 3]] },
    }
}

/// Where the TCP payload starts: the TCP header length is given in words by
/// the high nibble of its thirteenth byte.
pub open spec fn payload_offset(f: Seq<u8>) -> int {
    tcp_offset(f) + (f[tcp_offset(f) + 12] / 16) * 4
}

/// Whether the node asked for the flow to be inspected: its local port is
/// the node's and its remote end is a pending peer.
pub open spec fn is_watched(t: TablesView, p: EndpointPair) -> bool {
    &&& t.node.contains_key(port_number(p.local))
    &&& t.pending_peers.contains_key(p.remote)
}

/// The recorded status of a flow, or no flag.
pub open spec fn status_of(t: TablesView, p: EndpointPair) -> Status {
    if t.status.contains_key(p) {
        t.status[p]
    } else {
        Status { bits: 0 }
    }
}

/// The tables with a new status of a flow and an event added to the ring.
pub open spec fn record(t: TablesView, p: EndpointPair, s: Status, e: Event) -> TablesView {
    TablesView {
        status: table_set(t.status, STATUS_CAPACITY as nat, p, s),
        events: ring_push(t.events, EVENTS_CAPACITY as nat, e),
        ..t
    }
}

/// The classifier on one frame.
pub open spec fn classify(t: TablesView, f: Seq<u8>) -> Step {
    let pass = Step { tables: t, verdict: Verdict::Pass, event: None };
    if !is_ipv4_tcp(f) {
        pass
    } else {
        let p = frame_pair(f);
        let off = payload_offset(f);
        if t.blacklist.contains_key(p.remote.ipv4) {
            Step { tables: t, verdict: Verdict::Drop, event: None }
        } else if !is_watched(t, p) || off >= f.len() || is_pow_sent(status_of(t, p)) {
            pass
        } else {
            let sent = with_flags(status_of(t, p), POW_SENT);
            if off + HANDSHAKE_PREFIX_LEN > f.len() {
                let e = Event { pair: p, event: EventKind::NotEnoughBytesForPow };
                Step {
                    tables: record(t, p, with_flags(sent, BLOCKED), e),
                    verdict: Verdict::Drop,
                    event: Some(e),
                }
            } else {
                let pk = array_of::<32>(f.subrange(off + 4, off + 36));
                if !t.peers.contains_key(pk) {
                    let e = Event {
                        pair: p,
                        event: EventKind::ReceivedPow(array_of::<56>(f.subrange(off + 4, off + 60))),
                    };
                    let bound = TablesView {
                        peers: table_set(t.peers, PEERS_CAPACITY as nat, pk, p.remote),
                        ..t
                    };
                    Step { tables: record(bound, p, sent, e), verdict: Verdict::Pass, event: Some(e) }
                } else if t.peers[pk] != p.remote {
                    let e = Event {
                        pair: p,
                        event: EventKind::BlockedReusingPow {
                            already_connected: t.peers[pk],
                            try_connect: p.remote,
                        },
                    };
                    Step {
                        tables: record(t, p, with_flags(sent, BLOCKED), e),
                        verdict: Verdict::Drop,
                        event: Some(e),
                    }
                } else {
                    Step {
                        tables: TablesView {
                            status: table_set(t.status, STATUS_CAPACITY as nat, p, sent),
                            ..t
                        },
                        verdict: Verdict::Pass,
                        event: None,
                    }
                }
            }
        }
    }
}

/// The tables after the classifier has seen each frame in turn.
pub open spec fn run(t: TablesView, frames: Seq<Seq<u8>>) -> TablesView
    decreases frames.len(),
{
    if frames.len() == 0 {
        t
    } else {
        classify(run(t, frames.drop_last()), frames.last()).tables
    }
}

/// The classifier never changes the blacklist, the node port, the pending
/// peers, and changes a flow's status only for the flow of the frame.
pub proof fn lemma_classify_frame(t: TablesView, f: Seq<u8>)
    ensures
        classify(t, f).tables.blacklist == t.blacklist,
        classify(t, f).tables.node == t.node,
        classify(t, f).tables.pending_peers == t.pending_peers,
        forall|q: EndpointPair|
            (!is_ipv4_tcp(f) || q != frame_pair(f)) ==> (#[trigger] classify(
                t,
                f,
            ).tables.status.contains_key(q) == t.status.contains_key(q) && (t.status.contains_key(q)
                ==> classify(t, f).tables.status[q] == t.status[q])),
{
}

/// Once an address is on the blacklist, every later frame from it is
/// dropped, with no event and no change, whatever else the tables hold.
pub proof fn lemma_blacklisted_source_dropped(t: TablesView, frames: Seq<Seq<u8>>, f: Seq<u8>)
    requires
        is_ipv4_tcp(f),
        t.blacklist.contains_key(frame_pair(f).remote.ipv4),
    ensures
        classify(run(t, frames), f).verdict == Verdict::Drop,
        classify(run(t, frames), f).event is None,
        classify(run(t, frames), f).tables == run(t, frames),
    decreases frames.len(),
{
    if frames.len() > 0 {
        lemma_blacklisted_source_dropped(t, frames.drop_last(), f);
        lemma_classify_frame(run(t, frames.drop_last()), frames.last());
    }
}

/// A frame for a local port other than the node's passes, with no event and
/// no change to any table.
pub proof fn lemma_other_port_passes(t: TablesView, f: Seq<u8>)
    requires
        is_ipv4_tcp(f),
        !t.blacklist.contains_key(frame_pair(f).remote.ipv4),
        !t.node.contains_key(port_number(frame_pair(f).local)),
    ensures
        classify(t, f).verdict == Verdict::Pass,
        classify(t, f).event is None,
        classify(t, f).tables == t,
{
}

/// Whether the status of a flow is recorded with `POW_SENT`.
pub open spec fn pow_recorded(t: TablesView, p: EndpointPair) -> bool {
    t.status.contains_key(p) && is_pow_sent(t.status[p])
}

proof fn lemma_pow_recorded_kept(t: TablesView, frames: Seq<Seq<u8>>, p: EndpointPair)
    requires
        pow_recorded(t, p),
    ensures
        pow_recorded(run(t, frames), p),
    decreases frames.len(),
{
    if frames.len() > 0 {
        lemma_pow_recorded_kept(t, frames.drop_last(), p);
        lemma_classify_frame(run(t, frames.drop_last()), frames.last());
    }
}

/// The first handshake payload of a watched flow, when it holds the whole
/// prefix, gives one event; no later frame of that flow gives another,
/// whatever frames come between. This needs room for the flow in the status
/// table, and a key not yet bound to this remote end (a remote end that
/// presents its own key again is let through silently).
pub proof fn lemma_one_event_per_flow(t: TablesView, f: Seq<u8>, later: Seq<Seq<u8>>, g: Seq<u8>)
    requires
        is_ipv4_tcp(f),
        !t.blacklist.contains_key(frame_pair(f).remote.ipv4),
        is_watched(t, frame_pair(f)),
        !is_pow_sent(status_of(t, frame_pair(f))),
        payload_offset(f) + HANDSHAKE_PREFIX_LEN <= f.len(),
        t.status.contains_key(frame_pair(f)) || t.status.dom().len() < STATUS_CAPACITY,
        t.peers.contains_key(array_of::<32>(f.subrange(payload_offset(f) + 4, payload_offset(f) + 36)))
            ==> t.peers[array_of::<32>(f.subrange(payload_offset(f) + 4, payload_offset(f) + 36))]
            != frame_pair(f).remote,
        is_ipv4_tcp(g),
        frame_pair(g) == frame_pair(f),
    ensures
        classify(t, f).event is Some,
        classify(run(classify(t, f).tables, later), g).event is None,
{
    let p = frame_pair(f);
    let t1 = classify(t, f).tables;
    lemma_flags(status_of(t, p).bits);
    lemma_flags(status_of(t, p).bits | POW_SENT);
    assert(pow_recorded(t1, p));
    lemma_pow_recorded_kept(t1, later, p);
}

/// Two flows from different remote ends that present the same public key:
/// the first is bound to the key and reported for checking; the second is
/// dropped and reported as a reuse of the key.
pub proof fn lemma_reused_key_blocked(t: TablesView, f1: Seq<u8>, f2: Seq<u8>)
    requires
        is_ipv4_tcp(f1),
        is_ipv4_tcp(f2),
        frame_pair(f1).remote != frame_pair(f2).remote,
        !t.blacklist.contains_key(frame_pair(f1).remote.ipv4),
        !t.blacklist.contains_key(frame_pair(f2).remote.ipv4),
        is_watched(t, frame_pair(f1)),
        is_watched(t, frame_pair(f2)),
        !is_pow_sent(status_of(t, frame_pair(f1))),
        !is_pow_sent(status_of(t, frame_pair(f2))),
        payload_offset(f1) + HANDSHAKE_PREFIX_LEN <= f1.len(),
        payload_offset(f2) + HANDSHAKE_PREFIX_LEN <= f2.len(),
        f1.subrange(payload_offset(f1) + 4, payload_offset(f1) + 36) == f2.subrange(
            payload_offset(f2) + 4,
            payload_offset(f2) + 36,
        ),
        !t.peers.contains_key(array_of::<32>(f1.subrange(payload_offset(f1) + 4, payload_offset(f1) + 36))),
        t.peers.dom().len() < PEERS_CAPACITY,
    ensures
        classify(t, f1).verdict == Verdict::Pass,
        classify(t, f1).event matches Some(e) && e.pair == frame_pair(f1) && e.event is ReceivedPow,
        classify(classify(t, f1).tables, f2).verdict == Verdict::Drop,
        classify(classify(t, f1).tables, f2).event == Some(
            Event {
                pair: frame_pair(f2),
                event: EventKind::BlockedReusingPow {
                    already_connected: frame_pair(f1).remote,
                    try_connect: frame_pair(f2).remote,
                },
            },
        ),
{
    lemma_classify_frame(t, f1);
    assert(frame_pair(f1) != frame_pair(f2));
}

/// A watched flow whose first payload is shorter than the handshake prefix
/// is dropped and reported as such.
pub proof fn lemma_short_payload_dropped(t: TablesView, f: Seq<u8>)
    requires
        is_ipv4_tcp(f),
        !t.blacklist.contains_key(frame_pair(f).remote.ipv4),
        is_watched(t, frame_pair(f)),
        !is_pow_sent(status_of(t, frame_pair(f))),
        payload_offset(f) < f.len(),
        f.len() < payload_offset(f) + HANDSHAKE_PREFIX_LEN,
    ensures
        classify(t, f).verdict == Verdict::Drop,
        classify(t, f).event == Some(
            Event { pair: frame_pair(f), event: EventKind::NotEnoughBytesForPow },
        ),
{
}

/// The tables shared by the classifier and the policy daemon.
///
/// Nothing removes a pending peer: each `FilterRemoteAddr` adds one, so after
/// `PENDING_PEERS_CAPACITY` distinct remote ends further ones are refused
/// (`handle_command` returns `false`), and frames from those remote ends pass
/// without inspection. Likewise the status of a flow is never removed, and
/// once `STATUS_CAPACITY` flows are recorded a new flow's `POW_SENT` is not
/// kept, so each of its payloads is inspected again.
pub struct SharedMaps {
    pub blacklist: BoundedMap<[u8; 4], u32>,
    pub peers: BoundedMap<[u8; 32], Endpoint>,
    pub pending_peers: BoundedMap<Endpoint, u32>,
    pub node: BoundedMap<u16, u32>,
    pub status: BoundedMap<EndpointPair, Status>,
    pub events: PerfRing,
}

impl View for SharedMaps {
    type V = TablesView;

    open spec fn view(&self) -> TablesView {
        TablesView {
            blacklist: self.blacklist@,
            peers: self.peers@,
            pending_peers: self.pending_peers@,
            node: self.node@,
            status: self.status@,
            events: self.events@,
        }
    }
}

impl SharedMaps {
    pub open spec fn wf(&self) -> bool {
        &&& self.blacklist.wf() && self.blacklist.capacity() == BLACKLIST_CAPACITY
        &&& self.peers.wf() && self.peers.capacity() == PEERS_CAPACITY
        &&& self.pending_peers.wf() && self.pending_peers.capacity() == PENDING_PEERS_CAPACITY
        &&& self.node.wf() && self.node.capacity() == NODE_CAPACITY
        &&& self.status.wf() && self.status.capacity() == STATUS_CAPACITY
        &&& self.events.wf() && self.events.capacity() == EVENTS_CAPACITY
    }

    /// Empty tables at their declared capacities.
    pub fn new() -> (r: SharedMaps)
        ensures
            r.wf(),
            r@.blacklist == Map::<[u8; 4], u32>::empty(),
            r@.peers == Map::<[u8; 32], Endpoint>::empty(),
            r@.pending_peers == Map::<Endpoint, u32>::empty(),
            r@.node == Map::<u16, u32>::empty(),
            r@.status == Map::<EndpointPair, Status>::empty(),
            r@.events == Seq::<Event>::empty(),
    {
        SharedMaps {
            blacklist: BoundedMap::new(BLACKLIST_CAPACITY),
            peers: BoundedMap::new(PEERS_CAPACITY),
            pending_peers: BoundedMap::new(PENDING_PEERS_CAPACITY),
            node: BoundedMap::new(NODE_CAPACITY),
            status: BoundedMap::new(STATUS_CAPACITY),
            events: PerfRing::new(EVENTS_CAPACITY),
        }
    }
}

impl SharedMaps {
    /// Whether the address is on the blacklist.
    pub fn is_blacklisted(&self, ip: &[u8; 4]) -> (r: bool)
        requires
            self.wf(),
        ensures
            r == self@.blacklist.contains_key(*ip),
    {
        self.blacklist.contains(ip)
    }

    /// The remote end bound to a public key, if any.
    pub fn peer(&self, public_key: &[u8; 32]) -> (r: Option<Endpoint>)
        requires
            self.wf(),
        ensures
            r == (if self@.peers.contains_key(*public_key) {
                Some(self@.peers[*public_key])
            } else {
                None
            }),
    {
        self.peers.get(public_key)
    }

    /// Whether the remote end is a pending peer.
    pub fn is_pending(&self, remote: &Endpoint) -> (r: bool)
        requires
            self.wf(),
        ensures
            r == self@.pending_peers.contains_key(*remote),
    {
        self.pending_peers.contains(remote)
    }

    /// Whether the port is the node's.
    pub fn is_node_port(&self, port: u16) -> (r: bool)
        requires
            self.wf(),
        ensures
            r == self@.node.contains_key(port),
    {
        self.node.contains(&port)
    }

    /// The recorded status of a flow, if any.
    pub fn flow_status(&self, pair: &EndpointPair) -> (r: Option<Status>)
        requires
            self.wf(),
        ensures
            r == (if self@.status.contains_key(*pair) {
                Some(self@.status[*pair])
            } else {
                None
            }),
    {
        self.status.get(pair)
    }

    /// The number of flows with a recorded status.
    pub fn flow_count(&self) -> (r: usize)
        requires
            self.wf(),
        ensures
            r == self@.status.dom().len(),
    {
        self.status.len()
    }

    /// Takes the events waiting in the ring, oldest first.
    pub fn take_events(&mut self) -> (r: Vec<Event>)
        requires
            old(self).wf(),
        ensures
            final(self).wf(),
            r@ == old(self)@.events,
            final(self)@ == (TablesView { events: Seq::empty(), ..old(self)@ }),
    {
        self.events.drain()
    }
}

/// Classifies one inbound frame: reads and updates the shared tables, may
/// add an event to the ring, and returns whether the frame passes.
pub fn firewall(maps: &mut SharedMaps, frame: &[u8]) -> (r: Verdict)
    requires
        old(maps).wf(),
    ensures
        final(maps).wf(),
        final(maps)@ == classify(old(maps)@, frame@).tables,
        r == classify(old(maps)@, frame@).verdict,
{
    let len: usize = frame.len();
    if len < 34 || frame[12] != 0x08 || frame[13] != 0x00 || frame[14] / 16 != 4 || frame[14] % 16
        < 5 || frame[23] != 6 {
        return Verdict::Pass;
    }
    let tcp: usize = ETHERNET_HEADER_LEN + (frame[14] % 16) as usize * 4;
    if tcp + 20 > len {
        return Verdict::Pass;
    }
    let pair = EndpointPair {
        remote: Endpoint {
            ipv4: [frame[26], frame[27], frame[28], frame[29]],
            port: [frame[tcp], frame[tcp + 1]],
        },
        local: Endpoint {
            ipv4: [frame[30], frame[31], frame[32], frame[33]],
            port: [frame[tcp + 2], frame[tcp + 3]],
        },
    };
    if maps.blacklist.contains(&pair.remote.ipv4) {
        return Verdict::Drop;
    }
    if !maps.node.contains(&pair.local.port_number()) {
        return Verdict::Pass;
    }
    if !maps.pending_peers.contains(&pair.remote) {
        return Verdict::Pass;
    }
    let off: usize = tcp + (frame[tcp + 12] / 16) as usize * 4;
    if off >= len {
        return Verdict::Pass;
    }
    let mut status = match maps.status.get(&pair) {
        Some(s) => s,
        None => Status::empty(),
    };
    if status.pow_sent() {
        return Verdict::Pass;
    }
    status.set_pow_sent();
    if off + HANDSHAKE_PREFIX_LEN > len {
        status.set_blocked();
        maps.status.set(pair, status);
        maps.events.push(Event { pair, event: EventKind::NotEnoughBytesForPow });
        return Verdict::Drop;
    }
    let public_key: [u8; 32] = read_array(frame, off + 4);
    match maps.peers.get(&public_key) {
        None => {
            let stamp: [u8; 56] = read_array(frame, off + 4);
            maps.peers.set(public_key, pair.remote);
            maps.status.set(pair, status);
            maps.events.push(Event { pair, event: EventKind::ReceivedPow(stamp) });
            Verdict::Pass
        },
        Some(endpoint) => {
            if endpoint.same(&pair.remote) {
                maps.status.set(pair, status);
                Verdict::Pass
            } else {
                status.set_blocked();
                maps.status.set(pair, status);
                maps.events.push(
                    Event {
                        pair,
                        event: EventKind::BlockedReusingPow {
                            already_connected: endpoint,
                            try_connect: pair.remote,
                        },
                    },
                );
                Verdict::Drop
            }
        },
    }
}

} // verus!
