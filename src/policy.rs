use vstd::prelude::*;

use crate::addr::SocketAddrV4;
use crate::classifier::{
    classify, frame_pair, is_ipv4_tcp, lemma_blacklisted_source_dropped, run, table_set,
    SharedMaps, TablesView, Verdict, BLACKLIST_CAPACITY, PENDING_PEERS_CAPACITY,
};
use crate::command::Command;
use crate::endpoint::Endpoint;
use crate::event::{Event, EventKind};

verus! {

/// Why an address is put on the blacklist.
#[derive(Clone, Copy, Debug, PartialEq, Eq)]
pub enum BlockingReason {
    NoBlocking,
    CommandLineArgument,
    BadProofOfWork,
    EventFromTezedge,
    AlreadyConnected,
}

/// One change of the shared tables decided by the daemon.
#[derive(Clone, Copy, Debug, PartialEq, Eq)]
pub enum MapUpdate {
    Block([u8; 4], BlockingReason),
    Unblock([u8; 4]),
    SetNodePort(u16),
    AddPendingPeer(Endpoint),
    RemovePeer([u8; 32]),
}

/// The endpoint of a socket address, its port in the byte order of the wire.
pub open spec fn endpoint_of(a: SocketAddrV4) -> Endpoint {
    Endpoint { ipv4: a.ip, port: [(a.port / 0x100) as u8, (a.port % 0x100) as u8] }
}

/// The change that a command asks for.
pub open spec fn command_update_spec(c: Command) -> MapUpdate {
    match c {
        Command::Block(ip) => MapUpdate::Block(ip, BlockingReason::EventFromTezedge),
        Command::Unblock(ip) => MapUpdate::Unblock(ip),
        Command::FilterLocalPort(p) => MapUpdate::SetNodePort(p),
        Command::FilterRemoteAddr(a) => MapUpdate::AddPendingPeer(endpoint_of(a)),
        Command::Disconnected(_, pk) => MapUpdate::RemovePeer(pk),
    }
}

/// The change that an event of the classifier calls for, given the verdict
/// of the proof-of-work check on its stamp (looked at for `ReceivedPow`
/// only): the remote address is blacklisted unless the stamp was received
/// and is valid.
pub open spec fn event_update_spec(e: Event, pow_valid: bool) -> Option<MapUpdate> {
    let ip = e.pair.remote.ipv4;
    match e.event {
        EventKind::ReceivedPow(_) => if pow_valid {
            None
        } else {
            Some(MapUpdate::Block(ip, BlockingReason::BadProofOfWork))
        },
        EventKind::NotEnoughBytesForPow => Some(MapUpdate::Block(ip, BlockingReason::BadProofOfWork)),
        EventKind::BlockedReusingPow { .. } => Some(
            MapUpdate::Block(ip, BlockingReason::AlreadyConnected),
        ),
    }
}

/// The tables after a change. Adding to a full table changes nothing; the
/// node port replaces the one there was.
pub open spec fn apply_update(t: TablesView, u: MapUpdate) -> TablesView {
    match u {
        MapUpdate::Block(ip, _) => TablesView {
            blacklist: table_set(t.blacklist, BLACKLIST_CAPACITY as nat, ip, 0),
            ..t
        },
        MapUpdate::Unblock(ip) => TablesView { blacklist: t.blacklist.remove(ip), ..t },
        MapUpdate::SetNodePort(p) => TablesView { node: Map::empty().insert(p, 0), ..t },
        MapUpdate::AddPendingPeer(ep) => TablesView {
            pending_peers: table_set(t.pending_peers, PENDING_PEERS_CAPACITY as nat, ep, 0),
            ..t
        },
        MapUpdate::RemovePeer(pk) => TablesView { peers: t.peers.remove(pk), ..t },
    }
}

/// Whether a change took effect: only an insertion into a full table fails.
pub open spec fn update_fits(t: TablesView, u: MapUpdate) -> bool {
    match u {
        MapUpdate::Block(ip, _) => t.blacklist.contains_key(ip) || t.blacklist.dom().len()
            < BLACKLIST_CAPACITY,
        MapUpdate::AddPendingPeer(ep) => t.pending_peers.contains_key(ep)
            || t.pending_peers.dom().len() < PENDING_PEERS_CAPACITY,
        _ => true,
    }
}

/// When the daemon refuses a flow (a stamp missing or invalid, or a key
/// reused) and the blacklist has room, every later frame from the flow's
/// remote address is dropped, whatever frames come between.
pub proof fn lemma_refused_flow_stays_dropped(
    t: TablesView,
    e: Event,
    pow_valid: bool,
    frames: Seq<Seq<u8>>,
    f: Seq<u8>,
)
    requires
        event_update_spec(e, pow_valid) is Some,
        t.blacklist.contains_key(e.pair.remote.ipv4) || t.blacklist.dom().len()
            < BLACKLIST_CAPACITY,
        is_ipv4_tcp(f),
        frame_pair(f).remote.ipv4 == e.pair.remote.ipv4,
    ensures
        classify(run(apply_update(t, event_update_spec(e, pow_valid).unwrap()), frames), f).verdict
            == Verdict::Drop,
{
    let after = apply_update(t, event_update_spec(e, pow_valid).unwrap());
    assert(after.blacklist.contains_key(e.pair.remote.ipv4));
    lemma_blacklisted_source_dropped(after, frames, f);
}

impl SocketAddrV4 {
    /// The endpoint of the address, its port in the byte order of the wire.
    pub fn to_endpoint(&self) -> (r: Endpoint)
        ensures
            r == endpoint_of(*self),
    {
        Endpoint { ipv4: self.ip, port: [(self.port / 0x100) as u8, (self.port % 0x100) as u8] }
    }
}

impl MapUpdate {
    /// The change that a command asks for.
    pub fn from_command(c: &Command) -> (r: MapUpdate)
        ensures
            r == command_update_spec(*c),
    {
        match c {
            Command::Block(ip) => MapUpdate::Block(*ip, BlockingReason::EventFromTezedge),
            Command::Unblock(ip) => MapUpdate::Unblock(*ip),
            Command::FilterLocalPort(p) => MapUpdate::SetNodePort(*p),
            Command::FilterRemoteAddr(a) => MapUpdate::AddPendingPeer(a.to_endpoint()),
            Command::Disconnected(_, pk) => MapUpdate::RemovePeer(*pk),
        }
    }

    /// The change that an event calls for, given the verdict of the
    /// proof-of-work check on its stamp.
    pub fn from_event(e: &Event, pow_valid: bool) -> (r: Option<MapUpdate>)
        ensures
            r == event_update_spec(*e, pow_valid),
    {
        let ip = e.pair.remote.ipv4;
        match e.event {
            EventKind::ReceivedPow(_) => if pow_valid {
                None
            } else {
                Some(MapUpdate::Block(ip, BlockingReason::BadProofOfWork))
            },
            EventKind::NotEnoughBytesForPow => Some(
                MapUpdate::Block(ip, BlockingReason::BadProofOfWork),
            ),
            EventKind::BlockedReusingPow { .. } => Some(
                MapUpdate::Block(ip, BlockingReason::AlreadyConnected),
            ),
        }
    }
}

impl SharedMaps {
    /// Makes a change to the tables; tells whether it took effect.
    pub fn apply(&mut self, u: &MapUpdate) -> (r: bool)
        requires
            old(self).wf(),
        ensures
            final(self).wf(),
            final(self)@ == apply_update(old(self)@, *u),
            r == update_fits(old(self)@, *u),
    {
        match u {
            MapUpdate::Block(ip, _) => self.blacklist.set(*ip, 0),
            MapUpdate::Unblock(ip) => {
                self.blacklist.remove(ip);
                true
            },
            MapUpdate::SetNodePort(p) => {
                self.node.clear();
                let ok = self.node.set(*p, 0);
                assert(ok);
                true
            },
            MapUpdate::AddPendingPeer(ep) => self.pending_peers.set(*ep, 0),
            MapUpdate::RemovePeer(pk) => {
                self.peers.remove(pk);
                true
            },
        }
    }

    /// Applies a command of the node; tells whether it took effect.
    pub fn handle_command(&mut self, c: &Command) -> (r: bool)
        requires
            old(self).wf(),
        ensures
            final(self).wf(),
            final(self)@ == apply_update(old(self)@, command_update_spec(*c)),
            r == update_fits(old(self)@, command_update_spec(*c)),
    {
        let u = MapUpdate::from_command(c);
        self.apply(&u)
    }

    /// Acts on an event of the classifier, given the verdict of the
    /// proof-of-work check on its stamp; returns the change made, if any.
    pub fn handle_event(&mut self, e: &Event, pow_valid: bool) -> (r: Option<MapUpdate>)
        requires
            old(self).wf(),
        ensures
            final(self).wf(),
            r == event_update_spec(*e, pow_valid),
            final(self)@ == match r {
                Some(u) => apply_update(old(self)@, u),
                None => old(self)@,
            },
    {
        let u = MapUpdate::from_event(e, pow_valid);
        match u {
            Some(ch) => {
                self.apply(&ch);
            },
            None => {},
        }
        u
    }

    /// Blacklists each address given at startup; returns how many took effect.
    pub fn seed_blacklist(&mut self, ips: &Vec<[u8; 4]>) -> (r: usize)
        requires
            old(self).wf(),
        ensures
            final(self).wf(),
            r <= ips@.len(),
            final(self)@.peers == old(self)@.peers,
            final(self)@.status == old(self)@.status,
            final(self)@.node == old(self)@.node,
            final(self)@.pending_peers == old(self)@.pending_peers,
            final(self)@.events == old(self)@.events,
            forall|k: [u8; 4]|
                #[trigger] final(self)@.blacklist.contains_key(k) ==> old(self)@.blacklist.contains_key(k)
                    || ips@.contains(k),
            old(self)@.blacklist.dom().len() + ips@.len() <= BLACKLIST_CAPACITY ==> forall|
                i: int,
            |
                0 <= i < ips@.len() ==> #[trigger] final(self)@.blacklist.contains_key(ips@[i]),
    {
        let ghost start = self@;
        let mut done: usize = 0;
        let mut i: usize = 0;
        while i < ips.len()
            invariant
                self.wf(),
                0 <= i <= ips@.len(),
                done <= i,
                self@.peers == start.peers,
                self@.status == start.status,
                self@.node == start.node,
                self@.pending_peers == start.pending_peers,
                self@.events == start.events,
                self@.blacklist.dom().len() <= start.blacklist.dom().len() + i,
                forall|k: [u8; 4]|
                    #[trigger] self@.blacklist.contains_key(k) ==> start.blacklist.contains_key(k)
                        || ips@.contains(k),
                start.blacklist.dom().len() + ips@.len() <= BLACKLIST_CAPACITY ==> forall|j: int|
                    0 <= j < i ==> #[trigger] self@.blacklist.contains_key(ips@[j]),
                forall|k: [u8; 4]| #[trigger] start.blacklist.contains_key(k) ==> self@.blacklist.contains_key(k),
            decreases ips@.len() - i,
        {
            let ip = ips[i];
            let ghost before = self@;
            proof {
                self.blacklist.lemma_bounded();
            }
            if self.apply(&MapUpdate::Block(ip, BlockingReason::CommandLineArgument)) {
                done += 1;
            }
            proof {
                assert(ips@.contains(ip)) by {
                    assert(ips@[i as int] == ip);
                }
                if self@.blacklist != before.blacklist {
                    assert(self@.blacklist == before.blacklist.insert(ip, 0));
                    if !before.blacklist.contains_key(ip) {
                        assert(self@.blacklist.dom() =~= before.blacklist.dom().insert(ip));
                    } else {
                        assert(self@.blacklist.dom() =~= before.blacklist.dom());
                    }
                }
            }
            i += 1;
        }
        done
    }
}

} // verus!
