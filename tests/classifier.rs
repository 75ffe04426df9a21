use tezedge_firewall::{
    firewall, BlockingReason, Command, CommandDecoder, Endpoint, EndpointPair, Event, EventKind,
    MapUpdate, SharedMaps, Status, Verdict,
};

const NODE_IP: [u8; 4] = [127, 0, 0, 1];
const NODE_PORT: u16 = 9732;

fn frame(src: [u8; 4], sport: u16, dst: [u8; 4], dport: u16, payload: &[u8]) -> Vec<u8> {
    let mut f = vec![0u8; 12];
    f.extend_from_slice(&[0x08, 0x00]);
    let total = 40 + payload.len();
    f.extend_from_slice(&[0x45, 0, (total >> 8) as u8, total as u8, 0, 0, 0x40, 0, 64, 6, 0, 0]);
    f.extend_from_slice(&src);
    f.extend_from_slice(&dst);
    f.extend_from_slice(&sport.to_be_bytes());
    f.extend_from_slice(&dport.to_be_bytes());
    f.extend_from_slice(&[0, 0, 0, 1, 0, 0, 0, 0, 0x50, 0x18, 0xff, 0xff, 0, 0, 0, 0]);
    f.extend_from_slice(payload);
    f
}

fn handshake(key: u8, stamp: u8) -> Vec<u8> {
    let mut p = vec![0, 0x86, 0, 0];
    p.extend_from_slice(&[key; 32]);
    p.extend_from_slice(&[stamp; 24]);
    p.extend_from_slice(b"rest of the connection message");
    p
}

fn endpoint(ip: [u8; 4], port: u16) -> Endpoint {
    Endpoint { ipv4: ip, port: port.to_be_bytes() }
}

fn pair(remote: [u8; 4], rport: u16) -> EndpointPair {
    EndpointPair { remote: endpoint(remote, rport), local: endpoint(NODE_IP, NODE_PORT) }
}

fn send_command(maps: &mut SharedMaps, c: Command) {
    let mut b = c.as_bytes();
    let decoded = CommandDecoder.decode(&mut b).unwrap().unwrap();
    assert!(maps.handle_command(&decoded));
}

fn watched_maps() -> SharedMaps {
    let mut maps = SharedMaps::new();
    send_command(&mut maps, Command::FilterLocalPort(NODE_PORT));
    let remote = tezedge_firewall::SocketAddrV4 { ip: [10, 0, 0, 8], port: 4000 };
    send_command(&mut maps, Command::FilterRemoteAddr(remote));
    let remote = tezedge_firewall::SocketAddrV4 { ip: [10, 0, 0, 9], port: 4100 };
    send_command(&mut maps, Command::FilterRemoteAddr(remote));
    maps
}

fn stamp_of(key: u8, stamp: u8) -> [u8; 56] {
    let mut s = [stamp; 56];
    s[..32].copy_from_slice(&[key; 32]);
    s
}

#[test]
fn seeded_blacklist_drops_silently() {
    let mut maps = SharedMaps::new();
    assert_eq!(maps.seed_blacklist(&vec![[10, 0, 0, 7]]), 1);
    let f = frame([10, 0, 0, 7], 1024, NODE_IP, NODE_PORT, b"anything");
    assert_eq!(firewall(&mut maps, &f), Verdict::Drop);
    assert_eq!(maps.take_events(), vec![]);
    assert_eq!(maps.flow_count(), 0);
}

#[test]
fn valid_handshake_passes_and_binds_key() {
    let mut maps = watched_maps();
    let syn = frame([10, 0, 0, 8], 4000, NODE_IP, NODE_PORT, b"");
    assert_eq!(firewall(&mut maps, &syn), Verdict::Pass);
    assert!(maps.take_events().is_empty());
    let hs = frame([10, 0, 0, 8], 4000, NODE_IP, NODE_PORT, &handshake(0xaa, 0x11)[..60]);
    assert_eq!(firewall(&mut maps, &hs), Verdict::Pass);
    let events = maps.take_events();
    let expected = Event { pair: pair([10, 0, 0, 8], 4000), event: EventKind::ReceivedPow(stamp_of(0xaa, 0x11)) };
    assert_eq!(events, vec![expected]);
    assert_eq!(maps.handle_event(&events[0], true), None);
    assert_eq!(maps.peer(&[0xaa; 32]), Some(endpoint([10, 0, 0, 8], 4000)));
    assert!(!maps.is_blacklisted(&[10, 0, 0, 8]));
    let status = maps.flow_status(&pair([10, 0, 0, 8], 4000)).unwrap();
    assert!(status.pow_sent() && !status.blocked());
}

#[test]
fn invalid_pow_blacklists_remote() {
    let mut maps = watched_maps();
    let hs = frame([10, 0, 0, 8], 4000, NODE_IP, NODE_PORT, &handshake(0xaa, 0x22));
    assert_eq!(firewall(&mut maps, &hs), Verdict::Pass);
    let events = maps.take_events();
    assert_eq!(events.len(), 1);
    assert_eq!(
        maps.handle_event(&events[0], false),
        Some(MapUpdate::Block([10, 0, 0, 8], BlockingReason::BadProofOfWork))
    );
    assert!(maps.is_blacklisted(&[10, 0, 0, 8]));
    let next = frame([10, 0, 0, 8], 4000, NODE_IP, NODE_PORT, b"more");
    assert_eq!(firewall(&mut maps, &next), Verdict::Drop);
    assert!(maps.take_events().is_empty());
}

#[test]
fn reused_key_from_other_remote_is_dropped() {
    let mut maps = watched_maps();
    let first = frame([10, 0, 0, 8], 4000, NODE_IP, NODE_PORT, &handshake(0x4b, 0x01));
    assert_eq!(firewall(&mut maps, &first), Verdict::Pass);
    let events = maps.take_events();
    assert!(matches!(events[0].event, EventKind::ReceivedPow(_)));
    assert_eq!(maps.handle_event(&events[0], true), None);

    let second = frame([10, 0, 0, 9], 4100, NODE_IP, NODE_PORT, &handshake(0x4b, 0x02));
    assert_eq!(firewall(&mut maps, &second), Verdict::Drop);
    let events = maps.take_events();
    let expected = Event {
        pair: pair([10, 0, 0, 9], 4100),
        event: EventKind::BlockedReusingPow {
            already_connected: endpoint([10, 0, 0, 8], 4000),
            try_connect: endpoint([10, 0, 0, 9], 4100),
        },
    };
    assert_eq!(events, vec![expected]);
    assert_eq!(
        maps.handle_event(&events[0], true),
        Some(MapUpdate::Block([10, 0, 0, 9], BlockingReason::AlreadyConnected))
    );
    assert!(maps.is_blacklisted(&[10, 0, 0, 9]));
    let status = maps.flow_status(&pair([10, 0, 0, 9], 4100)).unwrap();
    assert!(status.pow_sent() && status.blocked());
}

#[test]
fn other_local_port_passes_untouched() {
    let mut maps = watched_maps();
    let f = frame([10, 0, 0, 8], 4000, NODE_IP, 8080, &handshake(1, 2));
    assert_eq!(firewall(&mut maps, &f), Verdict::Pass);
    assert!(maps.take_events().is_empty());
    assert_eq!(maps.flow_count(), 0);
    assert_eq!(maps.peer(&[1; 32]), None);
}

#[test]
fn remote_not_pending_passes_untouched() {
    let mut maps = watched_maps();
    let f = frame([10, 0, 0, 10], 4000, NODE_IP, NODE_PORT, &handshake(1, 2));
    assert_eq!(firewall(&mut maps, &f), Verdict::Pass);
    assert!(maps.take_events().is_empty());
    assert_eq!(maps.flow_count(), 0);
}

#[test]
fn one_event_per_flow() {
    let mut maps = watched_maps();
    let f = frame([10, 0, 0, 8], 4000, NODE_IP, NODE_PORT, &handshake(7, 7));
    assert_eq!(firewall(&mut maps, &f), Verdict::Pass);
    assert_eq!(maps.take_events().len(), 1);
    for _ in 0..3 {
        assert_eq!(firewall(&mut maps, &f), Verdict::Pass);
    }
    assert!(maps.take_events().is_empty());
}

#[test]
fn short_payload_is_dropped() {
    let mut maps = watched_maps();
    let f = frame([10, 0, 0, 8], 4000, NODE_IP, NODE_PORT, &[1u8; 59]);
    assert_eq!(firewall(&mut maps, &f), Verdict::Drop);
    let expected = Event { pair: pair([10, 0, 0, 8], 4000), event: EventKind::NotEnoughBytesForPow };
    assert_eq!(maps.take_events(), vec![expected]);
    assert_eq!(
        maps.handle_event(&expected, true),
        Some(MapUpdate::Block([10, 0, 0, 8], BlockingReason::BadProofOfWork))
    );
    assert!(maps.is_blacklisted(&[10, 0, 0, 8]));
    let status = maps.flow_status(&pair([10, 0, 0, 8], 4000)).unwrap();
    assert_eq!(status.bits(), 3);
}

#[test]
fn not_tcp_or_not_ipv4_passes() {
    let mut maps = watched_maps();
    let mut udp = frame([10, 0, 0, 8], 4000, NODE_IP, NODE_PORT, &handshake(1, 1));
    udp[23] = 17;
    assert_eq!(firewall(&mut maps, &udp), Verdict::Pass);
    let mut v6 = frame([10, 0, 0, 8], 4000, NODE_IP, NODE_PORT, &handshake(1, 1));
    v6[12] = 0x86;
    v6[13] = 0xdd;
    assert_eq!(firewall(&mut maps, &v6), Verdict::Pass);
    assert_eq!(firewall(&mut maps, &[0u8; 20]), Verdict::Pass);
    assert!(maps.take_events().is_empty());
    assert_eq!(maps.flow_count(), 0);
}

#[test]
fn ip_options_move_the_payload() {
    let mut maps = watched_maps();
    let mut f = frame([10, 0, 0, 8], 4000, NODE_IP, NODE_PORT, &handshake(3, 4));
    // an IPv4 header of six words: four bytes of options before TCP
    f[14] = 0x46;
    for b in [1u8, 1, 1, 0].iter().rev() {
        f.insert(34, *b);
    }
    assert_eq!(firewall(&mut maps, &f), Verdict::Pass);
    let events = maps.take_events();
    assert_eq!(events[0].event, EventKind::ReceivedPow(stamp_of(3, 4)));
}

#[test]
fn blacklist_wins_over_everything() {
    let mut maps = watched_maps();
    let f = frame([10, 0, 0, 8], 4000, NODE_IP, NODE_PORT, &handshake(9, 9));
    send_command(&mut maps, Command::Block([10, 0, 0, 8]));
    assert_eq!(firewall(&mut maps, &f), Verdict::Drop);
    assert!(maps.take_events().is_empty());
    assert_eq!(maps.flow_count(), 0);
    send_command(&mut maps, Command::Unblock([10, 0, 0, 8]));
    assert_eq!(firewall(&mut maps, &f), Verdict::Pass);
    assert_eq!(maps.take_events().len(), 1);
}

#[test]
fn status_starts_empty() {
    assert_eq!(Status::empty().bits(), 0);
}
