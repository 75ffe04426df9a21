use tezedge_firewall::{Command, CommandDecoder, Endpoint, MapUpdate, SharedMaps, SocketAddrV4};

#[test]
fn block_then_unblock_over_the_socket() {
    let mut maps = SharedMaps::new();
    let mut stream = Command::Block([192, 168, 1, 1]).as_bytes();
    stream.extend_from_slice(&Command::Unblock([192, 168, 1, 1]).as_bytes());
    let first = CommandDecoder.decode(&mut stream).unwrap().unwrap();
    assert!(maps.handle_command(&first));
    assert!(maps.is_blacklisted(&[192, 168, 1, 1]));
    let second = CommandDecoder.decode(&mut stream).unwrap().unwrap();
    assert!(maps.handle_command(&second));
    assert!(!maps.is_blacklisted(&[192, 168, 1, 1]));
    assert!(stream.is_empty());
}

#[test]
fn node_port_is_replaced() {
    let mut maps = SharedMaps::new();
    assert!(maps.handle_command(&Command::FilterLocalPort(9732)));
    assert!(maps.handle_command(&Command::FilterLocalPort(9733)));
    assert!(maps.is_node_port(9733));
    assert!(!maps.is_node_port(9732));
}

#[test]
fn remote_addr_is_stored_in_wire_order() {
    let mut maps = SharedMaps::new();
    let a = SocketAddrV4 { ip: [10, 0, 0, 8], port: 4000 };
    assert_eq!(
        MapUpdate::from_command(&Command::FilterRemoteAddr(a)),
        MapUpdate::AddPendingPeer(Endpoint { ipv4: [10, 0, 0, 8], port: [0x0f, 0xa0] })
    );
    assert!(maps.handle_command(&Command::FilterRemoteAddr(a)));
    assert!(maps.is_pending(&Endpoint { ipv4: [10, 0, 0, 8], port: [0x0f, 0xa0] }));
}

#[test]
fn disconnected_unbinds_key() {
    let mut maps = SharedMaps::new();
    let a = SocketAddrV4 { ip: [10, 0, 0, 8], port: 4000 };
    assert_eq!(
        MapUpdate::from_command(&Command::Disconnected(a, [5; 32])),
        MapUpdate::RemovePeer([5; 32])
    );
    assert!(maps.handle_command(&Command::Disconnected(a, [5; 32])));
    assert_eq!(maps.peer(&[5; 32]), None);
}

#[test]
fn blacklist_is_bounded() {
    let mut maps = SharedMaps::new();
    let ips: Vec<[u8; 4]> = (0..1100u32).map(|i| [10, 1, (i >> 8) as u8, i as u8]).collect();
    assert_eq!(maps.seed_blacklist(&ips), 1024);
    assert!(maps.is_blacklisted(&[10, 1, 0, 0]));
    assert!(!maps.is_blacklisted(&[10, 1, 4, 0x4b]));
    // blocking an address already there still works when full
    assert!(maps.handle_command(&Command::Block([10, 1, 0, 0])));
    assert!(!maps.handle_command(&Command::Block([10, 1, 4, 0x4c])));
}

#[test]
fn pending_peers_are_bounded() {
    let mut maps = SharedMaps::new();
    for i in 0..1024u32 {
        let a = SocketAddrV4 { ip: [10, 2, (i >> 8) as u8, i as u8], port: 1 };
        assert!(maps.handle_command(&Command::FilterRemoteAddr(a)));
    }
    let a = SocketAddrV4 { ip: [10, 3, 0, 0], port: 1 };
    assert!(!maps.handle_command(&Command::FilterRemoteAddr(a)));
}
