use tezedge_firewall::addr::{parse_ipv4_text, parse_socket_text};
use tezedge_firewall::{Command, CommandDecoder, Error, SocketAddrV4};

#[test]
fn lib_basic() {
    let mut data = vec![1, 0, 0, 0, 9];
    data.extend_from_slice(b"127.0.0.1");

    // correct
    let mut b = data.clone();
    let c = CommandDecoder.decode(&mut b);
    assert_eq!(c.unwrap().unwrap(), Command::Block([127, 0, 0, 1]));
    assert_eq!(b.as_slice(), b"");

    // overflow
    data.extend_from_slice(b"overflow");
    let mut b = data.clone();
    let c = CommandDecoder.decode(&mut b);
    assert_eq!(c.unwrap().unwrap(), Command::Block([127, 0, 0, 1]));
    assert_eq!(b.as_slice(), b"overflow");

    let mut data = vec![1, 0, 0, 0, 9];
    data.extend_from_slice(b"127.0.0");

    // underflow
    let mut b = data.clone();
    let c = CommandDecoder.decode(&mut b);
    assert!(c.unwrap().is_none());
    assert_eq!(hex::encode(b.as_slice()), format!("0100000009{}", hex::encode("127.0.0")));
}

#[test]
fn disconnected() {
    let mut data = vec![5, 0, 0, 0, 20];
    let addr = "123.145.167.189:1234";
    let pk = b"abcdefghijklmnopqrstuvwxyz012345";
    data.extend_from_slice(addr.as_bytes());
    data.extend_from_slice(pk);

    let mut b = data.clone();
    let c = CommandDecoder.decode(&mut b);
    assert_eq!(
        c.unwrap().unwrap(),
        Command::Disconnected(SocketAddrV4 { ip: [123, 145, 167, 189], port: 1234 }, *pk)
    );
    assert_eq!(b.as_slice(), b"");
}

fn all_commands() -> Vec<Command> {
    let pk = *b"abcdefghijklmnopqrstuvwxyz012345";
    vec![
        Command::Block([192, 168, 1, 1]),
        Command::Unblock([0, 0, 0, 0]),
        Command::FilterLocalPort(9732),
        Command::FilterRemoteAddr(SocketAddrV4 { ip: [10, 0, 0, 8], port: 4000 }),
        Command::Disconnected(SocketAddrV4 { ip: [255, 255, 255, 255], port: 65535 }, pk),
    ]
}

#[test]
fn encode_exact_bytes() {
    let mut expected = vec![1, 0, 0, 0, 11];
    expected.extend_from_slice(b"192.168.1.1");
    assert_eq!(Command::Block([192, 168, 1, 1]).as_bytes(), expected);
    assert_eq!(Command::FilterLocalPort(9732).as_bytes(), vec![3, 0x26, 0x04]);
    let mut expected = vec![4, 0, 0, 0, 13];
    expected.extend_from_slice(b"10.0.0.8:4000");
    let a = SocketAddrV4 { ip: [10, 0, 0, 8], port: 4000 };
    assert_eq!(Command::FilterRemoteAddr(a).as_bytes(), expected);
    let mut expected = vec![2, 0, 0, 0, 7];
    expected.extend_from_slice(b"0.0.0.0");
    assert_eq!(Command::Unblock([0, 0, 0, 0]).as_bytes(), expected);
}

#[test]
fn round_trip_every_variant() {
    for c in all_commands() {
        let mut b = c.as_bytes();
        assert_eq!(CommandDecoder.decode(&mut b).unwrap(), Some(c));
        assert!(b.is_empty());
    }
}

#[test]
fn strict_prefix_needs_more() {
    for c in all_commands() {
        let full = c.as_bytes();
        for k in 0..full.len() {
            let mut b = full[..k].to_vec();
            assert_eq!(CommandDecoder.decode(&mut b).unwrap(), None);
            assert_eq!(b, full[..k].to_vec());
        }
    }
}

#[test]
fn frame_then_rest_leaves_rest() {
    let rest = vec![2, 0, 0, 0, 1, b'x', 0xff];
    for c in all_commands() {
        let mut b = c.as_bytes();
        b.extend_from_slice(&rest);
        assert_eq!(CommandDecoder.decode(&mut b).unwrap(), Some(c));
        assert_eq!(b, rest);
    }
}

#[test]
fn unknown_tag_is_refused_and_next_session_works() {
    let mut b = vec![0xff, 0, 0, 0, 0];
    assert_eq!(CommandDecoder.decode(&mut b), Err(Error::WrongTag(0xff)));
    assert_eq!(b, vec![0xff, 0, 0, 0, 0]);
    let mut b = vec![0];
    assert_eq!(CommandDecoder.decode(&mut b), Err(Error::WrongTag(0)));
    // a new connection starts with a fresh buffer and decoder
    let mut b = Command::Block([1, 2, 3, 4]).as_bytes();
    assert_eq!(CommandDecoder.decode(&mut b), Ok(Some(Command::Block([1, 2, 3, 4]))));
}

#[test]
fn bad_address_text_is_refused() {
    for text in [&b"127.0.0.01"[..], b"256.0.0.1", b"1.2.3", b"1.2.3.4.5", b"a.b.c.d", b"::1", b"1.2.3.4 "] {
        let mut b = vec![1, 0, 0, 0, text.len() as u8];
        b.extend_from_slice(text);
        b.push(9);
        assert_eq!(CommandDecoder.decode(&mut b), Err(Error::AddrParse));
        assert_eq!(b, vec![9]);
    }
    let mut b = vec![4, 0, 0, 0, 14];
    b.extend_from_slice(b"10.0.0.8:65536");
    assert_eq!(CommandDecoder.decode(&mut b), Err(Error::AddrParse));
    let mut b = vec![4, 0, 0, 0, 9];
    b.extend_from_slice(b"10.0.0.8:");
    assert_eq!(CommandDecoder.decode(&mut b), Err(Error::AddrParse));
}

#[test]
fn port_with_leading_zeros_is_read() {
    let mut b = vec![4, 0, 0, 0, 13];
    b.extend_from_slice(b"10.0.0.8:0080");
    let a = SocketAddrV4 { ip: [10, 0, 0, 8], port: 80 };
    assert_eq!(CommandDecoder.decode(&mut b), Ok(Some(Command::FilterRemoteAddr(a))));
}

#[test]
fn text_that_is_not_utf8_is_refused() {
    let mut b = vec![1, 0, 0, 0, 2, 0xc3, 0x28];
    assert_eq!(CommandDecoder.decode(&mut b), Err(Error::Deserialization));
    assert_eq!(b, vec![1, 0, 0, 0, 2, 0xc3, 0x28]);
}

#[test]
fn filter_local_port_is_big_endian() {
    let mut b = vec![3, 0x26, 0x04, 3];
    assert_eq!(CommandDecoder.decode(&mut b), Ok(Some(Command::FilterLocalPort(9732))));
    assert_eq!(b, vec![3]);
    assert_eq!(CommandDecoder.decode(&mut b), Ok(None));
}

#[test]
fn address_texts() {
    assert_eq!(parse_ipv4_text(b"10.0.0.7"), Some([10, 0, 0, 7]));
    assert_eq!(parse_ipv4_text(b"255.255.255.255"), Some([255, 255, 255, 255]));
    assert_eq!(parse_ipv4_text(b"0.0.0.0"), Some([0, 0, 0, 0]));
    assert_eq!(parse_ipv4_text(b"00.0.0.0"), None);
    assert_eq!(parse_ipv4_text(b"1.2.3.1000"), None);
    assert_eq!(parse_ipv4_text(b""), None);
    assert_eq!(parse_socket_text(b"10.0.0.8:4000"), Some(SocketAddrV4 { ip: [10, 0, 0, 8], port: 4000 }));
    assert_eq!(parse_socket_text(b"10.0.0.8:65535"), Some(SocketAddrV4 { ip: [10, 0, 0, 8], port: 65535 }));
    assert_eq!(parse_socket_text(b"10.0.0.8:0"), Some(SocketAddrV4 { ip: [10, 0, 0, 8], port: 0 }));
    assert_eq!(parse_socket_text(b"10.0.0.8"), None);
    assert_eq!(parse_socket_text(b"10.0.0.8:4000:1"), None);
    assert_eq!(parse_socket_text(b"[::1]:4000"), None);
}
