use tezedge_firewall::{Endpoint, EndpointPair, Event, EventKind, PowBytes, Status};

fn sample_pair() -> EndpointPair {
    EndpointPair {
        remote: Endpoint { ipv4: [10, 0, 0, 8], port: [0x0f, 0xa0] },
        local: Endpoint { ipv4: [127, 0, 0, 1], port: [0x26, 0x04] },
    }
}

#[test]
fn event_record_layout() {
    let e = Event { pair: sample_pair(), event: EventKind::NotEnoughBytesForPow };
    let r = e.to_record();
    assert_eq!(r.len(), 72);
    assert_eq!(&r[0..12], &[127, 0, 0, 1, 0x26, 0x04, 10, 0, 0, 8, 0x0f, 0xa0]);
    assert_eq!(&r[12..16], &[1, 0, 0, 0]);
    assert!(r[16..].iter().all(|b| *b == 0));
    assert_eq!(Event::from_record(&r), Some(e));
}

#[test]
fn event_records_round_trip() {
    let kinds = [
        EventKind::ReceivedPow([0x5a; 56]),
        EventKind::NotEnoughBytesForPow,
        EventKind::BlockedReusingPow {
            already_connected: Endpoint { ipv4: [1, 2, 3, 4], port: [0, 80] },
            try_connect: Endpoint { ipv4: [5, 6, 7, 8], port: [1, 0] },
        },
    ];
    for k in kinds {
        let e = Event { pair: sample_pair(), event: k };
        assert_eq!(Event::from_record(&e.to_record()), Some(e));
    }
    let mut r = Event { pair: sample_pair(), event: EventKind::NotEnoughBytesForPow }.to_record();
    r[12] = 3;
    assert_eq!(Event::from_record(&r), None);
    assert_eq!(Event::from_record(&r[..71]), None);
}

#[test]
fn reuse_record_carries_both_endpoints() {
    let e = Event {
        pair: sample_pair(),
        event: EventKind::BlockedReusingPow {
            already_connected: Endpoint { ipv4: [1, 2, 3, 4], port: [0, 80] },
            try_connect: Endpoint { ipv4: [5, 6, 7, 8], port: [1, 0] },
        },
    };
    let r = e.to_record();
    assert_eq!(&r[12..28], &[2, 0, 0, 0, 1, 2, 3, 4, 0, 80, 5, 6, 7, 8, 1, 0]);
}

#[test]
fn pow_bytes_union() {
    assert_eq!(PowBytes::Nothing.to_bytes(), vec![0u8; 60]);
    let mut expected = vec![1u8, 0, 0, 0];
    expected.extend_from_slice(&[0; 56]);
    assert_eq!(PowBytes::NotEnough.to_bytes(), expected);
    let b = PowBytes::Bytes([7; 56]);
    let u = b.to_bytes();
    assert_eq!(&u[0..4], &[2, 0, 0, 0]);
    assert_eq!(PowBytes::from_bytes(&u), Some(b));
    assert_eq!(PowBytes::from_bytes(&[9u8; 60]), None);
    assert_eq!(PowBytes::from_bytes(&[0u8; 59]), None);
}

#[test]
fn endpoint_bytes_and_text() {
    let p = sample_pair();
    let bytes = p.to_bytes();
    assert_eq!(bytes, vec![127, 0, 0, 1, 0x26, 0x04, 10, 0, 0, 8, 0x0f, 0xa0]);
    assert_eq!(EndpointPair::from_bytes(&bytes), Some(p));
    assert_eq!(Endpoint::from_bytes(&bytes[6..]), Some(p.remote));
    assert_eq!(Endpoint::from_bytes(&bytes), None);
    assert_eq!(p.remote.port_number(), 4000);
    assert_eq!(p.remote.text(), b"10.0.0.8:4000".to_vec());
    assert_eq!(p.local.text(), b"127.0.0.1:9732".to_vec());
}

#[test]
fn status_flags() {
    let mut s = Status::empty();
    assert!(!s.pow_sent() && !s.blocked());
    s.set_pow_sent();
    assert_eq!(s.bits(), 2);
    s.set_blocked();
    assert_eq!(s.bits(), 3);
    assert!(s.contains(Status::from_bits(1).unwrap()));
    assert_eq!(Status::from_bits(4), None);
    assert_eq!(Status::from_bits_truncate(0xff).bits(), 3);
    let mut t = Status::empty();
    t.insert(s);
    assert_eq!(t, s);
}
