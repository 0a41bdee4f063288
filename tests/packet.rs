use engineio::{Packet, PacketData, PacketType};

#[test]
fn packet_type_chars_round_trip() {
    let all = [
        PacketType::Open,
        PacketType::Close,
        PacketType::Ping,
        PacketType::Pong,
        PacketType::Message,
        PacketType::Upgrade,
        PacketType::Noop,
    ];
    for (i, t) in all.iter().enumerate() {
        let c = t.to_char();
        assert_eq!(c, (b'0' + i as u8) as char);
        assert_eq!(PacketType::from_char(c), Some(*t));
        assert_eq!(t.to_code(), i as u8);
        assert_eq!(PacketType::from_code(i as u8), Some(*t));
    }
    assert_eq!(PacketType::from_char('7'), None);
    assert_eq!(PacketType::from_char('a'), None);
    assert_eq!(PacketType::from_char('/'), None);
    assert_eq!(PacketType::from_code(7), None);
    assert_eq!(PacketType::from_code(b'4'), None);
}

#[test]
fn packet_encodes_type_char_then_body() {
    assert_eq!(Packet::new(PacketType::Message, "hi").encode(), b"4hi".to_vec());
    assert_eq!(Packet::new(PacketType::Ping, "").encode(), b"2".to_vec());
    assert_eq!(
        Packet::with_bytes(PacketType::Message, vec![0, 200]).encode(),
        vec![b'4', 0, 200]
    );
}

#[test]
fn text_packet_decoding() {
    let p = Packet::from_utf8("3probe".as_bytes()).unwrap();
    assert_eq!(*p.packet_type(), PacketType::Pong);
    assert_eq!(*p.data(), PacketData::Str("probe".to_owned()));
    let p = Packet::from_utf8("4日本".as_bytes()).unwrap();
    assert_eq!(p.into_data(), PacketData::Str("日本".to_owned()));
    assert!(Packet::from_utf8(b"").is_err());
    assert!(Packet::from_utf8(b"7x").is_err());
    assert!(Packet::from_utf8(&[b'4', 0xE6, 0x97]).is_err());
}

#[test]
fn binary_packet_decoding() {
    let p = Packet::from_bytes(&[4, 9, 8]).unwrap();
    assert_eq!(p, Packet::with_bytes(PacketType::Message, vec![9, 8]));
    let p = Packet::from_bytes(&[6]).unwrap();
    assert_eq!(p, Packet::with_bytes(PacketType::Noop, vec![]));
    assert!(Packet::from_bytes(&[]).is_err());
    assert!(Packet::from_bytes(&[7, 1]).is_err());
    assert!(Packet::from_bytes(&[b'4', 1]).is_err());
}

#[test]
fn packet_parses_from_text() {
    let p: Packet = "4hello".parse().unwrap();
    assert_eq!(p, Packet::new(PacketType::Message, "hello"));
    assert!("".parse::<Packet>().is_err());
    assert!("9x".parse::<Packet>().is_err());
}
