use engineio::{Packet, PacketData, PacketType, Payload};

const HANDSHAKE: &str = r#"96:0{"sid":"d5vWJMbJuMCRZOnuAAAI","upgrades":["websocket"],"pingInterval":25000,"pingTimeout":5000}"#;
const OPEN_JSON: &str = r#"{"sid":"d5vWJMbJuMCRZOnuAAAI","upgrades":["websocket"],"pingInterval":25000,"pingTimeout":5000}"#;

#[test]
fn test_payload_decoding_of_one_packet() {
    let result = Payload::new(HANDSHAKE.as_bytes()).unwrap();
    let expected = Packet::new(PacketType::Open, OPEN_JSON);

    assert_eq!(*result.packets().first().unwrap(), expected);
}

#[test]
fn test_payload_decoding_of_multiple_packets() {
    let mut input = HANDSHAKE.to_owned();
    input.push_str(&input.clone());
    input.push_str(&input.clone());
    let result = Payload::new(input.as_bytes()).unwrap();
    let expected = Packet::new(PacketType::Open, OPEN_JSON);

    let mut iter_count = 0;
    for packet in result.into_packets() {
        iter_count += 1;
        assert_eq!(packet, expected);
    }
    assert_eq!(iter_count, 4);
}

#[test]
fn test_xhr_decoding() {
    let p = Payload::new(b"4:4abc").unwrap();
    assert_eq!(p.packets()[0], Packet::new(PacketType::Message, "abc"));
}

#[test]
fn test_xhr2_encoding() {
    let binary = Payload::new(b"8:4message").unwrap().encode_binary();
    let mut expected = vec![0, 8, 255];
    expected.extend(b"4message");

    assert_eq!(binary, expected);
}

#[test]
fn test_xhr2_encoding_2() {
    let payload = Payload::from_packet(Packet::new(PacketType::Ping, "")).encode_binary();
    let ping_payload = [0, 1, 255, 50];

    assert_eq!(payload, ping_payload);
}

#[test]
fn test_payload_decoding_of_mixed_content() {
    let bytes = [
        0, 1, 3, 255, 52, 117, 116, 102, 32, 56, 32, 115, 116, 114, 105, 110, 103, 1, 7, 255, 4,
        0, 1, 2, 3, 4, 5,
    ];

    let payload = Payload::new(&bytes).unwrap();
    let mut packets = payload.packets().iter();
    let first_packet = packets.next().unwrap();
    let second_packet = packets.next().unwrap();

    let expected_first_packet = Packet::new(PacketType::Message, "utf 8 string");
    let expected_second_packet = Packet::with_bytes(PacketType::Message, vec![0, 1, 2, 3, 4, 5]);

    assert_eq!(*first_packet, expected_first_packet);
    assert_eq!(*second_packet, expected_second_packet);
}

#[test]
fn test_multi_binary_payload() {
    let mut bytes = vec![0, 4, 255];
    bytes.extend(b"4msg");
    bytes.extend(&[0, 4, 255]);
    bytes.extend(b"4eng");

    let payload = Payload::new(&bytes).unwrap();

    assert_eq!(payload.packets()[0], Packet::new(PacketType::Message, "msg"));
    assert_eq!(payload.packets()[1], Packet::new(PacketType::Message, "eng"));

    assert_eq!(payload.encode_binary(), bytes);
}

#[test]
fn message_encodes_in_binary_framing() {
    let bytes = Payload::from_packet(Packet::new(PacketType::Message, "message")).encode_binary();
    assert_eq!(
        bytes,
        vec![0x00, 0x08, 0xFF, 0x34, 0x6D, 0x65, 0x73, 0x73, 0x61, 0x67, 0x65]
    );
}

#[test]
fn handshake_body_decodes_to_one_open_packet() {
    let payload = Payload::new(HANDSHAKE.as_bytes()).unwrap();
    assert_eq!(payload.packets().len(), 1);
    assert_eq!(*payload.packets()[0].packet_type(), PacketType::Open);
    match payload.packets()[0].data() {
        PacketData::Str(s) => {
            assert_eq!(s, OPEN_JSON);
            assert_eq!(s.len(), 95);
        }
        PacketData::Bytes(_) => panic!("expected text"),
    }
}

#[test]
fn empty_body_is_rejected() {
    assert!(Payload::new(b"").is_err());
}

#[test]
fn empty_decoders_give_empty_payloads() {
    assert_eq!(Payload::decode_binary(&[]).unwrap().packets().len(), 0);
    assert_eq!(Payload::decode_text(&[]).unwrap().packets().len(), 0);
}

#[test]
fn zero_length_binary_frame_has_empty_window() {
    let window = Payload::get_next_packet_window(&[0, 255]).unwrap();
    assert_eq!(window, 2..2);
    let mut bytes = vec![1, 2, 255];
    bytes.extend([7u8; 12]);
    let window = Payload::get_next_packet_window(&bytes).unwrap();
    assert_eq!(window, 3..15);
    bytes.pop();
    assert!(Payload::get_next_packet_window(&bytes).is_err());
}

#[test]
fn zero_length_binary_frame_is_an_empty_ping() {
    let payload = Payload::new(&[0, 0, 255]).unwrap();
    assert_eq!(payload.into_packets(), vec![Packet::new(PacketType::Ping, "")]);
    let payload = Payload::decode_binary(&[1, 0, 255]).unwrap();
    assert_eq!(
        payload.into_packets(),
        vec![Packet::with_bytes(PacketType::Ping, vec![])]
    );
    let payload = Payload::new(&[0, 0, 0, 255, 0, 2, 255, b'4', b'x', 1, 0, 255]).unwrap();
    assert_eq!(
        payload.into_packets(),
        vec![
            Packet::new(PacketType::Ping, ""),
            Packet::new(PacketType::Message, "x"),
            Packet::with_bytes(PacketType::Ping, vec![]),
        ]
    );
    assert!(Payload::new(&[0, 0, 255, 2, 0, 255]).is_err());
}

#[test]
fn colon_in_text_content_does_not_delimit() {
    let payload = Payload::new(b"5:4a:bc2:40").unwrap();
    assert_eq!(payload.packets().len(), 2);
    assert_eq!(payload.packets()[0], Packet::new(PacketType::Message, "a:bc"));
    assert_eq!(payload.packets()[1], Packet::new(PacketType::Message, "0"));
}

#[test]
fn text_round_trip_of_one_packet() {
    let packet = Packet::new(PacketType::Message, "hé:llo");
    let bytes = Payload::from_packet(packet.clone()).encode_text();
    assert_eq!(bytes, b"8:4h\xc3\xa9:llo".to_vec());
    let decoded = Payload::decode_text(&bytes).unwrap();
    assert_eq!(decoded.into_packets(), vec![packet.clone()]);
    let decoded = Payload::new(&bytes).unwrap();
    assert_eq!(decoded.into_packets(), vec![packet]);
}

#[test]
fn binary_round_trip_of_mixed_packets() {
    let packets = vec![
        Packet::new(PacketType::Ping, "probe"),
        Packet::with_bytes(PacketType::Message, vec![0, 255, 1]),
        Packet::new(PacketType::Close, ""),
        Packet::new(PacketType::Message, &"x".repeat(123)),
    ];
    let mut payload = Payload::from_packet(packets[0].clone());
    for p in packets.iter().skip(1) {
        let mut bytes = payload.encode_binary();
        bytes.extend(Payload::from_packet(p.clone()).encode_binary());
        payload = Payload::decode_binary(&bytes).unwrap();
    }
    let bytes = payload.encode_binary();
    assert_eq!(&bytes[..9], &[0, 6, 255, b'2', b'p', b'r', b'o', b'b', b'e']);
    assert_eq!(&bytes[9..16], &[1, 4, 255, 4, 0, 255, 1]);
    assert_eq!(&bytes[16..20], &[0, 1, 255, b'1']);
    assert_eq!(&bytes[20..25], &[0, 1, 2, 4, 255]);
    assert_eq!(Payload::decode_binary(&bytes).unwrap().into_packets(), packets);
    assert_eq!(Payload::new(&bytes).unwrap().into_packets(), packets);
}

#[test]
fn decoded_body_is_its_frames_end_to_end() {
    let first = b"4:4abc".to_vec();
    let second = b"2:3x".to_vec();
    let mut both = first.clone();
    both.extend(&second);
    let mut expected = Payload::new(&first).unwrap().into_packets();
    expected.extend(Payload::new(&second).unwrap().into_packets());
    assert_eq!(Payload::new(&both).unwrap().into_packets(), expected);
    let mut residue = both.clone();
    residue.push(b'1');
    assert!(Payload::new(&residue).is_err());
}

#[test]
fn leading_zero_length_digits_are_read() {
    let payload = Payload::new(&[0, 0, 2, 255, b'4', b'z']).unwrap();
    assert_eq!(payload.packets()[0], Packet::new(PacketType::Message, "z"));
    let payload = Payload::new(b"02:4z").unwrap();
    assert_eq!(payload.packets()[0], Packet::new(PacketType::Message, "z"));
}

#[test]
fn malformed_binary_bodies_are_rejected() {
    // no length digits
    assert!(Payload::new(&[0, 255, b'4']).is_err());
    // length digits run out
    assert!(Payload::new(&[0, 1, 2]).is_err());
    // a byte other than a digit or the terminator
    assert!(Payload::new(&[0, 1, 12, 255, b'4']).is_err());
    // declared length overruns the body
    assert!(Payload::new(&[0, 5, 255, b'4', b'a']).is_err());
    assert!(Payload::new(&[0, 9, 9, 9, 9, 9, 9, 9, 9, 9, 9, 9, 9, 9, 9, 9, 9, 9, 9, 9, 9, 9, 9, 255]).is_err());
    // invalid UTF-8 in a text-tagged frame
    assert!(Payload::new(&[0, 2, 255, b'4', 0xFF]).is_err());
    // invalid packet type in a text-tagged frame
    assert!(Payload::new(&[0, 2, 255, b'7', b'a']).is_err());
    // invalid packet type in a binary-tagged frame
    assert!(Payload::new(&[1, 2, 255, 7, 0]).is_err());
    // a later frame with a marker other than 0 or 1
    assert!(Payload::new(&[0, 1, 255, b'6', 2, 1, 255, b'6']).is_err());
}

#[test]
fn malformed_text_bodies_are_rejected() {
    assert!(Payload::new(b"12").is_err());
    assert!(Payload::new(b":4abc").is_err());
    assert!(Payload::new(b"3:9ab").is_err());
    assert!(Payload::new(b"9:4abc").is_err());
    assert!(Payload::new(b"0:").is_err());
    assert!(Payload::new(b"4:4abcX").is_err());
    assert!(Payload::new(&[b'2', b':', b'4', 0xC3]).is_err());
}
