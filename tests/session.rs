use engineio::{
    handshake_url, join_results, open_packet_json, write_step, ClientConfig, EIOError,
    EIOErrorKind, Packet, PacketAction, PacketData, PacketType, Payload, PingLoop, PingStep,
    PollLoop, WriteStep,
};

const HANDSHAKE: &str = r#"96:0{"sid":"d5vWJMbJuMCRZOnuAAAI","upgrades":["websocket"],"pingInterval":25000,"pingTimeout":5000}"#;
const OPEN_JSON: &str = r#"{"sid":"d5vWJMbJuMCRZOnuAAAI","upgrades":["websocket"],"pingInterval":25000,"pingTimeout":5000}"#;

fn config(interval: u32, timeout: u32) -> ClientConfig {
    ClientConfig::new(
        "abc".to_owned(),
        "http://localhost:8080/engine.io/".to_owned(),
        interval,
        timeout,
    )
}

#[test]
fn handshake_gives_session_and_timing() {
    let json = open_packet_json(HANDSHAKE.as_bytes()).unwrap();
    assert_eq!(json, OPEN_JSON);
    let value: serde_json::Value = serde_json::from_str(&json).unwrap();
    let sid = value.get("sid").unwrap().as_str().unwrap().to_owned();
    let interval = value.get("pingInterval").unwrap().as_u64().unwrap() as u32;
    let timeout = value.get("pingTimeout").unwrap().as_u64().unwrap() as u32;
    let config = ClientConfig::new(sid, "http://h/".to_owned(), interval, timeout);
    assert_eq!(config.sid(), "d5vWJMbJuMCRZOnuAAAI");
    assert_eq!(config.ping_interval(), 25000);
    assert_eq!(config.ping_timeout(), 5000);
    assert_eq!(config.ping_timeout_ms(), 5000);
    assert_eq!(config.ping_rest_ms(), 20000);
}

#[test]
fn handshake_without_open_packet_is_a_protocol_error() {
    let err = open_packet_json(b"4:4abc").unwrap_err();
    assert!(matches!(err.kind(), EIOErrorKind::Protocol(_)));
    let err = open_packet_json(&[1, 2, 255, 0, 7]).unwrap_err();
    assert!(matches!(err.kind(), EIOErrorKind::Protocol(_)));
    let err = open_packet_json(b"").unwrap_err();
    assert!(!err.is_transport());
    let err = open_packet_json(b"4:0abcX").unwrap_err();
    assert_eq!(*err.kind(), EIOErrorKind::Protocol("malformed payload".to_owned()));
}

#[test]
fn rest_is_never_negative() {
    assert_eq!(config(1000, 3000).ping_rest_ms(), 0);
    assert_eq!(config(3000, 3000).ping_rest_ms(), 0);
    assert_eq!(config(3001, 3000).ping_rest_ms(), 1);
}

#[test]
fn urls_are_built_from_the_session() {
    assert_eq!(
        handshake_url("http://localhost:8080/engine.io/"),
        "http://localhost:8080/engine.io/?transport=polling&EIO=3"
    );
    let c = config(25000, 5000);
    assert_eq!(
        c.get_url(1234, 56),
        "http://localhost:8080/engine.io/?transport=polling&EIO=3&sid=abc&t=1234.56"
    );
    assert_eq!(
        c.get_url(0, 999_999_999),
        "http://localhost:8080/engine.io/?transport=polling&EIO=3&sid=abc&t=0.999999999"
    );
    assert_eq!(
        c.get_url(u64::MAX, 0),
        "http://localhost:8080/engine.io/?transport=polling&EIO=3&sid=abc&t=18446744073709551615.0"
    );
    assert_eq!(c.base_url(), "http://localhost:8080/engine.io/");
}

#[test]
fn session_flags_start_set_and_disconnect_clears() {
    let c = config(25000, 5000);
    assert!(c.is_connected());
    assert!(c.ping_received());
    c.await_pong();
    assert!(!c.ping_received());
    c.mark_pong();
    assert!(c.ping_received());
    c.disconnect();
    assert!(!c.is_connected());
    c.disconnect();
    assert!(!c.is_connected());
}

#[test]
fn poll_loop_dispatches_packets() {
    let mut poll = PollLoop::new();
    assert!(matches!(
        poll.handle_packet(Packet::new(PacketType::Pong, "probe")),
        PacketAction::RecordPong
    ));
    match poll.handle_packet(Packet::new(PacketType::Message, "hi")) {
        PacketAction::Deliver(d) => assert_eq!(d, PacketData::Str("hi".to_owned())),
        other => panic!("unexpected {:?}", other),
    }
    match poll.handle_packet(Packet::with_bytes(PacketType::Message, vec![1, 2])) {
        PacketAction::Deliver(d) => assert_eq!(d, PacketData::Bytes(vec![1, 2])),
        other => panic!("unexpected {:?}", other),
    }
    assert!(matches!(
        poll.handle_packet(Packet::new(PacketType::Noop, "")),
        PacketAction::Ignore
    ));
    assert!(matches!(
        poll.handle_packet(Packet::new(PacketType::Open, "{}")),
        PacketAction::Unexpected(PacketType::Open)
    ));
    assert!(matches!(
        poll.handle_packet(Packet::new(PacketType::Upgrade, "")),
        PacketAction::Unexpected(PacketType::Upgrade)
    ));
}

#[test]
fn disconnect_is_notified_once() {
    let mut poll = PollLoop::new();
    assert!(matches!(
        poll.handle_packet(Packet::new(PacketType::Close, "")),
        PacketAction::Disconnect { notify: true }
    ));
    assert!(matches!(
        poll.handle_packet(Packet::new(PacketType::Close, "")),
        PacketAction::Disconnect { notify: false }
    ));
    assert!(!poll.transport_failed());

    let mut poll = PollLoop::new();
    assert!(poll.transport_failed());
    assert!(!poll.transport_failed());
    assert!(matches!(
        poll.handle_packet(Packet::new(PacketType::Close, "")),
        PacketAction::Disconnect { notify: false }
    ));
}

#[test]
fn ping_loop_runs_its_heartbeat() {
    let c = config(25000, 5000);
    let mut ping = PingLoop::new(&c);
    assert_eq!(ping.step(true, false), PingStep::Probe { wait_ms: 5000 });
    assert_eq!(ping.step(true, true), PingStep::Rest { wait_ms: 20000 });
    assert_eq!(ping.step(true, true), PingStep::Probe { wait_ms: 5000 });
    assert_eq!(ping.step(true, false), PingStep::Disconnect);
    assert_eq!(ping.step(true, true), PingStep::Exit);
    assert_eq!(ping.step(true, true), PingStep::Exit);

    let mut ping = PingLoop::new(&c);
    assert_eq!(ping.step(false, true), PingStep::Exit);
    assert_eq!(ping.step(true, true), PingStep::Exit);

    let mut ping = PingLoop::new(&c);
    assert_eq!(ping.step(true, true), PingStep::Probe { wait_ms: 5000 });
    assert_eq!(ping.step(false, true), PingStep::Rest { wait_ms: 20000 });
    assert_eq!(ping.step(false, true), PingStep::Exit);
}

#[test]
fn probe_packet_is_a_ping() {
    let p = PingLoop::probe_packet();
    assert_eq!(p, Packet::new(PacketType::Ping, "probe"));
    assert_eq!(
        Payload::from_packet(p).encode_binary(),
        vec![0, 6, 255, b'2', b'p', b'r', b'o', b'b', b'e']
    );
}

#[test]
fn write_loop_posts_each_packet_alone() {
    match write_step(Some(Packet::new(PacketType::Ping, ""))) {
        WriteStep::Post(body) => {
            assert_eq!(body, vec![0, 1, 255, 50]);
            let back = Payload::new(&body).unwrap().into_packets();
            assert_eq!(back, vec![Packet::new(PacketType::Ping, "")]);
        }
        WriteStep::Exit => panic!("expected a post"),
    }
    assert!(matches!(write_step(None), WriteStep::Exit));
}

#[test]
fn join_reports_the_first_error() {
    let t = || EIOError::transport("down".to_owned());
    let p = || EIOError::protocol("bad".to_owned());
    assert!(join_results(Ok(()), Ok(()), Ok(())).is_ok());
    assert_eq!(join_results(Err(p()), Err(t()), Ok(())).unwrap_err(), p());
    assert_eq!(join_results(Ok(()), Err(t()), Err(p())).unwrap_err(), t());
    assert_eq!(join_results(Ok(()), Ok(()), Err(p())).unwrap_err(), p());
    assert_eq!(
        *EIOError::transport("down".to_owned()).kind(),
        EIOErrorKind::Transport("down".to_owned())
    );
}

#[test]
fn poll_response_is_read_or_rejected() {
    let packets = PollLoop::read_response(b"1:32:4a").unwrap();
    assert_eq!(
        packets,
        vec![Packet::new(PacketType::Pong, ""), Packet::new(PacketType::Message, "a")]
    );
    let err = PollLoop::read_response(b"").unwrap_err();
    assert_eq!(*err.kind(), EIOErrorKind::Protocol("malformed payload".to_owned()));
    let err = PollLoop::read_response(b"5:4a").unwrap_err();
    assert!(!err.is_transport());
}
