use crate::packet::PacketType;
use crate::payload::{decode_payload, Payload, PayloadDecodeError};
use std::sync::atomic::{AtomicBool, Ordering};
use vstd::prelude::*;
use vstd::string::StringExecFns;

verus! {

/// The kind of a client error, with its message.
#[derive(Debug, Clone, PartialEq, Eq)]
pub enum EIOErrorKind {
    /// An error with the underlying transport
    Transport(String),
    /// A violation of the engine.io protocol
    Protocol(String),
}

/// A client error as a mathematical value.
pub enum ErrorView {
    Transport(Seq<char>),
    Protocol(Seq<char>),
}

impl View for EIOErrorKind {
    type V = ErrorView;

    open spec fn view(&self) -> ErrorView {
        match self {
            EIOErrorKind::Transport(m) => ErrorView::Transport(m@),
            EIOErrorKind::Protocol(m) => ErrorView::Protocol(m@),
        }
    }
}

/// An error of the client: a transport failure or a protocol violation.
#[derive(Debug, Clone, PartialEq, Eq)]
pub struct EIOError {
    kind: EIOErrorKind,
}

impl View for EIOError {
    type V = ErrorView;

    closed spec fn view(&self) -> ErrorView {
        self.kind@
    }
}

impl EIOError {
    /// A transport error with the given message.
    pub fn transport(message: String) -> (e: EIOError)
        ensures
            e@ == ErrorView::Transport(message@),
    {
        EIOError { kind: EIOErrorKind::Transport(message) }
    }

    /// A protocol error with the given message.
    pub fn protocol(message: String) -> (e: EIOError)
        ensures
            e@ == ErrorView::Protocol(message@),
    {
        EIOError { kind: EIOErrorKind::Protocol(message) }
    }

    /// The kind of this error, with its message.
    pub fn kind(&self) -> (k: &EIOErrorKind)
        ensures
            k@ == self@,
    {
        &self.kind
    }

    /// True for a transport error.
    pub fn is_transport(&self) -> (b: bool)
        ensures
            b == self@ is Transport,
    {
        match &self.kind {
            EIOErrorKind::Transport(_) => true,
            EIOErrorKind::Protocol(_) => false,
        }
    }
}

/// The message of the protocol error that a malformed payload gives.
pub open spec fn malformed_payload_message() -> Seq<char> {
    "malformed payload"@
}

impl EIOError {
    /// The protocol error that a payload which cannot be decoded gives.
    pub fn malformed_payload(err: PayloadDecodeError) -> (e: EIOError)
        ensures
            e@ == ErrorView::Protocol(malformed_payload_message()),
    {
        EIOError::protocol("malformed payload".to_owned())
    }
}

/// The decimal digit `d` as a character.
pub open spec fn digit_char(d: nat) -> char {
    ((48 + d) as u8) as char
}

/// The decimal form of `n`, most significant digit first, with no leading zero.
pub open spec fn decimal_text(n: nat) -> Seq<char>
    decreases n,
{
    if n < 10 {
        seq![digit_char(n)]
    } else {
        decimal_text(n / 10) + seq![digit_char(n % 10)]
    }
}

/// The query that every request of the polling transport carries.
pub open spec fn polling_query() -> Seq<char> {
    "?transport=polling&EIO=3"@
}

/// The URL of the handshake request for a server's base URL.
pub open spec fn handshake_url_of(base: Seq<char>) -> Seq<char> {
    base + polling_query()
}

/// The URL of a session request: the base URL, the polling query, the
/// session id, and the time `secs.nanos` that keeps caches from answering.
pub open spec fn session_url(base: Seq<char>, sid: Seq<char>, secs: nat, nanos: nat) -> Seq<char> {
    base + polling_query() + "&sid="@ + sid + "&t="@ + decimal_text(secs) + "."@ + decimal_text(
        nanos,
    )
}

/// The text of the decimal digit `d`.
fn digit_str(d: u64) -> (s: &'static str)
    requires
        d < 10,
    ensures
        s@ == seq![digit_char(d as nat)],
{
    if d == 0 {
        proof { reveal_strlit("0"); }
        "0"
    } else if d == 1 {
        proof { reveal_strlit("1"); }
        "1"
    } else if d == 2 {
        proof { reveal_strlit("2"); }
        "2"
    } else if d == 3 {
        proof { reveal_strlit("3"); }
        "3"
    } else if d == 4 {
        proof { reveal_strlit("4"); }
        "4"
    } else if d == 5 {
        proof { reveal_strlit("5"); }
        "5"
    } else if d == 6 {
        proof { reveal_strlit("6"); }
        "6"
    } else if d == 7 {
        proof { reveal_strlit("7"); }
        "7"
    } else if d == 8 {
        proof { reveal_strlit("8"); }
        "8"
    } else {
        proof { reveal_strlit("9"); }
        "9"
    }
}

/// Appends the decimal form of `n` to `s`.
fn append_decimal(s: &mut String, n: u64)
    ensures
        final(s)@ == old(s)@ + decimal_text(n as nat),
    decreases n,
{
    if n >= 10 {
        append_decimal(s, n / 10);
    }
    s.append(digit_str(n % 10));
    assert(final(s)@ =~= old(s)@ + decimal_text(n as nat));
}

/// The URL of the handshake request for a server's base URL.
pub fn handshake_url(base: &str) -> (url: String)
    ensures
        url@ == handshake_url_of(base@),
{
    let mut url = String::from_str(base);
    url.append("?transport=polling&EIO=3");
    url
}

/// The JSON text of the open packet that a handshake response must start with.
pub open spec fn handshake_json(body: Seq<u8>) -> Option<Seq<char>> {
    match decode_payload(body) {
        Some(ps) => if ps.len() > 0 && ps[0].packet_type == PacketType::Open
            && ps[0].body is Text {
            Some(ps[0].body->Text_0)
        } else {
            None
        },
        None => None,
    }
}

/// The message of the protocol error for a handshake without an open packet.
pub open spec fn missing_open_message() -> Seq<char> {
    "handshake did not start with an open packet"@
}

/// Checks a handshake response body and returns the JSON text of its open
/// packet: the body must decode, and its first packet must be a text `Open`
/// packet; anything else is a protocol error.
pub fn open_packet_json(body: &[u8]) -> (r: Result<String, EIOError>)
    ensures
        match r {
            Ok(json) => handshake_json(body@) == Some(json@),
            Err(e) => handshake_json(body@) is None && e@ == ErrorView::Protocol(
                if decode_payload(body@) is None {
                    malformed_payload_message()
                } else {
                    missing_open_message()
                },
            ),
        },
{
    let payload = match Payload::new(body) {
        Ok(p) => p,
        Err(err) => return Err(EIOError::malformed_payload(err)),
    };
    let packets = payload.into_packets();
    if packets.len() == 0 {
        return Err(EIOError::protocol("handshake did not start with an open packet".to_owned()));
    }
    let first = &packets[0];
    assert(first@ == decode_payload(body@)->Some_0[0]);
    match (first.packet_type(), first.data()) {
        (PacketType::Open, crate::packet::PacketData::Str(json)) => Ok(json.clone()),
        _ => Err(EIOError::protocol("handshake did not start with an open packet".to_owned())),
    }
}

/// The session that a handshake opened: its id, the server's base URL and
/// heartbeat timing, and the two flags that the session's tasks share.
pub struct ClientConfig {
    is_connected: AtomicBool,
    sid: String,
    base_url: String,
    ping_interval: u32,
    ping_timeout: u32,
    ping_received: AtomicBool,
}

/// The fixed part of a session as a mathematical value.
pub struct ConfigView {
    pub sid: Seq<char>,
    pub base_url: Seq<char>,
    pub ping_interval: u32,
    pub ping_timeout: u32,
}

impl View for ClientConfig {
    type V = ConfigView;

    closed spec fn view(&self) -> ConfigView {
        ConfigView {
            sid: self.sid@,
            base_url: self.base_url@,
            ping_interval: self.ping_interval,
            ping_timeout: self.ping_timeout,
        }
    }
}

/// How long to rest after a pong before the next ping: the ping interval
/// less the ping timeout, or nothing when the timeout is the longer.
pub open spec fn rest_ms(ping_interval: u32, ping_timeout: u32) -> u64 {
    if ping_interval >= ping_timeout {
        (ping_interval - ping_timeout) as u64
    } else {
        0
    }
}

impl ClientConfig {
    /// A session opened with the given id and heartbeat timing (in
    /// milliseconds); it starts connected, as if a pong had been received.
    pub fn new(sid: String, base_url: String, ping_interval: u32, ping_timeout: u32) -> (c:
        ClientConfig)
        ensures
            c@ == (ConfigView { sid: sid@, base_url: base_url@, ping_interval, ping_timeout }),
    {
        ClientConfig {
            is_connected: AtomicBool::new(true),
            sid,
            base_url,
            ping_interval,
            ping_timeout,
            ping_received: AtomicBool::new(true),
        }
    }

    /// The session id.
    pub fn sid(&self) -> (s: &str)
        ensures
            s@ == self@.sid,
    {
        self.sid.as_str()
    }

    /// The server's base URL.
    pub fn base_url(&self) -> (s: &str)
        ensures
            s@ == self@.base_url,
    {
        self.base_url.as_str()
    }

    /// The ping interval, in milliseconds.
    pub fn ping_interval(&self) -> (ms: u32)
        ensures
            ms == self@.ping_interval,
    {
        self.ping_interval
    }

    /// The ping timeout, in milliseconds.
    pub fn ping_timeout(&self) -> (ms: u32)
        ensures
            ms == self@.ping_timeout,
    {
        self.ping_timeout
    }

    /// The URL of a request in this session at the time `secs.nanos`.
    pub fn get_url(&self, secs: u64, nanos: u32) -> (url: String)
        ensures
            url@ == session_url(self@.base_url, self@.sid, secs as nat, nanos as nat),
    {
        let mut url = self.base_url.clone();
        url.append("?transport=polling&EIO=3");
        url.append("&sid=");
        url.append(self.sid.as_str());
        url.append("&t=");
        append_decimal(&mut url, secs);
        url.append(".");
        append_decimal(&mut url, nanos as u64);
        url
    }

    /// How long to wait for a pong after a ping, in milliseconds.
    pub fn ping_timeout_ms(&self) -> (ms: u64)
        ensures
            ms == self@.ping_timeout,
    {
        self.ping_timeout as u64
    }

    /// How long to rest after a pong before the next ping, in milliseconds.
    pub fn ping_rest_ms(&self) -> (ms: u64)
        ensures
            ms == rest_ms(self@.ping_interval, self@.ping_timeout),
    {
        if self.ping_interval >= self.ping_timeout {
            (self.ping_interval - self.ping_timeout) as u64
        } else {
            0
        }
    }

    /// Whether the session is still connected. Other tasks may change the
    /// flag at any time, so nothing is promised of the value read.
    pub fn is_connected(&self) -> bool {
        self.is_connected.load(Ordering::Relaxed)
    }

    /// Ends the session: clears the connected flag, which nothing sets again.
    pub fn disconnect(&self) {
        self.is_connected.store(false, Ordering::Relaxed);
    }

    /// Whether a pong arrived since the last ping was sent.
    pub fn ping_received(&self) -> bool {
        self.ping_received.load(Ordering::SeqCst)
    }

    /// Records that a pong arrived.
    pub fn mark_pong(&self) {
        self.ping_received.store(true, Ordering::SeqCst);
    }

    /// Records that a ping went out and its pong is awaited.
    pub fn await_pong(&self) {
        self.ping_received.store(false, Ordering::SeqCst);
    }
}

} // verus!
