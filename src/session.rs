use crate::client::{malformed_payload_message, rest_ms, ClientConfig, EIOError, ErrorView};
use crate::packet::{BodyView, Packet, PacketData, PacketType, PacketView};
use crate::payload::{
    decode_payload, encode_binary_frames, lemma_binary_round_trip, packet_views, Payload,
};
use vstd::prelude::*;

verus! {

/// What the poll loop does with one packet from the server.
#[derive(Debug)]
pub enum PacketAction {
    /// A pong arrived: record it for the ping loop.
    RecordPong,
    /// The server closed the session: disconnect, and tell the handler when
    /// `notify` holds.
    Disconnect { notify: bool },
    /// A message for the handler.
    Deliver(PacketData),
    /// Nothing to do.
    Ignore,
    /// A packet that the server does not send to a client: log it.
    Unexpected(PacketType),
}

/// An event that the poll loop sees: a packet of some type, or a failed request.
pub enum PollEvent {
    Received(PacketType),
    TransportFailed,
}

/// Whether an event ends the session from the server's side.
pub open spec fn ends_session(e: PollEvent) -> bool {
    e == PollEvent::Received(PacketType::Close) || e is TransportFailed
}

/// Whether the handler hears of a disconnect at event `e`, given whether it
/// already has.
pub open spec fn notifies(notified: bool, e: PollEvent) -> bool {
    !notified && ends_session(e)
}

/// Whether the handler has heard of a disconnect after event `e`.
pub open spec fn notified_after(notified: bool, e: PollEvent) -> bool {
    notified || ends_session(e)
}

/// How many times the handler hears of a disconnect over a run of events.
pub open spec fn notification_count(notified: bool, es: Seq<PollEvent>) -> nat
    decreases es.len(),
{
    if es.len() == 0 {
        0
    } else {
        (if notifies(notified, es[0]) {
            1nat
        } else {
            0nat
        }) + notification_count(notified_after(notified, es[0]), es.drop_first())
    }
}

/// The action that fits a packet, given whether the handler has already
/// heard of a disconnect.
pub open spec fn packet_action_fits(a: PacketAction, p: PacketView, notified: bool) -> bool {
    match p.packet_type {
        PacketType::Pong => a is RecordPong,
        PacketType::Close => a == PacketAction::Disconnect {
            notify: notifies(notified, PollEvent::Received(PacketType::Close)),
        },
        PacketType::Message => a matches PacketAction::Deliver(d) && d@ == p.body,
        PacketType::Noop => a is Ignore,
        _ => a == PacketAction::Unexpected(p.packet_type),
    }
}

/// The poll loop's own state: whether the handler has heard of a disconnect.
pub struct PollLoop {
    disconnect_notified: bool,
}

impl View for PollLoop {
    type V = bool;

    closed spec fn view(&self) -> bool {
        self.disconnect_notified
    }
}

impl PollLoop {
    /// The poll loop of a new session.
    pub fn new() -> (l: PollLoop)
        ensures
            l@ == false,
    {
        PollLoop { disconnect_notified: false }
    }

    /// Decides what to do with one packet from the server.
    pub fn handle_packet(&mut self, packet: Packet) -> (a: PacketAction)
        ensures
            packet_action_fits(a, packet@, old(self)@),
            final(self)@ == notified_after(old(self)@, PollEvent::Received(packet@.packet_type)),
    {
        let packet_type = *packet.packet_type();
        match packet_type {
            PacketType::Pong => PacketAction::RecordPong,
            PacketType::Close => {
                let notify = !self.disconnect_notified;
                self.disconnect_notified = true;
                PacketAction::Disconnect { notify }
            },
            PacketType::Message => PacketAction::Deliver(packet.into_data()),
            PacketType::Noop => PacketAction::Ignore,
            _ => PacketAction::Unexpected(packet_type),
        }
    }

    /// Reads a poll response into the packets to handle, in order. A body
    /// that does not decode ends the poll loop with a protocol error; the
    /// session's flags are left as they are.
    pub fn read_response(body: &[u8]) -> (r: Result<Vec<Packet>, EIOError>)
        ensures
            match r {
                Ok(ps) => decode_payload(body@) == Some(packet_views(ps@)),
                Err(e) => decode_payload(body@) is None && e@ == ErrorView::Protocol(
                    malformed_payload_message(),
                ),
            },
    {
        match Payload::new(body) {
            Ok(payload) => Ok(payload.into_packets()),
            Err(err) => Err(EIOError::malformed_payload(err)),
        }
    }

    /// Decides, after a failed poll request, whether to tell the handler of
    /// the disconnect.
    pub fn transport_failed(&mut self) -> (notify: bool)
        ensures
            notify == notifies(old(self)@, PollEvent::TransportFailed),
            final(self)@ == notified_after(old(self)@, PollEvent::TransportFailed),
    {
        let notify = !self.disconnect_notified;
        self.disconnect_notified = true;
        notify
    }
}

/// Over any run of the poll loop, the handler hears of a disconnect at most
/// once, and not at all once it has.
pub proof fn lemma_disconnect_notified_once(notified: bool, es: Seq<PollEvent>)
    ensures
        notification_count(notified, es) <= if notified {
            0nat
        } else {
            1nat
        },
    decreases es.len(),
{
    if es.len() > 0 {
        lemma_disconnect_notified_once(notified_after(notified, es[0]), es.drop_first());
    }
}

/// Where the ping loop stands.
#[derive(Debug, Clone, Copy, PartialEq, Eq, Structural)]
pub enum PingPhase {
    /// About to send a ping, if the session is still connected.
    Probe,
    /// A ping went out; next comes the check for its pong.
    AwaitPong,
    /// The loop has ended.
    Stopped,
}

/// What the ping loop does next.
#[derive(Debug, Clone, Copy, PartialEq, Eq, Structural)]
pub enum PingStep {
    /// Send a ping, mark its pong as awaited, and wait `wait_ms` for it.
    Probe { wait_ms: u64 },
    /// The pong came: rest `wait_ms` before the next ping.
    Rest { wait_ms: u64 },
    /// No pong came in time: disconnect and end the loop.
    Disconnect,
    /// End the loop.
    Exit,
}

/// One step of the ping loop from `phase`, given what the shared flags read:
/// the next phase and what to do.
pub open spec fn ping_step(
    phase: PingPhase,
    timeout_ms: u64,
    rest: u64,
    connected: bool,
    pong_received: bool,
) -> (PingPhase, PingStep) {
    match phase {
        PingPhase::Probe => if connected {
            (PingPhase::AwaitPong, PingStep::Probe { wait_ms: timeout_ms })
        } else {
            (PingPhase::Stopped, PingStep::Exit)
        },
        PingPhase::AwaitPong => if pong_received {
            (PingPhase::Probe, PingStep::Rest { wait_ms: rest })
        } else {
            (PingPhase::Stopped, PingStep::Disconnect)
        },
        PingPhase::Stopped => (PingPhase::Stopped, PingStep::Exit),
    }
}

/// The ping loop's state: where it stands and its two waits.
pub struct PingLoop {
    phase: PingPhase,
    timeout_ms: u64,
    rest_ms: u64,
}

/// The ping loop's state as a mathematical value.
pub struct PingLoopView {
    pub phase: PingPhase,
    pub timeout_ms: u64,
    pub rest_ms: u64,
}

impl View for PingLoop {
    type V = PingLoopView;

    closed spec fn view(&self) -> PingLoopView {
        PingLoopView { phase: self.phase, timeout_ms: self.timeout_ms, rest_ms: self.rest_ms }
    }
}

/// The phase of a ping loop that started at `start`, after the first `i`
/// observations of the flags, each `(connected, pong_received)`.
pub open spec fn ping_phase_at(
    start: PingPhase,
    timeout_ms: u64,
    rest: u64,
    obs: Seq<(bool, bool)>,
    i: nat,
) -> PingPhase
    decreases i,
{
    if i == 0 {
        start
    } else {
        ping_step(
            ping_phase_at(start, timeout_ms, rest, obs, (i - 1) as nat),
            timeout_ms,
            rest,
            obs[i - 1].0,
            obs[i - 1].1,
        ).0
    }
}

/// What the ping loop does at its `i`-th step.
pub open spec fn ping_step_at(
    start: PingPhase,
    timeout_ms: u64,
    rest: u64,
    obs: Seq<(bool, bool)>,
    i: nat,
) -> PingStep {
    ping_step(
        ping_phase_at(start, timeout_ms, rest, obs, i),
        timeout_ms,
        rest,
        obs[i as int].0,
        obs[i as int].1,
    ).1
}

impl PingLoop {
    /// The ping loop of a session, about to send its first ping.
    pub fn new(config: &ClientConfig) -> (l: PingLoop)
        ensures
            l@ == (PingLoopView {
                phase: PingPhase::Probe,
                timeout_ms: config@.ping_timeout as u64,
                rest_ms: rest_ms(config@.ping_interval, config@.ping_timeout),
            }),
    {
        PingLoop {
            phase: PingPhase::Probe,
            timeout_ms: config.ping_timeout_ms(),
            rest_ms: config.ping_rest_ms(),
        }
    }

    /// Decides the next step from what the shared flags read.
    pub fn step(&mut self, connected: bool, pong_received: bool) -> (s: PingStep)
        ensures
            (final(self)@.phase, s) == ping_step(
                old(self)@.phase,
                old(self)@.timeout_ms,
                old(self)@.rest_ms,
                connected,
                pong_received,
            ),
            final(self)@.timeout_ms == old(self)@.timeout_ms,
            final(self)@.rest_ms == old(self)@.rest_ms,
    {
        match self.phase {
            PingPhase::Probe => if connected {
                self.phase = PingPhase::AwaitPong;
                PingStep::Probe { wait_ms: self.timeout_ms }
            } else {
                self.phase = PingPhase::Stopped;
                PingStep::Exit
            },
            PingPhase::AwaitPong => if pong_received {
                self.phase = PingPhase::Probe;
                PingStep::Rest { wait_ms: self.rest_ms }
            } else {
                self.phase = PingPhase::Stopped;
                PingStep::Disconnect
            },
            PingPhase::Stopped => PingStep::Exit,
        }
    }

    /// The ping that the loop sends: a `Ping` packet with text `"probe"`.
    pub fn probe_packet() -> (p: Packet)
        ensures
            p@ == (PacketView { packet_type: PacketType::Ping, body: BodyView::Text("probe"@) }),
    {
        Packet::new(PacketType::Ping, "probe")
    }
}

/// Once the ping loop has stopped, it stays stopped, whatever the flags read.
pub proof fn lemma_ping_stopped_is_final(
    start: PingPhase,
    timeout_ms: u64,
    rest: u64,
    obs: Seq<(bool, bool)>,
    i: nat,
    j: nat,
)
    requires
        i <= j <= obs.len(),
        ping_phase_at(start, timeout_ms, rest, obs, i) == PingPhase::Stopped,
    ensures
        ping_phase_at(start, timeout_ms, rest, obs, j) == PingPhase::Stopped,
    decreases j - i,
{
    if i < j {
        lemma_ping_stopped_is_final(start, timeout_ms, rest, obs, i, (j - 1) as nat);
    }
}

/// Between any two pings that the ping loop sends, there is a step at which
/// it read that the pong had arrived.
pub proof fn lemma_pong_between_pings(
    timeout_ms: u64,
    rest: u64,
    obs: Seq<(bool, bool)>,
    i: nat,
    j: nat,
)
    requires
        i < j < obs.len(),
        ping_step_at(PingPhase::Probe, timeout_ms, rest, obs, i) is Probe,
        ping_step_at(PingPhase::Probe, timeout_ms, rest, obs, j) is Probe,
    ensures
        exists|k: nat|
            i < k < j && (#[trigger] obs[k as int]).1 && ping_step_at(
                PingPhase::Probe,
                timeout_ms,
                rest,
                obs,
                k,
            ) is Rest,
{
    let start = PingPhase::Probe;
    let k = i + 1;
    assert(ping_phase_at(start, timeout_ms, rest, obs, k) == PingPhase::AwaitPong);
    assert(ping_phase_at(start, timeout_ms, rest, obs, j) == PingPhase::Probe);
    if !obs[k as int].1 {
        assert(ping_phase_at(start, timeout_ms, rest, obs, k + 1) == PingPhase::Stopped);
        lemma_ping_stopped_is_final(start, timeout_ms, rest, obs, k + 1, j);
    }
    assert(obs[k as int].1);
    assert(k != j);
    assert(ping_step_at(start, timeout_ms, rest, obs, k) is Rest);
}

/// What the write loop does next.
pub enum WriteStep {
    /// POST this body, whatever the answer, then take the next packet.
    Post(Vec<u8>),
    /// The channel is closed and drained: end the loop.
    Exit,
}

/// Decides what the write loop does with what the channel handed it: each
/// packet goes out alone, in binary framing; the loop ends only when the
/// channel has nothing more to give.
pub fn write_step(next: Option<Packet>) -> (s: WriteStep)
    ensures
        match next {
            Some(p) => s matches WriteStep::Post(body) && body@ == encode_binary_frames(seq![p@]),
            None => s is Exit,
        },
{
    match next {
        Some(packet) => WriteStep::Post(Payload::from_packet(packet).encode_binary()),
        None => WriteStep::Exit,
    }
}

/// The body that the write loop posts for a packet decodes to that packet
/// and nothing else.
pub proof fn lemma_posted_body_carries_packet(p: PacketView)
    ensures
        decode_payload(encode_binary_frames(seq![p])) == Some(seq![p]),
{
    lemma_binary_round_trip(seq![p]);
}

/// The outcome of a session from the outcomes of its three loops: the poll
/// loop's error first, then the write loop's, then the ping loop's.
pub fn join_results(
    poll: Result<(), EIOError>,
    write: Result<(), EIOError>,
    ping: Result<(), EIOError>,
) -> (r: Result<(), EIOError>)
    ensures
        r == if poll is Err {
            poll
        } else if write is Err {
            write
        } else {
            ping
        },
{
    if poll.is_err() {
        poll
    } else if write.is_err() {
        write
    } else {
        ping
    }
}

/// A decision of the session's loops, as it bears on the connected flag:
/// the only write to that flag after the handshake is the one that a
/// `Disconnect` asks for, and a failed poll request, which clears it.
pub enum SessionEvent {
    Packet(PacketAction),
    Ping(PingStep),
    TransportFailed,
}

/// Whether the session is connected after one decision is carried out.
pub open spec fn connected_after(connected: bool, e: SessionEvent) -> bool {
    connected && !match e {
        SessionEvent::Packet(a) => a is Disconnect,
        SessionEvent::Ping(s) => s is Disconnect,
        SessionEvent::TransportFailed => true,
    }
}

/// Whether the session is connected after a run of decisions.
pub open spec fn connected_through(connected: bool, es: Seq<SessionEvent>) -> bool
    decreases es.len(),
{
    if es.len() == 0 {
        connected
    } else {
        connected_through(connected_after(connected, es[0]), es.drop_first())
    }
}

/// Once the session is disconnected, no run of decisions of its loops, on
/// any packet, connects it again.
pub proof fn lemma_disconnect_is_final(es: Seq<SessionEvent>)
    ensures
        !connected_through(false, es),
    decreases es.len(),
{
    if es.len() > 0 {
        lemma_disconnect_is_final(es.drop_first());
    }
}

/// A disconnect anywhere in a run leaves the session disconnected at its end.
pub proof fn lemma_disconnect_persists(connected: bool, es: Seq<SessionEvent>, i: int)
    requires
        0 <= i < es.len(),
        !connected_after(true, es[i]),
    ensures
        !connected_through(connected, es),
    decreases es.len(),
{
    if i == 0 {
        lemma_disconnect_is_final(es.drop_first());
    } else {
        lemma_disconnect_persists(connected_after(connected, es[0]), es.drop_first(), i - 1);
    }
}

} // verus!
