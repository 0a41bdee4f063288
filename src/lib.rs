//! An Engine.IO v3 long-polling client core: the packet and payload codecs,
//! the session URLs and handshake checks, and the decisions of the session's
//! poll, ping and write loops.

pub mod client;
pub mod packet;
pub mod payload;
pub mod session;

pub use client::{handshake_url, open_packet_json, ClientConfig, EIOError, EIOErrorKind};
pub use packet::{Packet, PacketData, PacketDecodeError, PacketType};
pub use payload::{Payload, PayloadDecodeError};
pub use session::{
    join_results, write_step, PacketAction, PingLoop, PingStep, PollLoop, WriteStep,
};
