use vstd::prelude::*;
use vstd::slice::{slice_subrange, slice_to_vec};
use vstd::utf8::{decode_utf8, encode_utf8, valid_utf8};

verus! {

/// The kind of an Engine.IO packet.
#[derive(Debug, Clone, Copy, PartialEq, Eq, Structural)]
pub enum PacketType {
    Open,
    Close,
    Ping,
    Pong,
    Message,
    Upgrade,
    Noop,
}

/// The numeric code of a packet type, `0` for `Open` up to `6` for `Noop`.
pub open spec fn type_code(t: PacketType) -> u8 {
    match t {
        PacketType::Open => 0,
        PacketType::Close => 1,
        PacketType::Ping => 2,
        PacketType::Pong => 3,
        PacketType::Message => 4,
        PacketType::Upgrade => 5,
        PacketType::Noop => 6,
    }
}

/// The packet type whose numeric code is `b`, if there is one.
pub open spec fn type_of_code(b: u8) -> Option<PacketType> {
    if b == 0 {
        Some(PacketType::Open)
    } else if b == 1 {
        Some(PacketType::Close)
    } else if b == 2 {
        Some(PacketType::Ping)
    } else if b == 3 {
        Some(PacketType::Pong)
    } else if b == 4 {
        Some(PacketType::Message)
    } else if b == 5 {
        Some(PacketType::Upgrade)
    } else if b == 6 {
        Some(PacketType::Noop)
    } else {
        None
    }
}

/// The ASCII byte that stands for a packet type in text, `b'0'` to `b'6'`.
pub open spec fn type_byte(t: PacketType) -> u8 {
    (type_code(t) + 48) as u8
}

/// The packet type that the ASCII digit byte `c` stands for, if any.
pub open spec fn type_of_byte(c: u8) -> Option<PacketType> {
    if c >= 48 {
        type_of_code((c - 48) as u8)
    } else {
        None
    }
}

/// The character that stands for a packet type, `'0'` to `'6'`.
pub open spec fn type_char(t: PacketType) -> char {
    type_byte(t) as char
}

/// The packet type that the character `c` stands for, if any.
pub open spec fn type_of_char(c: char) -> Option<PacketType> {
    if c as u32 <= 255 {
        type_of_byte(c as u8)
    } else {
        None
    }
}

/// A packet body as a mathematical value.
pub enum BodyView {
    Text(Seq<char>),
    Binary(Seq<u8>),
}

/// A packet as a mathematical value.
pub struct PacketView {
    pub packet_type: PacketType,
    pub body: BodyView,
}

/// The bytes of a body: the UTF-8 encoding of a text, or the raw bytes.
pub open spec fn body_bytes(b: BodyView) -> Seq<u8> {
    match b {
        BodyView::Text(s) => encode_utf8(s),
        BodyView::Binary(v) => v,
    }
}

/// A packet in its textual form: the type character, then the body's bytes.
pub open spec fn encoded(p: PacketView) -> Seq<u8> {
    seq![type_byte(p.packet_type)] + body_bytes(p.body)
}

/// The packet that a text-tagged content decodes to: an ASCII type digit
/// followed by UTF-8 text. `None` when the content is empty, the digit is not
/// one of `'0'..'6'`, or the rest is not valid UTF-8.
pub open spec fn text_packet(b: Seq<u8>) -> Option<PacketView> {
    if b.len() > 0 && type_of_byte(b[0]) is Some && valid_utf8(b.drop_first()) {
        Some(
            PacketView {
                packet_type: type_of_byte(b[0])->Some_0,
                body: BodyView::Text(decode_utf8(b.drop_first())),
            },
        )
    } else {
        None
    }
}

/// The packet that a binary-tagged content decodes to: a numeric type byte
/// `0..=6` followed by raw bytes. `None` when the content is empty or the type
/// byte exceeds 6.
pub open spec fn binary_packet(b: Seq<u8>) -> Option<PacketView> {
    if b.len() > 0 && type_of_code(b[0]) is Some {
        Some(
            PacketView {
                packet_type: type_of_code(b[0])->Some_0,
                body: BodyView::Binary(b.drop_first()),
            },
        )
    } else {
        None
    }
}

/// Packet-type decoding inverts encoding, and decodes exactly `'0'..'6'`.
pub proof fn lemma_type_char_bijection(t: PacketType, c: char)
    ensures
        type_of_char(type_char(t)) == Some(t),
        type_of_char(c) is Some <==> '0' <= c <= '6',
        type_of_char(c) matches Some(u) ==> type_char(u) == c,
{
}

impl PacketType {
    /// The character that stands for this type on the wire.
    pub fn to_char(&self) -> (c: char)
        ensures
            c == type_char(*self),
    {
        match self {
            PacketType::Open => '0',
            PacketType::Close => '1',
            PacketType::Ping => '2',
            PacketType::Pong => '3',
            PacketType::Message => '4',
            PacketType::Upgrade => '5',
            PacketType::Noop => '6',
        }
    }

    /// The numeric code of this type, `0..=6`.
    pub fn to_code(&self) -> (b: u8)
        ensures
            b == type_code(*self),
    {
        match self {
            PacketType::Open => 0,
            PacketType::Close => 1,
            PacketType::Ping => 2,
            PacketType::Pong => 3,
            PacketType::Message => 4,
            PacketType::Upgrade => 5,
            PacketType::Noop => 6,
        }
    }

    /// The type with numeric code `b`; `None` when `b` exceeds 6.
    pub fn from_code(b: u8) -> (r: Option<PacketType>)
        ensures
            r == type_of_code(b),
    {
        match b {
            0 => Some(PacketType::Open),
            1 => Some(PacketType::Close),
            2 => Some(PacketType::Ping),
            3 => Some(PacketType::Pong),
            4 => Some(PacketType::Message),
            5 => Some(PacketType::Upgrade),
            6 => Some(PacketType::Noop),
            _ => None,
        }
    }

    /// The type that the character `c` stands for; `None` outside `'0'..'6'`.
    pub fn from_char(c: char) -> (r: Option<PacketType>)
        ensures
            r == type_of_char(c),
    {
        if '0' <= c && c <= '6' {
            PacketType::from_code(((c as u32) - 48) as u8)
        } else {
            None
        }
    }
}

/// The body of a packet: UTF-8 text or raw bytes.
#[derive(Debug, Clone, PartialEq, Eq)]
pub enum PacketData {
    Str(String),
    Bytes(Vec<u8>),
}

impl View for PacketData {
    type V = BodyView;

    open spec fn view(&self) -> BodyView {
        match self {
            PacketData::Str(s) => BodyView::Text(s@),
            PacketData::Bytes(b) => BodyView::Binary(b@),
        }
    }
}

/// One Engine.IO packet: a type and a body.
#[derive(Debug, Clone, PartialEq, Eq)]
pub struct Packet {
    packet_type: PacketType,
    encoded_data: PacketData,
}

impl View for Packet {
    type V = PacketView;

    closed spec fn view(&self) -> PacketView {
        PacketView { packet_type: self.packet_type, body: self.encoded_data@ }
    }
}

/// A packet could not be decoded.
#[derive(Debug, Clone, Copy, PartialEq, Eq, Structural)]
pub struct PacketDecodeError {}

/// Relies on `String::from_utf8`: it succeeds exactly on valid UTF-8, and the
/// string then holds the characters that the bytes encode.
#[verifier::external_body]
fn utf8_string(b: &[u8]) -> (r: Option<String>)
    ensures
        r is Some <==> valid_utf8(b@),
        r matches Some(s) ==> s@ == decode_utf8(b@),
{
    String::from_utf8(b.to_vec()).ok()
}

/// Appends the bytes of `src` to `out`.
pub(crate) fn extend_bytes(out: &mut Vec<u8>, src: &[u8])
    ensures
        final(out)@ == old(out)@ + src@,
{
    let mut i: usize = 0;
    while i < src.len()
        invariant
            i <= src@.len(),
            out@ == old(out)@ + src@.take(i as int),
        decreases src@.len() - i,
    {
        out.push(src[i]);
        i = i + 1;
        assert(src@.take(i as int) =~= src@.take(i - 1) + seq![src@[i - 1]]);
    }
    assert(src@.take(i as int) =~= src@);
}

impl Packet {
    /// A packet of the given type with a text body.
    pub fn new(packet_type: PacketType, encoded_data: &str) -> (p: Packet)
        ensures
            p@ == (PacketView { packet_type, body: BodyView::Text(encoded_data@) }),
    {
        Packet { packet_type, encoded_data: PacketData::Str(encoded_data.to_owned()) }
    }

    /// A packet of the given type with a binary body.
    pub fn with_bytes(packet_type: PacketType, encoded_data: Vec<u8>) -> (p: Packet)
        ensures
            p@ == (PacketView { packet_type, body: BodyView::Binary(encoded_data@) }),
    {
        Packet { packet_type, encoded_data: PacketData::Bytes(encoded_data) }
    }

    /// The packet's body.
    pub fn data(&self) -> (d: &PacketData)
        ensures
            d@ == self@.body,
    {
        &self.encoded_data
    }

    /// The packet's body, taken out of the packet.
    pub fn into_data(self) -> (d: PacketData)
        ensures
            d@ == self@.body,
    {
        self.encoded_data
    }

    /// The packet's type.
    pub fn packet_type(&self) -> (t: &PacketType)
        ensures
            *t == self@.packet_type,
    {
        &self.packet_type
    }

    /// The packet in its textual form: the type character, then the body.
    pub fn encode(&self) -> (r: Vec<u8>)
        ensures
            r@ == encoded(self@),
    {
        let mut out: Vec<u8> = Vec::new();
        out.push(self.packet_type.to_code() + 48);
        match &self.encoded_data {
            PacketData::Str(s) => extend_bytes(&mut out, s.as_str().as_bytes()),
            PacketData::Bytes(b) => extend_bytes(&mut out, b.as_slice()),
        }
        out
    }

    /// Decodes a binary-tagged packet: a numeric type byte, then raw bytes.
    pub fn from_bytes(bytes: &[u8]) -> (r: Result<Packet, PacketDecodeError>)
        ensures
            match r {
                Ok(p) => binary_packet(bytes@) == Some(p@),
                Err(_) => binary_packet(bytes@) is None,
            },
    {
        if bytes.len() == 0 {
            return Err(PacketDecodeError {});
        }
        match PacketType::from_code(bytes[0]) {
            Some(packet_type) => {
                let rest = slice_subrange(bytes, 1, bytes.len());
                assert(rest@ =~= bytes@.drop_first());
                Ok(Packet::with_bytes(packet_type, slice_to_vec(rest)))
            },
            None => Err(PacketDecodeError {}),
        }
    }

    /// Decodes a text-tagged packet: an ASCII type digit, then UTF-8 text.
    pub fn from_utf8(bytes: &[u8]) -> (r: Result<Packet, PacketDecodeError>)
        ensures
            match r {
                Ok(p) => text_packet(bytes@) == Some(p@),
                Err(_) => text_packet(bytes@) is None,
            },
    {
        if bytes.len() == 0 || bytes[0] < 48 {
            return Err(PacketDecodeError {});
        }
        match PacketType::from_code(bytes[0] - 48) {
            Some(packet_type) => {
                let rest = slice_subrange(bytes, 1, bytes.len());
                assert(rest@ =~= bytes@.drop_first());
                match utf8_string(rest) {
                    Some(text) => Ok(
                        Packet { packet_type, encoded_data: PacketData::Str(text) },
                    ),
                    None => Err(PacketDecodeError {}),
                }
            },
            None => Err(PacketDecodeError {}),
        }
    }
}

impl std::str::FromStr for Packet {
    type Err = PacketDecodeError;

    /// Decodes a packet from its textual form: type character, then text.
    fn from_str(s: &str) -> Result<Packet, PacketDecodeError> {
        Packet::from_utf8(s.as_bytes())
    }
}

} // verus!
