use crate::packet::{
    binary_packet, encoded, extend_bytes, text_packet, type_byte, type_code, type_of_byte,
    type_of_code, BodyView, Packet, PacketData, PacketType, PacketView,
};
use std::ops::Range;
use vstd::prelude::*;
use vstd::slice::slice_subrange;
use vstd::utf8::{encode_utf8, encode_utf8_decode_utf8, encode_utf8_valid_utf8};

verus! {

/// True when `c` is one of the ten digit bytes `zero..=zero + 9`.
pub open spec fn is_digit(c: u8, zero: u8) -> bool {
    zero <= c && c <= zero + 9
}

/// The number of digit bytes at the start of `b`.
pub open spec fn digit_run(b: Seq<u8>, zero: u8) -> nat
    decreases b.len(),
{
    if b.len() > 0 && is_digit(b[0], zero) {
        1 + digit_run(b.drop_first(), zero)
    } else {
        0
    }
}

/// The value of the digit byte `c`: how far it lies above `zero`.
pub open spec fn digit_value(c: u8, zero: u8) -> nat {
    if c >= zero {
        (c - zero) as nat
    } else {
        0
    }
}

/// The number that the digit bytes `d` write in base ten, most significant first.
pub open spec fn digits_value(d: Seq<u8>, zero: u8) -> nat
    decreases d.len(),
{
    if d.len() == 0 {
        0
    } else {
        digits_value(d.drop_last(), zero) * 10 + digit_value(d.last(), zero)
    }
}

/// The decimal digits of `n`, most significant first, with no leading zero
/// (a single digit for zero), each written as `zero` plus its value.
pub open spec fn decimal_digits(n: nat, zero: u8) -> Seq<u8>
    decreases n,
{
    if n < 10 {
        seq![(zero + n) as u8]
    } else {
        decimal_digits(n / 10, zero) + seq![(zero + n % 10) as u8]
    }
}

/// Where the content of the frame at the start of `b` lies: a frame is at
/// least one digit, the separator `sep`, then as many content bytes as the
/// digits say. `None` when `b` does not start with a whole frame.
pub open spec fn frame_bounds(b: Seq<u8>, zero: u8, sep: u8) -> Option<(int, int)> {
    let n = digit_run(b, zero) as int;
    let len = digits_value(b.take(n), zero);
    if 1 <= n && n < b.len() && b[n] == sep && n + 1 + len <= b.len() {
        Some((n + 1, n + 1 + len))
    } else {
        None
    }
}

/// The packet that a binary frame's content decodes to, by the frame's
/// marker: `0` for a text-tagged content, `1` for a binary-tagged one. A
/// frame of declared length 0 is legal and stands for an empty `Ping`: a text
/// one after `0`, a binary one after `1`. `None` for any other marker or a
/// content that does not decode.
pub open spec fn frame_packet(marker: u8, content: Seq<u8>) -> Option<PacketView> {
    if marker == 0 {
        if content.len() == 0 {
            Some(PacketView { packet_type: PacketType::Ping, body: BodyView::Text(seq![]) })
        } else {
            text_packet(content)
        }
    } else if marker == 1 {
        if content.len() == 0 {
            Some(PacketView { packet_type: PacketType::Ping, body: BodyView::Binary(seq![]) })
        } else {
            binary_packet(content)
        }
    } else {
        None
    }
}

/// The packets of a body in binary framing: frames of a marker byte (`0` for
/// a text packet, `1` for a binary one), raw digits `0..=9`, `0xFF`, and the
/// content, each decoded by `frame_packet` (so a frame of length 0 is an empty
/// `Ping`). `None` when the body is malformed anywhere.
pub open spec fn decode_binary_frames(b: Seq<u8>) -> Option<Seq<PacketView>>
    decreases b.len(),
{
    if b.len() == 0 {
        Some(seq![])
    } else {
        let body = b.drop_first();
        match frame_bounds(body, 0, 255) {
            Some((start, end)) => {
                let content = body.subrange(start, end);
                match (frame_packet(b[0], content), decode_binary_frames(body.skip(end))) {
                    (Some(p), Some(rest)) => Some(seq![p] + rest),
                    _ => None,
                }
            },
            None => None,
        }
    }
}

/// The packets of a body in text framing: frames of ASCII digits, `':'`, and
/// a text-tagged content. `None` when the body is malformed anywhere.
pub open spec fn decode_text_frames(b: Seq<u8>) -> Option<Seq<PacketView>>
    decreases b.len(),
{
    if b.len() == 0 {
        Some(seq![])
    } else {
        match frame_bounds(b, 48, 58) {
            Some((start, end)) => {
                match (text_packet(b.subrange(start, end)), decode_text_frames(b.skip(end))) {
                    (Some(p), Some(rest)) => Some(seq![p] + rest),
                    _ => None,
                }
            },
            None => None,
        }
    }
}

/// The packets of an HTTP body: an empty body is malformed; a first byte of
/// `0` or `1` selects binary framing, any other text framing.
pub open spec fn decode_payload(b: Seq<u8>) -> Option<Seq<PacketView>> {
    if b.len() == 0 {
        None
    } else if b[0] <= 1 {
        decode_binary_frames(b)
    } else {
        decode_text_frames(b)
    }
}

/// The content of a packet's binary frame: its textual form for a text body,
/// the numeric type byte then the raw bytes for a binary body.
pub open spec fn binary_content(p: PacketView) -> Seq<u8> {
    match p.body {
        BodyView::Text(_) => encoded(p),
        BodyView::Binary(v) => seq![type_code(p.packet_type)] + v,
    }
}

/// The marker byte of a packet's binary frame.
pub open spec fn binary_marker(p: PacketView) -> u8 {
    match p.body {
        BodyView::Text(_) => 0,
        BodyView::Binary(_) => 1,
    }
}

/// A packet's frame in binary framing.
pub open spec fn binary_frame(p: PacketView) -> Seq<u8> {
    seq![binary_marker(p)] + decimal_digits(binary_content(p).len(), 0) + seq![255u8]
        + binary_content(p)
}

/// A packet's frame in text framing.
pub open spec fn text_frame(p: PacketView) -> Seq<u8> {
    decimal_digits(encoded(p).len(), 48) + seq![58u8] + encoded(p)
}

/// Packets in binary framing, one frame after another.
pub open spec fn encode_binary_frames(ps: Seq<PacketView>) -> Seq<u8> {
    ps.map_values(|p: PacketView| binary_frame(p)).flatten()
}

/// Packets in text framing, one frame after another.
pub open spec fn encode_text_frames(ps: Seq<PacketView>) -> Seq<u8> {
    ps.map_values(|p: PacketView| text_frame(p)).flatten()
}

/// An ordered sequence of packets, as carried by one HTTP body.
#[derive(Debug, Clone, PartialEq, Eq)]
pub struct Payload {
    packets: Vec<Packet>,
}

/// The packets of `v` as mathematical values.
pub open spec fn packet_views(v: Seq<Packet>) -> Seq<PacketView> {
    v.map_values(|p: Packet| p@)
}

impl View for Payload {
    type V = Seq<PacketView>;

    closed spec fn view(&self) -> Seq<PacketView> {
        packet_views(self.packets@)
    }
}

/// A body could not be decoded into packets.
#[derive(Debug, Clone, Copy, PartialEq, Eq, Structural)]
pub struct PayloadDecodeError {}

/// Appends the decimal digits of `n`, each as `zero` plus its value.
fn push_decimal(out: &mut Vec<u8>, n: usize, zero: u8)
    requires
        zero <= 246,
    ensures
        final(out)@ == old(out)@ + decimal_digits(n as nat, zero),
    decreases n,
{
    if n >= 10 {
        push_decimal(out, n / 10, zero);
    }
    out.push(zero + (n % 10) as u8);
}

/// `digit_run` is `k` when the first `k` bytes are digits and the next is not.
proof fn lemma_digit_run(b: Seq<u8>, zero: u8, k: int)
    requires
        0 <= k <= b.len(),
        forall|j: int| 0 <= j < k ==> is_digit(#[trigger] b[j], zero),
        k == b.len() || !is_digit(b[k], zero),
    ensures
        digit_run(b, zero) == k,
    decreases k,
{
    if k > 0 {
        assert forall|j: int| 0 <= j < k - 1 implies is_digit(#[trigger] b.drop_first()[j], zero) by {
            assert(b.drop_first()[j] == b[j + 1]);
        }
        lemma_digit_run(b.drop_first(), zero, k - 1);
    }
}

/// Finds the frame at the start of `bytes`: the content's start and end.
fn frame_window(bytes: &[u8], zero: u8, sep: u8) -> (r: Option<(usize, usize)>)
    requires
        zero <= 246,
    ensures
        match r {
            Some((start, end)) => frame_bounds(bytes@, zero, sep) == Some(
                (start as int, end as int),
            ),
            None => frame_bounds(bytes@, zero, sep) is None,
        },
{
    let len = bytes.len();
    let mut n: usize = 0;
    let mut value: usize = 0;
    let mut too_big = false;
    while n < len && zero <= bytes[n] && bytes[n] <= zero + 9
        invariant
            len == bytes@.len(),
            zero <= 246,
            n <= len,
            forall|j: int| 0 <= j < n ==> is_digit(#[trigger] bytes@[j], zero),
            too_big ==> digits_value(bytes@.take(n as int), zero) > len,
            !too_big ==> value == digits_value(bytes@.take(n as int), zero) && value <= len,
        decreases len - n,
    {
        let d = (bytes[n] - zero) as usize;
        assert(bytes@.take(n + 1).drop_last() =~= bytes@.take(n as int));
        assert(digits_value(bytes@.take(n + 1), zero) == digits_value(bytes@.take(n as int), zero)
            * 10 + d);
        if !too_big {
            if value > len / 10 {
                too_big = true;
            } else if d > len - value * 10 {
                too_big = true;
            } else {
                value = value * 10 + d;
            }
        }
        n = n + 1;
    }
    proof {
        lemma_digit_run(bytes@, zero, n as int);
    }
    if n == 0 || n >= len || bytes[n] != sep || too_big || value > len - (n + 1) {
        None
    } else {
        Some((n + 1, n + 1 + value))
    }
}

/// The binary frame of a packet: marker, raw length digits, `0xFF`, content.
fn push_binary_frame(out: &mut Vec<u8>, packet: &Packet)
    ensures
        final(out)@ == old(out)@ + binary_frame(packet@),
{
    let content = match packet.data() {
        PacketData::Str(_) => packet.encode(),
        PacketData::Bytes(b) => {
            let mut c: Vec<u8> = Vec::new();
            c.push(packet.packet_type().to_code());
            extend_bytes(&mut c, b.as_slice());
            c
        },
    };
    match packet.data() {
        PacketData::Str(_) => out.push(0),
        PacketData::Bytes(_) => out.push(1),
    }
    push_decimal(out, content.len(), 0);
    out.push(255);
    extend_bytes(out, content.as_slice());
    assert(final(out)@ =~= old(out)@ + binary_frame(packet@));
}

/// The text frame of a packet: ASCII length digits, `':'`, textual form.
fn push_text_frame(out: &mut Vec<u8>, packet: &Packet)
    ensures
        final(out)@ == old(out)@ + text_frame(packet@),
{
    let content = packet.encode();
    push_decimal(out, content.len(), 48);
    out.push(58);
    extend_bytes(out, content.as_slice());
    assert(final(out)@ =~= old(out)@ + text_frame(packet@));
}

impl Payload {
    /// Decodes an HTTP body into packets, choosing the framing by its first
    /// byte: `0` or `1` for binary framing, anything else for text framing.
    pub fn new(bytes: &[u8]) -> (r: Result<Payload, PayloadDecodeError>)
        ensures
            match r {
                Ok(p) => decode_payload(bytes@) == Some(p@),
                Err(_) => decode_payload(bytes@) is None,
            },
    {
        if bytes.len() == 0 {
            Err(PayloadDecodeError {})
        } else if bytes[0] <= 1 {
            Self::decode_binary(bytes)
        } else {
            Self::decode_text(bytes)
        }
    }

    /// A payload of one packet.
    pub fn from_packet(p: Packet) -> (r: Payload)
        ensures
            r@ == seq![p@],
    {
        let mut packets: Vec<Packet> = Vec::new();
        packets.push(p);
        let r = Payload { packets };
        assert(r@ =~= seq![p@]);
        r
    }

    /// The packets in binary framing, the form in which this client sends.
    pub fn encode_binary(&self) -> (r: Vec<u8>)
        ensures
            r@ == encode_binary_frames(self@),
    {
        let mut out: Vec<u8> = Vec::new();
        let mut i: usize = 0;
        while i < self.packets.len()
            invariant
                i <= self.packets@.len(),
                self@ == packet_views(self.packets@),
                out@ == encode_binary_frames(self@.take(i as int)),
            decreases self.packets@.len() - i,
        {
            push_binary_frame(&mut out, &self.packets[i]);
            proof {
                let fs = self@.take(i as int).map_values(|p: PacketView| binary_frame(p));
                assert(self@.take(i + 1).map_values(|p: PacketView| binary_frame(p)) =~= fs.push(
                    binary_frame(self@[i as int]),
                ));
                fs.lemma_flatten_push(binary_frame(self@[i as int]));
            }
            i = i + 1;
        }
        assert(self@.take(i as int) =~= self@);
        out
    }

    /// The packets in text framing.
    pub fn encode_text(&self) -> (r: Vec<u8>)
        ensures
            r@ == encode_text_frames(self@),
    {
        let mut out: Vec<u8> = Vec::new();
        let mut i: usize = 0;
        while i < self.packets.len()
            invariant
                i <= self.packets@.len(),
                self@ == packet_views(self.packets@),
                out@ == encode_text_frames(self@.take(i as int)),
            decreases self.packets@.len() - i,
        {
            push_text_frame(&mut out, &self.packets[i]);
            proof {
                let fs = self@.take(i as int).map_values(|p: PacketView| text_frame(p));
                assert(self@.take(i + 1).map_values(|p: PacketView| text_frame(p)) =~= fs.push(
                    text_frame(self@[i as int]),
                ));
                fs.lemma_flatten_push(text_frame(self@[i as int]));
            }
            i = i + 1;
        }
        assert(self@.take(i as int) =~= self@);
        out
    }

    /// The packets, in order.
    pub fn packets(&self) -> (r: &Vec<Packet>)
        ensures
            packet_views(r@) == self@,
    {
        &self.packets
    }

    /// The packets, in order, taken out of the payload.
    pub fn into_packets(self) -> (r: Vec<Packet>)
        ensures
            packet_views(r@) == self@,
    {
        self.packets
    }

    /// Decodes a body in binary framing.
    pub fn decode_binary(bytes: &[u8]) -> (r: Result<Payload, PayloadDecodeError>)
        ensures
            match r {
                Ok(p) => decode_binary_frames(bytes@) == Some(p@),
                Err(_) => decode_binary_frames(bytes@) is None,
            },
    {
        let len = bytes.len();
        let mut packets: Vec<Packet> = Vec::new();
        let mut pos: usize = 0;
        assert(bytes@.skip(0) =~= bytes@);
        assert forall|rest: Seq<PacketView>| packet_views(packets@) + rest =~= rest by {}
        while pos < len
            invariant
                len == bytes@.len(),
                pos <= len,
                decode_binary_frames(bytes@) == match decode_binary_frames(bytes@.skip(pos as int)) {
                    Some(rest) => Some(packet_views(packets@) + rest),
                    None => None::<Seq<PacketView>>,
                },
            decreases len - pos,
        {
            let ghost suffix = bytes@.skip(pos as int);
            let marker = bytes[pos];
            let body = slice_subrange(bytes, pos + 1, len);
            assert(body@ =~= suffix.drop_first());
            let (start, end) = match Self::get_next_packet_window(body) {
                Ok(window) => (window.start, window.end),
                Err(e) => return Err(e),
            };
            let content = slice_subrange(body, start, end);
            let packet = match Self::decode_frame_content(marker, content) {
                Ok(p) => p,
                Err(e) => return Err(e),
            };
            proof {
                assert(body@.skip(end as int) =~= bytes@.skip(pos + 1 + end));
                assert(packet_views(packets@.push(packet)) =~= packet_views(packets@).push(
                    packet@,
                ));
                assert forall|rest: Seq<PacketView>|
                    packet_views(packets@) + (seq![packet@] + rest) =~= packet_views(
                        packets@,
                    ).push(packet@) + rest by {}
            }
            packets.push(packet);
            pos = pos + 1 + end;
        }
        assert(bytes@.skip(pos as int) =~= Seq::<u8>::empty());
        let r = Payload { packets };
        assert(packet_views(packets@) + Seq::<PacketView>::empty() =~= r@);
        Ok(r)
    }

    /// Decodes the content of a binary frame by its marker; an empty content
    /// is an empty `Ping`, text after marker `0` and binary after `1`.
    fn decode_frame_content(marker: u8, content: &[u8]) -> (r: Result<Packet, PayloadDecodeError>)
        ensures
            match r {
                Ok(p) => frame_packet(marker, content@) == Some(p@),
                Err(_) => frame_packet(marker, content@) is None,
            },
    {
        if marker == 0 {
            if content.len() == 0 {
                proof {
                    reveal_strlit("");
                }
                let p = Packet::new(PacketType::Ping, "");
                assert(p@.body == BodyView::Text(Seq::<char>::empty())) by {
                    assert(""@ =~= Seq::<char>::empty());
                }
                Ok(p)
            } else {
                match Packet::from_utf8(content) {
                    Ok(p) => Ok(p),
                    Err(_) => Err(PayloadDecodeError {}),
                }
            }
        } else if marker == 1 {
            if content.len() == 0 {
                let empty: Vec<u8> = Vec::new();
                let p = Packet::with_bytes(PacketType::Ping, empty);
                assert(p@.body == BodyView::Binary(Seq::<u8>::empty())) by {
                    assert(empty@ =~= Seq::<u8>::empty());
                }
                Ok(p)
            } else {
                match Packet::from_bytes(content) {
                    Ok(p) => Ok(p),
                    Err(_) => Err(PayloadDecodeError {}),
                }
            }
        } else {
            Err(PayloadDecodeError {})
        }
    }

    /// Finds the binary frame content at the start of `bytes` (which follow a
    /// marker byte): after the raw length digits and `0xFF`.
    pub fn get_next_packet_window(bytes: &[u8]) -> (r: Result<Range<usize>, PayloadDecodeError>)
        ensures
            match r {
                Ok(w) => frame_bounds(bytes@, 0, 255) == Some((w.start as int, w.end as int)),
                Err(_) => frame_bounds(bytes@, 0, 255) is None,
            },
    {
        match frame_window(bytes, 0, 255) {
            Some((start, end)) => Ok(Range { start, end }),
            None => Err(PayloadDecodeError {}),
        }
    }

    /// Decodes a body in text framing.
    pub fn decode_text(bytes: &[u8]) -> (r: Result<Payload, PayloadDecodeError>)
        ensures
            match r {
                Ok(p) => decode_text_frames(bytes@) == Some(p@),
                Err(_) => decode_text_frames(bytes@) is None,
            },
    {
        let len = bytes.len();
        let mut packets: Vec<Packet> = Vec::new();
        let mut pos: usize = 0;
        assert(bytes@.skip(0) =~= bytes@);
        assert forall|rest: Seq<PacketView>| packet_views(packets@) + rest =~= rest by {}
        while pos < len
            invariant
                len == bytes@.len(),
                pos <= len,
                decode_text_frames(bytes@) == match decode_text_frames(bytes@.skip(pos as int)) {
                    Some(rest) => Some(packet_views(packets@) + rest),
                    None => None::<Seq<PacketView>>,
                },
            decreases len - pos,
        {
            let rest = slice_subrange(bytes, pos, len);
            assert(rest@ =~= bytes@.skip(pos as int));
            let (start, end) = match frame_window(rest, 48, 58) {
                Some(w) => w,
                None => return Err(PayloadDecodeError {}),
            };
            let packet = match Packet::from_utf8(slice_subrange(rest, start, end)) {
                Ok(p) => p,
                Err(_) => return Err(PayloadDecodeError {}),
            };
            proof {
                assert(rest@.skip(end as int) =~= bytes@.skip(pos + end));
                assert(packet_views(packets@.push(packet)) =~= packet_views(packets@).push(
                    packet@,
                ));
                assert forall|tail: Seq<PacketView>|
                    packet_views(packets@) + (seq![packet@] + tail) =~= packet_views(
                        packets@,
                    ).push(packet@) + tail by {}
            }
            packets.push(packet);
            pos = pos + end;
        }
        assert(bytes@.skip(pos as int) =~= Seq::<u8>::empty());
        let r = Payload { packets };
        assert(packet_views(packets@) + Seq::<PacketView>::empty() =~= r@);
        Ok(r)
    }
}

/// The digits that `decimal_digits` writes are digits, at least one, and
/// they read back as the number written.
proof fn lemma_decimal_digits(n: nat, zero: u8)
    requires
        zero <= 246,
    ensures
        decimal_digits(n, zero).len() >= 1,
        forall|j: int|
            0 <= j < decimal_digits(n, zero).len() ==> is_digit(
                #[trigger] decimal_digits(n, zero)[j],
                zero,
            ),
        digits_value(decimal_digits(n, zero), zero) == n,
    decreases n,
{
    let d = decimal_digits(n, zero);
    if n >= 10 {
        lemma_decimal_digits(n / 10, zero);
        let head = decimal_digits(n / 10, zero);
        assert(d.drop_last() =~= head);
        assert(digit_value(d.last(), zero) == n % 10);
        assert((n / 10) * 10 + n % 10 == n) by (nonlinear_arith);
        assert forall|j: int| 0 <= j < d.len() implies is_digit(#[trigger] d[j], zero) by {
            if j < head.len() {
                assert(d[j] == head[j]);
            }
        }
    } else {
        assert(d.drop_last() =~= Seq::<u8>::empty());
        assert(digit_value(d.last(), zero) == n);
    }
    assert(digits_value(d, zero) == digits_value(d.drop_last(), zero) * 10 + digit_value(
        d.last(),
        zero,
    ));
}

/// What `digit_run` counts: digits up to it, and no digit right after it.
proof fn lemma_digit_run_facts(b: Seq<u8>, zero: u8)
    ensures
        digit_run(b, zero) <= b.len(),
        forall|j: int| 0 <= j < digit_run(b, zero) ==> is_digit(#[trigger] b[j], zero),
        digit_run(b, zero) < b.len() ==> !is_digit(b[digit_run(b, zero) as int], zero),
    decreases b.len(),
{
    if b.len() > 0 && is_digit(b[0], zero) {
        lemma_digit_run_facts(b.drop_first(), zero);
        assert forall|j: int| 0 <= j < digit_run(b, zero) implies is_digit(#[trigger] b[j], zero) by {
            if j > 0 {
                assert(b[j] == b.drop_first()[j - 1]);
            }
        }
    }
}

/// A frame written as length digits, separator and content is found as such,
/// whatever follows it.
proof fn lemma_frame_bounds_written(content: Seq<u8>, rest: Seq<u8>, zero: u8, sep: u8)
    requires
        zero <= 246,
        !is_digit(sep, zero),
    ensures
        ({
            let digits = decimal_digits(content.len(), zero);
            let b = digits + seq![sep] + content + rest;
            let start = digits.len() + 1;
            let end = (start + content.len()) as int;
            &&& frame_bounds(b, zero, sep) == Some((start as int, end))
            &&& b.subrange(start as int, end) == content
            &&& b.skip(end) == rest
        }),
{
    let digits = decimal_digits(content.len(), zero);
    let b = digits + seq![sep] + content + rest;
    let k = digits.len() as int;
    lemma_decimal_digits(content.len(), zero);
    assert forall|j: int| 0 <= j < k implies is_digit(#[trigger] b[j], zero) by {
        assert(b[j] == digits[j]);
    }
    lemma_digit_run(b, zero, k);
    assert(b.take(k) =~= digits);
    assert(b.subrange(k + 1, k + 1 + content.len()) =~= content);
    assert(b.skip(k + 1 + content.len()) =~= rest);
}

/// A frame found at the start of `b` is found the same way in any prefix of
/// `b` that still holds it.
proof fn lemma_frame_bounds_prefix(b: Seq<u8>, zero: u8, sep: u8, m: int)
    requires
        frame_bounds(b, zero, sep) matches Some((_, end)) && end <= m <= b.len(),
    ensures
        frame_bounds(b.take(m), zero, sep) == frame_bounds(b, zero, sep),
{
    let n = digit_run(b, zero) as int;
    lemma_digit_run_facts(b, zero);
    let p = b.take(m);
    assert forall|j: int| 0 <= j < n implies is_digit(#[trigger] p[j], zero) by {
        assert(p[j] == b[j]);
    }
    lemma_digit_run(p, zero, n);
    assert(p.take(n) =~= b.take(n));
}

/// The first frame of a packet list in binary framing, then the others.
proof fn lemma_encode_binary_unfold(xs: Seq<PacketView>)
    requires
        xs.len() > 0,
    ensures
        encode_binary_frames(xs) == binary_frame(xs[0]) + encode_binary_frames(xs.drop_first()),
{
    let fs = xs.map_values(|p: PacketView| binary_frame(p));
    assert(fs.drop_first() =~= xs.drop_first().map_values(|p: PacketView| binary_frame(p)));
}

/// The first frame of a packet list in text framing, then the others.
proof fn lemma_encode_text_unfold(xs: Seq<PacketView>)
    requires
        xs.len() > 0,
    ensures
        encode_text_frames(xs) == text_frame(xs[0]) + encode_text_frames(xs.drop_first()),
{
    let fs = xs.map_values(|p: PacketView| text_frame(p));
    assert(fs.drop_first() =~= xs.drop_first().map_values(|p: PacketView| text_frame(p)));
}

/// The textual form of a text-bodied packet decodes back to it.
proof fn lemma_text_packet_encoded(p: PacketView)
    requires
        p.body is Text,
    ensures
        text_packet(encoded(p)) == Some(p),
{
    let s = p.body->Text_0;
    let e = encoded(p);
    assert(e.drop_first() =~= encode_utf8(s));
    encode_utf8_valid_utf8(s);
    encode_utf8_decode_utf8(s);
    assert(type_of_byte(type_byte(p.packet_type)) == Some(p.packet_type));
}

/// A binary frame content decodes back to its packet.
proof fn lemma_binary_content(p: PacketView)
    ensures
        binary_content(p).len() > 0,
        frame_packet(binary_marker(p), binary_content(p)) == Some(p),
        binary_marker(p) <= 1,
{
    match p.body {
        BodyView::Text(_) => lemma_text_packet_encoded(p),
        BodyView::Binary(v) => {
            assert(binary_content(p).drop_first() =~= v);
            assert(type_of_code(type_code(p.packet_type)) == Some(p.packet_type));
        },
    }
}

/// A packet's binary frame decodes to the packet, then decoding goes on with
/// whatever follows the frame.
proof fn lemma_binary_frame_then(p: PacketView, rest: Seq<u8>)
    ensures
        decode_binary_frames(binary_frame(p) + rest) == match decode_binary_frames(rest) {
            Some(ps) => Some(seq![p] + ps),
            None => None::<Seq<PacketView>>,
        },
{
    let b = binary_frame(p) + rest;
    let content = binary_content(p);
    lemma_binary_content(p);
    lemma_frame_bounds_written(content, rest, 0, 255);
    assert(b.drop_first() =~= decimal_digits(content.len(), 0) + seq![255u8] + content + rest);
}

/// A packet's text frame decodes to the packet, then decoding goes on with
/// whatever follows the frame.
proof fn lemma_text_frame_then(p: PacketView, rest: Seq<u8>)
    requires
        p.body is Text,
    ensures
        decode_text_frames(text_frame(p) + rest) == match decode_text_frames(rest) {
            Some(ps) => Some(seq![p] + ps),
            None => None::<Seq<PacketView>>,
        },
{
    lemma_text_packet_encoded(p);
    lemma_frame_bounds_written(encoded(p), rest, 48, 58);
    assert(text_frame(p) + rest =~= decimal_digits(encoded(p).len(), 48) + seq![58u8] + encoded(
        p,
    ) + rest);
}

/// Decoding a body in binary framing gives back every packet list encoded
/// in it, text and binary bodies alike.
pub proof fn lemma_binary_round_trip(xs: Seq<PacketView>)
    ensures
        decode_binary_frames(encode_binary_frames(xs)) == Some(xs),
        xs.len() > 0 ==> decode_payload(encode_binary_frames(xs)) == Some(xs),
    decreases xs.len(),
{
    if xs.len() == 0 {
        assert(encode_binary_frames(xs) =~= Seq::<u8>::empty());
    } else {
        lemma_encode_binary_unfold(xs);
        lemma_binary_round_trip(xs.drop_first());
        lemma_binary_frame_then(xs[0], encode_binary_frames(xs.drop_first()));
        lemma_binary_content(xs[0]);
        assert(seq![xs[0]] + xs.drop_first() =~= xs);
    }
}

/// Decoding a body in text framing gives back every list of text-bodied
/// packets encoded in it.
pub proof fn lemma_text_round_trip(xs: Seq<PacketView>)
    requires
        forall|i: int| 0 <= i < xs.len() ==> (#[trigger] xs[i]).body is Text,
    ensures
        decode_text_frames(encode_text_frames(xs)) == Some(xs),
        xs.len() > 0 ==> decode_payload(encode_text_frames(xs)) == Some(xs),
    decreases xs.len(),
{
    if xs.len() == 0 {
        assert(encode_text_frames(xs) =~= Seq::<u8>::empty());
    } else {
        lemma_encode_text_unfold(xs);
        assert forall|i: int| 0 <= i < xs.drop_first().len() implies (
        #[trigger] xs.drop_first()[i]).body is Text by {
            assert(xs.drop_first()[i] == xs[i + 1]);
        }
        lemma_text_round_trip(xs.drop_first());
        lemma_text_frame_then(xs[0], encode_text_frames(xs.drop_first()));
        assert(seq![xs[0]] + xs.drop_first() =~= xs);
    }
}

/// A text-bodied packet, alone in a payload in text framing, decodes back to
/// itself.
pub proof fn lemma_single_text_round_trip(p: PacketView)
    requires
        p.body is Text,
    ensures
        decode_text_frames(encode_text_frames(seq![p])) == Some(seq![p]),
        decode_payload(encode_text_frames(seq![p])) == Some(seq![p]),
{
    lemma_text_round_trip(seq![p]);
}

/// The frames that a body in binary framing splits into, each a marker,
/// digits, `0xFF` and its content, as far as they can be found.
spec fn binary_frame_split(b: Seq<u8>) -> Seq<Seq<u8>>
    decreases b.len(),
{
    if b.len() == 0 {
        seq![]
    } else {
        match frame_bounds(b.drop_first(), 0, 255) {
            Some((_, end)) => seq![b.take(end + 1)] + binary_frame_split(b.skip(end + 1)),
            None => seq![b],
        }
    }
}

/// The frames that a body in text framing splits into, each digits, `':'`
/// and its content, as far as they can be found.
spec fn text_frame_split(b: Seq<u8>) -> Seq<Seq<u8>>
    decreases b.len(),
{
    if b.len() == 0 {
        seq![]
    } else {
        match frame_bounds(b, 48, 58) {
            Some((_, end)) => seq![b.take(end)] + text_frame_split(b.skip(end)),
            None => seq![b],
        }
    }
}

/// The first frame of a body that decodes in binary framing decodes alone to
/// the first packet.
proof fn lemma_binary_first_frame(b: Seq<u8>)
    requires
        b.len() > 0,
        decode_binary_frames(b) is Some,
    ensures
        frame_bounds(b.drop_first(), 0, 255) matches Some((_, end)) && decode_payload(
            b.take(end + 1),
        ) == Some(seq![decode_binary_frames(b)->Some_0[0]]),
{
    let body = b.drop_first();
    let (start, end) = frame_bounds(body, 0, 255)->Some_0;
    let f = b.take(end + 1);
    let content = body.subrange(start, end);
    let p = decode_binary_frames(b)->Some_0[0];
    let packet = frame_packet(b[0], content);
    let rest = decode_binary_frames(body.skip(end))->Some_0;
    assert(decode_binary_frames(b) == Some(seq![packet->Some_0] + rest));
    assert((seq![packet->Some_0] + rest)[0] == packet->Some_0);
    assert(b[0] <= 1);
    lemma_frame_bounds_prefix(body, 0, 255, end);
    assert(f[0] == b[0]);
    assert(f.drop_first() =~= body.take(end));
    assert(body.take(end).subrange(start, end) =~= content);
    assert(body.take(end).skip(end) =~= Seq::<u8>::empty());
    assert(decode_binary_frames(Seq::<u8>::empty()) == Some(Seq::<PacketView>::empty()));
    assert(seq![p] + Seq::<PacketView>::empty() =~= seq![p]);
    assert(decode_binary_frames(f) == Some(seq![p]));
}

/// The first frame of a body that decodes in text framing decodes alone to
/// the first packet.
proof fn lemma_text_first_frame(b: Seq<u8>)
    requires
        b.len() > 0,
        decode_text_frames(b) is Some,
    ensures
        frame_bounds(b, 48, 58) matches Some((_, end)) && decode_payload(b.take(end)) == Some(
            seq![decode_text_frames(b)->Some_0[0]],
        ),
{
    let (start, end) = frame_bounds(b, 48, 58)->Some_0;
    let f = b.take(end);
    let p = decode_text_frames(b)->Some_0[0];
    let packet = text_packet(b.subrange(start, end));
    let rest = decode_text_frames(b.skip(end))->Some_0;
    assert(decode_text_frames(b) == Some(seq![packet->Some_0] + rest));
    assert((seq![packet->Some_0] + rest)[0] == packet->Some_0);
    lemma_frame_bounds_prefix(b, 48, 58, end);
    lemma_digit_run_facts(b, 48);
    assert(f[0] == b[0]);
    assert(f.subrange(start, end) =~= b.subrange(start, end));
    assert(f.skip(end) =~= Seq::<u8>::empty());
    assert(decode_text_frames(Seq::<u8>::empty()) == Some(Seq::<PacketView>::empty()));
    assert(seq![p] + Seq::<PacketView>::empty() =~= seq![p]);
    assert(decode_text_frames(f) == Some(seq![p]));
}

/// Each frame alone decodes to the packet at its place.
#[verifier::opaque]
spec fn each_frame_decodes(fs: Seq<Seq<u8>>, ps: Seq<PacketView>) -> bool {
    &&& fs.len() == ps.len()
    &&& forall|i: int| 0 <= i < fs.len() ==> decode_payload(#[trigger] fs[i]) == Some(seq![ps[i]])
}

/// A frame that decodes to `p`, put before frames that decode to `ps`.
proof fn lemma_each_frame_decodes_cons(
    f: Seq<u8>,
    p: PacketView,
    fs: Seq<Seq<u8>>,
    ps: Seq<PacketView>,
)
    requires
        decode_payload(f) == Some(seq![p]),
        each_frame_decodes(fs, ps),
    ensures
        each_frame_decodes(seq![f] + fs, seq![p] + ps),
{
    reveal(each_frame_decodes);
    let gs = seq![f] + fs;
    let qs = seq![p] + ps;
    assert forall|i: int| 0 <= i < gs.len() implies decode_payload(#[trigger] gs[i]) == Some(
        seq![qs[i]],
    ) by {
        if i > 0 {
            assert(gs[i] == fs[i - 1]);
            assert(qs[i] == ps[i - 1]);
        }
    }
}

/// A body that decodes in binary framing is its frames end to end, and each
/// frame alone decodes to its packet.
proof fn lemma_binary_split(b: Seq<u8>)
    requires
        decode_binary_frames(b) is Some,
    ensures
        binary_frame_split(b).flatten() == b,
        each_frame_decodes(binary_frame_split(b), decode_binary_frames(b)->Some_0),
    decreases b.len(),
{
    let ps = decode_binary_frames(b)->Some_0;
    let fs = binary_frame_split(b);
    if b.len() == 0 {
        assert(fs.flatten() =~= b);
        reveal(each_frame_decodes);
    } else {
        let body = b.drop_first();
        let end = frame_bounds(body, 0, 255)->Some_0.1;
        let tail = b.skip(end + 1);
        assert(body.skip(end) =~= tail);
        lemma_binary_split(tail);
        lemma_binary_first_frame(b);
        let fs_rest = binary_frame_split(tail);
        let ps_rest = decode_binary_frames(tail)->Some_0;
        assert(fs == seq![b.take(end + 1)] + fs_rest);
        assert(ps =~= seq![ps[0]] + ps_rest);
        assert(fs.drop_first() =~= fs_rest);
        assert(b.take(end + 1) + tail =~= b);
        lemma_each_frame_decodes_cons(b.take(end + 1), ps[0], fs_rest, ps_rest);
    }
}

/// A body that decodes in text framing is its frames end to end, and each
/// frame alone decodes to its packet.
proof fn lemma_text_split(b: Seq<u8>)
    requires
        decode_text_frames(b) is Some,
    ensures
        text_frame_split(b).flatten() == b,
        each_frame_decodes(text_frame_split(b), decode_text_frames(b)->Some_0),
    decreases b.len(),
{
    let ps = decode_text_frames(b)->Some_0;
    let fs = text_frame_split(b);
    if b.len() == 0 {
        assert(fs.flatten() =~= b);
        reveal(each_frame_decodes);
    } else {
        let end = frame_bounds(b, 48, 58)->Some_0.1;
        let tail = b.skip(end);
        lemma_text_split(tail);
        lemma_text_first_frame(b);
        let fs_rest = text_frame_split(tail);
        let ps_rest = decode_text_frames(tail)->Some_0;
        assert(fs == seq![b.take(end)] + fs_rest);
        assert(ps =~= seq![ps[0]] + ps_rest);
        assert(fs.drop_first() =~= fs_rest);
        assert(b.take(end) + tail =~= b);
        lemma_each_frame_decodes_cons(b.take(end), ps[0], fs_rest, ps_rest);
    }
}

/// A body either fails to decode, or it is a run of frames end to end, with
/// nothing left over, one frame per decoded packet, each frame alone
/// decoding to its packet.
pub proof fn lemma_decode_covers_body(b: Seq<u8>)
    ensures
        decode_payload(b) matches Some(ps) ==> exists|fs: Seq<Seq<u8>>|
            {
                &&& fs.len() == ps.len()
                &&& #[trigger] fs.flatten() == b
                &&& forall|i: int|
                    0 <= i < fs.len() ==> decode_payload(#[trigger] fs[i]) == Some(seq![ps[i]])
            },
{
    if decode_payload(b) is Some {
        reveal(each_frame_decodes);
        if b[0] <= 1 {
            lemma_binary_split(b);
            let fs = binary_frame_split(b);
            assert(fs.flatten() == b);
        } else {
            lemma_text_split(b);
            let fs = text_frame_split(b);
            assert(fs.flatten() == b);
        }
    }
}

} // verus!
