//! The payloads, the layout of their packets, and the writer that makes the
//! frame of any packet on demand.

use vstd::math::{max, min};
use vstd::prelude::*;

use crate::colors::CoolLEDColors;
use crate::font::{lemma_span_len, Font};
use crate::ncycle::{lemma_repeated_index, lemma_repeated_len, repeated, Ncycles};
use crate::packets::PacketType;
use crate::stream::{
    lemma_text_spans_len, lemma_text_stream_upto_len, lemma_window_len, lemma_window_step,
    text_span, text_spans_len, text_stream, text_stream_upto, window,
};
use crate::util::{
    calculate_checksum, checksum, copy_bytes, escape, escape_byets_in_place, fill_zeros,
    lemma_escape_len, lemma_escape_no_marker, lemma_splice, lemma_splice_append,
    lemma_unescape_escape, splice, unescape, zeros,
};

verus! {

/// Bytes that the header of a text takes in the first packet.
pub const TEXT_PREFIX_FIRST_PACKET_HEADER_SIZE: usize = 107;

/// Bytes that the header of a picture takes in the first packet.
pub const IMAGE_PREFIX_FIRST_PACKET_HEADER_SIZE: usize = 26;

/// Bytes that the header of an animation takes in the first packet.
pub const ANIMATION_PREFIX_FIRST_PACKET_HEADER_SIZE: usize = 27;

/// A length that no frame exceeds: that of a packet with a full body in
/// which every byte is escaped. A buffer of this size holds any frame.
pub const MAX_FRAME_SIZE: usize = 276;

/// The two bytes of a 16-bit field, high byte first. Of a number that does
/// not fit in 16 bits the field holds the low 16 bits.
pub open spec fn be16(x: int) -> Seq<u8> {
    seq![((x / 256) % 256) as u8, (x % 256) as u8]
}

/// What a writer turns into packets. The writer borrows the data and never
/// changes it.
pub enum PayloadType<'b> {
    /// A phrase and the colours of its characters. Character `i` has the
    /// colour at index `i` modulo the number of colours.
    Text(&'b str, &'b [CoolLEDColors]),
    /// One picture, already packed eight rows to the byte.
    Image(&'b [u8]),
    /// The pictures of an animation, one after the other, and how many they
    /// are.
    Animation(&'b [u8], usize),
}

impl<'b> PayloadType<'b> {
    /// The content type that a frame of this payload announces: 2 for text,
    /// 3 for a picture, 4 for an animation.
    pub open spec fn content_type(self) -> u8 {
        match self {
            PayloadType::Text(_, _) => 2,
            PayloadType::Image(_) => 3,
            PayloadType::Animation(_, _) => 4,
        }
    }

    /// The bytes that the header takes in the body of the first packet.
    pub open spec fn padding(self) -> nat {
        match self {
            PayloadType::Text(_, _) => 107,
            PayloadType::Image(_) => 26,
            PayloadType::Animation(_, _) => 27,
        }
    }

    /// The length of the content as the packets announce it. For a text it is
    /// three times what the phrase puts on the stream in a pass in which every
    /// character is lit; for pictures it is the number of bytes given.
    pub open spec fn total_content_bytes(self, font: Font) -> nat {
        match self {
            PayloadType::Text(phrase, _) => 3 * text_spans_len(font, phrase@),
            PayloadType::Image(data) => data@.len(),
            PayloadType::Animation(data, _) => data@.len(),
        }
    }

    /// The content stream: the bytes that the packets carry behind the header.
    pub open spec fn content(self, font: Font) -> Seq<u8> {
        match self {
            PayloadType::Text(phrase, colors) => text_stream(font, phrase@, colors@),
            PayloadType::Image(data) => data@,
            PayloadType::Animation(data, _) => data@,
        }
    }

    /// The length that every packet announces for the whole transfer: header
    /// and content.
    pub open spec fn whole_size(self, font: Font) -> nat {
        self.total_content_bytes(font) + self.padding()
    }

    /// The number of packets: the whole size in bodies of 128 bytes, the last
    /// of which may be shorter.
    pub open spec fn packet_count(self, font: Font) -> nat {
        (self.whole_size(font) + 127) / 128
    }

    /// What a writer asks of its payload and font: the font is well formed, a
    /// phrase that has characters has colours for them, and the whole size
    /// can be counted in a `usize`.
    pub open spec fn wf(self, font: Font) -> bool {
        &&& font.wf()
        &&& self matches PayloadType::Text(phrase, colors) ==> (phrase@.len() > 0 ==> colors@.len()
            > 0)
        &&& self.whole_size(font) <= usize::MAX
    }

    /// The bytes of content that the packets before packet `idx` have room
    /// for: the first one what its header leaves of a body, each later one a
    /// full body.
    pub open spec fn already_sent(self, idx: int) -> int {
        if idx <= 0 {
            0
        } else {
            (128 - self.padding()) + 128 * (idx - 1)
        }
    }

    /// The header of the first packet: 24 zero bytes and then, for a text, a
    /// zero byte, 80 zero bytes and the length of the content as a 16-bit
    /// field; for a picture the length of the content as a 16-bit field; for
    /// an animation the number of pictures as one byte and the speed, 500, as
    /// a 16-bit field.
    pub open spec fn first_header(self, font: Font) -> Seq<u8> {
        zeros(24) + match self {
            PayloadType::Text(_, _) => zeros(81) + be16(self.total_content_bytes(font) as int),
            PayloadType::Image(_) => be16(self.total_content_bytes(font) as int),
            PayloadType::Animation(_, frames) => seq![(frames % 256) as u8] + be16(500),
        }
    }

    /// The body of packet `idx`.
    ///
    /// The first packet has a full body: the header, the start of the content
    /// stream as far as it fits, and zero bytes where the stream ends before
    /// the body does. A later packet carries the content that follows what
    /// the packets before it had room for: 128 bytes of it, or what is left
    /// of the announced length, or what is left of the stream, whichever is
    /// least.
    pub open spec fn body(self, font: Font, idx: int) -> Seq<u8> {
        if idx <= 0 {
            let room = 128 - self.padding();
            let start = window(self.content(font), 0, room);
            self.first_header(font) + start + zeros((room - start.len()) as nat)
        } else {
            let sent = self.already_sent(idx);
            window(self.content(font), sent, min(self.total_content_bytes(font) - sent, 128))
        }
    }

    /// Packet `idx` before it is framed: a zero byte, the whole size and the
    /// index as 16-bit fields, the length of the body as one byte, the body,
    /// and the checksum of all of these.
    pub open spec fn subpacket(self, font: Font, idx: int) -> Seq<u8> {
        let body = self.body(font, idx);
        let head = seq![0u8] + be16(self.whole_size(font) as int) + be16(idx) + seq![
            body.len() as u8,
        ] + body;
        head.push(checksum(head))
    }

    /// The frame of packet `idx`, as it goes to the display: the start
    /// marker, the length of content type and packet as a 16-bit field, the
    /// content type and the packet in escaped form, and the end marker.
    pub open spec fn frame(self, font: Font, idx: int) -> Seq<u8> {
        let packet = self.subpacket(font, idx);
        seq![1u8] + be16(packet.len() as int + 1) + escape(seq![self.content_type()] + packet)
            + seq![3u8]
    }

    /// The content type byte of this payload's frames.
    pub fn get_content_type(&self) -> (code: u8)
        ensures
            code == self.content_type(),
    {
        match self {
            PayloadType::Text(_, _) => PacketType::Text.code(),
            PayloadType::Image(_) => PacketType::Draw.code(),
            PayloadType::Animation(_, _) => PacketType::Animate.code(),
        }
    }
}

/// The characters of `phrase`, in order.
fn phrase_chars(phrase: &str) -> (chars: Vec<char>)
    ensures
        chars@ == phrase@,
{
    let mut chars: Vec<char> = Vec::new();
    for c in it: phrase.chars()
        invariant
            it.seq() == phrase@,
            chars@ == phrase@.subrange(0, it.index() as int),
    {
        chars.push(c);
    }
    chars
}

/// The body of a packet is at most 128 bytes long, and that of the first
/// packet is exactly as long. A packet of pictures that is not the first
/// carries 128 bytes, or all that is left.
pub proof fn lemma_body_len(payload: PayloadType, font: Font, idx: int)
    requires
        0 <= idx < payload.packet_count(font),
    ensures
        payload.body(font, idx).len() <= 128,
        idx == 0 ==> payload.body(font, idx).len() == 128,
        idx > 0 ==> 0 < payload.total_content_bytes(font) - payload.already_sent(idx),
        idx > 0 && !(payload is Text) ==> payload.body(font, idx).len() == min(
            payload.total_content_bytes(font) - payload.already_sent(idx),
            128,
        ),
{
    let stream = payload.content(font);
    if idx == 0 {
        lemma_window_len(stream, stream, 0, 128 - payload.padding());
    } else {
        let sent = payload.already_sent(idx);
        lemma_window_len(stream, stream, sent, min(payload.total_content_bytes(font) - sent, 128));
    }
}

/// A frame is the packet and five bytes more, and one byte more for every
/// byte that is escaped. No frame is longer than `MAX_FRAME_SIZE`.
pub proof fn lemma_frame_len(payload: PayloadType, font: Font, idx: int)
    requires
        0 <= idx < payload.packet_count(font),
    ensures
        payload.subpacket(font, idx).len() == payload.body(font, idx).len() + 7,
        payload.frame(font, idx).len() == 4 + escape(
            seq![payload.content_type()] + payload.subpacket(font, idx),
        ).len(),
        payload.subpacket(font, idx).len() + 5 <= payload.frame(font, idx).len() <= 2
            * payload.subpacket(font, idx).len() + 6,
        payload.frame(font, idx).len() <= MAX_FRAME_SIZE,
{
    lemma_body_len(payload, font, idx);
    lemma_escape_len(seq![payload.content_type()] + payload.subpacket(font, idx));
}

/// There is at least one packet, and the packets are as many as it takes to
/// hold the whole size in bodies of 128 bytes: one packet less would not
/// hold it.
pub proof fn lemma_packet_count(payload: PayloadType, font: Font)
    ensures
        payload.packet_count(font) >= 1,
        128 * (payload.packet_count(font) - 1) < payload.whole_size(font) <= 128
            * payload.packet_count(font),
{
}

/// Every frame is well formed. It starts with the start marker and ends with
/// the end marker, and neither marker occurs between them. Its length field
/// holds the length of what it carries. What it carries, read back from the
/// escaped form, is the content type and the packet, byte for byte. And the
/// last byte of the packet is the checksum of the bytes before it.
pub proof fn lemma_frame_well_formed(payload: PayloadType, font: Font, idx: int)
    requires
        0 <= idx < payload.packet_count(font),
    ensures
        ({
            let frame = payload.frame(font, idx);
            let packet = payload.subpacket(font, idx);
            &&& frame.len() >= 12
            &&& frame[0] == 1
            &&& frame.last() == 3
            &&& forall|i: int| 0 < i < frame.len() - 1 ==> frame[i] != 1 && frame[i] != 3
            &&& frame.subrange(1, 3) == be16(packet.len() as int + 1)
            &&& unescape(frame.subrange(3, frame.len() - 1)) == seq![payload.content_type()]
                + packet
            &&& packet.last() == checksum(packet.drop_last())
        }),
{
    let frame = payload.frame(font, idx);
    let packet = payload.subpacket(font, idx);
    let inner = seq![payload.content_type()] + packet;
    let body = payload.body(font, idx);
    let head = seq![0u8] + be16(payload.whole_size(font) as int) + be16(idx) + seq![
        body.len() as u8,
    ] + body;
    lemma_frame_len(payload, font, idx);
    lemma_escape_no_marker(inner);
    lemma_unescape_escape(inner);
    assert(frame.subrange(3, frame.len() - 1) =~= escape(inner));
    assert(frame.subrange(1, 3) =~= be16(packet.len() as int + 1));
    assert(packet.drop_last() =~= head);
    assert forall|i: int| 0 < i < frame.len() - 1 implies frame[i] != 1 && frame[i] != 3 by {
        if i >= 3 {
            assert(frame[i] == escape(inner)[i - 3]);
        }
    }
}

/// The packets carry the content stream in order. Seen as one stream, the
/// bodies hold the header and then the content: byte `k` of the content lies
/// `padding + k` bytes into that stream, so in packet `(padding + k) / 128`,
/// at index `(padding + k) % 128` of its body. This holds of every byte of
/// the content that the announced length covers.
pub proof fn lemma_packets_carry_content(payload: PayloadType, font: Font, k: int)
    requires
        0 <= k < payload.total_content_bytes(font),
        k < payload.content(font).len(),
    ensures
        ({
            let place = payload.padding() + k;
            &&& 0 <= place / 128 < payload.packet_count(font)
            &&& place % 128 < payload.body(font, place / 128).len()
            &&& payload.body(font, place / 128)[place % 128] == payload.content(font)[k]
        }),
{
    let place = payload.padding() + k;
    let idx = place / 128;
    if idx == 0 {
        let start = window(payload.content(font), 0, 128 - payload.padding());
        assert(payload.first_header(font).len() == payload.padding());
        assert(payload.body(font, 0)[place] == start[k]);
    }
}

/// What `make_first_packet` has in its buffer at its end: 128 bytes were set
/// to zero, and header and content written over them from the 24th on.
proof fn lemma_first_body_written(
    base: Seq<u8>,
    cleared: Seq<u8>,
    finished: Seq<u8>,
    at: int,
    head: Seq<u8>,
    start: Seq<u8>,
)
    requires
        0 <= at,
        at + 128 <= base.len(),
        head.len() + start.len() <= 104,
        cleared == splice(base, at, zeros(128)),
        finished == splice(cleared, at + 24, head + start),
    ensures
        finished == splice(
            base,
            at,
            zeros(24) + head + start + zeros((104 - head.len() - start.len()) as nat),
        ),
{
    lemma_splice(base, at, zeros(128));
    lemma_splice(cleared, at + 24, head + start);
    assert(finished =~= splice(
        base,
        at,
        zeros(24) + head + start + zeros((104 - head.len() - start.len()) as nat),
    ));
}

/// What `make_subpacket` has in its buffer before it writes the checksum,
/// and what it has when the checksum of those bytes is written behind them.
proof fn lemma_subpacket_written(
    base: Seq<u8>,
    started: Seq<u8>,
    filled: Seq<u8>,
    at: int,
    whole: int,
    idx: int,
    body: Seq<u8>,
)
    requires
        0 <= at,
        at + 7 + body.len() <= base.len(),
        started == base.update(at, 0u8).update(at + 1, be16(whole)[0]).update(
            at + 2,
            be16(whole)[1],
        ).update(at + 3, be16(idx)[0]).update(at + 4, be16(idx)[1]),
        filled == splice(started, at + 6, body).update(at + 5, body.len() as u8),
    ensures
        ({
            let head = seq![0u8] + be16(whole) + be16(idx) + seq![body.len() as u8] + body;
            &&& filled.len() == base.len()
            &&& filled.subrange(at, at + 6 + body.len()) == head
            &&& filled.update(at + 6 + body.len(), checksum(head)) == splice(
                base,
                at,
                head.push(checksum(head)),
            )
        }),
{
    let head = seq![0u8] + be16(whole) + be16(idx) + seq![body.len() as u8] + body;
    lemma_splice(started, at + 6, body);
    assert(filled.subrange(at, at + 6 + body.len()) =~= head);
    assert(filled.update(at + 6 + body.len(), checksum(head)) =~= splice(
        base,
        at,
        head.push(checksum(head)),
    ));
}

/// What `generate_packet` has in its buffer before it escapes: from index 3
/// on, the content type and the packet.
proof fn lemma_frame_unescaped(
    base: Seq<u8>,
    unescaped: Seq<u8>,
    content_type: u8,
    packet: Seq<u8>,
)
    requires
        4 + packet.len() <= base.len(),
        unescaped == splice(base.update(0, 1u8), 4, packet).update(
            1,
            be16(packet.len() as int + 1)[0],
        ).update(2, be16(packet.len() as int + 1)[1]).update(3, content_type),
    ensures
        unescaped.len() == base.len(),
        unescaped.subrange(3, unescaped.len() as int).subrange(0, packet.len() as int + 1) == seq![
            content_type,
        ] + packet,
{
    lemma_splice(base.update(0, 1u8), 4, packet);
    let content = unescaped.subrange(3, unescaped.len() as int);
    assert(content.subrange(0, packet.len() as int + 1) =~= seq![content_type] + packet);
}

/// What `generate_packet` has in its buffer at its end: the frame, and behind
/// it what was there before.
proof fn lemma_frame_written(
    base: Seq<u8>,
    unescaped: Seq<u8>,
    escaped: Seq<u8>,
    finished: Seq<u8>,
    content_type: u8,
    packet: Seq<u8>,
)
    requires
        4 + escape(seq![content_type] + packet).len() <= base.len(),
        unescaped == splice(base.update(0, 1u8), 4, packet).update(
            1,
            be16(packet.len() as int + 1)[0],
        ).update(2, be16(packet.len() as int + 1)[1]).update(3, content_type),
        escaped == unescaped.subrange(0, 3) + splice(
            unescaped.subrange(3, unescaped.len() as int),
            0,
            escape(seq![content_type] + packet),
        ),
        finished == escaped.update(3 + escape(seq![content_type] + packet).len() as int, 3u8),
    ensures
        finished == splice(
            base,
            0,
            seq![1u8] + be16(packet.len() as int + 1) + escape(seq![content_type] + packet)
                + seq![3u8],
        ),
{
    let inner = escape(seq![content_type] + packet);
    lemma_escape_len(seq![content_type] + packet);
    lemma_splice(base.update(0, 1u8), 4, packet);
    lemma_splice(unescaped.subrange(3, unescaped.len() as int), 0, inner);
    let frame = seq![1u8] + be16(packet.len() as int + 1) + inner + seq![3u8];
    assert(finished.len() == base.len());
    assert forall|i: int| 0 <= i < base.len() implies finished[i] == splice(base, 0, frame)[i] by {
        if 3 <= i < 3 + inner.len() {
            assert(finished[i] == splice(
                unescaped.subrange(3, unescaped.len() as int),
                0,
                inner,
            )[i - 3]);
        } else if i > 3 + inner.len() {
            assert(finished[i] == splice(
                unescaped.subrange(3, unescaped.len() as int),
                0,
                inner,
            )[i - 3]);
            assert(unescaped.subrange(3, unescaped.len() as int)[i - 3] == unescaped[i]);
            assert(unescaped[i] == splice(base.update(0, 1u8), 4, packet)[i]);
        }
    }
    assert(finished =~= splice(base, 0, frame));
}

/// Cuts a payload into the packets that the display takes.
pub struct CoolLEDWriter<'a> {
    pub(crate) payload: PayloadType<'a>,
    pub(crate) font: Font<'a>,
}

impl<'a> CoolLEDWriter<'a> {
    /// The payload this writer sends.
    pub closed spec fn payload(&self) -> PayloadType<'a> {
        self.payload
    }

    /// The font this writer draws text with.
    pub closed spec fn font(&self) -> Font<'a> {
        self.font
    }

    /// `payload()` and `font()` are the two fields.
    pub(crate) proof fn lemma_fields(&self)
        ensures
            self.payload() == self.payload,
            self.font() == self.font,
    {
    }

    /// Whether payload and font are as a writer needs them.
    pub open spec fn wf(&self) -> bool {
        self.payload().wf(self.font())
    }

    /// The number of packets that the payload takes.
    pub open spec fn packet_count(&self) -> nat {
        self.payload().packet_count(self.font())
    }

    /// The frame of packet `idx`.
    pub open spec fn frame(&self, idx: int) -> Seq<u8> {
        self.payload().frame(self.font(), idx)
    }

    /// Packets do not depend on what was made before. The number of packets
    /// and every frame are a matter of payload and font alone, so two writers
    /// of the same payload and font, whatever packets either has made, count
    /// the same packets and leave the same bytes in buffers that held the
    /// same bytes.
    pub proof fn lemma_packets_repeat(&self, other: &Self, idx: int, buffer: Seq<u8>)
        requires
            self.payload() == other.payload(),
            self.font() == other.font(),
        ensures
            self.packet_count() == other.packet_count(),
            self.frame(idx) == other.frame(idx),
            splice(buffer, 0, self.frame(idx)) == splice(buffer, 0, other.frame(idx)),
    {
    }

    /// A writer for `payload` that draws text with `font`.
    pub fn new(payload: PayloadType<'a>, font: Font<'a>) -> (writer: Self)
        requires
            payload.wf(font),
        ensures
            writer.payload() == payload,
            writer.font() == font,
            writer.wf(),
    {
        Self { payload, font }
    }

    /// A writer for `payload` that draws text with `font`, if the two are as
    /// a writer needs them, and `None` if they are not.
    pub fn try_new(payload: PayloadType<'a>, font: Font<'a>) -> (writer: Option<Self>)
        ensures
            writer is Some <==> payload.wf(font),
            writer matches Some(w) ==> w.payload() == payload && w.font() == font,
    {
        if !font.is_wf() {
            return None;
        }
        let writer = Self { payload, font };
        let fits = match writer.payload {
            PayloadType::Text(phrase, colors) => {
                let limit: usize = (usize::MAX - 107) / 3;
                let mut total: usize = 0;
                let mut buf = [0u8; 34];
                for c in it: phrase.chars()
                    invariant
                        it.seq() == phrase@,
                        writer.font() == font,
                        font.wf(),
                        limit == (usize::MAX - 107) / 3,
                        total <= limit,
                        total == text_spans_len(font, phrase@.subrange(0, it.index() as int)),
                        payload == PayloadType::Text(phrase, colors),
                {
                    proof {
                        lemma_text_spans_len(font, phrase@, it.index() as int);
                        lemma_text_spans_len(font, phrase@, it.index() + 1);
                        font.lemma_glyph_len(c);
                        lemma_span_len(font.glyph(c), 2, CoolLEDColors::White, 0);
                    }
                    let n = writer.get_font_byte_trimmed(c, 2, &mut buf);
                    if n > limit - total {
                        return None;
                    }
                    total += n;
                }
                proof {
                    assert(phrase@.subrange(0, phrase@.len() as int) =~= phrase@);
                    lemma_text_spans_len(font, phrase@, phrase@.len() as int);
                }
                total == 0 || colors.len() > 0
            },
            PayloadType::Image(data) => data.len() <= usize::MAX - 26,
            PayloadType::Animation(data, _) => data.len() <= usize::MAX - 27,
        };
        if fits {
            Some(writer)
        } else {
            None
        }
    }

    /// The number of packets that the payload takes. It is at least 1: a
    /// payload without content still has its header to send.
    pub fn get_packets_count(&self) -> (count: usize)
        requires
            self.wf(),
        ensures
            count == self.packet_count(),
            count >= 1,
    {
        let whole = self.get_total_bytes_from_phrase_data() + self.get_padding();
        if whole % 128 == 0 {
            whole / 128
        } else {
            whole / 128 + 1
        }
    }

    pub(crate) fn get_total_bytes_from_phrase_data(&self) -> (total: usize)
        requires
            self.wf(),
        ensures
            total == self.payload().total_content_bytes(self.font()),
    {
        match self.payload {
            PayloadType::Text(phrase, _) => {
                let mut total: usize = 0;
                let mut buf = [0u8; 34];
                for c in it: phrase.chars()
                    invariant
                        it.seq() == phrase@,
                        self.font().wf(),
                        total == 3 * text_spans_len(
                            self.font(),
                            phrase@.subrange(0, it.index() as int),
                        ),
                        3 * text_spans_len(self.font(), phrase@) <= usize::MAX,
                {
                    proof {
                        lemma_text_spans_len(self.font(), phrase@, it.index() as int);
                        lemma_text_spans_len(self.font(), phrase@, it.index() + 1);
                        self.font().lemma_glyph_len(c);
                        lemma_span_len(self.font().glyph(c), 2, CoolLEDColors::White, 0);
                    }
                    let n = self.get_font_byte_trimmed(c, 2, &mut buf);
                    total += n * 3;
                }
                assert(phrase@.subrange(0, phrase@.len() as int) =~= phrase@);
                total
            },
            PayloadType::Image(data) => data.len(),
            PayloadType::Animation(data, _) => data.len(),
        }
    }

    pub(crate) fn get_padding(&self) -> (padding: usize)
        ensures
            padding == self.payload().padding(),
    {
        match self.payload {
            PayloadType::Text(_, _) => TEXT_PREFIX_FIRST_PACKET_HEADER_SIZE,
            PayloadType::Image(_) => IMAGE_PREFIX_FIRST_PACKET_HEADER_SIZE,
            PayloadType::Animation(_, _) => ANIMATION_PREFIX_FIRST_PACKET_HEADER_SIZE,
        }
    }

    /// Writes the window of `data` that starts at `skip` and is `bytes_needed`
    /// long into `out`, from index `at` on, and returns its length.
    pub(crate) fn write_bytes_from_image(
        &self,
        out: &mut [u8],
        at: usize,
        skip: usize,
        bytes_needed: usize,
        data: &[u8],
    ) -> (bytes_wrote: usize)
        requires
            at + window(data@, skip as int, bytes_needed as int).len() <= old(out).len(),
        ensures
            bytes_wrote == window(data@, skip as int, bytes_needed as int).len(),
            final(out)@ == splice(
                old(out)@,
                at as int,
                window(data@, skip as int, bytes_needed as int),
            ),
    {
        let from = if skip < data.len() {
            skip
        } else {
            data.len()
        };
        let left = data.len() - from;
        let bytes_wrote = if bytes_needed < left {
            bytes_needed
        } else {
            left
        };
        copy_bytes(out, at, data, from, bytes_wrote);
        bytes_wrote
    }

    /// Writes the window of the text's stream that starts at `skip` and is
    /// `bytes_needed` long into `out`, from index `at` on, and returns its
    /// length.
    ///
    /// The phrase is walked three times, once for each channel, and every
    /// character on the way puts its span on the stream; what of a span lies
    /// inside the window is copied.
    pub(crate) fn write_bytes_from_phrase(
        &self,
        out: &mut [u8],
        at: usize,
        skip: usize,
        bytes_needed: usize,
        phrase: &str,
        colors: &[CoolLEDColors],
    ) -> (bytes_wrote: usize)
        requires
            self.font().wf(),
            phrase@.len() > 0 ==> colors@.len() > 0,
            3 * phrase@.len() <= usize::MAX,
            at + window(
                text_stream(self.font(), phrase@, colors@),
                skip as int,
                bytes_needed as int,
            ).len() <= old(out).len(),
        ensures
            bytes_wrote == window(
                text_stream(self.font(), phrase@, colors@),
                skip as int,
                bytes_needed as int,
            ).len(),
            final(out)@ == splice(
                old(out)@,
                at as int,
                window(
                    text_stream(self.font(), phrase@, colors@),
                    skip as int,
                    bytes_needed as int,
                ),
            ),
    {
        let chars = phrase_chars(phrase);
        let len_chars = chars.len();
        let colors_len = colors.len();
        let mut rgb_phrase = Ncycles::new(chars.as_slice(), 2);
        let mut buff = [0u8; 34];

        let ghost font = self.font();
        let ghost steps = 3 * (len_chars as int);
        let ghost full = repeated(phrase@, 3);
        let ghost stream = text_stream(font, phrase@, colors@);

        let mut idx: usize = 0;
        let mut skip_needed = skip;
        let mut bytes_needed_count = bytes_needed;
        let mut bytes_wrote: usize = 0;
        proof {
            lemma_repeated_len(phrase@, 3);
            assert(full.subrange(0, steps) =~= full);
            assert(out@ =~= splice(
                old(out)@,
                at as int,
                window(
                    text_stream_upto(font, phrase@, colors@, 0),
                    skip as int,
                    bytes_needed as int,
                ),
            ));
        }
        loop
            invariant
                font == self.font(),
                font.wf(),
                chars@ == phrase@,
                len_chars == phrase@.len(),
                colors_len == colors@.len(),
                len_chars > 0 ==> colors_len > 0,
                steps == 3 * len_chars,
                steps <= usize::MAX,
                full == repeated(phrase@, 3),
                full.len() == steps,
                stream == text_stream_upto(font, phrase@, colors@, steps),
                at + window(stream, skip as int, bytes_needed as int).len() <= out.len(),
                out@.len() == old(out)@.len(),
                idx <= steps,
                rgb_phrase.remaining() == full.subrange(idx as int, steps),
                skip_needed == max(
                    skip - text_stream_upto(font, phrase@, colors@, idx as int).len(),
                    0,
                ),
                bytes_wrote == window(
                    text_stream_upto(font, phrase@, colors@, idx as int),
                    skip as int,
                    bytes_needed as int,
                ).len(),
                bytes_needed_count == bytes_needed - bytes_wrote,
                out@ == splice(
                    old(out)@,
                    at as int,
                    window(
                        text_stream_upto(font, phrase@, colors@, idx as int),
                        skip as int,
                        bytes_needed as int,
                    ),
                ),
            ensures
                idx == steps,
            decreases steps - idx,
        {
            let current_char = match rgb_phrase.next() {
                Some(c) => c,
                None => {
                    break ;
                },
            };
            let ghost sofar = text_stream_upto(font, phrase@, colors@, idx as int);
            let ghost span = text_span(font, phrase@, colors@, idx as int);
            proof {
                lemma_repeated_index(phrase@, 3, idx as int);
                font.lemma_glyph_len(current_char);
                lemma_span_len(
                    font.glyph(current_char),
                    2,
                    colors@[((idx % len_chars) % colors_len) as int],
                    idx as int / len_chars as int,
                );
                lemma_text_stream_upto_len(font, phrase@, colors@, idx + 1, steps);
                lemma_window_step(sofar, span, stream, skip as int, bytes_needed as int);
            }
            let ghost held = buff@;
            let char_size = self.get_font_byte_with_color(
                current_char,
                2,
                idx,
                len_chars,
                colors[(idx % len_chars) % colors_len],
                &mut buff,
            );
            proof {
                lemma_splice(held, 0, span);
            }
            if skip_needed >= char_size {
                skip_needed -= char_size;
            } else {
                let left = char_size - skip_needed;
                let take = if bytes_needed_count < left {
                    bytes_needed_count
                } else {
                    left
                };
                copy_bytes(out, at + bytes_wrote, &buff, skip_needed, take);
                proof {
                    let piece = span.subrange(skip_needed as int, skip_needed + take);
                    assert(buff@.subrange(skip_needed as int, skip_needed + take) =~= piece);
                    lemma_splice_append(
                        old(out)@,
                        at as int,
                        window(sofar, skip as int, bytes_needed as int),
                        piece,
                    );
                }
                bytes_wrote += take;
                bytes_needed_count -= take;
                skip_needed = 0;
            }
            idx += 1;
        }
        bytes_wrote
    }

    /// Writes what follows the 24 zero bytes in the first body of a text into
    /// `out`, from index `at` on: the header of 83 bytes and the start of the
    /// stream, as far as `size` bytes reach. Returns the number of bytes of
    /// the stream written.
    pub(crate) fn make_text_payload(
        &self,
        out: &mut [u8],
        at: usize,
        size: usize,
        phrase: &str,
        colors: &[CoolLEDColors],
    ) -> (bytes_wrote: usize)
        requires
            self.wf(),
            self.payload() == PayloadType::Text(phrase, colors),
            83 <= size,
            at + size <= old(out).len(),
        ensures
            bytes_wrote == window(self.payload().content(self.font()), 0, size - 83).len(),
            final(out)@ == splice(
                old(out)@,
                at as int,
                zeros(81) + be16(self.payload().total_content_bytes(self.font()) as int) + window(
                    self.payload().content(self.font()),
                    0,
                    size - 83,
                ),
            ),
    {
        let data_size = self.get_total_bytes_from_phrase_data();
        let ghost stream = self.payload().content(self.font());
        let ghost head = zeros(81) + be16(data_size as int);
        proof {
            lemma_text_spans_len(self.font(), phrase@, phrase@.len() as int);
            assert(phrase@.subrange(0, phrase@.len() as int) =~= phrase@);
            lemma_window_len(stream, stream, 0, size - 83);
        }
        //length of string and character string
        fill_zeros(out, at, 81);
        out[at + 81] = ((data_size / 256) % 256) as u8;
        out[at + 82] = (data_size % 256) as u8;
        proof {
            lemma_splice(old(out)@, at as int, zeros(81));
            assert(out@ =~= splice(old(out)@, at as int, head));
            lemma_splice_append(old(out)@, at as int, head, window(stream, 0, size - 83));
        }
        let bytes_available = size - 83;
        self.write_bytes_from_phrase(out, at + 83, 0, bytes_available, phrase, colors)
    }

    /// Writes what follows the 24 zero bytes in the first body of a picture
    /// into `out`, from index `at` on: the length of the content and the start
    /// of the data, as far as `size` bytes reach. Returns the number of bytes
    /// of data written.
    pub(crate) fn make_image_payload(
        &self,
        out: &mut [u8],
        at: usize,
        size: usize,
        image_data: &[u8],
    ) -> (bytes_wrote: usize)
        requires
            self.wf(),
            self.payload() == PayloadType::Image(image_data),
            2 <= size,
            at + size <= old(out).len(),
        ensures
            bytes_wrote == window(image_data@, 0, size - 2).len(),
            final(out)@ == splice(
                old(out)@,
                at as int,
                be16(image_data@.len() as int) + window(image_data@, 0, size - 2),
            ),
    {
        let data_size = self.get_total_bytes_from_phrase_data();
        let ghost head = be16(data_size as int);
        proof {
            lemma_window_len(image_data@, image_data@, 0, size - 2);
        }
        out[at] = ((data_size / 256) % 256) as u8;
        out[at + 1] = (data_size % 256) as u8;
        proof {
            assert(out@ =~= splice(old(out)@, at as int, head));
            lemma_splice_append(old(out)@, at as int, head, window(image_data@, 0, size - 2));
        }
        let bytes_available = size - 2;
        self.write_bytes_from_image(out, at + 2, 0, bytes_available, image_data)
    }

    /// Writes what follows the 24 zero bytes in the first body of an animation
    /// into `out`, from index `at` on: the number of pictures, the speed and
    /// the start of the data, as far as `size` bytes reach. Returns the number
    /// of bytes of data written.
    pub(crate) fn make_animation_payload(
        &self,
        out: &mut [u8],
        at: usize,
        size: usize,
        animation_data: &[u8],
        frames: usize,
        speed: usize,
    ) -> (bytes_wrote: usize)
        requires
            3 <= size,
            at + size <= old(out).len(),
        ensures
            bytes_wrote == window(animation_data@, 0, size - 3).len(),
            final(out)@ == splice(
                old(out)@,
                at as int,
                seq![(frames % 256) as u8] + be16(speed as int) + window(
                    animation_data@,
                    0,
                    size - 3,
                ),
            ),
    {
        let ghost head = seq![(frames % 256) as u8] + be16(speed as int);
        proof {
            lemma_window_len(animation_data@, animation_data@, 0, size - 3);
        }
        //frames qt
        out[at] = (frames % 256) as u8;
        out[at + 1] = ((speed / 256) % 256) as u8;
        out[at + 2] = (speed % 256) as u8;
        proof {
            assert(out@ =~= splice(old(out)@, at as int, head));
            lemma_splice_append(old(out)@, at as int, head, window(animation_data@, 0, size - 3));
        }
        let bytes_available = size - 3;
        self.write_bytes_from_image(out, at + 3, 0, bytes_available, animation_data)
    }

    /// Writes the body of the first packet into `out`, from index `at` on.
    /// Returns the number of bytes of content in it.
    pub(crate) fn make_first_packet(&self, out: &mut [u8], at: usize) -> (bytes_wrote: usize)
        requires
            self.wf(),
            at + 128 <= old(out).len(),
        ensures
            self.payload().body(self.font(), 0).len() == 128,
            final(out)@ == splice(old(out)@, at as int, self.payload().body(self.font(), 0)),
    {
        proof {
            self.lemma_fields();
        }
        let ghost stream = self.payload().content(self.font());
        let ghost start = window(stream, 0, 128 - self.payload().padding());
        let ghost total = self.payload().total_content_bytes(self.font()) as int;
        fill_zeros(out, at, 128);
        let ghost cleared = out@;
        proof {
            lemma_splice(old(out)@, at as int, zeros(128));
            lemma_window_len(stream, stream, 0, 128 - self.payload().padding());
        }
        match self.payload {
            PayloadType::Text(phrase, colors) => {
                let bytes_wrote = self.make_text_payload(out, at + 24, 104, phrase, colors);
                proof {
                    lemma_first_body_written(
                        old(out)@,
                        cleared,
                        out@,
                        at as int,
                        zeros(81) + be16(total),
                        start,
                    );
                }
                bytes_wrote
            },
            PayloadType::Image(image_data) => {
                let bytes_wrote = self.make_image_payload(out, at + 24, 104, image_data);
                proof {
                    lemma_first_body_written(
                        old(out)@,
                        cleared,
                        out@,
                        at as int,
                        be16(total),
                        start,
                    );
                }
                bytes_wrote
            },
            PayloadType::Animation(ani_data, frames_quantity) => {
                let bytes_wrote = self.make_animation_payload(
                    out,
                    at + 24,
                    104,
                    ani_data,
                    frames_quantity,
                    500,
                );
                proof {
                    lemma_first_body_written(
                        old(out)@,
                        cleared,
                        out@,
                        at as int,
                        seq![(frames_quantity % 256) as u8] + be16(500),
                        start,
                    );
                }
                bytes_wrote
            },
        }
    }

    /// Writes the body of packet `idx`, which is not the first, into `out`,
    /// from index `at` on, and returns its length.
    pub(crate) fn make_n_packet(&self, idx: usize, out: &mut [u8], at: usize) -> (bytes_wrote:
        usize)
        requires
            self.wf(),
            1 <= idx < self.packet_count(),
            at + self.payload().body(self.font(), idx as int).len() <= old(out).len(),
        ensures
            bytes_wrote == self.payload().body(self.font(), idx as int).len(),
            final(out)@ == splice(
                old(out)@,
                at as int,
                self.payload().body(self.font(), idx as int),
            ),
    {
        proof {
            self.lemma_fields();
        }
        let padding = self.get_padding();

        let whole_packet_size = self.get_total_bytes_from_phrase_data() + padding;

        let already_sended = (128 - padding) + 128 * (idx - 1);

        let skip_bytes = already_sended;
        let missing_bytes = whole_packet_size - padding - already_sended;

        let bytes_needed = if missing_bytes > 128 {
            128
        } else {
            missing_bytes
        };

        match self.payload {
            PayloadType::Text(phrase, colors) => {
                proof {
                    lemma_text_spans_len(self.font(), phrase@, phrase@.len() as int);
                    assert(phrase@.subrange(0, phrase@.len() as int) =~= phrase@);
                }
                self.write_bytes_from_phrase(out, at, skip_bytes, bytes_needed, phrase, colors)
            },
            PayloadType::Image(image_data) => {
                self.write_bytes_from_image(out, at, skip_bytes, bytes_needed, image_data)
            },
            PayloadType::Animation(ani_data, _) => {
                self.write_bytes_from_image(out, at, skip_bytes, bytes_needed, ani_data)
            },
        }
    }

    /// Writes packet `idx` into `out`, from index `at` on: its six bytes of
    /// header, its body and its checksum. Returns the length that the frame
    /// announces: that of the packet and one more, for the content type.
    pub(crate) fn make_subpacket(&self, idx: usize, out: &mut [u8], at: usize) -> (announced:
        usize)
        requires
            self.wf(),
            idx < self.packet_count(),
            at + self.payload().subpacket(self.font(), idx as int).len() <= old(out).len(),
        ensures
            announced == self.payload().subpacket(self.font(), idx as int).len() + 1,
            final(out)@ == splice(
                old(out)@,
                at as int,
                self.payload().subpacket(self.font(), idx as int),
            ),
    {
        let ghost body = self.payload().body(self.font(), idx as int);
        proof {
            lemma_frame_len(self.payload(), self.font(), idx as int);
        }
        let whole_packet_size = self.get_padding() + self.get_total_bytes_from_phrase_data();

        out[at] = 0x00;
        out[at + 1] = ((whole_packet_size / 256) % 256) as u8;
        out[at + 2] = (whole_packet_size % 256) as u8;
        out[at + 3] = ((idx / 256) % 256) as u8;
        out[at + 4] = (idx % 256) as u8;
        let ghost started = out@;
        let body_len = if idx == 0 {
            self.make_first_packet(out, at + 6);
            0x80
        } else {
            self.make_n_packet(idx, out, at + 6)
        };
        out[at + 5] = body_len as u8;
        let ghost filled = out@;
        proof {
            lemma_subpacket_written(
                old(out)@,
                started,
                filled,
                at as int,
                whole_packet_size as int,
                idx as int,
                body,
            );
        }
        let sum = calculate_checksum(vstd::slice::slice_subrange(out, at, at + 6 + body_len));
        out[at + 6 + body_len] = sum;
        body_len + 8
    }

    /// Writes the frame of packet `idx` to the start of `out` and returns its
    /// length.
    ///
    /// The frame depends on the payload, the font and `idx` alone, so the
    /// packets can be made in any order and any number of times. What lies
    /// behind the frame in `out` is left as it was. A buffer of
    /// `MAX_FRAME_SIZE` bytes holds every frame.
    pub fn generate_packet(&mut self, idx: usize, out: &mut [u8]) -> (frame_len: usize)
        requires
            old(self).wf(),
            idx < old(self).packet_count(),
            old(self).frame(idx as int).len() <= old(out).len(),
        ensures
            *final(self) == *old(self),
            frame_len == old(self).frame(idx as int).len(),
            final(out)@ == splice(old(out)@, 0, old(self).frame(idx as int)),
    {
        let ghost packet = self.payload().subpacket(self.font(), idx as int);
        let ghost content_type = self.payload().content_type();
        proof {
            self.lemma_fields();
            lemma_frame_len(self.payload(), self.font(), idx as int);
        }
        out[0] = 0x01;

        let bytes_wrote = self.make_subpacket(idx, out, 4);
        out[1] = ((bytes_wrote / 256) % 256) as u8;
        out[2] = (bytes_wrote % 256) as u8;
        //Content type
        out[3] = self.payload.get_content_type();
        let ghost unescaped = out@;
        proof {
            lemma_frame_unescaped(old(out)@, unescaped, content_type, packet);
        }

        let (_, content) = out.split_at_mut(3);
        let last_bytes_wrote = escape_byets_in_place(content, bytes_wrote);
        let ghost escaped = out@;
        out[last_bytes_wrote + 3] = 0x03;
        proof {
            lemma_frame_written(old(out)@, unescaped, escaped, out@, content_type, packet);
        }
        last_bytes_wrote + 4
    }

    /// Writes the frame of packet `idx` to the start of `out` and returns its
    /// length, if there is such a packet and `out` has room for its frame.
    /// If not, `out` is left as it was and `None` is returned.
    pub fn try_generate_packet(&mut self, idx: usize, out: &mut [u8]) -> (frame_len: Option<
        usize,
    >)
        requires
            old(self).wf(),
        ensures
            *final(self) == *old(self),
            frame_len is Some <==> idx < old(self).packet_count() && old(self).frame(
                idx as int,
            ).len() <= old(out).len(),
            frame_len matches Some(n) ==> n == old(self).frame(idx as int).len() && final(out)@
                == splice(old(out)@, 0, old(self).frame(idx as int)),
            frame_len is None ==> final(out)@ == old(out)@,
    {
        if idx >= self.get_packets_count() {
            return None;
        }
        let mut frame = [0u8; 276];
        proof {
            lemma_frame_len(self.payload(), self.font(), idx as int);
            lemma_splice(frame@, 0, self.frame(idx as int));
        }
        let frame_len = self.generate_packet(idx, &mut frame);
        if frame_len > out.len() {
            return None;
        }
        copy_bytes(out, 0, &frame, 0, frame_len);
        Some(frame_len)
    }
}

} // verus!
