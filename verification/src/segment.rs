//! The segment: the unit of transmission and of bookkeeping, and its wire
//! format.
//!
//! On the wire a segment is a 24-byte header followed by its payload. All
//! multi-byte header fields are little-endian:
//!
//! | offset | field | width |
//! |---|---|---|
//! | 0 | conv | 4 |
//! | 4 | cmd | 1 |
//! | 5 | frg | 1 |
//! | 6 | wnd | 2 |
//! | 8 | ts | 4 |
//! | 12 | sn | 4 |
//! | 16 | una | 4 |
//! | 20 | len | 4 |

use crate::buf::{
    from_le_u16, from_le_u32, le_u16, le_u32, lemma_le_u16_round_trip, lemma_le_u32_round_trip,
    lemma_write_twice, BufferResult, ByteBuffer,
};
use vstd::prelude::*;

verus! {

/// The size of the wire header.
pub const OVERHEAD: u32 = 24;

/// The command of a segment that carries payload.
pub const CMD_PUSH: u8 = 81;

/// The command of a segment that acknowledges one sequence number.
pub const CMD_ACK: u8 = 82;

/// The command of a segment that asks the peer for its window.
pub const CMD_WASK: u8 = 83;

/// The command of a segment that tells the peer the window.
pub const CMD_WINS: u8 = 84;

/// A segment as a mathematical value.
pub ghost struct SegmentView {
    /// Conversation id.
    pub conv: u32,
    /// Command.
    pub cmd: u8,
    /// Fragment index within a payload, counting down to 0 at the last one.
    pub frg: u8,
    /// The sender's advertised receive window.
    pub wnd: u16,
    /// The sender's clock when the segment was sent, in milliseconds.
    pub ts: u32,
    /// Sequence number.
    pub sn: u32,
    /// The smallest sequence number the sender has not yet received.
    pub una: u32,
    /// When the segment is next due for retransmission. Not on the wire.
    pub resendts: u32,
    /// The segment's current retransmission timeout. Not on the wire.
    pub rto: u32,
    /// How often a later segment was acknowledged before this one. Not on
    /// the wire.
    pub fastack: u32,
    /// How often the segment was transmitted. Not on the wire.
    pub xmit: u32,
    /// Payload.
    pub data: Seq<u8>,
}

impl SegmentView {
    /// The segment with every field zero and no payload.
    pub open spec fn blank() -> SegmentView {
        SegmentView {
            conv: 0,
            cmd: 0,
            frg: 0,
            wnd: 0,
            ts: 0,
            sn: 0,
            una: 0,
            resendts: 0,
            rto: 0,
            fastack: 0,
            xmit: 0,
            data: Seq::empty(),
        }
    }

    /// The segment with the fields that are not on the wire set to zero.
    pub open spec fn wire(self) -> SegmentView {
        SegmentView { resendts: 0, rto: 0, fastack: 0, xmit: 0, ..self }
    }

    /// The 24 header bytes.
    pub open spec fn header(self) -> Seq<u8> {
        le_u32(self.conv) + seq![self.cmd, self.frg] + le_u16(self.wnd) + le_u32(self.ts) + le_u32(
            self.sn,
        ) + le_u32(self.una) + le_u32(self.data.len() as u32)
    }

    /// The header followed by the payload.
    pub open spec fn encoding(self) -> Seq<u8> {
        self.header() + self.data
    }

    /// The payload is short enough for the 32-bit length field.
    pub open spec fn encodable(self) -> bool {
        self.data.len() <= u32::MAX
    }
}

/// The header fields that the first 24 bytes of `b` spell out, with no
/// payload attached.
pub open spec fn parse_header(b: Seq<u8>) -> SegmentView {
    SegmentView {
        conv: from_le_u32(b.subrange(0, 4)),
        cmd: b[4],
        frg: b[5],
        wnd: from_le_u16(b.subrange(6, 8)),
        ts: from_le_u32(b.subrange(8, 12)),
        sn: from_le_u32(b.subrange(12, 16)),
        una: from_le_u32(b.subrange(16, 20)),
        resendts: 0,
        rto: 0,
        fastack: 0,
        xmit: 0,
        data: Seq::empty(),
    }
}

/// The payload length that the first 24 bytes of `b` announce.
pub open spec fn parse_len(b: Seq<u8>) -> u32 {
    from_le_u32(b.subrange(20, 24))
}

/// Whether `b` starts with a whole segment: a header and as many payload
/// bytes as the header announces.
pub open spec fn parses(b: Seq<u8>) -> bool {
    b.len() >= 24 && b.len() - 24 >= parse_len(b)
}

/// The segment that `b` starts with.
pub open spec fn parse(b: Seq<u8>) -> SegmentView {
    SegmentView { data: b.subrange(24, 24 + parse_len(b)), ..parse_header(b) }
}

/// Where the pieces of a header, a payload and what follows them lie in
/// their concatenation.
proof fn lemma_layout(
    c: Seq<u8>,
    k: Seq<u8>,
    w: Seq<u8>,
    t: Seq<u8>,
    s: Seq<u8>,
    u: Seq<u8>,
    l: Seq<u8>,
    d: Seq<u8>,
    r: Seq<u8>,
)
    requires
        c.len() == 4,
        k.len() == 2,
        w.len() == 2,
        t.len() == 4,
        s.len() == 4,
        u.len() == 4,
        l.len() == 4,
    ensures
        ({
            let b = c + k + w + t + s + u + l + d + r;
            &&& b.len() == 24 + d.len() + r.len()
            &&& b.subrange(0, 4) == c
            &&& b[4] == k[0]
            &&& b[5] == k[1]
            &&& b.subrange(6, 8) == w
            &&& b.subrange(8, 12) == t
            &&& b.subrange(12, 16) == s
            &&& b.subrange(16, 20) == u
            &&& b.subrange(20, 24) == l
            &&& b.subrange(24, 24 + d.len() as int) == d
            &&& b.subrange(24 + d.len() as int, b.len() as int) == r
        }),
{
    let b = c + k + w + t + s + u + l + d + r;
    assert(b.subrange(0, 4) =~= c);
    assert(b.subrange(6, 8) =~= w);
    assert(b.subrange(8, 12) =~= t);
    assert(b.subrange(12, 16) =~= s);
    assert(b.subrange(16, 20) =~= u);
    assert(b.subrange(20, 24) =~= l);
    assert(b.subrange(24, 24 + d.len() as int) =~= d);
    assert(b.subrange(24 + d.len() as int, b.len() as int) =~= r);
}

/// An encoded segment is 24 bytes longer than its payload.
pub proof fn lemma_encoding_len(seg: SegmentView)
    ensures
        seg.header().len() == 24,
        seg.encoding().len() == 24 + seg.data.len(),
{
}

/// Decoding undoes encoding: bytes that start with the encoding of a segment
/// parse as that segment, whatever follows.
pub proof fn lemma_parse_encoding(seg: SegmentView, rest: Seq<u8>)
    requires
        seg.encodable(),
    ensures
        seg.encoding().len() == 24 + seg.data.len(),
        parses(seg.encoding() + rest),
        parse(seg.encoding() + rest) == seg.wire(),
        (seg.encoding() + rest).subrange(
            24 + seg.data.len() as int,
            (seg.encoding() + rest).len() as int,
        ) == rest,
{
    let b = seg.encoding() + rest;
    let len = seg.data.len() as u32;
    lemma_layout(
        le_u32(seg.conv),
        seq![seg.cmd, seg.frg],
        le_u16(seg.wnd),
        le_u32(seg.ts),
        le_u32(seg.sn),
        le_u32(seg.una),
        le_u32(len),
        seg.data,
        rest,
    );
    lemma_layout(
        le_u32(seg.conv),
        seq![seg.cmd, seg.frg],
        le_u16(seg.wnd),
        le_u32(seg.ts),
        le_u32(seg.sn),
        le_u32(seg.una),
        le_u32(len),
        seg.data,
        Seq::empty(),
    );
    assert(seg.encoding() + Seq::<u8>::empty() =~= seg.encoding());
    lemma_le_u32_round_trip(seg.conv);
    lemma_le_u16_round_trip(seg.wnd);
    lemma_le_u32_round_trip(seg.ts);
    lemma_le_u32_round_trip(seg.sn);
    lemma_le_u32_round_trip(seg.una);
    lemma_le_u32_round_trip(len);
    assert(parse_len(b) == len);
    assert(parse(b).data == seg.data);
}

/// The unit of transmission and of bookkeeping.
#[derive(Debug)]
pub struct Segment {
    /// Conversation id.
    pub conv: u32,
    /// Command.
    pub cmd: u8,
    /// Fragment index within a payload, counting down to 0 at the last one.
    pub frg: u8,
    /// The sender's advertised receive window.
    pub wnd: u16,
    /// The sender's clock when the segment was sent, in milliseconds.
    pub ts: u32,
    /// Sequence number.
    pub sn: u32,
    /// The smallest sequence number the sender has not yet received.
    pub una: u32,
    /// When the segment is next due for retransmission.
    pub resendts: u32,
    /// The segment's current retransmission timeout.
    pub rto: u32,
    /// How often a later segment was acknowledged before this one.
    pub fastack: u32,
    /// How often the segment was transmitted.
    pub xmit: u32,
    /// Payload.
    pub data: Vec<u8>,
}

impl View for Segment {
    type V = SegmentView;

    open spec fn view(&self) -> SegmentView {
        SegmentView {
            conv: self.conv,
            cmd: self.cmd,
            frg: self.frg,
            wnd: self.wnd,
            ts: self.ts,
            sn: self.sn,
            una: self.una,
            resendts: self.resendts,
            rto: self.rto,
            fastack: self.fastack,
            xmit: self.xmit,
            data: self.data@,
        }
    }
}

impl DeepView for Segment {
    type V = SegmentView;

    open spec fn deep_view(&self) -> SegmentView {
        self@
    }
}

impl Default for Segment {
    /// A segment with every field zero and no payload.
    fn default() -> (seg: Self)
        ensures
            seg@ == SegmentView::blank(),
    {
        Segment::new()
    }
}

impl Segment {
    /// A segment with every field zero and no payload.
    pub fn new() -> (seg: Self)
        ensures
            seg@ == SegmentView::blank(),
    {
        Segment {
            conv: 0,
            cmd: 0,
            frg: 0,
            wnd: 0,
            ts: 0,
            sn: 0,
            una: 0,
            resendts: 0,
            rto: 0,
            fastack: 0,
            xmit: 0,
            data: Vec::new(),
        }
    }

    /// A segment with every field zero and a payload of `cap` zero bytes.
    pub fn with_capacity_zeroed(cap: usize) -> (seg: Self)
        ensures
            seg@ == (SegmentView {
                data: Seq::new(cap as nat, |i: int| 0u8),
                ..SegmentView::blank()
            }),
    {
        let data: Vec<u8> = vec![0u8; cap];
        assert(data@ =~= Seq::new(cap as nat, |i: int| 0u8));
        Segment {
            conv: 0,
            cmd: 0,
            frg: 0,
            wnd: 0,
            ts: 0,
            sn: 0,
            una: 0,
            resendts: 0,
            rto: 0,
            fastack: 0,
            xmit: 0,
            data,
        }
    }

    /// A segment with every field zero and a copy of `bytes` as payload.
    pub fn from_bytes(bytes: &[u8]) -> (seg: Self)
        ensures
            seg@ == (SegmentView { data: bytes@, ..SegmentView::blank() }),
    {
        Segment {
            conv: 0,
            cmd: 0,
            frg: 0,
            wnd: 0,
            ts: 0,
            sn: 0,
            una: 0,
            resendts: 0,
            rto: 0,
            fastack: 0,
            xmit: 0,
            data: vstd::slice::slice_to_vec(bytes),
        }
    }

    /// Writes the header and the payload at the write cursor of `buf`, or
    /// refuses and changes nothing when they do not fit, or when the payload is
    /// too long for the length field.
    pub fn encode(&self, buf: &mut ByteBuffer) -> (res: Result<(), BufferResult>)
        requires
            old(buf).wf(),
        ensures
            final(buf).wf(),
            self@.encodable() && 24 + self@.data.len() <= old(buf)@.room() ==> res == Ok::<
                (),
                BufferResult,
            >(()) && final(buf)@ == old(buf)@.write(self@.encoding()),
            !(self@.encodable() && 24 + self@.data.len() <= old(buf)@.room()) ==> res == Err::<
                (),
                BufferResult,
            >(BufferResult::WriteOverflow) && final(buf)@ == old(buf)@,
    {
        let room: usize = buf.len() - buf.get_wpos();
        let len: usize = self.data.len();
        if len > 0xffff_ffff || room < 24 || room - 24 < len {
            return Err(BufferResult::WriteOverflow);
        }
        let ghost v0 = buf@;
        let ghost conv = le_u32(self.conv);
        let ghost kind = seq![self.cmd, self.frg];
        let ghost wnd = le_u16(self.wnd);
        let ghost ts = le_u32(self.ts);
        let ghost sn = le_u32(self.sn);
        let ghost una = le_u32(self.una);
        let ghost length = le_u32(len as u32);
        let _ = buf.write_u32(self.conv);
        let _ = buf.write_u8(self.cmd);
        proof {
            lemma_write_twice(v0, conv, seq![self.cmd]);
        }
        let _ = buf.write_u8(self.frg);
        proof {
            lemma_write_twice(v0, conv + seq![self.cmd], seq![self.frg]);
            assert(conv + seq![self.cmd] + seq![self.frg] =~= conv + kind);
        }
        let _ = buf.write_u16(self.wnd);
        proof {
            lemma_write_twice(v0, conv + kind, wnd);
        }
        let _ = buf.write_u32(self.ts);
        proof {
            lemma_write_twice(v0, conv + kind + wnd, ts);
        }
        let _ = buf.write_u32(self.sn);
        proof {
            lemma_write_twice(v0, conv + kind + wnd + ts, sn);
        }
        let _ = buf.write_u32(self.una);
        proof {
            lemma_write_twice(v0, conv + kind + wnd + ts + sn, una);
        }
        let _ = buf.write_u32(len as u32);
        proof {
            lemma_write_twice(v0, conv + kind + wnd + ts + sn + una, length);
        }
        let _ = buf.write_bytes(self.data.as_slice());
        proof {
            lemma_write_twice(v0, self@.header(), self@.data);
        }
        Ok(())
    }

    /// Reads one segment, header and payload, from the read cursor of `buf`,
    /// or refuses and changes nothing when the unread bytes do not hold a
    /// whole segment.
    pub fn decode(buf: &mut ByteBuffer) -> (res: Result<Segment, BufferResult>)
        requires
            old(buf).wf(),
        ensures
            final(buf).wf(),
            match res {
                Ok(seg) => parses(old(buf)@.unread()) && seg@ == parse(old(buf)@.unread())
                    && final(buf)@ == old(buf)@.skip(24 + seg@.data.len() as int),
                Err(e) => !parses(old(buf)@.unread()) && e == BufferResult::ReadOverflow
                    && final(buf)@ == old(buf)@,
            },
    {
        let start: usize = buf.get_rpos();
        match Segment::decode_header(buf) {
            Err(e) => Err(e),
            Ok((mut seg, len)) => {
                match buf.read_bytes(len as usize) {
                    Err(e) => {
                        buf.rewind(start);
                        Err(e)
                    },
                    Ok(data) => {
                        assert(data@ =~= old(buf)@.unread().subrange(24, 24 + len));
                        seg.data = data;
                        Ok(seg)
                    },
                }
            },
        }
    }

    /// Reads the 24 header bytes from the read cursor of `buf` and returns the
    /// header fields together with the announced payload length, or refuses and
    /// changes nothing when fewer than 24 bytes are unread.
    pub fn decode_header(buf: &mut ByteBuffer) -> (res: Result<(Segment, u32), BufferResult>)
        requires
            old(buf).wf(),
        ensures
            final(buf).wf(),
            match res {
                Ok((seg, len)) => old(buf)@.unread().len() >= 24 && seg@ == parse_header(
                    old(buf)@.unread(),
                ) && len == parse_len(old(buf)@.unread()) && final(buf)@ == old(buf)@.skip(24),
                Err(e) => old(buf)@.unread().len() < 24 && e == BufferResult::ReadOverflow
                    && final(buf)@ == old(buf)@,
            },
    {
        if buf.read_remain() < 24 {
            return Err(BufferResult::ReadOverflow);
        }
        let ghost b = buf@.unread();
        let ghost v0 = buf@;
        let mut seg = Segment::new();
        let mut len: u32 = 0;
        match buf.read_u32() {
            Ok(val) => {
                assert(v0.peek(4) =~= b.subrange(0, 4));
                seg.conv = val;
            },
            Err(_) => {},
        }
        match buf.read_u8_as_u32() {
            Ok(val) => {
                seg.cmd = val as u8;
            },
            Err(_) => {},
        }
        match buf.read_u8_as_u32() {
            Ok(val) => {
                seg.frg = val as u8;
            },
            Err(_) => {},
        }
        match buf.read_u16_as_u32() {
            Ok(val) => {
                assert(v0.skip(6).peek(2) =~= b.subrange(6, 8));
                seg.wnd = val as u16;
            },
            Err(_) => {},
        }
        match buf.read_u32() {
            Ok(val) => {
                assert(v0.skip(8).peek(4) =~= b.subrange(8, 12));
                seg.ts = val;
            },
            Err(_) => {},
        }
        match buf.read_u32() {
            Ok(val) => {
                assert(v0.skip(12).peek(4) =~= b.subrange(12, 16));
                seg.sn = val;
            },
            Err(_) => {},
        }
        match buf.read_u32() {
            Ok(val) => {
                assert(v0.skip(16).peek(4) =~= b.subrange(16, 20));
                seg.una = val;
            },
            Err(_) => {},
        }
        match buf.read_u32() {
            Ok(val) => {
                assert(v0.skip(20).peek(4) =~= b.subrange(20, 24));
                len = val;
            },
            Err(_) => {},
        }
        assert(seg@.data =~= Seq::<u8>::empty());
        Ok((seg, len))
    }

    /// A copy of the payload.
    pub fn data_bytes(&self) -> (bytes: Vec<u8>)
        ensures
            bytes@ == self@.data,
    {
        vstd::slice::slice_to_vec(self.data.as_slice())
    }
}

} // verus!
