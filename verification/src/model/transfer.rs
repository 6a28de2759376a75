//! Laws about whole datagrams: what one engine packs, another takes in.

use crate::model::ack::{known_command, next_ack, verdict, Parsed};
use crate::model::flush::{scratch_size, Packing, Transmit};
use crate::model::laws::{lemma_drain_keeps, lemma_promote};
use crate::model::{tagged, KcpView};
use crate::segment::{lemma_encoding_len, lemma_parse_encoding, SegmentView};
use vstd::prelude::*;

verus! {

/// The encodings of `segs` one behind the other.
pub open spec fn encode_all(segs: Seq<SegmentView>) -> Seq<u8>
    decreases segs.len(),
{
    if segs.len() == 0 {
        Seq::empty()
    } else {
        encode_all(segs.drop_last()) + segs.last().encoding()
    }
}

/// The segments of `segs` as they come out of a decoder: without the fields
/// that are not on the wire.
pub open spec fn wires(segs: Seq<SegmentView>) -> Seq<SegmentView> {
    segs.map_values(|seg: SegmentView| seg.wire())
}

/// Whether an engine of conversation `conv` accepts `seg` once it was
/// encoded: it belongs to the conversation, its command is known and its
/// payload fits the length field.
pub open spec fn acceptable(conv: u32, seg: SegmentView) -> bool {
    seg.conv == conv && known_command(seg.cmd) && seg.encodable()
}

/// The largest sequence number that the acknowledgements among `segs`
/// carry, after `seen`.
pub open spec fn acks_of(seen: Option<u32>, segs: Seq<SegmentView>) -> Option<u32>
    decreases segs.len(),
{
    if segs.len() == 0 {
        seen
    } else {
        acks_of(next_ack(seen, segs[0]), segs.subrange(1, segs.len() as int))
    }
}

impl KcpView {
    /// The engine after each of `segs` was accepted in order.
    pub open spec fn accept_all(self, segs: Seq<SegmentView>) -> KcpView
        decreases segs.len(),
    {
        if segs.len() == 0 {
            self
        } else {
            self.on_segment(segs[0]).accept_all(segs.subrange(1, segs.len() as int))
        }
    }
}

/// The encodings of segments one behind the other start with the encoding of
/// the first.
pub proof fn lemma_encode_all_front(segs: Seq<SegmentView>)
    requires
        segs.len() > 0,
    ensures
        encode_all(segs) == segs[0].encoding() + encode_all(segs.subrange(1, segs.len() as int)),
    decreases segs.len(),
{
    let tail = segs.subrange(1, segs.len() as int);
    if segs.len() == 1 {
        assert(segs.drop_last() =~= Seq::<SegmentView>::empty());
        assert(tail =~= Seq::<SegmentView>::empty());
        assert(encode_all(segs) =~= segs[0].encoding() + encode_all(tail));
    } else {
        lemma_encode_all_front(segs.drop_last());
        assert(segs.drop_last().subrange(1, segs.len() - 1) =~= tail.drop_last());
        assert(tail.last() == segs.last());
        assert(encode_all(segs) =~= segs[0].encoding() + encode_all(tail));
    }
}

/// Accepting a segment leaves the conversation id alone.
pub proof fn lemma_on_segment_conv(k: KcpView, seg: SegmentView)
    ensures
        k.on_segment(seg).conv == k.conv,
{
    reveal(KcpView::on_segment);
    let s = (KcpView { rmt_wnd: seg.wnd as u32, ..k }).parse_una(seg.una).shrink_buf();
    if seg.cmd == crate::segment::CMD_PUSH {
        let noted = KcpView { acklist: s.acklist.push((seg.sn, seg.ts)), ..s };
        if noted.in_rcv_window(seg.sn) {
            lemma_drain_keeps(
                KcpView {
                    rcv_buf: crate::model::receive::insert_ordered(noted.rcv_buf, seg),
                    ..noted
                },
            );
        }
    }
}

/// Where a datagram goes on with the encoding of a segment that the engine
/// accepts, the engine takes that segment in and goes on behind it.
pub proof fn lemma_parse_from_step(
    k: KcpView,
    maxack: Option<u32>,
    frame: Seq<u8>,
    pos: int,
    seg: SegmentView,
    tail: Seq<u8>,
)
    requires
        0 <= pos <= frame.len(),
        frame.subrange(pos, frame.len() as int) == seg.encoding() + tail,
        acceptable(k.conv, seg),
    ensures
        k.parse_from(maxack, frame, pos) == k.on_segment(seg.wire()).parse_from(
            next_ack(maxack, seg.wire()),
            frame,
            pos + 24 + seg.data.len(),
        ),
{
    lemma_parse_encoding(seg, tail);
    lemma_encoding_len(seg);
    let rest = frame.subrange(pos, frame.len() as int);
    assert(rest.len() == frame.len() - pos);
    assert(verdict(k.conv, rest) == 0);
}

/// Segments that an engine accepts, encoded one behind the other, are worked
/// off to the end without a rejection, each as it was sent, in order.
pub proof fn lemma_parse_from_encoded(
    k: KcpView,
    maxack: Option<u32>,
    prefix: Seq<u8>,
    segs: Seq<SegmentView>,
)
    requires
        forall|i: int| 0 <= i < segs.len() ==> acceptable(k.conv, #[trigger] segs[i]),
    ensures
        k.parse_from(maxack, prefix + encode_all(segs), prefix.len() as int) == (Parsed {
            state: k.accept_all(wires(segs)),
            maxack: acks_of(maxack, wires(segs)),
            code: 0,
            pos: (prefix + encode_all(segs)).len() as int,
        }),
    decreases segs.len(),
{
    let frame = prefix + encode_all(segs);
    let pos = prefix.len() as int;
    if segs.len() == 0 {
        assert(frame.len() - pos < 24);
    } else {
        let first = segs[0];
        let tail = segs.subrange(1, segs.len() as int);
        let longer = prefix + first.encoding();
        assert(frame.subrange(pos, frame.len() as int) == first.encoding() + encode_all(tail)
            && longer + encode_all(tail) == frame) by {
            lemma_encode_all_front(segs);
            assert(frame.subrange(pos, frame.len() as int) =~= encode_all(segs));
            assert(longer + encode_all(tail) =~= frame);
        }
        assert(longer.len() == pos + 24 + first.data.len()) by {
            lemma_encoding_len(first);
        }
        lemma_parse_from_step(k, maxack, frame, pos, first, encode_all(tail));
        let next = k.on_segment(first.wire());
        lemma_on_segment_conv(k, first.wire());
        assert forall|i: int| 0 <= i < tail.len() implies acceptable(
            next.conv,
            #[trigger] tail[i],
        ) by {
            assert(tail[i] == segs[i + 1]);
        }
        lemma_parse_from_encoded(next, next_ack(maxack, first.wire()), longer, tail);
        assert(wires(segs)[0] == first.wire());
        assert(wires(segs).subrange(1, segs.len() as int) =~= wires(tail));
    }
}

/// A datagram made of one or more segments that an engine accepts is taken in
/// whole, with result 0: the engine takes in each segment in order, then
/// counts what the largest acknowledgement skipped and opens the congestion
/// window a step.
pub proof fn lemma_input_encoded(k: KcpView, segs: Seq<SegmentView>)
    requires
        segs.len() > 0,
        forall|i: int| 0 <= i < segs.len() ==> acceptable(k.conv, #[trigger] segs[i]),
    ensures
        k.input(encode_all(segs)).1 == 0,
        k.input(encode_all(segs)).2 == encode_all(segs).len(),
        k.input(encode_all(segs)).0 == ({
            let taken = k.accept_all(wires(segs));
            let counted = match acks_of(None, wires(segs)) {
                Some(m) => taken.parse_fastack(m),
                None => taken,
            };
            if crate::serial::diff(counted.snd_una, k.snd_una) >= 0 {
                counted.grow_cwnd()
            } else {
                counted
            }
        }),
{
    lemma_parse_from_encoded(k, None, Seq::empty(), segs);
    assert(Seq::<u8>::empty() + encode_all(segs) =~= encode_all(segs));
    lemma_encode_all_front(segs);
    lemma_encoding_len(segs[0]);
}

/// The encodings of `segs`, each for itself.
pub open spec fn encodings(segs: Seq<SegmentView>) -> Seq<Seq<u8>> {
    segs.map_values(|seg: SegmentView| seg.encoding())
}

/// Segments on their way into datagrams: the runs that are complete, and the
/// run being filled.
pub ghost struct Grouping {
    /// The complete runs, oldest first.
    pub groups: Seq<Seq<SegmentView>>,
    /// The segments in the scratch area.
    pub cur: Seq<SegmentView>,
}

impl Grouping {
    /// Nothing assembled yet.
    pub open spec fn start() -> Grouping {
        Grouping { groups: Seq::empty(), cur: Seq::empty() }
    }

    /// The datagrams that the runs make.
    pub open spec fn packed(self) -> Packing {
        Packing {
            frames: self.groups.map_values(|run: Seq<SegmentView>| encode_all(run)),
            cur: encode_all(self.cur),
        }
    }

    /// The state after one segment was added, by the rule of
    /// [`Packing::add`].
    pub open spec fn add(self, seg: SegmentView, mtu: int, cap: int) -> Grouping {
        let room = if self.cur.len() > 0 && encode_all(self.cur).len() + 24 + seg.data.len()
            > mtu {
            Grouping { groups: self.groups.push(self.cur), cur: Seq::empty() }
        } else {
            self
        };
        if seg.encodable() && encode_all(room.cur).len() + 24 + seg.data.len() <= cap {
            Grouping { cur: room.cur.push(seg), ..room }
        } else {
            room
        }
    }

    /// The state after each of `segs` was added in order.
    pub open spec fn add_all(self, segs: Seq<SegmentView>, mtu: int, cap: int) -> Grouping
        decreases segs.len(),
    {
        if segs.len() == 0 {
            self
        } else {
            self.add_all(segs.drop_last(), mtu, cap).add(segs.last(), mtu, cap)
        }
    }

    /// All runs, the one being filled included unless it is empty.
    pub open spec fn finish(self) -> Seq<Seq<SegmentView>> {
        if self.cur.len() > 0 {
            self.groups.push(self.cur)
        } else {
            self.groups
        }
    }

    /// Every segment of every run belongs to conversation `conv` and carries a
    /// known command, and no complete run is empty.
    pub open spec fn sound(self, conv: u32) -> bool {
        &&& forall|i: int| 0 <= i < self.cur.len() ==> acceptable(conv, #[trigger] self.cur[i])
        &&& forall|r: int, i: int|
            0 <= r < self.groups.len() && 0 <= i < self.groups[r].len() ==> acceptable(
                conv,
                #[trigger] self.groups[r][i],
            )
        &&& forall|r: int| 0 <= r < self.groups.len() ==> (#[trigger] self.groups[r]).len() > 0
    }
}

/// Segments encoded one behind the other take 24 bytes each and more.
pub proof fn lemma_encode_all_len(segs: Seq<SegmentView>)
    ensures
        encode_all(segs).len() >= 24 * segs.len(),
    decreases segs.len(),
{
    if segs.len() > 0 {
        lemma_encode_all_len(segs.drop_last());
        lemma_encoding_len(segs.last());
    }
}

/// Adding a segment to the runs is adding its encoding to the datagrams.
pub proof fn lemma_grouping_add(g: Grouping, seg: SegmentView, mtu: int, cap: int)
    ensures
        g.add(seg, mtu, cap).packed() == g.packed().add(seg.encoding(), mtu, cap),
{
    lemma_encoding_len(seg);
    lemma_encode_all_len(g.cur);
    let full = g.cur.len() > 0 && encode_all(g.cur).len() + 24 + seg.data.len() > mtu;
    let room = if full {
        Grouping { groups: g.groups.push(g.cur), cur: Seq::empty() }
    } else {
        g
    };
    assert(room.packed().frames =~= if full {
        g.packed().frames.push(encode_all(g.cur))
    } else {
        g.packed().frames
    });
    assert(room.cur.push(seg).drop_last() =~= room.cur);
}

/// Adding segments to the runs is adding their encodings to the datagrams.
pub proof fn lemma_grouping_add_all(g: Grouping, segs: Seq<SegmentView>, mtu: int, cap: int)
    ensures
        g.add_all(segs, mtu, cap).packed() == g.packed().add_all(encodings(segs), mtu, cap),
    decreases segs.len(),
{
    reveal(Packing::add_all);
    if segs.len() > 0 {
        lemma_grouping_add_all(g, segs.drop_last(), mtu, cap);
        lemma_grouping_add(g.add_all(segs.drop_last(), mtu, cap), segs.last(), mtu, cap);
        assert(encodings(segs).drop_last() =~= encodings(segs.drop_last()));
        assert(encodings(segs).last() == segs.last().encoding());
    }
}

/// The runs, finished, make the datagrams, finished.
pub proof fn lemma_grouping_finish(g: Grouping)
    ensures
        g.packed().finish() == g.finish().map_values(|run: Seq<SegmentView>| encode_all(run)),
{
    lemma_encode_all_len(g.cur);
    assert(g.packed().finish() =~= g.finish().map_values(
        |run: Seq<SegmentView>| encode_all(run),
    ));
}

/// Adding acceptable segments keeps the runs sound.
pub proof fn lemma_grouping_sound(g: Grouping, segs: Seq<SegmentView>, conv: u32, mtu: int, cap: int)
    requires
        g.sound(conv),
        forall|i: int| 0 <= i < segs.len() ==> acceptable(conv, #[trigger] segs[i]),
    ensures
        g.add_all(segs, mtu, cap).sound(conv),
    decreases segs.len(),
{
    if segs.len() > 0 {
        let front = segs.drop_last();
        assert forall|i: int| 0 <= i < front.len() implies acceptable(conv, #[trigger] front[i]) by {
            assert(front[i] == segs[i]);
        }
        lemma_grouping_sound(g, front, conv, mtu, cap);
        let before = g.add_all(front, mtu, cap);
        let seg = segs.last();
        assert(acceptable(conv, seg));
        lemma_encode_all_len(before.cur);
        let after = before.add(seg, mtu, cap);
        assert forall|i: int| 0 <= i < after.cur.len() implies acceptable(
            conv,
            #[trigger] after.cur[i],
        ) by {
            if after.cur == before.cur.push(seg) {
                if i < before.cur.len() {
                    assert(after.cur[i] == before.cur[i]);
                }
            } else if after.cur == before.cur {
            } else {
            }
        }
        assert forall|r: int, i: int|
            0 <= r < after.groups.len() && 0 <= i < after.groups[r].len() implies acceptable(
            conv,
            #[trigger] after.groups[r][i],
        ) by {
            if r < before.groups.len() {
                assert(after.groups[r] == before.groups[r]);
            } else {
                assert(after.groups[r] == before.cur);
            }
        }
        assert forall|r: int| 0 <= r < after.groups.len() implies (#[trigger] after.groups[r]).len()
            > 0 by {
            if r < before.groups.len() {
                assert(after.groups[r] == before.groups[r]);
            } else {
                assert(after.groups[r] == before.cur);
            }
        }
    }
}

impl Transmit {
    /// The segments of `segs` that go out, as they go out, in order.
    pub open spec fn sent(self, segs: Seq<SegmentView>) -> Seq<SegmentView>
        decreases segs.len(),
    {
        if segs.len() == 0 {
            Seq::empty()
        } else if self.needs_send(segs.last()) {
            self.sent(segs.drop_last()).push(self.transmit(segs.last()))
        } else {
            self.sent(segs.drop_last())
        }
    }
}

/// What a flush packs of the segments in flight are the encodings of those
/// that go out.
pub proof fn lemma_data_items(rule: Transmit, segs: Seq<SegmentView>)
    ensures
        rule.data_items(segs) == encodings(rule.sent(segs)),
    decreases segs.len(),
{
    if segs.len() > 0 {
        lemma_data_items(rule, segs.drop_last());
        assert(rule.data_items(segs) =~= encodings(rule.sent(segs)));
    } else {
        assert(rule.data_items(segs) =~= encodings(rule.sent(segs)));
    }
}

impl KcpView {
    /// The acknowledgements that a flush sends.
    pub open spec fn ack_segments(self) -> Seq<SegmentView> {
        Seq::new(
            self.acklist.len(),
            |i: int| self.control(crate::segment::CMD_ACK, self.acklist[i].0, self.acklist[i].1),
        )
    }

    /// The probes that a flush of an engine sends which has looked at its
    /// probe timer.
    pub open spec fn probe_segments(self, last: (u32, u32)) -> Seq<SegmentView> {
        let ask = if self.probe & crate::model::ASK_SEND != 0 {
            seq![self.control(crate::segment::CMD_WASK, last.0, last.1)]
        } else {
            Seq::empty()
        };
        let tell = if self.probe & crate::model::ASK_TELL != 0 {
            seq![self.control(crate::segment::CMD_WINS, last.0, last.1)]
        } else {
            Seq::empty()
        };
        ask + tell
    }

    /// The segments that a flush of an updated engine sends, in order:
    /// acknowledgements, probes, data.
    pub open spec fn flush_segments(self) -> Seq<SegmentView> {
        let wnd = self.wnd_advertised();
        let probed = (KcpView { acklist: Seq::empty(), ..self }).probe_step();
        let promoted = (KcpView { probe: 0, ..probed }).promote(wnd, probed.effective_window());
        self.ack_segments() + probed.probe_segments(self.last_ack()) + promoted.transmit_rule(
            wnd,
        ).sent(promoted.snd_buf)
    }
}

/// The datagrams of a flush are the segments it sends, cut into runs and each
/// run encoded.
pub proof fn lemma_flush_runs(k: KcpView)
    requires
        k.updated,
    ensures
        k.flush().1 == Grouping::start().add_all(
            k.flush_segments(),
            k.mtu as int,
            scratch_size(k.mtu as int),
        ).finish().map_values(|run: Seq<SegmentView>| encode_all(run)),
{
    let mtu = k.mtu as int;
    let cap = scratch_size(mtu);
    let wnd = k.wnd_advertised();
    let probed = (KcpView { acklist: Seq::empty(), ..k }).probe_step();
    let promoted = (KcpView { probe: 0, ..probed }).promote(wnd, probed.effective_window());
    let rule = promoted.transmit_rule(wnd);
    let last = k.last_ack();
    let items = k.ack_items(k.acklist.len() as int) + probed.probe_items(last) + rule.data_items(
        promoted.snd_buf,
    );
    lemma_data_items(rule, promoted.snd_buf);
    assert(k.ack_items(k.acklist.len() as int) =~= encodings(k.ack_segments()));
    assert(probed.probe_items(last) =~= encodings(probed.probe_segments(last)));
    assert(items =~= encodings(k.flush_segments()));
    let g = Grouping::start().add_all(k.flush_segments(), mtu, cap);
    lemma_grouping_add_all(Grouping::start(), k.flush_segments(), mtu, cap);
    assert(Grouping::start().packed() == Packing::start()) by {
        assert(Grouping::start().packed().frames =~= Seq::<Seq<u8>>::empty());
    }
    lemma_grouping_finish(g);
}

/// No payload in `buf` is longer than `mss` bytes.
pub open spec fn fits(buf: Seq<SegmentView>, mss: int) -> bool {
    forall|i: int| 0 <= i < buf.len() ==> (#[trigger] buf[i]).data.len() <= mss
}

/// Moving segments into the window leaves their payloads alone.
pub proof fn lemma_promote_fits(k: KcpView, wnd: u16, cwnd: u32, mss: int)
    requires
        fits(k.snd_queue, mss),
        fits(k.snd_buf, mss),
    ensures
        fits(k.promote(wnd, cwnd).snd_buf, mss),
        fits(k.promote(wnd, cwnd).snd_queue, mss),
    decreases k.snd_queue.len(),
{
    if k.snd_queue.len() > 0 && crate::serial::diff(
        k.snd_nxt,
        crate::serial::advance(k.snd_una, cwnd as int),
    ) < 0 {
        let next = KcpView {
            snd_queue: k.snd_queue.subrange(1, k.snd_queue.len() as int),
            snd_buf: k.snd_buf.push(k.stamped(wnd)),
            snd_nxt: crate::serial::advance(k.snd_nxt, 1),
            ..k
        };
        assert(k.snd_queue[0].data.len() <= mss);
        assert forall|i: int| 0 <= i < next.snd_buf.len() implies (
        #[trigger] next.snd_buf[i]).data.len() <= mss by {
            if i < k.snd_buf.len() {
                assert(next.snd_buf[i] == k.snd_buf[i]);
            }
        }
        assert forall|i: int| 0 <= i < next.snd_queue.len() implies (
        #[trigger] next.snd_queue[i]).data.len() <= mss by {
            assert(next.snd_queue[i] == k.snd_queue[i + 1]);
        }
        lemma_promote_fits(next, wnd, cwnd, mss);
    }
}

/// The segments that go out are data segments of the conversation with the
/// payloads they had.
pub proof fn lemma_sent_tagged(rule: Transmit, buf: Seq<SegmentView>, conv: u32, mss: int)
    requires
        tagged(buf, conv),
        fits(buf, mss),
    ensures
        tagged(rule.sent(buf), conv),
        fits(rule.sent(buf), mss),
    decreases buf.len(),
{
    if buf.len() > 0 {
        let front = buf.drop_last();
        assert forall|i: int| 0 <= i < front.len() implies (#[trigger] front[i]).conv == conv
            && front[i].cmd == crate::segment::CMD_PUSH && front[i].encodable()
            && front[i].data.len() <= mss by {
            assert(front[i] == buf[i]);
        }
        lemma_sent_tagged(rule, front, conv, mss);
        let last = buf.last();
        assert(last.conv == conv && last.data.len() <= mss);
        let out = rule.sent(buf);
        assert forall|i: int| 0 <= i < out.len() implies (#[trigger] out[i]).conv == conv
            && out[i].cmd == crate::segment::CMD_PUSH && out[i].encodable() && out[i].data.len()
            <= mss by {
            if i < rule.sent(front).len() {
                assert(out[i] == rule.sent(front)[i]);
            }
        }
    }
}

/// Every segment that a flush sends belongs to the conversation and carries
/// a known command.
pub proof fn lemma_flush_acceptable(k: KcpView)
    requires
        k.wf(),
    ensures
        forall|i: int|
            0 <= i < k.flush_segments().len() ==> acceptable(
                k.conv,
                #[trigger] k.flush_segments()[i],
            ),
{
    let wnd = k.wnd_advertised();
    let probed = (KcpView { acklist: Seq::empty(), ..k }).probe_step();
    let cwnd = probed.effective_window();
    let ready = KcpView { probe: 0, ..probed };
    let promoted = ready.promote(wnd, cwnd);
    let rule = promoted.transmit_rule(wnd);
    lemma_promote(ready, wnd, cwnd);
    lemma_sent_tagged(rule, promoted.snd_buf, k.conv, u32::MAX as int);
    let acks = k.ack_segments();
    let probes = probed.probe_segments(k.last_ack());
    let data = rule.sent(promoted.snd_buf);
    let all = k.flush_segments();
    assert(all == acks + probes + data);
    assert forall|i: int| 0 <= i < all.len() implies acceptable(k.conv, #[trigger] all[i]) by {
        if i < acks.len() {
            assert(all[i] == acks[i]);
        } else if i < acks.len() + probes.len() {
            assert(all[i] == probes[i - acks.len()]);
        } else {
            assert(all[i] == data[i - acks.len() - probes.len()]);
        }
    }
}

/// If no payload in the send queue or in flight is longer than a segment may
/// be, every segment that a flush sends fits a datagram.
pub proof fn lemma_flush_segments(k: KcpView)
    requires
        k.wf(),
        fits(k.snd_queue, k.mss as int),
        fits(k.snd_buf, k.mss as int),
    ensures
        forall|i: int|
            0 <= i < k.flush_segments().len() ==> acceptable(
                k.conv,
                #[trigger] k.flush_segments()[i],
            ) && 24 + k.flush_segments()[i].data.len() <= k.mtu,
{
    let wnd = k.wnd_advertised();
    let probed = (KcpView { acklist: Seq::empty(), ..k }).probe_step();
    let cwnd = probed.effective_window();
    let ready = KcpView { probe: 0, ..probed };
    let promoted = ready.promote(wnd, cwnd);
    let rule = promoted.transmit_rule(wnd);
    lemma_promote(ready, wnd, cwnd);
    lemma_promote_fits(ready, wnd, cwnd, k.mss as int);
    lemma_sent_tagged(rule, promoted.snd_buf, k.conv, k.mss as int);
    let acks = k.ack_segments();
    let probes = probed.probe_segments(k.last_ack());
    let data = rule.sent(promoted.snd_buf);
    let all = k.flush_segments();
    assert(all == acks + probes + data);
    assert forall|i: int| 0 <= i < all.len() implies acceptable(k.conv, #[trigger] all[i]) && 24
        + all[i].data.len() <= k.mtu by {
        if i < acks.len() {
            assert(all[i] == acks[i]);
        } else if i < acks.len() + probes.len() {
            assert(all[i] == probes[i - acks.len()]);
        } else {
            assert(all[i] == data[i - acks.len() - probes.len()]);
        }
    }
}

/// Every datagram of a flush is taken in whole, with result 0, by any engine
/// of the same conversation.
pub proof fn lemma_flush_accepted(k: KcpView, peer: KcpView, i: int)
    requires
        k.wf(),
        k.updated,
        peer.conv == k.conv,
        0 <= i < k.flush().1.len(),
    ensures
        peer.input(k.flush().1[i]).1 == 0,
        peer.input(k.flush().1[i]).2 == k.flush().1[i].len(),
{
    let mtu = k.mtu as int;
    let cap = scratch_size(mtu);
    lemma_flush_runs(k);
    lemma_flush_acceptable(k);
    lemma_grouping_sound(Grouping::start(), k.flush_segments(), k.conv, mtu, cap);
    let g = Grouping::start().add_all(k.flush_segments(), mtu, cap);
    let runs = g.finish();
    assert(k.flush().1[i] == encode_all(runs[i]));
    if i < g.groups.len() {
        assert(runs[i] == g.groups[i]);
    } else {
        assert(runs[i] == g.cur);
    }
    assert forall|j: int| 0 <= j < runs[i].len() implies acceptable(
        peer.conv,
        #[trigger] runs[i][j],
    ) by {
        if i < g.groups.len() {
            assert(acceptable(k.conv, g.groups[i][j]));
        } else {
            assert(acceptable(k.conv, g.cur[j]));
        }
    }
    lemma_input_encoded(peer, runs[i]);
}

/// The segments of `runs` in one row.
pub open spec fn flatten(runs: Seq<Seq<SegmentView>>) -> Seq<SegmentView>
    decreases runs.len(),
{
    if runs.len() == 0 {
        Seq::empty()
    } else {
        flatten(runs.drop_last()) + runs.last()
    }
}

/// As long as every segment fits a datagram, cutting segments into runs loses
/// none and keeps their order.
pub proof fn lemma_grouping_flat(g: Grouping, segs: Seq<SegmentView>, mtu: int, cap: int)
    requires
        mtu <= cap,
        encode_all(g.cur).len() <= mtu,
        forall|i: int|
            0 <= i < segs.len() ==> (#[trigger] segs[i]).encodable() && 24 + segs[i].data.len()
                <= mtu,
    ensures
        encode_all(g.add_all(segs, mtu, cap).cur).len() <= mtu,
        flatten(g.add_all(segs, mtu, cap).groups) + g.add_all(segs, mtu, cap).cur == flatten(
            g.groups,
        ) + g.cur + segs,
    decreases segs.len(),
{
    if segs.len() == 0 {
        assert(flatten(g.groups) + g.cur + segs =~= flatten(g.groups) + g.cur);
    } else {
        let front = segs.drop_last();
        let seg = segs.last();
        assert forall|i: int| 0 <= i < front.len() implies (#[trigger] front[i]).encodable() && 24
            + front[i].data.len() <= mtu by {
            assert(front[i] == segs[i]);
        }
        lemma_grouping_flat(g, front, mtu, cap);
        let before = g.add_all(front, mtu, cap);
        let after = before.add(seg, mtu, cap);
        assert(seg.encodable() && 24 + seg.data.len() <= mtu);
        lemma_encoding_len(seg);
        lemma_encode_all_len(before.cur);
        if before.cur.len() > 0 && encode_all(before.cur).len() + 24 + seg.data.len() > mtu {
            assert(after.groups == before.groups.push(before.cur));
            assert(after.cur =~= seq![seg]);
            assert(after.groups.drop_last() =~= before.groups);
            assert(encode_all(Seq::<SegmentView>::empty()).len() == 0);
            assert(seq![seg].drop_last() =~= Seq::<SegmentView>::empty());
            assert(flatten(after.groups) + after.cur =~= flatten(before.groups) + before.cur + seq![
                seg,
            ]);
        } else {
            assert(after.groups == before.groups);
            assert(after.cur == before.cur.push(seg));
            assert(after.cur.drop_last() =~= before.cur);
            assert(flatten(after.groups) + after.cur =~= flatten(before.groups) + before.cur + seq![
                seg,
            ]);
        }
        assert(flatten(g.groups) + g.cur + front + seq![seg] =~= flatten(g.groups) + g.cur + segs);
    }
}

/// The runs, finished, hold the segments of all runs in one row.
pub proof fn lemma_flatten_finish(g: Grouping)
    ensures
        flatten(g.finish()) == flatten(g.groups) + g.cur,
{
    if g.cur.len() > 0 {
        assert(g.finish().drop_last() =~= g.groups);
    } else {
        assert(flatten(g.groups) + g.cur =~= flatten(g.groups));
    }
}

} // verus!
