//! The lossless hand-over: what one engine sends in a flush, another that
//! takes in every datagram in order delivers unchanged.

use crate::model::flush::{scratch_size, Transmit};
use crate::model::laws::{lemma_fragment_len, lemma_fragments_reassemble};
use crate::model::receive::{insert_ordered, message_end};
use crate::model::transfer::{
    acceptable, acks_of, encode_all, fits, flatten, lemma_flatten_finish, lemma_flush_runs,
    lemma_flush_segments, lemma_grouping_flat, lemma_grouping_sound, lemma_input_encoded, wires,
    Grouping,
};
use crate::model::{fragment_count, fragments, payload_of, KcpView};
use crate::segment::{SegmentView, CMD_PUSH};
use crate::serial::{advance, diff, lemma_diff_of_offsets, lemma_offset_advance};
use vstd::prelude::*;

verus! {

/// The segments of `segs` are data segments with sequence numbers counting up
/// from `start`.
pub open spec fn in_order(segs: Seq<SegmentView>, start: u32) -> bool {
    forall|i: int|
        0 <= i < segs.len() ==> (#[trigger] segs[i]).cmd == CMD_PUSH && segs[i].sn == advance(
            start,
            i,
        )
}

/// `x` and `y` carry the same payloads under the same fragment indices.
pub open spec fn same_payloads(x: Seq<SegmentView>, y: Seq<SegmentView>) -> bool {
    &&& x.len() == y.len()
    &&& forall|i: int|
        0 <= i < x.len() ==> (#[trigger] x[i]).frg == y[i].frg && x[i].data == y[i].data
}

/// The receive side of `after` is that of `before` with `segs` delivered: in
/// the queue for the application behind what was there, nothing held back,
/// and the next expected number moved on. Window and conversation are the
/// same.
pub open spec fn delivered(before: KcpView, after: KcpView, segs: Seq<SegmentView>) -> bool {
    &&& after.rcv_queue == before.rcv_queue + segs
    &&& after.rcv_buf.len() == 0
    &&& after.rcv_nxt == advance(before.rcv_nxt, segs.len() as int)
    &&& after.rcv_wnd == before.rcv_wnd
    &&& after.conv == before.conv
}

/// The engine has nothing held back and room for `n` more segments in the
/// queue for the application.
pub open spec fn has_room(b: KcpView, n: int) -> bool {
    &&& b.rcv_buf.len() == 0
    &&& b.rcv_queue.len() + n <= b.rcv_wnd
    &&& b.rcv_wnd < 0x8000_0000
}

impl KcpView {
    /// The engine after each of `frames` arrived in order.
    pub open spec fn input_all(self, frames: Seq<Seq<u8>>) -> KcpView
        decreases frames.len(),
    {
        if frames.len() == 0 {
            self
        } else {
            self.input_all(frames.drop_last()).input(frames.last()).0
        }
    }
}

/// A data segment that is next in order goes straight to the queue for the
/// application.
pub proof fn lemma_accept_push(b: KcpView, seg: SegmentView)
    requires
        seg.cmd == CMD_PUSH,
        seg.sn == b.rcv_nxt,
        has_room(b, 1),
    ensures
        delivered(b, b.on_segment(seg), seq![seg]),
{
    reveal(KcpView::on_segment);
    let s = (KcpView { rmt_wnd: seg.wnd as u32, ..b }).parse_una(seg.una).shrink_buf();
    let noted = KcpView { acklist: s.acklist.push((seg.sn, seg.ts)), ..s };
    lemma_offset_advance(b.rcv_nxt, b.rcv_wnd as int);
    assert(diff(seg.sn, advance(s.rcv_nxt, s.rcv_wnd as int)) < 0);
    assert(noted.in_rcv_window(seg.sn));
    assert(noted.rcv_buf =~= Seq::<SegmentView>::empty());
    assert(insert_ordered(noted.rcv_buf, seg) == seq![seg]);
    let kept = KcpView { rcv_buf: seq![seg], ..noted };
    let moved = KcpView {
        rcv_queue: kept.rcv_queue.push(seg),
        rcv_buf: kept.rcv_buf.subrange(1, 1),
        rcv_nxt: advance(kept.rcv_nxt, 1),
        ..kept
    };
    assert(kept.drain() == moved.drain());
    assert(moved.drain() == moved);
    assert(b.on_segment(seg) == moved);
    assert(moved.rcv_queue =~= b.rcv_queue + seq![seg]);
}

/// Data segments that are next in order, one after the other, go straight to
/// the queue for the application as long as it has room.
pub proof fn lemma_accept_in_order(b: KcpView, segs: Seq<SegmentView>)
    requires
        in_order(segs, b.rcv_nxt),
        has_room(b, segs.len() as int),
    ensures
        delivered(b, b.accept_all(segs), segs),
    decreases segs.len(),
{
    if segs.len() == 0 {
        assert(b.rcv_queue + segs =~= b.rcv_queue);
    } else {
        let first = segs[0];
        let tail = segs.subrange(1, segs.len() as int);
        assert(first.sn == advance(b.rcv_nxt, 0));
        lemma_accept_push(b, first);
        let next = b.on_segment(first);
        assert forall|i: int| 0 <= i < tail.len() implies (#[trigger] tail[i]).cmd == CMD_PUSH
            && tail[i].sn == advance(next.rcv_nxt, i) by {
            assert(tail[i] == segs[i + 1]);
        }
        lemma_accept_in_order(next, tail);
        assert(b.rcv_queue + seq![first] + tail =~= b.rcv_queue + segs);
    }
}

/// Data segments acknowledge nothing.
pub proof fn lemma_acks_of_data(seen: Option<u32>, segs: Seq<SegmentView>)
    requires
        forall|i: int| 0 <= i < segs.len() ==> (#[trigger] segs[i]).cmd == CMD_PUSH,
    ensures
        acks_of(seen, segs) == seen,
    decreases segs.len(),
{
    if segs.len() > 0 {
        let tail = segs.subrange(1, segs.len() as int);
        assert(segs[0].cmd == CMD_PUSH);
        assert forall|i: int| 0 <= i < tail.len() implies (#[trigger] tail[i]).cmd == CMD_PUSH by {
            assert(tail[i] == segs[i + 1]);
        }
        lemma_acks_of_data(crate::model::ack::next_ack(seen, segs[0]), tail);
    }
}

/// A datagram of data segments that are next in order is taken in whole and
/// delivered.
pub proof fn lemma_input_in_order(b: KcpView, run: Seq<SegmentView>)
    requires
        run.len() > 0,
        forall|i: int| 0 <= i < run.len() ==> acceptable(b.conv, #[trigger] run[i]),
        in_order(run, b.rcv_nxt),
        has_room(b, run.len() as int),
    ensures
        b.input(encode_all(run)).1 == 0,
        delivered(b, b.input(encode_all(run)).0, wires(run)),
{
    lemma_input_encoded(b, run);
    let sent = wires(run);
    assert forall|i: int| 0 <= i < sent.len() implies (#[trigger] sent[i]).cmd == CMD_PUSH
        && sent[i].sn == advance(b.rcv_nxt, i) by {
        assert(run[i].cmd == CMD_PUSH);
    }
    lemma_accept_in_order(b, sent);
    lemma_acks_of_data(None, sent);
}

/// Datagrams of data segments that are next in order, one datagram after the
/// other, are all taken in whole and delivered.
pub proof fn lemma_input_all_in_order(b: KcpView, runs: Seq<Seq<SegmentView>>)
    requires
        forall|r: int| 0 <= r < runs.len() ==> (#[trigger] runs[r]).len() > 0,
        forall|i: int|
            0 <= i < flatten(runs).len() ==> acceptable(b.conv, #[trigger] flatten(runs)[i]),
        in_order(flatten(runs), b.rcv_nxt),
        has_room(b, flatten(runs).len() as int),
    ensures
        delivered(
            b,
            b.input_all(runs.map_values(|run: Seq<SegmentView>| encode_all(run))),
            wires(flatten(runs)),
        ),
    decreases runs.len(),
{
    let frames = runs.map_values(|run: Seq<SegmentView>| encode_all(run));
    if runs.len() == 0 {
        assert(b.rcv_queue + wires(flatten(runs)) =~= b.rcv_queue);
    } else {
        let front = runs.drop_last();
        let last = runs.last();
        let all = flatten(runs);
        let done = flatten(front);
        assert(all == done + last);
        assert forall|r: int| 0 <= r < front.len() implies (#[trigger] front[r]).len() > 0 by {
            assert(front[r] == runs[r]);
        }
        assert forall|i: int| 0 <= i < done.len() implies acceptable(b.conv, #[trigger] done[i])
            && done[i].cmd == CMD_PUSH && done[i].sn == advance(b.rcv_nxt, i) by {
            assert(done[i] == all[i]);
        }
        lemma_input_all_in_order(b, front);
        assert(frames.drop_last() =~= front.map_values(|run: Seq<SegmentView>| encode_all(run)));
        let mid = b.input_all(frames.drop_last());
        assert forall|i: int| 0 <= i < last.len() implies acceptable(mid.conv, #[trigger] last[i])
            && last[i].cmd == CMD_PUSH && last[i].sn == advance(mid.rcv_nxt, i) by {
            assert(last[i] == all[done.len() + i]);
        }
        assert(mid.rcv_queue.len() == b.rcv_queue.len() + done.len());
        lemma_input_in_order(mid, last);
        assert(frames.last() == encode_all(last));
        assert(b.rcv_queue + wires(done) + wires(last) =~= b.rcv_queue + wires(all));
    }
}

impl KcpView {
    /// Segment `i` of the send queue as it enters the segments in flight when
    /// the whole queue moves into the window.
    pub open spec fn stamped_at(self, wnd: u16, i: int) -> SegmentView {
        SegmentView {
            conv: self.conv,
            cmd: CMD_PUSH,
            wnd,
            ts: self.current,
            sn: advance(self.snd_nxt, i),
            una: self.rcv_nxt,
            resendts: self.current,
            rto: self.rx_rto,
            fastack: 0,
            xmit: 0,
            ..self.snd_queue[i]
        }
    }

    /// The engine has been updated and has nothing to send but what is in its
    /// send queue: nothing in flight, nothing to acknowledge, no probe pending,
    /// and the remote window is open.
    pub open spec fn idle(self) -> bool {
        &&& self.updated
        &&& self.snd_buf.len() == 0
        &&& self.acklist.len() == 0
        &&& self.probe == 0
        &&& self.rmt_wnd > 0
    }
}

/// Where the window has room for the whole send queue, all of it moves into
/// the window, under sequence numbers counting up from the next to assign.
pub proof fn lemma_promote_all(k: KcpView, wnd: u16, cwnd: u32)
    requires
        cwnd <= 0xffff,
        k.inflight() + k.snd_queue.len() <= cwnd,
    ensures
        k.promote(wnd, cwnd).snd_queue.len() == 0,
        k.promote(wnd, cwnd).snd_buf == k.snd_buf + Seq::new(
            k.snd_queue.len(),
            |i: int| k.stamped_at(wnd, i),
        ),
        k.promote(wnd, cwnd).snd_nxt == advance(k.snd_nxt, k.snd_queue.len() as int),
    decreases k.snd_queue.len(),
{
    let n = k.snd_queue.len();
    let all = Seq::new(n, |i: int| k.stamped_at(wnd, i));
    if n == 0 {
        assert(k.snd_buf + all =~= k.snd_buf);
    } else {
        lemma_offset_advance(k.snd_una, cwnd as int);
        lemma_diff_of_offsets(k.snd_nxt, advance(k.snd_una, cwnd as int), k.snd_una);
        assert(diff(k.snd_nxt, advance(k.snd_una, cwnd as int)) < 0);
        let next = KcpView {
            snd_queue: k.snd_queue.subrange(1, n as int),
            snd_buf: k.snd_buf.push(k.stamped(wnd)),
            snd_nxt: advance(k.snd_nxt, 1),
            ..k
        };
        assert(next.inflight() == k.inflight() + 1);
        lemma_promote_all(next, wnd, cwnd);
        let rest = Seq::new(next.snd_queue.len(), |i: int| next.stamped_at(wnd, i));
        assert forall|i: int| 0 <= i < rest.len() implies rest[i] == all[i + 1] by {
            assert(next.snd_queue[i] == k.snd_queue[i + 1]);
        }
        assert(k.stamped(wnd) == all[0]);
        assert(next.snd_buf + rest =~= k.snd_buf + all);
    }
}

/// Where no segment in flight was ever sent, a flush sends them all.
pub proof fn lemma_sent_fresh(rule: Transmit, buf: Seq<SegmentView>)
    requires
        forall|i: int| 0 <= i < buf.len() ==> (#[trigger] buf[i]).xmit == 0,
    ensures
        rule.sent(buf) == rule.transmit_all(buf),
    decreases buf.len(),
{
    if buf.len() > 0 {
        let front = buf.drop_last();
        assert forall|i: int| 0 <= i < front.len() implies (#[trigger] front[i]).xmit == 0 by {
            assert(front[i] == buf[i]);
        }
        lemma_sent_fresh(rule, front);
        assert(buf.last().xmit == 0);
        assert(rule.sent(buf) =~= rule.transmit_all(buf));
    } else {
        assert(rule.sent(buf) =~= rule.transmit_all(buf));
    }
}

/// The data segments that the flush of an idle engine sends whose window has
/// room for its whole send queue: the queue, under sequence numbers counting
/// up from the next to assign.
pub proof fn lemma_idle_flush_segments(a: KcpView)
    requires
        a.wf(),
        a.idle(),
        a.snd_queue.len() <= a.effective_window(),
    ensures
        a.flush_segments().len() == a.snd_queue.len(),
        in_order(a.flush_segments(), a.snd_nxt),
        same_payloads(a.flush_segments(), a.snd_queue),
        a.flush().0.snd_queue.len() == 0,
{
    let wnd = a.wnd_advertised();
    let probed = (KcpView { acklist: Seq::empty(), ..a }).probe_step();
    let cwnd = probed.effective_window();
    let ready = KcpView { probe: 0, ..probed };
    assert(a.snd_una == a.snd_nxt);
    assert(ready.inflight() == 0);
    lemma_promote_all(ready, wnd, cwnd);
    let promoted = ready.promote(wnd, cwnd);
    let rule = promoted.transmit_rule(wnd);
    let n = a.snd_queue.len();
    let stamped = Seq::new(n, |i: int| ready.stamped_at(wnd, i));
    assert(promoted.snd_buf =~= stamped);
    lemma_sent_fresh(rule, promoted.snd_buf);
    let data = rule.sent(promoted.snd_buf);
    assert(a.ack_segments() =~= Seq::<SegmentView>::empty());
    assert(probed.probe == 0);
    assert(0u32 & 1u32 == 0u32) by (bit_vector);
    assert(0u32 & 2u32 == 0u32) by (bit_vector);
    assert(probed.probe_segments(a.last_ack()) =~= Seq::<SegmentView>::empty());
    assert(a.flush_segments() =~= data);
    assert forall|i: int| 0 <= i < data.len() implies (#[trigger] data[i]).cmd == CMD_PUSH
        && data[i].sn == advance(a.snd_nxt, i) && data[i].frg == a.snd_queue[i].frg
        && data[i].data == a.snd_queue[i].data by {
        assert(data[i] == rule.transmit(stamped[i]));
    }
    crate::model::laws::lemma_promote(ready, wnd, cwnd);
}

/// The lossless hand-over of a send queue. An idle engine whose window has
/// room for its whole send queue, none of whose payloads is longer than a
/// segment may be, flushes. A second engine of the same conversation, which
/// expects the sequence number that the first assigns next, holds nothing
/// back and has room in its queue, takes in the datagrams of that flush in
/// order. Then every datagram is accepted, and the second engine has queued
/// for its application, behind what was queued before, the payloads of the
/// send queue in their order and under their fragment indices.
pub proof fn lemma_hand_over(a: KcpView, b: KcpView)
    requires
        a.wf(),
        a.idle(),
        a.snd_queue.len() <= a.effective_window(),
        fits(a.snd_queue, a.mss as int),
        b.conv == a.conv,
        b.rcv_nxt == a.snd_nxt,
        has_room(b, a.snd_queue.len() as int),
    ensures
        ({
            let after = b.input_all(a.flush().1);
            &&& after.rcv_queue.len() == b.rcv_queue.len() + a.snd_queue.len()
            &&& after.rcv_queue.subrange(0, b.rcv_queue.len() as int) == b.rcv_queue
            &&& same_payloads(
                after.rcv_queue.subrange(b.rcv_queue.len() as int, after.rcv_queue.len() as int),
                a.snd_queue,
            )
            &&& after.rcv_buf.len() == 0
            &&& after.rcv_nxt == advance(b.rcv_nxt, a.snd_queue.len() as int)
            &&& a.flush().0.snd_queue.len() == 0
        }),
{
    let mtu = a.mtu as int;
    let cap = scratch_size(mtu);
    let segs = a.flush_segments();
    lemma_idle_flush_segments(a);
    lemma_flush_segments(a);
    lemma_flush_runs(a);
    let g = Grouping::start().add_all(segs, mtu, cap);
    assert(encode_all(Grouping::start().cur).len() == 0);
    lemma_grouping_flat(Grouping::start(), segs, mtu, cap);
    lemma_grouping_sound(Grouping::start(), segs, a.conv, mtu, cap);
    lemma_flatten_finish(g);
    let runs = g.finish();
    assert(flatten(Grouping::start().groups) =~= Seq::<SegmentView>::empty());
    assert(flatten(runs) =~= segs);
    assert forall|r: int| 0 <= r < runs.len() implies (#[trigger] runs[r]).len() > 0 by {
        if r < g.groups.len() {
            assert(runs[r] == g.groups[r]);
        }
    }
    lemma_input_all_in_order(b, runs);
    let after = b.input_all(a.flush().1);
    let sent = wires(segs);
    assert(after.rcv_queue == b.rcv_queue + sent);
    assert(after.rcv_queue.subrange(0, b.rcv_queue.len() as int) =~= b.rcv_queue);
    assert(after.rcv_queue.subrange(b.rcv_queue.len() as int, after.rcv_queue.len() as int)
        =~= sent);
}

/// Segments with the same payloads under the same fragment indices make the
/// same messages.
pub proof fn lemma_same_message(x: Seq<SegmentView>, y: Seq<SegmentView>)
    requires
        same_payloads(x, y),
    ensures
        message_end(x) == message_end(y),
        payload_of(x) == payload_of(y),
    decreases x.len(),
{
    if x.len() > 0 {
        let xt = x.subrange(1, x.len() as int);
        let yt = y.subrange(1, y.len() as int);
        assert forall|i: int| 0 <= i < xt.len() implies (#[trigger] xt[i]).frg == yt[i].frg
            && xt[i].data == yt[i].data by {
            assert(xt[i] == x[i + 1]);
            assert(yt[i] == y[i + 1]);
        }
        lemma_same_message(xt, yt);
        assert(x[0].frg == y[0].frg);
        let xf = x.drop_last();
        let yf = y.drop_last();
        assert forall|i: int| 0 <= i < xf.len() implies (#[trigger] xf[i]).frg == yf[i].frg
            && xf[i].data == yf[i].data by {
            assert(xf[i] == x[i]);
            assert(yf[i] == y[i]);
        }
        lemma_same_message(xf, yf);
        assert(x.last().data == y.last().data);
    }
}

/// The lossless hand-over of a payload. An idle engine with an empty send
/// queue is given a payload that its window has room for and flushes. A
/// second engine of the same conversation, which expects the sequence number
/// that the first assigns next, holds and has queued nothing and has room for
/// the fragments, takes in the datagrams of that flush in order. Then the
/// second engine hands its application that payload, whole and unchanged.
pub proof fn lemma_hand_over_payload(a: KcpView, b: KcpView, payload: Seq<u8>, room: int)
    requires
        a.wf(),
        a.idle(),
        a.snd_queue.len() == 0,
        0 < payload.len() <= isize::MAX,
        payload.len() <= room,
        fragment_count(payload.len() as int, a.mss as int) <= 255,
        fragment_count(payload.len() as int, a.mss as int) <= a.effective_window(),
        b.conv == a.conv,
        b.rcv_nxt == a.snd_nxt,
        b.rcv_queue.len() == 0,
        has_room(b, fragment_count(payload.len() as int, a.mss as int)),
    ensures
        a.send(payload).1 == 0,
        ({
            let sender = a.send(payload).0;
            let receiver = b.input_all(sender.flush().1);
            &&& receiver.recv(room).1 == payload.len()
            &&& receiver.recv(room).2 == payload
        }),
{
    let mss = a.mss as int;
    let count = fragment_count(payload.len() as int, mss);
    let parts = fragments(payload, mss);
    let sender = a.send(payload).0;
    assert(sender.snd_queue =~= parts);
    crate::model::laws::lemma_send_wf(a, payload);
    assert forall|i: int| 0 <= i < parts.len() implies (#[trigger] parts[i]).data.len() <= mss by {
        lemma_fragment_len(payload, mss, i);
    }
    lemma_hand_over(sender, b);
    let receiver = b.input_all(sender.flush().1);
    assert(receiver.rcv_queue.subrange(0, receiver.rcv_queue.len() as int)
        =~= receiver.rcv_queue);
    lemma_same_message(receiver.rcv_queue, parts);
    lemma_fragments_reassemble(payload, mss);
    assert(receiver.rcv_queue.subrange(0, count) =~= receiver.rcv_queue);
}

} // verus!
