//! Delivery in order: what waits for the application carries the sequence
//! numbers right before the next expected one, without a gap and without a
//! repeat, whatever arrives and in whatever order.

use crate::model::ack::{next_ack, verdict};
use crate::model::laws::{lemma_drain_keeps, lemma_promote};
use crate::model::receive::{insert_ordered, message_end};
use crate::model::{numbered, KcpView};
use crate::segment::{parse, parse_len, SegmentView, CMD_PUSH};
use crate::serial::advance;
use vstd::prelude::*;

verus! {

/// A fresh engine delivers in order.
pub proof fn lemma_init_in_order(conv: u32)
    ensures
        KcpView::init(conv).delivers_in_order(),
{
}

/// Moving the segments that are next in order to the queue keeps the queue
/// numbered.
pub proof fn lemma_drain_in_order(k: KcpView)
    requires
        k.delivers_in_order(),
    ensures
        k.drain().delivers_in_order(),
    decreases k.rcv_buf.len(),
{
    if k.rcv_buf.len() > 0 && k.rcv_buf[0].sn == k.rcv_nxt && k.rcv_queue.len() < k.rcv_wnd {
        let queue = k.rcv_queue.push(k.rcv_buf[0]);
        let nxt = advance(k.rcv_nxt, 1);
        let next = KcpView {
            rcv_queue: queue,
            rcv_buf: k.rcv_buf.subrange(1, k.rcv_buf.len() as int),
            rcv_nxt: nxt,
            ..k
        };
        assert forall|i: int| 0 <= i < queue.len() implies (#[trigger] queue[i]).sn as int == (nxt
            - (queue.len() - i)) % 0x1_0000_0000 by {
            if i < k.rcv_queue.len() {
                assert(queue[i] == k.rcv_queue[i]);
            }
        }
        lemma_drain_in_order(next);
    }
}

/// An accepted segment keeps the queue numbered.
pub proof fn lemma_on_segment_in_order(k: KcpView, seg: SegmentView)
    requires
        k.delivers_in_order(),
    ensures
        k.on_segment(seg).delivers_in_order(),
{
    reveal(KcpView::on_segment);
    let s = (KcpView { rmt_wnd: seg.wnd as u32, ..k }).parse_una(seg.una).shrink_buf();
    if seg.cmd == CMD_PUSH {
        let noted = KcpView { acklist: s.acklist.push((seg.sn, seg.ts)), ..s };
        if noted.in_rcv_window(seg.sn) {
            lemma_drain_in_order(KcpView { rcv_buf: insert_ordered(noted.rcv_buf, seg), ..noted });
        }
    }
}

/// Working off the segments of a datagram keeps the queue numbered.
pub proof fn lemma_parse_from_in_order(k: KcpView, maxack: Option<u32>, frame: Seq<u8>, pos: int)
    requires
        k.delivers_in_order(),
    ensures
        k.parse_from(maxack, frame, pos).state.delivers_in_order(),
    decreases frame.len() - pos,
{
    let rest = frame.subrange(pos, frame.len() as int);
    if pos < 0 || frame.len() - pos < 24 {
    } else if verdict(k.conv, rest) != 0 {
    } else {
        let seg = parse(rest);
        lemma_on_segment_in_order(k, seg);
        lemma_parse_from_in_order(
            k.on_segment(seg),
            next_ack(maxack, seg),
            frame,
            pos + 24 + parse_len(rest),
        );
    }
}

/// Whatever datagram arrives, the queue stays numbered: no loss, repeat or
/// reordering on the way can make the engine deliver out of order.
pub proof fn lemma_input_in_order(k: KcpView, frame: Seq<u8>)
    requires
        k.delivers_in_order(),
    ensures
        k.input(frame).0.delivers_in_order(),
{
    if frame.len() >= 24 {
        lemma_parse_from_in_order(k, None, frame, 0);
    }
}

/// What is left of a numbered queue once segments have left at the front is
/// numbered.
pub proof fn lemma_numbered_rest(queue: Seq<SegmentView>, next: u32, n: int)
    requires
        numbered(queue, next),
        0 <= n <= queue.len(),
    ensures
        numbered(queue.subrange(n, queue.len() as int), next),
{
    let rest = queue.subrange(n, queue.len() as int);
    assert forall|i: int| 0 <= i < rest.len() implies (#[trigger] rest[i]).sn as int == (next - (
    rest.len() - i)) % 0x1_0000_0000 by {
        assert(rest[i] == queue[i + n]);
    }
}

/// Handing a message to the application keeps the queue numbered.
pub proof fn lemma_recv_in_order(k: KcpView, room: int)
    requires
        k.delivers_in_order(),
    ensures
        k.recv(room).0.delivers_in_order(),
{
    if k.rcv_queue.len() > 0 {
        match message_end(k.rcv_queue) {
            Some(n) => {
                crate::model::receive::lemma_message_end_bounds(k.rcv_queue);
                let rest = k.rcv_queue.subrange(n, k.rcv_queue.len() as int);
                let cut = KcpView { rcv_queue: rest, ..k };
                lemma_numbered_rest(k.rcv_queue, k.rcv_nxt, n);
                lemma_drain_in_order(cut);
                lemma_drain_keeps(cut);
            },
            None => {},
        }
    }
}

/// A flush and an update leave the queue for the application alone.
pub proof fn lemma_flush_in_order(k: KcpView, now: u32)
    requires
        k.wf(),
        k.delivers_in_order(),
    ensures
        k.flush().0.delivers_in_order(),
        k.update(now).0.delivers_in_order(),
{
    lemma_flush_keeps_queue(k);
    let s0 = KcpView { current: now, ..k };
    let s1 = if !s0.updated {
        KcpView { updated: true, ts_flush: now, ..s0 }
    } else {
        s0
    };
    let slap = crate::serial::diff(now, s1.ts_flush);
    let resync = slap >= 10000 || slap <= -10000;
    let s2 = if resync {
        KcpView { ts_flush: now, ..s1 }
    } else {
        s1
    };
    if resync || slap >= 0 {
        let next = advance(s2.ts_flush, s2.interval as int);
        let next = if crate::serial::diff(now, next) >= 0 {
            advance(now, s2.interval as int)
        } else {
            next
        };
        lemma_flush_keeps_queue(KcpView { ts_flush: next, ..s2 });
    }
}

/// A flush leaves the receive side alone.
pub proof fn lemma_flush_keeps_queue(k: KcpView)
    requires
        k.wf(),
    ensures
        k.flush().0.rcv_queue == k.rcv_queue,
        k.flush().0.rcv_buf == k.rcv_buf,
        k.flush().0.rcv_nxt == k.rcv_nxt,
{
    if k.updated {
        let wnd = k.wnd_advertised();
        let probed = (KcpView { acklist: Seq::empty(), ..k }).probe_step();
        let ready = KcpView { probe: 0, ..probed };
        lemma_promote(ready, wnd, probed.effective_window());
    }
}

/// Submitting a payload and setting the unit, the mode or the windows leave
/// the queue for the application alone.
pub proof fn lemma_settings_in_order(
    k: KcpView,
    payload: Seq<u8>,
    mtu: int,
    nodelay: int,
    interval: int,
    resend: int,
    nc: int,
    sndwnd: int,
    rcvwnd: int,
)
    requires
        k.delivers_in_order(),
    ensures
        k.send(payload).0.delivers_in_order(),
        k.set_mtu(mtu).0.delivers_in_order(),
        k.no_delay(nodelay, interval, resend, nc).delivers_in_order(),
        k.wnd_size(sndwnd, rcvwnd).delivers_in_order(),
{
}

} // verus!
