//! Laws about the windows: what is taken in and what is dropped at the edge
//! of the receive window, what a cumulative acknowledgement releases, and what
//! a flush does while the remote window is closed or the link is lost.

use crate::model::ack::drop_acked;
use crate::model::flush::{
    lemma_add_all_none, lemma_add_all_push, lemma_counts, scratch_size, Packing, Transmit,
};
use crate::model::laws::{lemma_drop_acked, lemma_promote};
use crate::model::receive::insert_ordered;
use crate::model::transfer::lemma_sent_tagged;
use crate::model::{ahead, ascending, KcpView, ASK_SEND, ASK_TELL, PROBE_INIT, STATE_DEAD};
use crate::segment::{lemma_encoding_len, SegmentView, CMD_PUSH, CMD_WASK};
use crate::serial::{
    advance, diff, lemma_diff_nonnegative, lemma_diff_of_offsets, lemma_offset_advance, offset,
};
use vstd::prelude::*;

verus! {

/// With a receive window of less than 2^31 segments, a sequence number lies
/// in the window if and only if it lies less than the window ahead of the
/// next expected one.
pub proof fn lemma_in_rcv_window(k: KcpView, sn: u32)
    requires
        k.rcv_wnd < 0x8000_0000,
    ensures
        k.in_rcv_window(sn) <==> offset(sn, k.rcv_nxt) < k.rcv_wnd,
{
    lemma_offset_advance(k.rcv_nxt, k.rcv_wnd as int);
    if diff(sn, k.rcv_nxt) >= 0 {
        lemma_diff_nonnegative(sn, k.rcv_nxt);
        lemma_diff_of_offsets(sn, advance(k.rcv_nxt, k.rcv_wnd as int), k.rcv_nxt);
    }
}

/// The last sequence number of the receive window is taken in; the one behind
/// it is dropped, and the engine stays as it was.
pub proof fn lemma_window_edge(k: KcpView, inside: SegmentView, outside: SegmentView)
    requires
        0 < k.rcv_wnd < 0x8000_0000,
        inside.sn == advance(k.rcv_nxt, k.rcv_wnd - 1),
        outside.sn == advance(k.rcv_nxt, k.rcv_wnd as int),
    ensures
        k.in_rcv_window(inside.sn),
        !k.in_rcv_window(outside.sn),
        k.parse_data(outside) == k,
{
    lemma_in_rcv_window(k, inside.sn);
    lemma_in_rcv_window(k, outside.sn);
    lemma_offset_advance(k.rcv_nxt, k.rcv_wnd - 1);
    lemma_offset_advance(k.rcv_nxt, k.rcv_wnd as int);
}

/// A segment whose sequence number is already held back is discarded: the
/// buffer stays as it was.
pub proof fn lemma_duplicate_discarded(buf: Seq<SegmentView>, seg: SegmentView, base: u32, at: int)
    requires
        ascending(buf, base, 0x8000_0000),
        0 <= at < buf.len(),
        buf[at].sn == seg.sn,
    ensures
        insert_ordered(buf, seg) == buf,
    decreases buf.len(),
{
    let n = buf.len() - 1;
    if buf.last().sn != seg.sn {
        assert(at < n);
        assert(ahead(buf, base, at) < ahead(buf, base, n));
        assert(ahead(buf, base, n) < 0x8000_0000);
        lemma_diff_of_offsets(seg.sn, buf.last().sn, base);
        assert(diff(seg.sn, buf.last().sn) < 0);
        let front = buf.drop_last();
        assert forall|i: int| 0 <= i < front.len() implies #[trigger] ahead(front, base, i)
            == ahead(buf, base, i) by {}
        assert(ascending(front, base, 0x8000_0000)) by {
            assert forall|i: int| 0 <= i < front.len() implies #[trigger] ahead(front, base, i)
                < 0x8000_0000 by {
                assert(ahead(buf, base, i) < 0x8000_0000);
            }
            assert forall|i: int, j: int| 0 <= i < j < front.len() implies #[trigger] ahead(
                front,
                base,
                i,
            ) < #[trigger] ahead(front, base, j) by {
                assert(ahead(buf, base, i) < ahead(buf, base, j));
            }
        }
        lemma_duplicate_discarded(front, seg, base, at);
        assert(front.push(buf.last()) =~= buf);
    }
}

/// A segment whose sequence number is not held back yet is put in: the
/// buffer holds it at the returned position and what it held before around it.
pub proof fn lemma_new_kept(buf: Seq<SegmentView>, seg: SegmentView) -> (at: int)
    requires
        forall|i: int| 0 <= i < buf.len() ==> (#[trigger] buf[i]).sn != seg.sn,
    ensures
        0 <= at <= buf.len(),
        insert_ordered(buf, seg) == buf.insert(at, seg),
    decreases buf.len(),
{
    if buf.len() == 0 {
        assert(seq![seg] =~= buf.insert(0, seg));
        0
    } else if diff(seg.sn, buf.last().sn) > 0 {
        assert(buf.last().sn != seg.sn);
        assert(buf.push(seg) =~= buf.insert(buf.len() as int, seg));
        buf.len() as int
    } else {
        assert(buf.last().sn != seg.sn);
        let front = buf.drop_last();
        assert forall|i: int| 0 <= i < front.len() implies (#[trigger] front[i]).sn != seg.sn by {
            assert(front[i] == buf[i]);
        }
        let at = lemma_new_kept(front, seg);
        assert(front.insert(at, seg).push(buf.last()) =~= buf.insert(at, seg));
        at
    }
}

/// A cumulative acknowledgement from within the send window releases every
/// segment in flight behind it and no other.
pub proof fn lemma_cumulative_ack(k: KcpView, una: u32)
    requires
        k.wf(),
        diff(una, k.snd_una) >= 0,
        diff(una, k.snd_nxt) <= 0,
    ensures
        ({
            let left = k.parse_una(una).snd_buf;
            &&& forall|i: int| 0 <= i < left.len() ==> diff(una, #[trigger] left[i].sn) <= 0
            &&& left == k.snd_buf.subrange(k.snd_buf.len() - left.len(), k.snd_buf.len() as int)
            &&& forall|i: int|
                0 <= i < k.snd_buf.len() - left.len() ==> diff(una, #[trigger] k.snd_buf[i].sn) > 0
        }),
{
    let buf = k.snd_buf;
    let n = lemma_drop_acked(buf, una);
    let left = drop_acked(buf, una);
    lemma_diff_nonnegative(una, k.snd_una);
    lemma_diff_nonnegative(k.snd_nxt, una);
    lemma_release_point(buf, una, n);
    assert forall|i: int| 0 <= i < left.len() implies diff(una, #[trigger] left[i].sn) <= 0 by {
        assert(left[i] == buf[i + n]);
        assert(ahead(buf, k.snd_una, i + n) < k.inflight());
        lemma_diff_of_offsets(una, buf[i + n].sn, k.snd_una);
        if i > 0 {
            assert(ahead(buf, k.snd_una, n) < ahead(buf, k.snd_una, i + n));
            lemma_diff_of_offsets(una, buf[n].sn, k.snd_una);
        }
    }
}

/// Where the cumulative release stops: every segment in front is behind
/// `una`, and the one it stops at is not.
proof fn lemma_release_point(buf: Seq<SegmentView>, una: u32, n: int)
    requires
        0 <= n <= buf.len(),
        drop_acked(buf, una) == buf.subrange(n, buf.len() as int),
    ensures
        forall|i: int| 0 <= i < n ==> diff(una, #[trigger] buf[i].sn) > 0,
        n < buf.len() ==> diff(una, buf[n].sn) <= 0,
    decreases buf.len(),
{
    if buf.len() > 0 && diff(una, buf[0].sn) > 0 {
        let rest = buf.subrange(1, buf.len() as int);
        let m = lemma_drop_acked(rest, una);
        assert(rest.subrange(m, rest.len() as int) =~= buf.subrange(m + 1, buf.len() as int));
        assert(buf.subrange(n, buf.len() as int).len() == buf.subrange(
            m + 1,
            buf.len() as int,
        ).len());
        assert(n == m + 1);
        lemma_release_point(rest, una, m);
        assert forall|i: int| 0 <= i < n implies diff(una, #[trigger] buf[i].sn) > 0 by {
            if i > 0 {
                assert(buf[i] == rest[i - 1]);
            }
        }
        if n < buf.len() {
            assert(buf[n] == rest[m]);
        }
    } else {
        assert(drop_acked(buf, una) == buf);
        assert(buf.subrange(n, buf.len() as int).len() == buf.len());
    }
}

/// While the remote window is closed a flush moves no segment into the
/// window; with nothing in flight it sends no data at all.
pub proof fn lemma_closed_window(k: KcpView)
    requires
        k.wf(),
        k.updated,
        k.rmt_wnd == 0,
    ensures
        k.flush().0.snd_nxt == k.snd_nxt,
        k.flush().0.snd_queue == k.snd_queue,
        k.snd_buf.len() == 0 ==> forall|i: int|
            0 <= i < k.flush_segments().len() ==> (#[trigger] k.flush_segments()[i]).cmd
                != CMD_PUSH,
{
    let wnd = k.wnd_advertised();
    let probed = (KcpView { acklist: Seq::empty(), ..k }).probe_step();
    let ready = KcpView { probe: 0, ..probed };
    assert(probed.effective_window() == 0);
    assert(advance(ready.snd_una, 0) == ready.snd_una);
    assert(diff(ready.snd_nxt, ready.snd_una) >= 0);
    assert(ready.promote(wnd, 0) == ready);
    if k.snd_buf.len() == 0 {
        let rule = ready.transmit_rule(wnd);
        assert(rule.sent(ready.snd_buf) =~= Seq::<SegmentView>::empty());
        let acks = k.ack_segments();
        let probes = probed.probe_segments(k.last_ack());
        let all = k.flush_segments();
        assert(all =~= acks + probes);
        assert forall|i: int| 0 <= i < all.len() implies (#[trigger] all[i]).cmd != CMD_PUSH by {
            if i < acks.len() {
                assert(all[i] == acks[i]);
            } else {
                assert(all[i] == probes[i - acks.len()]);
            }
        }
    }
}

/// While the remote window is closed, the flush at which the probe timer runs
/// out sends a window-ask, and the next wait is half as long again.
pub proof fn lemma_probe_due(k: KcpView)
    requires
        k.wf(),
        k.updated,
        k.rmt_wnd == 0,
        k.probe_wait >= PROBE_INIT,
        diff(k.current, k.ts_probe) >= 0,
    ensures
        exists|i: int|
            0 <= i < k.flush_segments().len() && (#[trigger] k.flush_segments()[i]).cmd == CMD_WASK,
        k.flush().0.probe_wait == if k.probe_wait + k.probe_wait / 2 > crate::model::PROBE_LIMIT {
            crate::model::PROBE_LIMIT as int
        } else {
            k.probe_wait + k.probe_wait / 2
        },
        k.flush().0.ts_probe == advance(k.current, k.flush().0.probe_wait as int),
{
    let wnd = k.wnd_advertised();
    let probed = (KcpView { acklist: Seq::empty(), ..k }).probe_step();
    let ready = KcpView { probe: 0, ..probed };
    let p = k.probe;
    assert((p | 1u32) & 1u32 != 0u32) by (bit_vector);
    assert(probed.probe == k.probe | ASK_SEND);
    lemma_promote(ready, wnd, probed.effective_window());
    let acks = k.ack_segments();
    let probes = probed.probe_segments(k.last_ack());
    let all = k.flush_segments();
    assert(probes.len() > 0);
    assert(probes[0].cmd == CMD_WASK);
    assert(all[acks.len() as int] == probes[0]);
}

/// Unless the remote window is closed and the probe timer has run out, a
/// flush sends no window-ask, and the probe timer runs on as it was set or
/// stands still.
pub proof fn lemma_no_ask_before_due(k: KcpView)
    requires
        k.wf(),
        k.updated,
        !(k.rmt_wnd == 0 && k.probe_wait != 0 && diff(k.current, k.ts_probe) >= 0),
    ensures
        forall|i: int|
            0 <= i < k.flush_segments().len() ==> (#[trigger] k.flush_segments()[i]).cmd != CMD_WASK,
        k.rmt_wnd == 0 && k.probe_wait != 0 ==> k.flush().0.probe_wait == k.probe_wait
            && k.flush().0.ts_probe == k.ts_probe,
        k.rmt_wnd == 0 && k.probe_wait == 0 ==> k.flush().0.probe_wait == PROBE_INIT
            && k.flush().0.ts_probe == advance(k.current, PROBE_INIT as int),
        k.rmt_wnd != 0 ==> k.flush().0.probe_wait == 0 && k.flush().0.ts_probe == 0,
{
    let wnd = k.wnd_advertised();
    let probed = (KcpView { acklist: Seq::empty(), ..k }).probe_step();
    let cwnd = probed.effective_window();
    let ready = KcpView { probe: 0, ..probed };
    let promoted = ready.promote(wnd, cwnd);
    let rule = promoted.transmit_rule(wnd);
    assert(probed.probe == k.probe);
    assert(0u32 & 1u32 == 0u32) by (bit_vector);
    assert(2u32 & 1u32 == 0u32) by (bit_vector);
    lemma_promote(ready, wnd, cwnd);
    lemma_sent_tagged(rule, promoted.snd_buf, k.conv, u32::MAX as int);
    let acks = k.ack_segments();
    let probes = probed.probe_segments(k.last_ack());
    let data = rule.sent(promoted.snd_buf);
    let all = k.flush_segments();
    assert(all == acks + probes + data);
    assert forall|i: int| 0 <= i < all.len() implies (#[trigger] all[i]).cmd != CMD_WASK by {
        if i < acks.len() {
            assert(all[i] == acks[i]);
        } else if i < acks.len() + probes.len() {
            assert(all[i] == probes[i - acks.len()]);
        } else {
            assert(all[i] == data[i - acks.len() - probes.len()]);
        }
    }
}

/// While the remote window is closed and nothing is in flight or to be
/// acknowledged, the flush at which the probe timer runs out sends one
/// datagram of 24 bytes, a window-ask of this engine with the window that is
/// left and the next expected number; no probe is pending afterwards, and the
/// next wait is half as long again, up to `PROBE_LIMIT`.
pub proof fn lemma_probe_alone(k: KcpView)
    requires
        k.wf(),
        k.updated,
        k.rmt_wnd == 0,
        k.probe_wait >= PROBE_INIT,
        diff(k.current, k.ts_probe) >= 0,
        k.acklist.len() == 0,
        k.snd_buf.len() == 0,
        k.probe & ASK_TELL == 0,
    ensures
        k.flush().1 == seq![k.control(CMD_WASK, 0, 0).encoding()],
        k.flush().1[0].len() == 24,
        k.control(CMD_WASK, 0, 0).conv == k.conv,
        k.control(CMD_WASK, 0, 0).wnd == k.wnd_advertised(),
        k.control(CMD_WASK, 0, 0).una == k.rcv_nxt,
        k.control(CMD_WASK, 0, 0).data.len() == 0,
        k.flush().0.probe == 0,
        k.flush().0.probe_wait == if k.probe_wait + k.probe_wait / 2 > crate::model::PROBE_LIMIT {
            crate::model::PROBE_LIMIT as int
        } else {
            k.probe_wait + k.probe_wait / 2
        },
        k.flush().0.ts_probe == advance(k.current, k.flush().0.probe_wait as int),
{
    let wnd = k.wnd_advertised();
    let probed = (KcpView { acklist: Seq::empty(), ..k }).probe_step();
    let ready = KcpView { probe: 0, ..probed };
    assert(2u32 & 2u32 != 0u32) by (bit_vector);
    assert(k.probe == 0);
    assert(0u32 | 1u32 == 1u32) by (bit_vector);
    assert(1u32 & 1u32 != 0u32) by (bit_vector);
    assert(1u32 & 2u32 == 0u32) by (bit_vector);
    assert(probed.probe == 1);
    assert(probed.effective_window() == 0);
    assert(advance(ready.snd_una, 0) == ready.snd_una);
    assert(ready.promote(wnd, 0) == ready);
    let ask = k.control(CMD_WASK, 0, 0);
    assert(probed.control(CMD_WASK, 0, 0) == ask);
    lemma_encoding_len(ask);
    let rule = ready.transmit_rule(wnd);
    assert(rule.data_items(ready.snd_buf) =~= Seq::<Seq<u8>>::empty());
    assert(k.ack_items(0) =~= Seq::<Seq<u8>>::empty());
    assert(k.flush_items() =~= seq![ask.encoding()]);
    let mtu = k.mtu as int;
    let cap = scratch_size(mtu);
    lemma_add_all_none(Packing::start(), mtu, cap);
    lemma_add_all_push(Packing::start(), Seq::empty(), ask.encoding(), mtu, cap);
    assert(Seq::<Seq<u8>>::empty().push(ask.encoding()) =~= seq![ask.encoding()]);
    let packed = Packing::start().add_all(k.flush_items(), mtu, cap);
    assert(packed.cur == ask.encoding()) by {
        assert(Seq::<u8>::empty() + ask.encoding() =~= ask.encoding());
    }
    assert(packed.finish() =~= seq![ask.encoding()]);
}

/// While the remote window is closed, nothing is in flight or to be
/// acknowledged and no probe is pending, a flush before the probe timer runs
/// out sends nothing and leaves the timer alone.
pub proof fn lemma_probe_waiting(k: KcpView)
    requires
        k.wf(),
        k.updated,
        k.rmt_wnd == 0,
        k.probe_wait > 0,
        diff(k.current, k.ts_probe) < 0,
        k.acklist.len() == 0,
        k.snd_buf.len() == 0,
        k.probe & ASK_TELL == 0,
    ensures
        k.flush().1.len() == 0,
        k.flush().0.probe == 0,
        k.flush().0.probe_wait == k.probe_wait,
        k.flush().0.ts_probe == k.ts_probe,
{
    let wnd = k.wnd_advertised();
    let probed = (KcpView { acklist: Seq::empty(), ..k }).probe_step();
    let ready = KcpView { probe: 0, ..probed };
    assert(2u32 & 2u32 != 0u32) by (bit_vector);
    assert(k.probe == 0);
    assert(0u32 & 1u32 == 0u32) by (bit_vector);
    assert(0u32 & 2u32 == 0u32) by (bit_vector);
    assert(probed.effective_window() == 0);
    assert(advance(ready.snd_una, 0) == ready.snd_una);
    assert(ready.promote(wnd, 0) == ready);
    let rule = ready.transmit_rule(wnd);
    assert(rule.data_items(ready.snd_buf) =~= Seq::<Seq<u8>>::empty());
    assert(k.ack_items(0) =~= Seq::<Seq<u8>>::empty());
    assert(k.flush_items() =~= Seq::<Seq<u8>>::empty());
    lemma_add_all_none(Packing::start(), k.mtu as int, scratch_size(k.mtu as int));
}

/// With fast retransmission off, a segment that was sent is left alone until
/// its time has come, however often it was skipped.
pub proof fn lemma_fast_resend_off(rule: Transmit, seg: SegmentView)
    requires
        rule.fastresend == 0,
        seg.xmit != 0,
        diff(rule.current, seg.resendts) < 0,
    ensures
        !rule.needs_send(seg),
        rule.transmit(seg) == seg,
{
}

/// With fast retransmission on, a segment that was sent, whose time has not
/// come and that was skipped as often as the threshold says goes out at
/// once: it counts one more transmission and no skip, keeps its timeout and
/// is due again one timeout from now.
pub proof fn lemma_fast_resend_on(rule: Transmit, seg: SegmentView)
    requires
        rule.fastresend > 0,
        seg.fastack >= rule.fastresend,
        seg.xmit != 0,
        diff(rule.current, seg.resendts) < 0,
    ensures
        rule.needs_send(seg),
        rule.transmit(seg) == (SegmentView {
            xmit: crate::serial::saturate(seg.xmit + 1),
            fastack: 0,
            resendts: advance(rule.current, seg.rto as int),
            ts: rule.current,
            wnd: rule.wnd,
            una: rule.una,
            ..seg
        }),
{
}

/// With fast retransmission off, no flush retransmits a segment ahead of
/// its time: every segment in flight that was sent and whose time has not
/// come is after the flush as it was before, and the congestion window is not
/// set for a fast retransmission.
pub proof fn lemma_flush_fast_resend_off(k: KcpView, i: int)
    requires
        k.wf(),
        k.updated,
        k.fastresend == 0,
        0 <= i < k.snd_buf.len(),
        k.snd_buf[i].xmit != 0,
        diff(k.current, k.snd_buf[i].resendts) < 0,
    ensures
        i < k.flush().0.snd_buf.len(),
        k.flush().0.snd_buf[i] == k.snd_buf[i],
{
    let wnd = k.wnd_advertised();
    let probed = (KcpView { acklist: Seq::empty(), ..k }).probe_step();
    let cwnd = probed.effective_window();
    let ready = KcpView { probe: 0, ..probed };
    lemma_promote(ready, wnd, cwnd);
    lemma_promote_prefix(ready, wnd, cwnd);
    let promoted = ready.promote(wnd, cwnd);
    let rule = promoted.transmit_rule(wnd);
    assert(promoted.snd_buf[i] == k.snd_buf[i]);
    lemma_fast_resend_off(rule, k.snd_buf[i]);
    assert(rule.transmit_all(promoted.snd_buf)[i] == rule.transmit(promoted.snd_buf[i]));
}

/// Moving segments into the window leaves the segments in flight in front of
/// the new ones.
proof fn lemma_promote_prefix(k: KcpView, wnd: u16, cwnd: u32)
    ensures
        k.promote(wnd, cwnd).snd_buf.len() >= k.snd_buf.len(),
        forall|i: int|
            0 <= i < k.snd_buf.len() ==> #[trigger] k.promote(wnd, cwnd).snd_buf[i] == k.snd_buf[i],
    decreases k.snd_queue.len(),
{
    if k.snd_queue.len() > 0 && diff(k.snd_nxt, advance(k.snd_una, cwnd as int)) < 0 {
        let next = KcpView {
            snd_queue: k.snd_queue.subrange(1, k.snd_queue.len() as int),
            snd_buf: k.snd_buf.push(k.stamped(wnd)),
            snd_nxt: advance(k.snd_nxt, 1),
            ..k
        };
        lemma_promote_prefix(next, wnd, cwnd);
        assert forall|i: int| 0 <= i < k.snd_buf.len() implies #[trigger] k.promote(
            wnd,
            cwnd,
        ).snd_buf[i] == k.snd_buf[i] by {
            assert(next.snd_buf[i] == k.snd_buf[i]);
        }
    }
}

/// A flush never lowers the count of timeouts, never revives a dead link and
/// never drops a segment that waits to be sent or acknowledged.
pub proof fn lemma_flush_keeps_trying(k: KcpView)
    requires
        k.wf(),
    ensures
        k.flush().0.xmit >= k.xmit,
        k.state == STATE_DEAD ==> k.flush().0.state == STATE_DEAD,
        k.flush().0.wait_snd() == k.wait_snd(),
{
    if k.updated {
        let wnd = k.wnd_advertised();
        let probed = (KcpView { acklist: Seq::empty(), ..k }).probe_step();
        let cwnd = probed.effective_window();
        let ready = KcpView { probe: 0, ..probed };
        lemma_promote(ready, wnd, cwnd);
        lemma_promote_count(ready, wnd, cwnd);
        let promoted = ready.promote(wnd, cwnd);
        lemma_counts(promoted.transmit_rule(wnd), promoted.snd_buf);
    }
}

/// Moving segments into the window neither adds nor drops a segment.
proof fn lemma_promote_count(k: KcpView, wnd: u16, cwnd: u32)
    ensures
        k.promote(wnd, cwnd).wait_snd() == k.wait_snd(),
    decreases k.snd_queue.len(),
{
    if k.snd_queue.len() > 0 && diff(k.snd_nxt, advance(k.snd_una, cwnd as int)) < 0 {
        let next = KcpView {
            snd_queue: k.snd_queue.subrange(1, k.snd_queue.len() as int),
            snd_buf: k.snd_buf.push(k.stamped(wnd)),
            snd_nxt: advance(k.snd_nxt, 1),
            ..k
        };
        lemma_promote_count(next, wnd, cwnd);
    }
}

} // verus!
