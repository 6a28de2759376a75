//! What holds of every state the engine can reach: each transition of the
//! model keeps [`KcpView::wf`].

use crate::model::ack::{count_skip, drop_acked, remove_sn};
use crate::model::receive::insert_ordered;
use crate::model::{
    ahead, ascending, encodable, fragment, fragment_count, fragments, payload_of, tagged, KcpView,
};
use crate::segment::SegmentView;
use crate::serial::{
    advance, diff, lemma_diff_is_offset, lemma_diff_of_offsets, lemma_offset_advance,
    lemma_offset_rebase, offset,
};
use vstd::prelude::*;

verus! {

/// A fresh engine is well-formed.
pub proof fn lemma_init_wf(conv: u32)
    ensures
        KcpView::init(conv).wf(),
{
}

/// In every well-formed state the oldest unacknowledged sequence number does
/// not lie ahead of the next to assign, and the sequence number of every
/// segment in flight lies between them: not behind the first, behind the
/// second.
pub proof fn lemma_send_window(k: KcpView)
    requires
        k.wf(),
    ensures
        diff(k.snd_nxt, k.snd_una) >= 0,
        forall|i: int|
            0 <= i < k.snd_buf.len() ==> diff(#[trigger] k.snd_buf[i].sn, k.snd_una) >= 0 && diff(
                k.snd_buf[i].sn,
                k.snd_nxt,
            ) < 0,
        forall|i: int, j: int|
            0 <= i < j < k.snd_buf.len() ==> diff(
                #[trigger] k.snd_buf[j].sn,
                #[trigger] k.snd_buf[i].sn,
            ) > 0,
{
    lemma_diff_is_offset(k.snd_nxt, k.snd_una);
    assert forall|i: int| 0 <= i < k.snd_buf.len() implies diff(
        #[trigger] k.snd_buf[i].sn,
        k.snd_una,
    ) >= 0 && diff(k.snd_buf[i].sn, k.snd_nxt) < 0 by {
        assert(ahead(k.snd_buf, k.snd_una, i) < k.inflight());
        lemma_diff_is_offset(k.snd_buf[i].sn, k.snd_una);
        lemma_diff_of_offsets(k.snd_buf[i].sn, k.snd_nxt, k.snd_una);
    }
    assert forall|i: int, j: int| 0 <= i < j < k.snd_buf.len() implies diff(
        #[trigger] k.snd_buf[j].sn,
        #[trigger] k.snd_buf[i].sn,
    ) > 0 by {
        assert(ahead(k.snd_buf, k.snd_una, i) < ahead(k.snd_buf, k.snd_una, j));
        assert(ahead(k.snd_buf, k.snd_una, j) < k.inflight());
        lemma_diff_of_offsets(k.snd_buf[j].sn, k.snd_buf[i].sn, k.snd_una);
    }
}

/// In every well-formed state the segments received ahead of order carry
/// strictly ascending sequence numbers, none behind the next expected one.
pub proof fn lemma_reorder_buffer(k: KcpView)
    requires
        k.wf(),
    ensures
        forall|i: int| 0 <= i < k.rcv_buf.len() ==> diff(#[trigger] k.rcv_buf[i].sn, k.rcv_nxt) >= 0,
        forall|i: int, j: int|
            0 <= i < j < k.rcv_buf.len() ==> diff(
                #[trigger] k.rcv_buf[j].sn,
                #[trigger] k.rcv_buf[i].sn,
            ) > 0,
{
    assert forall|i: int| 0 <= i < k.rcv_buf.len() implies diff(
        #[trigger] k.rcv_buf[i].sn,
        k.rcv_nxt,
    ) >= 0 by {
        assert(ahead(k.rcv_buf, k.rcv_nxt, i) < 0x8000_0000);
        lemma_diff_is_offset(k.rcv_buf[i].sn, k.rcv_nxt);
    }
    assert forall|i: int, j: int| 0 <= i < j < k.rcv_buf.len() implies diff(
        #[trigger] k.rcv_buf[j].sn,
        #[trigger] k.rcv_buf[i].sn,
    ) > 0 by {
        assert(ahead(k.rcv_buf, k.rcv_nxt, i) < ahead(k.rcv_buf, k.rcv_nxt, j));
        assert(ahead(k.rcv_buf, k.rcv_nxt, i) < 0x8000_0000);
        assert(ahead(k.rcv_buf, k.rcv_nxt, j) < 0x8000_0000);
        lemma_diff_of_offsets(k.rcv_buf[j].sn, k.rcv_buf[i].sn, k.rcv_nxt);
    }
}

/// No fragment is longer than a segment may be.
pub proof fn lemma_fragment_len(payload: Seq<u8>, mss: int, i: int)
    requires
        payload.len() > 0,
        mss > 0,
        0 <= i < fragment_count(payload.len() as int, mss),
    ensures
        fragment(payload, mss, fragment_count(payload.len() as int, mss), i).data.len() <= mss,
{
    let len = payload.len() as int;
    let count = fragment_count(len, mss);
    lemma_fragment_bounds(len, mss);
    assert((i + 1) * mss == i * mss + mss) by (nonlinear_arith);
    assert(i * mss <= (count - 1) * mss) by (nonlinear_arith)
        requires
            0 <= i <= count - 1,
            mss > 0,
    ;
    assert(0 <= i * mss) by (nonlinear_arith)
        requires
            0 <= i,
            mss > 0,
    ;
}

/// Submitting a payload keeps the engine well-formed, accepted or not.
pub proof fn lemma_send_wf(k: KcpView, payload: Seq<u8>)
    requires
        k.wf(),
    ensures
        k.send(payload).0.wf(),
{
    let mss = k.mss as int;
    if payload.len() > 0 && fragment_count(payload.len() as int, mss) <= 255 {
        let parts = fragments(payload, mss);
        let queue = k.snd_queue + parts;
        assert forall|i: int| 0 <= i < queue.len() implies (#[trigger] queue[i]).encodable() by {
            if i < k.snd_queue.len() {
                assert(queue[i] == k.snd_queue[i]);
            } else {
                lemma_fragment_len(payload, mss, i - k.snd_queue.len());
            }
        }
    }
}

/// Scheduling a window-inform where at most a window-inform is pending leaves
/// just a window-inform pending.
pub proof fn lemma_ask_tell(probe: u32)
    requires
        probe == 0 || probe == crate::model::ASK_TELL,
    ensures
        probe | crate::model::ASK_TELL == crate::model::ASK_TELL,
{
    assert(0u32 | 2u32 == 2u32) by (bit_vector);
    assert(2u32 | 2u32 == 2u32) by (bit_vector);
}

/// Handing a message to the application keeps the engine well-formed.
pub proof fn lemma_recv_wf(k: KcpView, room: int)
    requires
        k.wf(),
    ensures
        k.recv(room).0.wf(),
{
    if k.rcv_queue.len() > 0 {
        match crate::model::receive::message_end(k.rcv_queue) {
            Some(n) => {
                crate::model::receive::lemma_message_end_bounds(k.rcv_queue);
                crate::model::order::lemma_numbered_rest(k.rcv_queue, k.rcv_nxt, n);
                let cut = KcpView {
                    rcv_queue: k.rcv_queue.subrange(n, k.rcv_queue.len() as int),
                    ..k
                };
                lemma_drain_wf(cut);
                lemma_ask_tell(cut.drain().probe);
            },
            None => {},
        }
    }
}

/// Setting the unit, the mode or the windows keeps the engine well-formed.
pub proof fn lemma_config_wf(
    k: KcpView,
    mtu: int,
    nodelay: int,
    interval: int,
    resend: int,
    nc: int,
    sndwnd: int,
    rcvwnd: int,
)
    requires
        k.wf(),
    ensures
        k.set_mtu(mtu).0.wf(),
        k.no_delay(nodelay, interval, resend, nc).wf(),
        k.wnd_size(sndwnd, rcvwnd).wf(),
{
}

/// The fragments of a payload are one whole message, and joined in order they
/// are the payload again.
pub proof fn lemma_fragments_reassemble(payload: Seq<u8>, mss: int)
    requires
        payload.len() > 0,
        mss > 0,
        fragment_count(payload.len() as int, mss) <= 255,
    ensures
        crate::model::receive::message_end(fragments(payload, mss)) == Some(
            fragment_count(payload.len() as int, mss),
        ),
        payload_of(fragments(payload, mss)) == payload,
{
    let len = payload.len() as int;
    let count = fragment_count(len, mss);
    let parts = fragments(payload, mss);
    lemma_fragment_bounds(len, mss);
    assert forall|j: int| 0 <= j < count - 1 implies parts[j].frg != 0 by {}
    crate::model::receive::lemma_message_end_at(parts, count - 1);
    lemma_fragments_prefix(payload, mss, count);
    assert(parts.subrange(0, count) =~= parts);
    assert(payload.subrange(0, len) =~= payload);
}

/// A payload of `len` bytes fills all its fragments but the last.
pub proof fn lemma_fragment_bounds(len: int, mss: int)
    requires
        0 < len,
        0 < mss,
    ensures
        (fragment_count(len, mss) - 1) * mss < len <= fragment_count(len, mss) * mss,
        fragment_count(len, mss) >= 1,
{
    let count = fragment_count(len, mss);
    if len > mss {
        let x = len + mss - 1;
        vstd::arithmetic::div_mod::lemma_fundamental_div_mod(x, mss);
        vstd::arithmetic::div_mod::lemma_mod_bound(x, mss);
        assert(count == x / mss);
        assert(mss * count == count * mss) by (nonlinear_arith);
        assert((count - 1) * mss == count * mss - mss) by (nonlinear_arith);
        assert(count >= 1) by (nonlinear_arith)
            requires
                count * mss >= len,
                len > 0,
                mss > 0,
        ;
    } else {
        assert(count == 1);
        assert((count - 1) * mss == 0) by (nonlinear_arith)
            requires
                count == 1,
        ;
        assert(count * mss == mss) by (nonlinear_arith)
            requires
                count == 1,
        ;
    }
}

/// The first `i` fragments of a payload, joined, are its first bytes.
proof fn lemma_fragments_prefix(payload: Seq<u8>, mss: int, i: int)
    requires
        payload.len() > 0,
        mss > 0,
        0 <= i <= fragment_count(payload.len() as int, mss),
    ensures
        payload_of(fragments(payload, mss).subrange(0, i)) == payload.subrange(
            0,
            if i * mss < payload.len() {
                i * mss
            } else {
                payload.len() as int
            },
        ),
    decreases i,
{
    let len = payload.len() as int;
    let count = fragment_count(len, mss);
    let parts = fragments(payload, mss);
    lemma_fragment_bounds(len, mss);
    if i == 0 {
        assert(0 * mss == 0) by (nonlinear_arith);
        assert(parts.subrange(0, 0) =~= Seq::empty());
        assert(payload.subrange(0, 0) =~= Seq::<u8>::empty());
    } else {
        lemma_fragments_prefix(payload, mss, i - 1);
        crate::model::receive::lemma_payload_push(parts.subrange(0, i - 1), parts[i - 1]);
        assert(parts.subrange(0, i - 1).push(parts[i - 1]) =~= parts.subrange(0, i));
        assert((i - 1) * mss + mss == i * mss) by (nonlinear_arith);
        assert((i - 1) * mss <= (count - 1) * mss) by (nonlinear_arith)
            requires
                i - 1 <= count - 1,
                mss > 0,
        ;
        let from = (i - 1) * mss;
        let to = if i * mss < len {
            i * mss
        } else {
            len
        };
        assert(parts[i - 1].data == payload.subrange(from, to));
        assert(payload.subrange(0, from) + payload.subrange(from, to) =~= payload.subrange(0, to));
    }
}

/// Delivery in order touches the receive side only.
pub proof fn lemma_drain_keeps(k: KcpView)
    ensures
        k.drain() == (KcpView {
            rcv_queue: k.drain().rcv_queue,
            rcv_buf: k.drain().rcv_buf,
            rcv_nxt: k.drain().rcv_nxt,
            ..k
        }),
    decreases k.rcv_buf.len(),
{
    if k.rcv_buf.len() > 0 && k.rcv_buf[0].sn == k.rcv_nxt && k.rcv_queue.len() < k.rcv_wnd {
        let next = KcpView {
            rcv_queue: k.rcv_queue.push(k.rcv_buf[0]),
            rcv_buf: k.rcv_buf.subrange(1, k.rcv_buf.len() as int),
            rcv_nxt: advance(k.rcv_nxt, 1),
            ..k
        };
        lemma_drain_keeps(next);
    }
}

/// Delivery in order keeps the reorder buffer in order.
pub proof fn lemma_drain_ordered(k: KcpView)
    requires
        k.rcv_buf_ok(),
    ensures
        k.drain().rcv_buf_ok(),
    decreases k.rcv_buf.len(),
{
    if k.rcv_buf.len() > 0 && k.rcv_buf[0].sn == k.rcv_nxt && k.rcv_queue.len() < k.rcv_wnd {
        let buf = k.rcv_buf;
        let rest = buf.subrange(1, buf.len() as int);
        let nxt = advance(k.rcv_nxt, 1);
        let next = KcpView { rcv_queue: k.rcv_queue.push(buf[0]), rcv_buf: rest, rcv_nxt: nxt, ..k };
        lemma_offset_advance(k.rcv_nxt, 1);
        assert(ahead(buf, k.rcv_nxt, 0) == 0);
        assert forall|i: int| 0 <= i < rest.len() implies #[trigger] ahead(rest, nxt, i) == ahead(
            buf,
            k.rcv_nxt,
            i + 1,
        ) - 1 by {
            assert(ahead(buf, k.rcv_nxt, 0) < ahead(buf, k.rcv_nxt, i + 1));
            lemma_offset_rebase(buf[i + 1].sn, nxt, k.rcv_nxt);
        }
        assert forall|i: int, j: int| 0 <= i < j < rest.len() implies #[trigger] ahead(rest, nxt, i)
            < #[trigger] ahead(rest, nxt, j) by {
            assert(ahead(buf, k.rcv_nxt, i + 1) < ahead(buf, k.rcv_nxt, j + 1));
        }
        assert forall|i: int| 0 <= i < rest.len() implies #[trigger] ahead(rest, nxt, i)
            < 0x8000_0000 by {
            assert(ahead(buf, k.rcv_nxt, i + 1) < 0x8000_0000);
        }
        lemma_drain_ordered(next);
    }
}

/// Delivery in order keeps the engine well-formed.
pub proof fn lemma_drain_wf(k: KcpView)
    requires
        k.wf(),
    ensures
        k.drain().wf(),
{
    lemma_drain_keeps(k);
    lemma_drain_ordered(k);
    crate::model::order::lemma_drain_in_order(k);
}

/// Putting a segment in its place keeps a buffer in order, and the segment
/// furthest ahead is then the new one or the one that was.
pub proof fn lemma_insert_ordered(buf: Seq<SegmentView>, seg: SegmentView, base: u32, limit: int)
    requires
        ascending(buf, base, limit),
        offset(seg.sn, base) < limit <= 0x8000_0000,
    ensures
        ascending(insert_ordered(buf, seg), base, limit),
        insert_ordered(buf, seg).len() > 0,
        ahead(insert_ordered(buf, seg), base, insert_ordered(buf, seg).len() - 1) == if buf.len()
            > 0 && ahead(buf, base, buf.len() - 1) > offset(seg.sn, base) {
            ahead(buf, base, buf.len() - 1)
        } else {
            offset(seg.sn, base)
        },
    decreases buf.len(),
{
    let r = insert_ordered(buf, seg);
    if buf.len() == 0 {
        assert(ahead(r, base, 0) == offset(seg.sn, base));
    } else {
        let n = buf.len() - 1;
        let last = buf.last();
        assert(ahead(buf, base, n) < limit);
        lemma_diff_of_offsets(seg.sn, last.sn, base);
        if last.sn == seg.sn {
        } else if diff(seg.sn, last.sn) > 0 {
            assert forall|i: int| 0 <= i < r.len() implies #[trigger] ahead(r, base, i) < limit by {
                if i < buf.len() {
                    assert(ahead(r, base, i) == ahead(buf, base, i));
                }
            }
            assert forall|i: int, j: int| 0 <= i < j < r.len() implies #[trigger] ahead(r, base, i)
                < #[trigger] ahead(r, base, j) by {
                assert(ahead(r, base, i) == ahead(buf, base, i));
                if j < buf.len() {
                    assert(ahead(r, base, j) == ahead(buf, base, j));
                } else {
                    if i < n {
                        assert(ahead(buf, base, i) < ahead(buf, base, n));
                    }
                }
            }
        } else {
            let front = buf.drop_last();
            assert forall|i: int| 0 <= i < front.len() implies #[trigger] ahead(front, base, i)
                == ahead(buf, base, i) by {}
            assert(ascending(front, base, limit)) by {
                assert forall|i: int, j: int| 0 <= i < j < front.len() implies #[trigger] ahead(
                    front,
                    base,
                    i,
                ) < #[trigger] ahead(front, base, j) by {
                    assert(ahead(buf, base, i) < ahead(buf, base, j));
                }
                assert forall|i: int| 0 <= i < front.len() implies #[trigger] ahead(front, base, i)
                    < limit by {
                    assert(ahead(buf, base, i) < limit);
                }
            }
            lemma_insert_ordered(front, seg, base, limit);
            let inner = insert_ordered(front, seg);
            assert(r == inner.push(last));
            let m = inner.len() - 1;
            if front.len() > 0 {
                assert(ahead(buf, base, front.len() - 1) < ahead(buf, base, n));
            }
            assert(ahead(inner, base, m) < ahead(buf, base, n));
            assert forall|i: int| 0 <= i < r.len() implies #[trigger] ahead(r, base, i) < limit by {
                if i < inner.len() {
                    assert(ahead(r, base, i) == ahead(inner, base, i));
                }
            }
            assert forall|i: int, j: int| 0 <= i < j < r.len() implies #[trigger] ahead(r, base, i)
                < #[trigger] ahead(r, base, j) by {
                assert(ahead(r, base, i) == ahead(inner, base, i));
                if j < inner.len() {
                    assert(ahead(r, base, j) == ahead(inner, base, j));
                } else {
                    if i < m {
                        assert(ahead(inner, base, i) < ahead(inner, base, m));
                    }
                }
            }
        }
    }
}

/// An arriving data segment keeps the engine well-formed.
pub proof fn lemma_parse_data_wf(k: KcpView, seg: SegmentView)
    requires
        k.wf(),
    ensures
        k.parse_data(seg).wf(),
{
    if k.in_rcv_window(seg.sn) {
        crate::serial::lemma_diff_nonnegative(seg.sn, k.rcv_nxt);
        lemma_insert_ordered(k.rcv_buf, seg, k.rcv_nxt, 0x8000_0000);
        lemma_drain_wf(KcpView { rcv_buf: insert_ordered(k.rcv_buf, seg), ..k });
    }
}

/// What is acknowledged cumulatively is a run of segments at the front:
/// returns how many.
pub proof fn lemma_drop_acked(buf: Seq<SegmentView>, una: u32) -> (n: int)
    ensures
        0 <= n <= buf.len(),
        drop_acked(buf, una) == buf.subrange(n, buf.len() as int),
    decreases buf.len(),
{
    if buf.len() > 0 && diff(una, buf[0].sn) > 0 {
        let rest = buf.subrange(1, buf.len() as int);
        let m = lemma_drop_acked(rest, una);
        assert(rest.subrange(m, rest.len() as int) =~= buf.subrange(m + 1, buf.len() as int));
        m + 1
    } else {
        assert(buf.subrange(0, buf.len() as int) =~= buf);
        0
    }
}

/// What is acknowledged singly is one segment or none: returns its position,
/// or -1.
pub proof fn lemma_remove_sn(buf: Seq<SegmentView>, sn: u32) -> (i: int)
    ensures
        -1 <= i < buf.len(),
        i == -1 ==> remove_sn(buf, sn) == buf,
        i >= 0 ==> remove_sn(buf, sn) == buf.remove(i) && buf[i].sn == sn,
        forall|j: int| 0 <= j < buf.len() && (j < i || i == -1) ==> buf[j].sn != sn,
    decreases buf.len(),
{
    if buf.len() == 0 {
        -1
    } else if buf[0].sn == sn {
        assert(buf.subrange(1, buf.len() as int) =~= buf.remove(0));
        0
    } else {
        let rest = buf.subrange(1, buf.len() as int);
        let m = lemma_remove_sn(rest, sn);
        assert forall|j: int| 0 <= j < buf.len() && (j < m + 1 || m == -1) implies buf[j].sn
            != sn by {
            if j > 0 {
                assert(rest[j - 1] == buf[j]);
            }
        }
        if m == -1 {
            assert(seq![buf[0]] + rest =~= buf);
            -1
        } else {
            assert(seq![buf[0]] + rest.remove(m) =~= buf.remove(m + 1));
            m + 1
        }
    }
}

/// Once the first `n` segments in flight are gone and the oldest
/// unacknowledged number has followed, the send side is still in order.
pub proof fn lemma_release_front(k: KcpView, n: int)
    requires
        k.snd_window_ok(),
        0 <= n <= k.snd_buf.len(),
    ensures
        (KcpView { snd_buf: k.snd_buf.subrange(n, k.snd_buf.len() as int), ..k }).shrink_buf().snd_window_ok(),
{
    let buf = k.snd_buf;
    let rest = buf.subrange(n, buf.len() as int);
    let after = (KcpView { snd_buf: rest, ..k }).shrink_buf();
    if n == buf.len() {
        assert(after.snd_una == k.snd_nxt);
    } else {
        let una = buf[n].sn;
        assert(after.snd_una == una);
        assert(ahead(buf, k.snd_una, n) < k.inflight());
        lemma_offset_rebase(k.snd_nxt, una, k.snd_una);
        assert forall|i: int| 0 <= i < rest.len() implies #[trigger] ahead(rest, una, i) == ahead(
            buf,
            k.snd_una,
            i + n,
        ) - ahead(buf, k.snd_una, n) by {
            if i > 0 {
                assert(ahead(buf, k.snd_una, n) < ahead(buf, k.snd_una, i + n));
            }
            lemma_offset_rebase(buf[i + n].sn, una, k.snd_una);
        }
        assert forall|i: int| 0 <= i < rest.len() implies #[trigger] ahead(rest, una, i)
            < after.inflight() by {
            assert(ahead(buf, k.snd_una, i + n) < k.inflight());
        }
        assert forall|i: int, j: int| 0 <= i < j < rest.len() implies #[trigger] ahead(rest, una, i)
            < #[trigger] ahead(rest, una, j) by {
            assert(ahead(buf, k.snd_una, i + n) < ahead(buf, k.snd_una, j + n));
        }
    }
}

/// Once the segment in flight at position `i` is gone and the oldest
/// unacknowledged number has followed, the send side is still in order.
pub proof fn lemma_release_one(k: KcpView, i: int)
    requires
        k.snd_window_ok(),
        0 <= i < k.snd_buf.len(),
    ensures
        (KcpView { snd_buf: k.snd_buf.remove(i), ..k }).shrink_buf().snd_window_ok(),
{
    let buf = k.snd_buf;
    if i == 0 {
        assert(buf.remove(0) =~= buf.subrange(1, buf.len() as int));
        lemma_release_front(k, 1);
    } else {
        let rest = buf.remove(i);
        let after = (KcpView { snd_buf: rest, ..k }).shrink_buf();
        assert(rest[0] == buf[0]);
        assert(after.snd_una == k.snd_una);
        assert forall|j: int| 0 <= j < rest.len() implies #[trigger] ahead(rest, k.snd_una, j)
            == ahead(buf, k.snd_una, if j < i {
            j
        } else {
            j + 1
        }) by {}
        assert forall|j: int| 0 <= j < rest.len() implies #[trigger] ahead(rest, k.snd_una, j)
            < k.inflight() by {
            assert(ahead(buf, k.snd_una, if j < i {
                j
            } else {
                j + 1
            }) < k.inflight());
        }
        assert forall|a: int, b: int| 0 <= a < b < rest.len() implies #[trigger] ahead(
            rest,
            k.snd_una,
            a,
        ) < #[trigger] ahead(rest, k.snd_una, b) by {
            let a2 = if a < i {
                a
            } else {
                a + 1
            };
            let b2 = if b < i {
                b
            } else {
                b + 1
            };
            assert(ahead(buf, k.snd_una, a2) < ahead(buf, k.snd_una, b2));
        }
    }
}

/// A cumulative acknowledgement keeps the engine well-formed.
pub proof fn lemma_parse_una_wf(k: KcpView, una: u32)
    requires
        k.wf(),
    ensures
        k.parse_una(una).shrink_buf().wf(),
{
    let n = lemma_drop_acked(k.snd_buf, una);
    lemma_release_front(k, n);
    let rest = k.snd_buf.subrange(n, k.snd_buf.len() as int);
    assert forall|i: int| 0 <= i < rest.len() implies (#[trigger] rest[i]).conv == k.conv
        && rest[i].cmd == crate::segment::CMD_PUSH && rest[i].encodable() by {
        assert(rest[i] == k.snd_buf[i + n]);
    }
}

/// A single acknowledgement keeps the engine well-formed.
pub proof fn lemma_parse_ack_wf(k: KcpView, sn: u32)
    requires
        k.wf(),
    ensures
        k.parse_ack(sn).shrink_buf().wf(),
{
    if diff(sn, k.snd_una) < 0 || diff(sn, k.snd_nxt) >= 0 {
        assert(k.shrink_buf() == k);
    } else {
        let i = lemma_remove_sn(k.snd_buf, sn);
        if i >= 0 {
            lemma_release_one(k, i);
            let rest = k.snd_buf.remove(i);
            assert forall|j: int| 0 <= j < rest.len() implies (#[trigger] rest[j]).conv == k.conv
                && rest[j].cmd == crate::segment::CMD_PUSH && rest[j].encodable() by {
                if j < i {
                    assert(rest[j] == k.snd_buf[j]);
                } else {
                    assert(rest[j] == k.snd_buf[j + 1]);
                }
            }
        } else {
            assert(k.parse_ack(sn).shrink_buf() == k);
        }
    }
}

/// Counting skipping acknowledgements keeps the engine well-formed.
pub proof fn lemma_parse_fastack_wf(k: KcpView, maxack: u32)
    requires
        k.wf(),
    ensures
        k.parse_fastack(maxack).wf(),
{
    let buf = k.snd_buf;
    let counted = buf.map_values(|seg: SegmentView| count_skip(seg, maxack));
    assert forall|i: int| 0 <= i < buf.len() implies #[trigger] ahead(counted, k.snd_una, i)
        == ahead(buf, k.snd_una, i) by {}
    assert forall|i: int| 0 <= i < counted.len() implies #[trigger] ahead(counted, k.snd_una, i)
        < k.inflight() by {
        assert(ahead(buf, k.snd_una, i) < k.inflight());
    }
    assert forall|i: int, j: int| 0 <= i < j < counted.len() implies #[trigger] ahead(
        counted,
        k.snd_una,
        i,
    ) < #[trigger] ahead(counted, k.snd_una, j) by {
        assert(ahead(buf, k.snd_una, i) < ahead(buf, k.snd_una, j));
    }
    assert forall|i: int| 0 <= i < counted.len() implies (#[trigger] counted[i]).conv == k.conv
        && counted[i].cmd == crate::segment::CMD_PUSH && counted[i].encodable() by {
        assert(buf[i].conv == k.conv);
    }
}

/// After a round trip was measured, the retransmission timeout lies between
/// its floor and `RTO_MAX`.
pub proof fn lemma_update_ack_rto(k: KcpView, rtt: u32)
    requires
        k.rx_minrto <= crate::model::RTO_MAX,
    ensures
        k.rx_minrto <= k.update_ack(rtt).rx_rto <= crate::model::RTO_MAX,
        k.update_ack(rtt).rx_minrto == k.rx_minrto,
{
}

/// An accepted segment keeps the engine well-formed.
pub proof fn lemma_on_segment_wf(k: KcpView, seg: SegmentView)
    requires
        k.wf(),
    ensures
        k.on_segment(seg).wf(),
{
    reveal(KcpView::on_segment);
    lemma_ask_tell(k.probe);
    let told = KcpView { rmt_wnd: seg.wnd as u32, ..k };
    lemma_parse_una_wf(told, seg.una);
    let s = told.parse_una(seg.una).shrink_buf();
    if seg.cmd == crate::segment::CMD_ACK {
        let sampled = if diff(s.current, seg.ts) >= 0 {
            s.update_ack(diff(s.current, seg.ts) as u32)
        } else {
            s
        };
        lemma_update_ack_rto(s, diff(s.current, seg.ts) as u32);
        lemma_parse_ack_wf(sampled, seg.sn);
    } else if seg.cmd == crate::segment::CMD_PUSH {
        let noted = KcpView { acklist: s.acklist.push((seg.sn, seg.ts)), ..s };
        lemma_parse_data_wf(noted, seg);
    }
}

/// Working off the segments of a datagram keeps the engine well-formed.
pub proof fn lemma_parse_from_wf(k: KcpView, maxack: Option<u32>, frame: Seq<u8>, pos: int)
    requires
        k.wf(),
    ensures
        k.parse_from(maxack, frame, pos).state.wf(),
    decreases frame.len() - pos,
{
    let rest = frame.subrange(pos, frame.len() as int);
    if pos < 0 || frame.len() - pos < 24 {
    } else if crate::model::ack::verdict(k.conv, rest) != 0 {
    } else {
        let seg = crate::segment::parse(rest);
        lemma_on_segment_wf(k, seg);
        lemma_parse_from_wf(
            k.on_segment(seg),
            crate::model::ack::next_ack(maxack, seg),
            frame,
            pos + 24 + crate::segment::parse_len(rest),
        );
    }
}

/// Moving segments into the window touches the send queue, the segments in
/// flight and the next sequence number only.
pub proof fn lemma_promote_keeps(k: KcpView, wnd: u16, cwnd: u32)
    ensures
        k.promote(wnd, cwnd) == (KcpView {
            snd_queue: k.promote(wnd, cwnd).snd_queue,
            snd_buf: k.promote(wnd, cwnd).snd_buf,
            snd_nxt: k.promote(wnd, cwnd).snd_nxt,
            ..k
        }),
    decreases k.snd_queue.len(),
{
    if k.snd_queue.len() > 0 && diff(k.snd_nxt, advance(k.snd_una, cwnd as int)) < 0 {
        lemma_promote_keeps(
            KcpView {
                snd_queue: k.snd_queue.subrange(1, k.snd_queue.len() as int),
                snd_buf: k.snd_buf.push(k.stamped(wnd)),
                snd_nxt: advance(k.snd_nxt, 1),
                ..k
            },
            wnd,
            cwnd,
        );
    }
}

/// Moving segments into the window keeps the send side in order as long as
/// the window is at most 65535.
pub proof fn lemma_promote(k: KcpView, wnd: u16, cwnd: u32)
    requires
        k.snd_window_ok(),
        tagged(k.snd_buf, k.conv),
        encodable(k.snd_queue),
        cwnd <= 0xffff,
    ensures
        k.promote(wnd, cwnd).snd_window_ok(),
        tagged(k.promote(wnd, cwnd).snd_buf, k.conv),
        encodable(k.promote(wnd, cwnd).snd_queue),
        k.promote(wnd, cwnd) == (KcpView {
            snd_queue: k.promote(wnd, cwnd).snd_queue,
            snd_buf: k.promote(wnd, cwnd).snd_buf,
            snd_nxt: k.promote(wnd, cwnd).snd_nxt,
            ..k
        }),
    decreases k.snd_queue.len(),
{
    lemma_promote_keeps(k, wnd, cwnd);
    if k.snd_queue.len() > 0 && diff(k.snd_nxt, advance(k.snd_una, cwnd as int)) < 0 {
        let seg = k.stamped(wnd);
        let buf = k.snd_buf.push(seg);
        let nxt = advance(k.snd_nxt, 1);
        let next = KcpView {
            snd_queue: k.snd_queue.subrange(1, k.snd_queue.len() as int),
            snd_buf: buf,
            snd_nxt: nxt,
            ..k
        };
        lemma_offset_advance(k.snd_una, cwnd as int);
        lemma_diff_of_offsets(k.snd_nxt, advance(k.snd_una, cwnd as int), k.snd_una);
        assert(k.inflight() < cwnd);
        assert(next.inflight() == k.inflight() + 1);
        assert forall|i: int| 0 <= i < buf.len() implies #[trigger] ahead(buf, k.snd_una, i)
            < next.inflight() by {
            if i < k.snd_buf.len() {
                assert(ahead(buf, k.snd_una, i) == ahead(k.snd_buf, k.snd_una, i));
            }
        }
        assert forall|i: int, j: int| 0 <= i < j < buf.len() implies #[trigger] ahead(
            buf,
            k.snd_una,
            i,
        ) < #[trigger] ahead(buf, k.snd_una, j) by {
            assert(ahead(buf, k.snd_una, i) == ahead(k.snd_buf, k.snd_una, i));
            if j < k.snd_buf.len() {
                assert(ahead(buf, k.snd_una, j) == ahead(k.snd_buf, k.snd_una, j));
            }
        }
        assert(k.snd_queue[0].encodable());
        assert forall|i: int| 0 <= i < buf.len() implies (#[trigger] buf[i]).conv == k.conv
            && buf[i].cmd == crate::segment::CMD_PUSH && buf[i].encodable() by {
            if i < k.snd_buf.len() {
                assert(buf[i] == k.snd_buf[i]);
            }
        }
        assert forall|i: int| 0 <= i < next.snd_queue.len() implies (
        #[trigger] next.snd_queue[i]).encodable() by {
            assert(next.snd_queue[i] == k.snd_queue[i + 1]);
        }
        lemma_promote(next, wnd, cwnd);
    }
}

/// A flush leaves the sequence numbers of the segments in flight alone.
pub proof fn lemma_transmit_ordered(
    rule: crate::model::flush::Transmit,
    buf: Seq<SegmentView>,
    base: u32,
    limit: int,
)
    requires
        ascending(buf, base, limit),
    ensures
        ascending(rule.transmit_all(buf), base, limit),
{
    let sent = rule.transmit_all(buf);
    assert forall|i: int| 0 <= i < buf.len() implies #[trigger] ahead(sent, base, i) == ahead(
        buf,
        base,
        i,
    ) by {}
    assert forall|i: int| 0 <= i < sent.len() implies #[trigger] ahead(sent, base, i) < limit by {
        assert(ahead(buf, base, i) < limit);
    }
    assert forall|i: int, j: int| 0 <= i < j < sent.len() implies #[trigger] ahead(sent, base, i)
        < #[trigger] ahead(sent, base, j) by {
        assert(ahead(buf, base, i) < ahead(buf, base, j));
    }
}

/// A flush keeps the engine well-formed.
pub proof fn lemma_flush_wf(k: KcpView)
    requires
        k.wf(),
    ensures
        k.flush().0.wf(),
{
    if k.updated {
        let wnd = k.wnd_advertised();
        let probed = (KcpView { acklist: Seq::empty(), ..k }).probe_step();
        let cwnd = probed.effective_window();
        let ready = KcpView { probe: 0, ..probed };
        lemma_promote(ready, wnd, cwnd);
        let promoted = ready.promote(wnd, cwnd);
        let rule = promoted.transmit_rule(wnd);
        lemma_transmit_ordered(rule, promoted.snd_buf, promoted.snd_una, promoted.inflight());
        let sent = rule.transmit_all(promoted.snd_buf);
        assert forall|i: int| 0 <= i < sent.len() implies (#[trigger] sent[i]).conv == k.conv
            && sent[i].cmd == crate::segment::CMD_PUSH && sent[i].encodable() by {
            assert(promoted.snd_buf[i].conv == k.conv);
        }
    }
}

/// After a flush of an engine that was updated before, the congestion window
/// is at least 1.
pub proof fn lemma_flush_cwnd(k: KcpView)
    requires
        k.updated,
    ensures
        k.flush().0.cwnd >= 1,
{
}

/// An update keeps the engine well-formed.
pub proof fn lemma_update_wf(k: KcpView, now: u32)
    requires
        k.wf(),
    ensures
        k.update(now).0.wf(),
{
    let s0 = KcpView { current: now, ..k };
    let s1 = if !s0.updated {
        KcpView { updated: true, ts_flush: now, ..s0 }
    } else {
        s0
    };
    let slap = diff(now, s1.ts_flush);
    let resync = slap >= 10000 || slap <= -10000;
    let s2 = if resync {
        KcpView { ts_flush: now, ..s1 }
    } else {
        s1
    };
    if resync || slap >= 0 {
        let next = advance(s2.ts_flush, s2.interval as int);
        let next = if diff(now, next) >= 0 {
            advance(now, s2.interval as int)
        } else {
            next
        };
        lemma_flush_wf(KcpView { ts_flush: next, ..s2 });
    }
}

/// An incoming datagram keeps the engine well-formed, accepted or not.
pub proof fn lemma_input_wf(k: KcpView, frame: Seq<u8>)
    requires
        k.wf(),
    ensures
        k.input(frame).0.wf(),
{
    if frame.len() >= 24 {
        lemma_parse_from_wf(k, None, frame, 0);
        let parsed = k.parse_from(None, frame, 0);
        if parsed.code == 0 {
            match parsed.maxack {
                Some(m) => {
                    lemma_parse_fastack_wf(parsed.state, m);
                },
                None => {},
            }
        }
    }
}

} // verus!
