//! The receive side of the model: reordering, in-order delivery and
//! reassembly.

use crate::model::{payload_of, KcpView, ASK_TELL};
use crate::segment::SegmentView;
use crate::serial::{advance, diff};
use vstd::prelude::*;

verus! {

/// How many segments the first message of `queue` takes: the position behind
/// the first segment whose fragment index is 0, or nothing if there is no
/// such segment yet.
pub open spec fn message_end(queue: Seq<SegmentView>) -> Option<int>
    decreases queue.len(),
{
    if queue.len() == 0 {
        None
    } else if queue[0].frg == 0 {
        Some(1)
    } else {
        match message_end(queue.subrange(1, queue.len() as int)) {
            Some(n) => Some(n + 1),
            None => None,
        }
    }
}

/// `buf` with `seg` put in its place by sequence number. Looking from the
/// back, a segment with the same sequence number makes `seg` a duplicate that
/// is dropped; the first segment with a smaller one is where `seg` goes
/// behind.
pub open spec fn insert_ordered(buf: Seq<SegmentView>, seg: SegmentView) -> Seq<SegmentView>
    decreases buf.len(),
{
    if buf.len() == 0 {
        seq![seg]
    } else if buf.last().sn == seg.sn {
        buf
    } else if diff(seg.sn, buf.last().sn) > 0 {
        buf.push(seg)
    } else {
        insert_ordered(buf.drop_last(), seg).push(buf.last())
    }
}

/// The first message ends behind the first segment whose fragment index is
/// 0.
pub proof fn lemma_message_end_at(queue: Seq<SegmentView>, i: int)
    requires
        0 <= i < queue.len(),
        queue[i].frg == 0,
        forall|j: int| 0 <= j < i ==> queue[j].frg != 0,
    ensures
        message_end(queue) == Some(i + 1),
    decreases i,
{
    if i > 0 {
        let rest = queue.subrange(1, queue.len() as int);
        assert forall|j: int| 0 <= j < i - 1 implies rest[j].frg != 0 by {
            assert(rest[j] == queue[j + 1]);
        }
        lemma_message_end_at(rest, i - 1);
    }
}

/// A message that ends, ends within the queue.
pub proof fn lemma_message_end_bounds(queue: Seq<SegmentView>)
    ensures
        match message_end(queue) {
            Some(n) => 0 < n <= queue.len(),
            None => true,
        },
    decreases queue.len(),
{
    if queue.len() > 0 && queue[0].frg != 0 {
        lemma_message_end_bounds(queue.subrange(1, queue.len() as int));
    }
}

/// No message ends where no segment has fragment index 0.
pub proof fn lemma_message_end_none(queue: Seq<SegmentView>)
    requires
        forall|j: int| 0 <= j < queue.len() ==> queue[j].frg != 0,
    ensures
        message_end(queue) is None,
    decreases queue.len(),
{
    if queue.len() > 0 {
        let rest = queue.subrange(1, queue.len() as int);
        assert forall|j: int| 0 <= j < rest.len() implies rest[j].frg != 0 by {
            assert(rest[j] == queue[j + 1]);
        }
        lemma_message_end_none(rest);
    }
}

/// One more segment adds its payload at the end.
pub proof fn lemma_payload_push(segs: Seq<SegmentView>, seg: SegmentView)
    ensures
        payload_of(segs.push(seg)) == payload_of(segs) + seg.data,
{
    assert(segs.push(seg).drop_last() =~= segs);
}

/// Skipping the segments behind position `i` that do not take `seg` before
/// them leaves the work to the segments in front of `i`.
pub proof fn lemma_insert_ordered_split(buf: Seq<SegmentView>, seg: SegmentView, i: int)
    requires
        0 <= i <= buf.len(),
        forall|j: int| i <= j < buf.len() ==> buf[j].sn != seg.sn && diff(seg.sn, buf[j].sn) <= 0,
    ensures
        insert_ordered(buf, seg) == insert_ordered(buf.subrange(0, i), seg) + buf.subrange(
            i,
            buf.len() as int,
        ),
    decreases buf.len() - i,
{
    if i == buf.len() {
        assert(buf.subrange(0, i) =~= buf);
        assert(insert_ordered(buf, seg) + buf.subrange(i, buf.len() as int) =~= insert_ordered(
            buf,
            seg,
        ));
    } else {
        let front = buf.drop_last();
        assert forall|j: int| i <= j < front.len() implies front[j].sn != seg.sn && diff(
            seg.sn,
            front[j].sn,
        ) <= 0 by {
            assert(front[j] == buf[j]);
        }
        lemma_insert_ordered_split(front, seg, i);
        assert(front.subrange(0, i) =~= buf.subrange(0, i));
        assert(insert_ordered(buf, seg) == insert_ordered(front, seg).push(buf.last()));
        assert((insert_ordered(buf.subrange(0, i), seg) + front.subrange(
            i,
            front.len() as int,
        )).push(buf.last()) =~= insert_ordered(buf.subrange(0, i), seg) + buf.subrange(
            i,
            buf.len() as int,
        ));
    }
}

impl KcpView {
    /// Whether sequence number `sn` lies in the receive window.
    pub open spec fn in_rcv_window(self, sn: u32) -> bool {
        diff(sn, advance(self.rcv_nxt, self.rcv_wnd as int)) < 0 && diff(sn, self.rcv_nxt) >= 0
    }

    /// The engine after every segment that is next in order was moved from the
    /// reorder buffer to the queue for the application, as long as that queue is
    /// shorter than the receive window.
    pub open spec fn drain(self) -> KcpView
        decreases self.rcv_buf.len(),
    {
        if self.rcv_buf.len() > 0 && self.rcv_buf[0].sn == self.rcv_nxt && self.rcv_queue.len()
            < self.rcv_wnd {
            KcpView {
                rcv_queue: self.rcv_queue.push(self.rcv_buf[0]),
                rcv_buf: self.rcv_buf.subrange(1, self.rcv_buf.len() as int),
                rcv_nxt: advance(self.rcv_nxt, 1),
                ..self
            }.drain()
        } else {
            self
        }
    }

    /// The engine after the data segment `seg` arrived: dropped if outside the
    /// receive window or a duplicate, else kept in order, and what is then next
    /// in order delivered.
    pub open spec fn parse_data(self, seg: SegmentView) -> KcpView {
        if self.in_rcv_window(seg.sn) {
            KcpView { rcv_buf: insert_ordered(self.rcv_buf, seg), ..self }.drain()
        } else {
            self
        }
    }

    /// The engine after the application asked for the next message with room
    /// for `room` bytes, the result code and the bytes handed over: -1 if
    /// nothing is queued, -2 if the first message is not complete, -3 if it is
    /// longer than `room` or than the largest result, each without a change;
    /// else the length of the message, which leaves the queue.
    pub open spec fn recv(self, room: int) -> (KcpView, int, Seq<u8>) {
        if self.rcv_queue.len() == 0 {
            (self, -1, Seq::empty())
        } else {
            match message_end(self.rcv_queue) {
                None => (self, -2, Seq::empty()),
                Some(n) => {
                    let message = payload_of(self.rcv_queue.subrange(0, n));
                    if message.len() > room || message.len() > isize::MAX {
                        (self, -3, Seq::empty())
                    } else {
                        let rest = KcpView {
                            rcv_queue: self.rcv_queue.subrange(n, self.rcv_queue.len() as int),
                            ..self
                        }.drain();
                        let recovered = self.rcv_queue.len() >= self.rcv_wnd
                            && rest.rcv_queue.len() < rest.rcv_wnd;
                        (
                            KcpView {
                                probe: if recovered {
                                    rest.probe | ASK_TELL
                                } else {
                                    rest.probe
                                },
                                ..rest
                            },
                            message.len() as int,
                            message,
                        )
                    }
                },
            }
        }
    }

    /// The length of the first queued message, or -1 if none is complete.
    pub open spec fn peek_size(self) -> int {
        match message_end(self.rcv_queue) {
            None => -1,
            Some(n) => payload_of(self.rcv_queue.subrange(0, n)).len() as int,
        }
    }
}

} // verus!
