//! The receive side of the engine: reordering, in-order delivery and
//! reassembly.

use crate::buf::{lemma_write_twice, ByteBuffer};
use crate::kcp::{lemma_views_subrange, views, KCP};
use crate::model::laws::{lemma_drain_wf, lemma_insert_ordered};
use crate::model::receive::{
    insert_ordered, lemma_insert_ordered_split, lemma_message_end_at, lemma_message_end_none,
    lemma_payload_push, message_end,
};
use crate::model::{payload_of, KcpView, ASK_TELL};
use crate::segment::Segment;
use crate::serial::{lemma_diff_nonnegative, sub_u32};
use vstd::prelude::*;

verus! {

/// What a look at the first queued message found.
pub(crate) struct Message {
    /// Whether the message is complete.
    pub found: bool,
    /// How many segments it takes.
    pub count: usize,
    /// Whether its length is beyond `usize`.
    pub huge: bool,
    /// Its length in bytes, unless huge.
    pub size: usize,
}

impl KCP {
    /// Looks for the end of the first queued message and adds up its length.
    pub(crate) fn first_message(&self) -> (m: Message)
        ensures
            m.found == (message_end(self@.rcv_queue) is Some),
            m.found ==> message_end(self@.rcv_queue) == Some(m.count as int) && 0 < m.count
                <= self@.rcv_queue.len(),
            m.found ==> m.huge == (payload_of(self@.rcv_queue.subrange(0, m.count as int)).len()
                > usize::MAX),
            m.found && !m.huge ==> m.size == payload_of(
                self@.rcv_queue.subrange(0, m.count as int),
            ).len(),
    {
        let ghost queue = self@.rcv_queue;
        let n: usize = self.rcv_queue.len();
        let mut size: usize = 0;
        let mut huge: bool = false;
        let mut i: usize = 0;
        assert(queue.subrange(0, 0) =~= Seq::empty());
        while i < n
            invariant
                0 <= i <= n,
                n == queue.len(),
                queue == views(self.rcv_queue@),
                forall|j: int| 0 <= j < i ==> queue[j].frg != 0,
                huge == (payload_of(queue.subrange(0, i as int)).len() > usize::MAX),
                !huge ==> size == payload_of(queue.subrange(0, i as int)).len(),
            decreases n - i,
        {
            let seg = &self.rcv_queue[i];
            let len: usize = seg.data.len();
            proof {
                lemma_payload_push(queue.subrange(0, i as int), queue[i as int]);
                assert(queue.subrange(0, i as int).push(queue[i as int]) =~= queue.subrange(
                    0,
                    i + 1,
                ));
            }
            if !huge {
                if len > usize::MAX - size {
                    huge = true;
                } else {
                    size = size + len;
                }
            }
            if seg.frg == 0 {
                proof {
                    lemma_message_end_at(queue, i as int);
                }
                return Message { found: true, count: i + 1, huge, size };
            }
            i = i + 1;
        }
        proof {
            lemma_message_end_none(queue);
        }
        Message { found: false, count: 0, huge: false, size: 0 }
    }

    /// The length of the first queued message, or -1 if none is complete. A
    /// length beyond the largest result is given as the largest result.
    pub fn peek_size(&self) -> (size: isize)
        requires
            self.wf(),
        ensures
            size == if self@.peek_size() > isize::MAX {
                isize::MAX as int
            } else {
                self@.peek_size()
            },
    {
        let m = self.first_message();
        if !m.found {
            -1
        } else if m.huge || m.size > isize::MAX as usize {
            isize::MAX
        } else {
            m.size as isize
        }
    }

    /// Moves every segment that is next in order from the reorder buffer to
    /// the queue for the application, as long as that queue is shorter than the
    /// receive window.
    pub(crate) fn drain(&mut self)
        requires
            old(self).wf(),
        ensures
            final(self).wf(),
            final(self)@ == old(self)@.drain(),
    {
        proof {
            lemma_drain_wf(self@);
        }
        loop
            invariant
                self@.drain() == old(self)@.drain(),
                self.scratch_ok(),
            ensures
                self@ == old(self)@.drain(),
            decreases self.rcv_buf@.len(),
        {
            if self.rcv_buf.len() == 0 {
                break ;
            }
            if self.rcv_buf[0].sn != self.rcv_nxt || self.rcv_queue.len() >= self.rcv_wnd as usize {
                break ;
            }
            let ghost before = self@;
            match self.rcv_buf.pop_front() {
                Some(seg) => {
                    self.rcv_queue.push_back(seg);
                    self.rcv_nxt = self.rcv_nxt.wrapping_add(1);
                },
                None => {},
            }
            proof {
                assert(self@.rcv_queue =~= before.rcv_queue.push(before.rcv_buf[0]));
                assert(self@.rcv_buf =~= before.rcv_buf.subrange(1, before.rcv_buf.len() as int));
            }
        }
    }

    /// Takes in a data segment: dropped if outside the receive window or a
    /// duplicate, else kept in order; then delivers what is next in order.
    pub(crate) fn parse_data(&mut self, seg: Segment)
        requires
            old(self).wf(),
        ensures
            final(self).wf(),
            final(self)@ == old(self)@.parse_data(seg@),
    {
        let sn: u32 = seg.sn;
        if sub_u32(sn, self.rcv_nxt.wrapping_add(self.rcv_wnd)) >= 0 || sub_u32(sn, self.rcv_nxt)
            < 0 {
            return ;
        }
        let ghost buf = self@.rcv_buf;
        proof {
            lemma_diff_nonnegative(sn, self.rcv_nxt);
            lemma_insert_ordered(buf, seg@, self.rcv_nxt, 0x8000_0000);
        }
        let n: usize = self.rcv_buf.len();
        let mut i: usize = n;
        let mut duplicate: bool = false;
        while i > 0
            invariant_except_break
                !duplicate,
            invariant
                0 <= i <= n,
                n == buf.len(),
                buf == views(self.rcv_buf@),
                sn == seg.sn,
                forall|j: int| i <= j < n ==> buf[j].sn != sn && crate::serial::diff(sn, buf[j].sn)
                    <= 0,
            ensures
                0 <= i <= n,
                duplicate ==> i > 0 && buf[i - 1].sn == sn,
                !duplicate && i > 0 ==> buf[i - 1].sn != sn && crate::serial::diff(sn, buf[i - 1].sn)
                    > 0,
                forall|j: int| i <= j < n ==> buf[j].sn != sn && crate::serial::diff(sn, buf[j].sn)
                    <= 0,
            decreases i,
        {
            let tsn: u32 = self.rcv_buf[i - 1].sn;
            if tsn == sn {
                duplicate = true;
                break ;
            }
            if sub_u32(sn, tsn) > 0 {
                break ;
            }
            i = i - 1;
        }
        proof {
            lemma_insert_ordered_split(buf, seg@, i as int);
            let front = buf.subrange(0, i as int);
            if i > 0 {
                assert(front.last() == buf[i - 1]);
            }
            if duplicate {
                assert(insert_ordered(front, seg@) == front);
                assert(front + buf.subrange(i as int, n as int) =~= buf);
            } else {
                assert(insert_ordered(front, seg@) == front.push(seg@));
                assert(front.push(seg@) + buf.subrange(i as int, n as int) =~= buf.insert(
                    i as int,
                    seg@,
                ));
            }
        }
        if !duplicate {
            self.rcv_buf.insert(i, seg);
            assert(self@.rcv_buf =~= buf.insert(i as int, seg@));
        }
        assert(self@ == (KcpView { rcv_buf: insert_ordered(buf, seg@), ..old(self)@ }));
        self.drain();
    }

    /// Hands the next message to the application: its bytes are written at the
    /// write cursor of `buffer`. Returns the length of the message, or -1 if
    /// nothing is queued, -2 if the first message is not complete yet, -3 if
    /// `buffer` has too little room for it or it is longer than the largest
    /// result, and then changes nothing. Once the message has left, segments
    /// that were held back for want of room move up, and an engine that had no
    /// room before schedules a window-inform.
    pub fn recv(&mut self, buffer: &mut ByteBuffer) -> (code: isize)
        requires
            old(self).wf(),
            old(buffer).wf(),
        ensures
            final(self).wf(),
            final(buffer).wf(),
            final(self)@ == old(self)@.recv(old(buffer)@.room()).0,
            code == old(self)@.recv(old(buffer)@.room()).1,
            code >= 0 ==> final(buffer)@ == old(buffer)@.write(
                old(self)@.recv(old(buffer)@.room()).2,
            ),
            code < 0 ==> final(buffer)@ == old(buffer)@,
    {
        if self.rcv_queue.len() == 0 {
            return -1;
        }
        let m = self.first_message();
        if !m.found {
            return -2;
        }
        let room: usize = buffer.len() - buffer.get_wpos();
        if m.huge || m.size > room || m.size > isize::MAX as usize {
            return -3;
        }
        let recover: bool = self.rcv_queue.len() >= self.rcv_wnd as usize;
        let ghost queue = self@.rcv_queue;
        let ghost start = buffer@;
        let mut i: usize = 0;
        proof {
            assert(queue.subrange(0, 0) =~= Seq::empty());
            assert(start.write(Seq::empty()).data =~= start.data);
            assert(queue.subrange(0, queue.len() as int) =~= queue);
        }
        while i < m.count
            invariant
                0 <= i <= m.count <= queue.len(),
                start.wf(),
                buffer.wf(),
                payload_of(queue.subrange(0, m.count as int)).len() <= start.room(),
                buffer@ == start.write(payload_of(queue.subrange(0, i as int))),
                self@ == (KcpView {
                    rcv_queue: queue.subrange(i as int, queue.len() as int),
                    ..old(self)@
                }),
                self.scratch_ok(),
            decreases m.count - i,
        {
            let ghost done = payload_of(queue.subrange(0, i as int));
            proof {
                lemma_payload_push(queue.subrange(0, i as int), queue[i as int]);
                assert(queue.subrange(0, i as int).push(queue[i as int]) =~= queue.subrange(
                    0,
                    i + 1,
                ));
                lemma_payload_prefix(queue, i + 1, m.count as int);
                lemma_write_twice(start, done, queue[i as int].data);
                assert(views(self.rcv_queue@).len() == self.rcv_queue@.len());
                assert(views(self.rcv_queue@)[0] == queue[i as int]);
            }
            let ghost held = self.rcv_queue@;
            match self.rcv_queue.pop_front() {
                Some(seg) => {
                    let _ = buffer.write_bytes(seg.data.as_slice());
                },
                None => {},
            }
            i = i + 1;
            proof {
                lemma_views_subrange(held, 1, held.len() as int);
            }
            assert(self@.rcv_queue =~= queue.subrange(i as int, queue.len() as int));
        }
        proof {
            crate::model::order::lemma_numbered_rest(queue, self.rcv_nxt, m.count as int);
        }
        self.drain();
        proof {
            crate::model::laws::lemma_ask_tell(self.probe);
        }
        if recover && self.rcv_queue.len() < self.rcv_wnd as usize {
            self.probe = self.probe | ASK_TELL;
        }
        m.size as isize
    }
}

/// A shorter run of segments has the shorter payload.
proof fn lemma_payload_prefix(queue: Seq<crate::segment::SegmentView>, i: int, n: int)
    requires
        0 <= i <= n <= queue.len(),
    ensures
        payload_of(queue.subrange(0, i)).len() <= payload_of(queue.subrange(0, n)).len(),
    decreases n - i,
{
    if i < n {
        lemma_payload_prefix(queue, i, n - 1);
        lemma_payload_push(queue.subrange(0, n - 1), queue[n - 1]);
        assert(queue.subrange(0, n - 1).push(queue[n - 1]) =~= queue.subrange(0, n));
    }
}

} // verus!
