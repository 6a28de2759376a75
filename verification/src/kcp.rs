//! The engine.
//!
//! [`KCP`] holds the state of one peer. It performs no I/O: the application
//! submits payloads with [`KCP::send`], passes every datagram it receives to
//! [`KCP::input`], calls [`KCP::update`] on a timer and transmits the
//! datagrams that come back, and reads reassembled payloads with
//! [`KCP::recv`].

use crate::buf::{ByteBuffer, ByteBufferView};
use crate::model::{
    fragment, fragment_count, fragments, KcpView, DEADLINK, INTERVAL, MTU_DEF, MTU_MAX, MTU_MIN,
    RTO_DEF, RTO_MIN, RTO_NDL, THRESH_INIT, WND_RCV, WND_SND,
};
use crate::model::flush::scratch_size;
use crate::model::laws::lemma_fragment_bounds;
use crate::segment::{Segment, SegmentView};
use std::collections::VecDeque;
use vstd::prelude::*;

pub mod receive;
pub mod input;
pub mod output;

verus! {

/// The segments of `segs` as mathematical values.
pub open spec fn views(segs: Seq<Segment>) -> Seq<SegmentView> {
    segs.map_values(|seg: Segment| seg@)
}

/// The values of a part of a sequence are that part of the values.
pub proof fn lemma_views_subrange(segs: Seq<Segment>, from: int, to: int)
    requires
        0 <= from <= to <= segs.len(),
    ensures
        views(segs.subrange(from, to)) == views(segs).subrange(from, to),
{
    assert(views(segs.subrange(from, to)) =~= views(segs).subrange(from, to));
}

/// The values of a sequence with one more segment are the values with one
/// more value.
pub proof fn lemma_views_push(segs: Seq<Segment>, seg: Segment)
    ensures
        views(segs.push(seg)) == views(segs).push(seg@),
{
    assert(views(segs.push(seg)) =~= views(segs).push(seg@));
}

/// The state of one peer.
pub struct KCP {
    conv: u32,
    mtu: u32,
    mss: u32,
    state: u32,
    snd_una: u32,
    snd_nxt: u32,
    rcv_nxt: u32,
    ssthresh: u32,
    rx_rttval: u32,
    rx_srtt: u32,
    rx_rto: u32,
    rx_minrto: u32,
    snd_wnd: u32,
    rcv_wnd: u32,
    rmt_wnd: u32,
    cwnd: u32,
    probe: u32,
    current: u32,
    interval: u32,
    ts_flush: u32,
    xmit: u32,
    nodelay: bool,
    updated: bool,
    ts_probe: u32,
    probe_wait: u32,
    dead_link: u32,
    incr: u32,
    fastresend: u32,
    nocwnd: bool,
    snd_queue: VecDeque<Segment>,
    rcv_queue: VecDeque<Segment>,
    snd_buf: Vec<Segment>,
    rcv_buf: VecDeque<Segment>,
    acklist: Vec<(u32, u32)>,
    buffer: ByteBuffer,
}

impl View for KCP {
    type V = KcpView;

    closed spec fn view(&self) -> KcpView {
        KcpView {
            conv: self.conv,
            mtu: self.mtu,
            mss: self.mss,
            state: self.state,
            snd_una: self.snd_una,
            snd_nxt: self.snd_nxt,
            rcv_nxt: self.rcv_nxt,
            ssthresh: self.ssthresh,
            rx_rttval: self.rx_rttval,
            rx_srtt: self.rx_srtt,
            rx_rto: self.rx_rto,
            rx_minrto: self.rx_minrto,
            snd_wnd: self.snd_wnd,
            rcv_wnd: self.rcv_wnd,
            rmt_wnd: self.rmt_wnd,
            cwnd: self.cwnd,
            probe: self.probe,
            current: self.current,
            interval: self.interval,
            ts_flush: self.ts_flush,
            xmit: self.xmit,
            nodelay: self.nodelay,
            updated: self.updated,
            ts_probe: self.ts_probe,
            probe_wait: self.probe_wait,
            dead_link: self.dead_link,
            incr: self.incr,
            fastresend: self.fastresend,
            nocwnd: self.nocwnd,
            snd_queue: views(self.snd_queue@),
            rcv_queue: views(self.rcv_queue@),
            snd_buf: views(self.snd_buf@),
            rcv_buf: views(self.rcv_buf@),
            acklist: self.acklist@,
        }
    }
}

impl KCP {
    /// The scratch area in which datagrams are assembled.
    pub closed spec fn scratch(&self) -> ByteBufferView {
        self.buffer@
    }

    /// The scratch area is sized for the unit and nothing of it was read.
    pub open spec fn scratch_sized(&self) -> bool {
        &&& self.scratch().wf()
        &&& self.scratch().data.len() == scratch_size(self@.mtu as int)
        &&& self.scratch().rpos == 0
    }

    /// The scratch area is sized for the unit and empty.
    pub open spec fn scratch_ok(&self) -> bool {
        self.scratch_sized() && self.scratch().wpos == 0
    }

    /// What holds of every engine: its state is one the model allows, and its
    /// scratch area is ready. `new` establishes this and every method preserves
    /// it.
    pub open spec fn wf(&self) -> bool {
        self@.wf() && self.scratch_ok()
    }

    /// A fresh engine for conversation `conv`.
    pub fn new(conv: u32) -> (kcp: Self)
        ensures
            kcp.wf(),
            kcp@ == KcpView::init(conv),
    {
        let kcp = KCP {
            conv,
            mtu: MTU_DEF,
            mss: MTU_DEF - 24,
            state: 0,
            snd_una: 0,
            snd_nxt: 0,
            rcv_nxt: 0,
            ssthresh: THRESH_INIT,
            rx_rttval: 0,
            rx_srtt: 0,
            rx_rto: RTO_DEF,
            rx_minrto: RTO_MIN,
            snd_wnd: WND_SND,
            rcv_wnd: WND_RCV,
            rmt_wnd: WND_RCV,
            cwnd: 0,
            probe: 0,
            current: 0,
            interval: INTERVAL,
            ts_flush: INTERVAL,
            xmit: 0,
            nodelay: false,
            updated: false,
            ts_probe: 0,
            probe_wait: 0,
            dead_link: DEADLINK,
            incr: 0,
            fastresend: 0,
            nocwnd: false,
            snd_queue: VecDeque::new(),
            rcv_queue: VecDeque::new(),
            snd_buf: Vec::new(),
            rcv_buf: VecDeque::new(),
            acklist: Vec::new(),
            buffer: ByteBuffer::with_capacity(((MTU_DEF + 24) * 3) as usize),
        };
        assert(kcp@.snd_queue =~= Seq::empty());
        assert(kcp@.rcv_queue =~= Seq::empty());
        assert(kcp@.snd_buf =~= Seq::empty());
        assert(kcp@.rcv_buf =~= Seq::empty());
        kcp
    }

    /// The conversation id.
    pub fn conv(&self) -> (v: u32)
        ensures
            v == self@.conv,
    {
        self.conv
    }

    /// The maximum transmission unit.
    pub fn mtu(&self) -> (v: u32)
        ensures
            v == self@.mtu,
    {
        self.mtu
    }

    /// The maximum segment size.
    pub fn mss(&self) -> (v: u32)
        ensures
            v == self@.mss,
    {
        self.mss
    }

    /// 0 while the link is live, `STATE_DEAD` once a segment was transmitted `dead_link` times.
    pub fn state(&self) -> (v: u32)
        ensures
            v == self@.state,
    {
        self.state
    }

    /// The oldest sequence number sent and not yet acknowledged.
    pub fn snd_una(&self) -> (v: u32)
        ensures
            v == self@.snd_una,
    {
        self.snd_una
    }

    /// The next sequence number to assign.
    pub fn snd_nxt(&self) -> (v: u32)
        ensures
            v == self@.snd_nxt,
    {
        self.snd_nxt
    }

    /// The next sequence number expected from the peer.
    pub fn rcv_nxt(&self) -> (v: u32)
        ensures
            v == self@.rcv_nxt,
    {
        self.rcv_nxt
    }

    /// The slow-start threshold.
    pub fn ssthresh(&self) -> (v: u32)
        ensures
            v == self@.ssthresh,
    {
        self.ssthresh
    }

    /// The smoothed mean deviation of the round-trip time.
    pub fn rx_rttval(&self) -> (v: u32)
        ensures
            v == self@.rx_rttval,
    {
        self.rx_rttval
    }

    /// The smoothed round-trip time.
    pub fn rx_srtt(&self) -> (v: u32)
        ensures
            v == self@.rx_srtt,
    {
        self.rx_srtt
    }

    /// The retransmission timeout.
    pub fn rx_rto(&self) -> (v: u32)
        ensures
            v == self@.rx_rto,
    {
        self.rx_rto
    }

    /// The floor of the retransmission timeout.
    pub fn rx_minrto(&self) -> (v: u32)
        ensures
            v == self@.rx_minrto,
    {
        self.rx_minrto
    }

    /// The send window.
    pub fn snd_wnd(&self) -> (v: u32)
        ensures
            v == self@.snd_wnd,
    {
        self.snd_wnd
    }

    /// The receive window.
    pub fn rcv_wnd(&self) -> (v: u32)
        ensures
            v == self@.rcv_wnd,
    {
        self.rcv_wnd
    }

    /// The window the peer last advertised.
    pub fn rmt_wnd(&self) -> (v: u32)
        ensures
            v == self@.rmt_wnd,
    {
        self.rmt_wnd
    }

    /// The congestion window.
    pub fn cwnd(&self) -> (v: u32)
        ensures
            v == self@.cwnd,
    {
        self.cwnd
    }

    /// The pending window probes.
    pub fn probe(&self) -> (v: u32)
        ensures
            v == self@.probe,
    {
        self.probe
    }

    /// The clock at the last update.
    pub fn current(&self) -> (v: u32)
        ensures
            v == self@.current,
    {
        self.current
    }

    /// The flush period.
    pub fn interval(&self) -> (v: u32)
        ensures
            v == self@.interval,
    {
        self.interval
    }

    /// When the next flush is due.
    pub fn ts_flush(&self) -> (v: u32)
        ensures
            v == self@.ts_flush,
    {
        self.ts_flush
    }

    /// How many retransmissions timeouts have caused.
    pub fn xmit(&self) -> (v: u32)
        ensures
            v == self@.xmit,
    {
        self.xmit
    }

    /// How many transmissions of one segment declare the link dead.
    pub fn dead_link(&self) -> (v: u32)
        ensures
            v == self@.dead_link,
    {
        self.dead_link
    }

    /// The congestion window in bytes.
    pub fn incr(&self) -> (v: u32)
        ensures
            v == self@.incr,
    {
        self.incr
    }

    /// How many segments received ahead of order are held back.
    pub fn rcv_buf_len(&self) -> (n: usize)
        ensures
            n == self@.rcv_buf.len(),
    {
        self.rcv_buf.len()
    }

    /// How many segments received in order wait for the application.
    pub fn rcv_queue_len(&self) -> (n: usize)
        ensures
            n == self@.rcv_queue.len(),
    {
        self.rcv_queue.len()
    }

    /// Submits a payload: the unread bytes of `buffer`. They are cut into
    /// fragments of at most `mss` bytes, which join the send queue; nothing is
    /// transmitted yet. Returns 0 and consumes the bytes, or -1 for an empty
    /// payload, or -2 for one that takes more than 255 fragments, and then
    /// changes nothing.
    pub fn send(&mut self, buffer: &mut ByteBuffer) -> (code: isize)
        requires
            old(self).wf(),
            old(buffer).wf(),
        ensures
            final(self).wf(),
            final(buffer).wf(),
            (final(self)@, code as int) == old(self)@.send(old(buffer)@.unread()),
            code == 0 ==> final(buffer)@ == old(buffer)@.skip(old(buffer)@.unread().len() as int),
            code != 0 ==> final(buffer)@ == old(buffer)@,
    {
        let len: usize = buffer.read_remain();
        if len == 0 {
            return -1;
        }
        let mss: usize = self.mss as usize;
        let count: usize = if len <= mss {
            1
        } else {
            (len - 1) / mss + 1
        };
        proof {
            vstd::arithmetic::div_mod::lemma_div_plus_one(len - 1, mss as int);
        }
        if count > 255 {
            return -2;
        }
        let ghost payload = buffer@.unread();
        let ghost parts = fragments(payload, mss as int);
        proof {
            lemma_fragment_bounds(len as int, mss as int);
        }
        let mut off: usize = 0;
        let mut i: usize = 0;
        while i < count
            invariant
                0 <= i <= count <= 255,
                0 < mss == self.mss,
                0 < len == payload.len(),
                count == fragment_count(len as int, mss as int),
                (count - 1) * mss < len <= count * mss,
                parts == fragments(payload, mss as int),
                payload == old(buffer)@.unread(),
                old(buffer).wf(),
                buffer.wf(),
                i < count ==> off == i * mss,
                i == count ==> off == len,
                buffer@ == old(buffer)@.skip(off as int),
                self@ == (KcpView {
                    snd_queue: old(self)@.snd_queue + parts.subrange(0, i as int),
                    ..old(self)@
                }),
                self.scratch_ok(),
            decreases count - i,
        {
            let ghost before = self@.snd_queue;
            let room: usize = buffer.read_remain();
            let size: usize = if room < mss {
                room
            } else {
                mss
            };
            proof {
                assert((i + 1) * mss == i * mss + mss) by (nonlinear_arith);
                if i + 1 < count {
                    assert((i + 1) * mss <= (count - 1) * mss) by (nonlinear_arith)
                        requires
                            i + 1 <= count - 1,
                            mss > 0,
                    ;
                }
            }
            let mut seg = Segment::new();
            match buffer.read_bytes(size) {
                Ok(bytes) => {
                    assert(bytes@ =~= payload.subrange(off as int, off + size));
                    seg.data = bytes;
                },
                Err(_) => {},
            }
            seg.frg = (count - i - 1) as u8;
            assert(seg@ == fragment(payload, mss as int, count as int, i as int));
            self.snd_queue.push_back(seg);
            off = off + size;
            i = i + 1;
            assert(self@.snd_queue =~= before.push(parts[i - 1]));
            assert(parts.subrange(0, i as int) =~= parts.subrange(0, i - 1).push(parts[i - 1]));
            assert(self@.snd_queue =~= old(self)@.snd_queue + parts.subrange(0, i as int));
        }
        assert(parts.subrange(0, count as int) =~= parts);
        proof {
            crate::model::laws::lemma_send_wf(old(self)@, payload);
        }
        0
    }

    /// Sets the maximum transmission unit. Returns 0, or -1 and changes
    /// nothing unless `MTU_MIN <= mtu <= MTU_MAX`.
    pub fn set_mtu(&mut self, mtu: isize) -> (code: isize)
        requires
            old(self).wf(),
        ensures
            final(self).wf(),
            (final(self)@, code as int) == old(self)@.set_mtu(mtu as int),
    {
        if mtu < MTU_MIN as isize || mtu > MTU_MAX as isize {
            return -1;
        }
        let unit: u32 = mtu as u32;
        self.mtu = unit;
        self.mss = unit - 24;
        self.buffer = ByteBuffer::with_capacity(((unit + 24) * 3) as usize);
        0
    }

    /// Sets the mode, as [`KcpView::no_delay`] says, and returns 0.
    pub fn no_delay(&mut self, nodelay: isize, interval: isize, resend: isize, nc: isize) -> (code:
        isize)
        requires
            old(self).wf(),
        ensures
            final(self).wf(),
            final(self)@ == old(self)@.no_delay(
                nodelay as int,
                interval as int,
                resend as int,
                nc as int,
            ),
            code == 0,
    {
        if nodelay >= 0 {
            self.nodelay = nodelay != 0;
            self.rx_minrto = if nodelay != 0 {
                RTO_NDL
            } else {
                RTO_MIN
            };
        }
        if interval >= 0 {
            self.interval = if interval > 5000 {
                5000
            } else if interval < 10 {
                10
            } else {
                interval as u32
            };
        }
        if resend >= 0 {
            self.fastresend = if resend as i128 > 0xffff_ffff {
                0xffff_ffff
            } else {
                resend as u32
            };
        }
        if nc >= 0 {
            self.nocwnd = nc != 0;
        }
        0
    }

    /// Sets the windows, as [`KcpView::wnd_size`] says, and returns 0.
    pub fn wnd_size(&mut self, sndwnd: isize, rcvwnd: isize) -> (code: isize)
        requires
            old(self).wf(),
        ensures
            final(self).wf(),
            final(self)@ == old(self)@.wnd_size(sndwnd as int, rcvwnd as int),
            code == 0,
    {
        if sndwnd > 0 {
            self.snd_wnd = if sndwnd as i128 > 0xffff_ffff {
                0xffff_ffff
            } else {
                sndwnd as u32
            };
        }
        if rcvwnd > 0 {
            self.rcv_wnd = if rcvwnd as i128 > 0xffff_ffff {
                0xffff_ffff
            } else {
                rcvwnd as u32
            };
        }
        0
    }

    /// How many segments wait to be sent or acknowledged, or the largest
    /// result if they are more.
    pub fn wait_snd(&self) -> (n: isize)
        requires
            self.wf(),
        ensures
            n == if self@.wait_snd() > isize::MAX {
                isize::MAX as int
            } else {
                self@.wait_snd()
            },
    {
        let queued: usize = self.snd_queue.len();
        let flying: usize = self.snd_buf.len();
        if queued > isize::MAX as usize || flying > isize::MAX as usize - queued {
            isize::MAX
        } else {
            (queued + flying) as isize
        }
    }
}

} // verus!
