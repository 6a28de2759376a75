//! The transmission side of the model: what a flush sends and what it does
//! to the engine.

use crate::model::{
    KcpView, ASK_SEND, ASK_TELL, PROBE_INIT, PROBE_LIMIT, STATE_DEAD, THRESH_MIN,
};
use crate::segment::{SegmentView, CMD_ACK, CMD_PUSH, CMD_WASK, CMD_WINS};
use crate::serial::{advance, diff, offset, saturate};
use vstd::prelude::*;

verus! {

/// What a flush needs to know to decide on one segment in flight.
pub ghost struct Transmit {
    /// The clock.
    pub current: u32,
    /// The retransmission timeout of the engine.
    pub rx_rto: u32,
    /// Whether no-delay mode is on.
    pub nodelay: bool,
    /// After how many skipping acknowledgements a segment is retransmitted at
    /// once; 0 turns fast retransmission off.
    pub fastresend: u32,
    /// The window to advertise.
    pub wnd: u16,
    /// The next sequence number expected from the peer.
    pub una: u32,
    /// How many transmissions of one segment declare the link dead.
    pub dead_link: u32,
}

impl Transmit {
    /// What is added to the first timeout of a segment: an eighth of the
    /// retransmission timeout, or nothing in no-delay mode.
    pub open spec fn rtomin(self) -> u32 {
        if self.nodelay {
            0
        } else {
            self.rx_rto / 8
        }
    }

    /// The segment was never sent.
    pub open spec fn is_first(self, seg: SegmentView) -> bool {
        seg.xmit == 0
    }

    /// The segment was sent and its retransmission time has come.
    pub open spec fn is_timeout(self, seg: SegmentView) -> bool {
        seg.xmit != 0 && diff(self.current, seg.resendts) >= 0
    }

    /// The segment was sent, its time has not come, fast retransmission is on
    /// and enough later segments were acknowledged before it.
    pub open spec fn is_fast(self, seg: SegmentView) -> bool {
        seg.xmit != 0 && diff(self.current, seg.resendts) < 0 && self.fastresend > 0
            && seg.fastack >= self.fastresend
    }

    /// The segment goes out in this flush.
    pub open spec fn needs_send(self, seg: SegmentView) -> bool {
        self.is_first(seg) || self.is_timeout(seg) || self.is_fast(seg)
    }

    /// The timeout of a segment whose retransmission time has come: longer by
    /// the timeout of the engine, or by half of it in no-delay mode, and at most
    /// eight times the timeout of the engine.
    pub open spec fn backoff(self, seg: SegmentView) -> u32 {
        let step = if self.nodelay {
            self.rx_rto / 2
        } else {
            self.rx_rto
        };
        if seg.rto + step < 8 * self.rx_rto {
            (seg.rto + step) as u32
        } else {
            saturate(8 * self.rx_rto)
        }
    }

    /// The segment after this flush.
    pub open spec fn transmit(self, seg: SegmentView) -> SegmentView {
        if self.is_first(seg) {
            SegmentView {
                xmit: 1,
                rto: self.rx_rto,
                resendts: advance(advance(self.current, self.rx_rto as int), self.rtomin() as int),
                ts: self.current,
                wnd: self.wnd,
                una: self.una,
                ..seg
            }
        } else if self.is_timeout(seg) {
            SegmentView {
                xmit: saturate(seg.xmit + 1),
                rto: self.backoff(seg),
                resendts: advance(self.current, self.backoff(seg) as int),
                ts: self.current,
                wnd: self.wnd,
                una: self.una,
                ..seg
            }
        } else if self.is_fast(seg) {
            SegmentView {
                xmit: saturate(seg.xmit + 1),
                fastack: 0,
                resendts: advance(self.current, seg.rto as int),
                ts: self.current,
                wnd: self.wnd,
                una: self.una,
                ..seg
            }
        } else {
            seg
        }
    }

    /// The segments of `segs` after this flush.
    pub open spec fn transmit_all(self, segs: Seq<SegmentView>) -> Seq<SegmentView> {
        segs.map_values(|seg: SegmentView| self.transmit(seg))
    }

    /// The segment goes out in this flush for at least the `dead_link`-th time.
    pub open spec fn is_dead(self, seg: SegmentView) -> bool {
        self.needs_send(seg) && self.transmit(seg).xmit >= self.dead_link
    }

    /// The encodings of the segments of `segs` that go out, in order.
    pub open spec fn data_items(self, segs: Seq<SegmentView>) -> Seq<Seq<u8>>
        decreases segs.len(),
    {
        if segs.len() == 0 {
            Seq::empty()
        } else if self.needs_send(segs.last()) {
            self.data_items(segs.drop_last()).push(self.transmit(segs.last()).encoding())
        } else {
            self.data_items(segs.drop_last())
        }
    }

    /// How many segments of `segs` have timed out.
    pub open spec fn timeouts(self, segs: Seq<SegmentView>) -> int
        decreases segs.len(),
    {
        if segs.len() == 0 {
            0
        } else if self.is_timeout(segs.last()) {
            self.timeouts(segs.drop_last()) + 1
        } else {
            self.timeouts(segs.drop_last())
        }
    }

    /// How many segments of `segs` are retransmitted ahead of their time.
    pub open spec fn fast_resends(self, segs: Seq<SegmentView>) -> int
        decreases segs.len(),
    {
        if segs.len() == 0 {
            0
        } else if self.is_fast(segs.last()) {
            self.fast_resends(segs.drop_last()) + 1
        } else {
            self.fast_resends(segs.drop_last())
        }
    }

    /// How many segments of `segs` declare the link dead.
    pub open spec fn dead(self, segs: Seq<SegmentView>) -> int
        decreases segs.len(),
    {
        if segs.len() == 0 {
            0
        } else if self.is_dead(segs.last()) {
            self.dead(segs.drop_last()) + 1
        } else {
            self.dead(segs.drop_last())
        }
    }
}

/// Datagrams under assembly: those that are complete, and the one being
/// filled.
pub ghost struct Packing {
    /// The complete datagrams, oldest first.
    pub frames: Seq<Seq<u8>>,
    /// The content of the scratch area.
    pub cur: Seq<u8>,
}

impl Packing {
    /// Nothing assembled yet.
    pub open spec fn start() -> Packing {
        Packing { frames: Seq::empty(), cur: Seq::empty() }
    }

    /// The state after one encoded segment was added. If it would take the
    /// scratch area beyond `mtu` bytes, what the area holds is first sent off as
    /// a datagram and the area emptied; no empty datagram is sent. A segment
    /// that the scratch area of `cap` bytes cannot take, or whose payload is too
    /// long for the length field, is left out.
    pub open spec fn add(self, item: Seq<u8>, mtu: int, cap: int) -> Packing {
        let room = if self.cur.len() > 0 && self.cur.len() + item.len() > mtu {
            Packing { frames: self.frames.push(self.cur), cur: Seq::empty() }
        } else {
            self
        };
        if item.len() - 24 <= u32::MAX && room.cur.len() + item.len() <= cap {
            Packing { cur: room.cur + item, ..room }
        } else {
            room
        }
    }

    /// The state after each of `items` was added in order.
    #[verifier::opaque]
    pub open spec fn add_all(self, items: Seq<Seq<u8>>, mtu: int, cap: int) -> Packing
        decreases items.len(),
    {
        if items.len() == 0 {
            self
        } else {
            self.add_all(items.drop_last(), mtu, cap).add(items.last(), mtu, cap)
        }
    }

    /// All datagrams, the one being filled included unless it is empty.
    pub open spec fn finish(self) -> Seq<Seq<u8>> {
        if self.cur.len() > 0 {
            self.frames.push(self.cur)
        } else {
            self.frames
        }
    }
}

/// Adding nothing changes nothing.
pub proof fn lemma_add_all_none(p: Packing, mtu: int, cap: int)
    ensures
        p.add_all(Seq::empty(), mtu, cap) == p,
{
    reveal(Packing::add_all);
}

/// Adding one more item is one more step.
pub proof fn lemma_add_all_push(p: Packing, items: Seq<Seq<u8>>, item: Seq<u8>, mtu: int, cap: int)
    ensures
        p.add_all(items.push(item), mtu, cap) == p.add_all(items, mtu, cap).add(item, mtu, cap),
{
    reveal(Packing::add_all);
    assert(items.push(item).drop_last() =~= items);
}

/// Adding two runs of items one after the other is adding them joined.
pub proof fn lemma_add_all_concat(
    p: Packing,
    first: Seq<Seq<u8>>,
    second: Seq<Seq<u8>>,
    mtu: int,
    cap: int,
)
    ensures
        p.add_all(first + second, mtu, cap) == p.add_all(first, mtu, cap).add_all(second, mtu, cap),
    decreases second.len(),
{
    reveal(Packing::add_all);
    if second.len() == 0 {
        assert(first + second =~= first);
    } else {
        lemma_add_all_concat(p, first, second.drop_last(), mtu, cap);
        assert((first + second).drop_last() =~= first + second.drop_last());
    }
}

/// No count of segments is negative.
pub proof fn lemma_counts(rule: Transmit, segs: Seq<SegmentView>)
    ensures
        0 <= rule.timeouts(segs) <= segs.len(),
        0 <= rule.fast_resends(segs) <= segs.len(),
        0 <= rule.dead(segs) <= segs.len(),
    decreases segs.len(),
{
    if segs.len() > 0 {
        lemma_counts(rule, segs.drop_last());
    }
}

/// The size of the scratch area for the unit `mtu`.
pub open spec fn scratch_size(mtu: int) -> int {
    (mtu + 24) * 3
}

impl KcpView {
    /// The receive window that is left: the window less the segments queued for
    /// the application.
    pub open spec fn wnd_unused(self) -> u32 {
        if self.rcv_queue.len() < self.rcv_wnd {
            (self.rcv_wnd - self.rcv_queue.len()) as u32
        } else {
            0
        }
    }

    /// The window to advertise: the low 16 bits of the window that is left.
    pub open spec fn wnd_advertised(self) -> u16 {
        (self.wnd_unused() % 0x1_0000) as u16
    }

    /// A header-only segment of this engine with command `cmd`, sequence number
    /// `sn` and timestamp `ts`.
    pub open spec fn control(self, cmd: u8, sn: u32, ts: u32) -> SegmentView {
        SegmentView {
            conv: self.conv,
            cmd,
            wnd: self.wnd_advertised(),
            ts,
            sn,
            una: self.rcv_nxt,
            ..SegmentView::blank()
        }
    }

    /// The encoded acknowledgements of the first `n` entries of the list.
    pub open spec fn ack_items(self, n: int) -> Seq<Seq<u8>> {
        Seq::new(
            n as nat,
            |i: int| self.control(CMD_ACK, self.acklist[i].0, self.acklist[i].1).encoding(),
        )
    }

    /// Sequence number and timestamp of the last entry of the list to
    /// acknowledge, or zeros. The probes of a flush carry them.
    pub open spec fn last_ack(self) -> (u32, u32) {
        if self.acklist.len() > 0 {
            self.acklist.last()
        } else {
            (0, 0)
        }
    }

    /// The engine after the probe timer was looked at. While the remote window
    /// is closed, the first look starts the timer at `PROBE_INIT`; each time it
    /// runs out, a window-ask is scheduled and the wait grows by half, up to
    /// `PROBE_LIMIT`. An open remote window stops the timer.
    pub open spec fn probe_step(self) -> KcpView {
        if self.rmt_wnd == 0 {
            if self.probe_wait == 0 {
                KcpView {
                    probe_wait: PROBE_INIT,
                    ts_probe: advance(self.current, PROBE_INIT as int),
                    ..self
                }
            } else if diff(self.current, self.ts_probe) >= 0 {
                let base = if self.probe_wait < PROBE_INIT {
                    PROBE_INIT
                } else {
                    self.probe_wait
                };
                let wait = if base + base / 2 > PROBE_LIMIT {
                    PROBE_LIMIT
                } else {
                    (base + base / 2) as u32
                };
                KcpView {
                    probe_wait: wait,
                    ts_probe: advance(self.current, wait as int),
                    probe: self.probe | ASK_SEND,
                    ..self
                }
            } else {
                self
            }
        } else {
            KcpView { ts_probe: 0, probe_wait: 0, ..self }
        }
    }

    /// The encoded probes that are pending: a window-ask, then a
    /// window-inform.
    pub open spec fn probe_items(self, last: (u32, u32)) -> Seq<Seq<u8>> {
        let ask = if self.probe & ASK_SEND != 0 {
            seq![self.control(CMD_WASK, last.0, last.1).encoding()]
        } else {
            Seq::empty()
        };
        let tell = if self.probe & ASK_TELL != 0 {
            seq![self.control(CMD_WINS, last.0, last.1).encoding()]
        } else {
            Seq::empty()
        };
        ask + tell
    }

    /// How many segments may be in flight: the smaller of the send window and
    /// the remote window, and of the congestion window unless congestion control
    /// is off.
    pub open spec fn effective_window(self) -> u32 {
        let wnd = if self.snd_wnd < self.rmt_wnd {
            self.snd_wnd
        } else {
            self.rmt_wnd
        };
        if !self.nocwnd && self.cwnd < wnd {
            self.cwnd
        } else {
            wnd
        }
    }

    /// The first segment of the send queue as it enters the segments in
    /// flight.
    pub open spec fn stamped(self, wnd: u16) -> SegmentView {
        SegmentView {
            conv: self.conv,
            cmd: CMD_PUSH,
            wnd,
            ts: self.current,
            sn: self.snd_nxt,
            una: self.rcv_nxt,
            resendts: self.current,
            rto: self.rx_rto,
            fastack: 0,
            xmit: 0,
            ..self.snd_queue[0]
        }
    }

    /// The engine after segments moved from the send queue to the segments in
    /// flight, each under the next sequence number, for as long as the queue is
    /// not empty and the next sequence number lies behind the oldest
    /// unacknowledged plus `cwnd`.
    pub open spec fn promote(self, wnd: u16, cwnd: u32) -> KcpView
        decreases self.snd_queue.len(),
    {
        if self.snd_queue.len() > 0 && diff(self.snd_nxt, advance(self.snd_una, cwnd as int)) < 0 {
            KcpView {
                snd_queue: self.snd_queue.subrange(1, self.snd_queue.len() as int),
                snd_buf: self.snd_buf.push(self.stamped(wnd)),
                snd_nxt: advance(self.snd_nxt, 1),
                ..self
            }.promote(wnd, cwnd)
        } else {
            self
        }
    }

    /// What this flush decides on each segment in flight by.
    pub open spec fn transmit_rule(self, wnd: u16) -> Transmit {
        Transmit {
            current: self.current,
            rx_rto: self.rx_rto,
            nodelay: self.nodelay,
            fastresend: self.fastresend,
            wnd,
            una: self.rcv_nxt,
            dead_link: self.dead_link,
        }
    }

    /// The engine after the congestion window answered to the flush. A fast
    /// retransmission halves the threshold to half of what is in flight and sets
    /// the window `fastresend` above it; a timeout halves the threshold to half
    /// of the window that was in effect and closes the window to one segment.
    /// The threshold is at least `THRESH_MIN`, the window at least 1.
    pub open spec fn congestion(self, change: bool, lost: bool, cwnd: u32) -> KcpView {
        let halved = if offset(self.snd_nxt, self.snd_una) / 2 < THRESH_MIN {
            THRESH_MIN
        } else {
            (offset(self.snd_nxt, self.snd_una) / 2) as u32
        };
        let s1 = if change {
            KcpView {
                ssthresh: halved,
                cwnd: saturate(halved + self.fastresend),
                incr: saturate(saturate(halved + self.fastresend) * self.mss),
                ..self
            }
        } else {
            self
        };
        let s2 = if lost {
            KcpView {
                ssthresh: if cwnd / 2 < THRESH_MIN {
                    THRESH_MIN
                } else {
                    cwnd / 2
                },
                cwnd: 1,
                incr: s1.mss,
                ..s1
            }
        } else {
            s1
        };
        if s2.cwnd < 1 {
            KcpView { cwnd: 1, incr: s2.mss, ..s2 }
        } else {
            s2
        }
    }

    /// What a flush of an updated engine packs, in order: an encoded
    /// acknowledgement for every entry of the list; the encoded probes that are
    /// pending once the probe timer was looked at; and, after segments moved
    /// from the send queue into the window, the encoding of every segment in
    /// flight that is new, has timed out or was skipped often enough.
    pub open spec fn flush_items(self) -> Seq<Seq<u8>> {
        let wnd = self.wnd_advertised();
        let probed = KcpView { acklist: Seq::empty(), ..self }.probe_step();
        let promoted = KcpView { probe: 0, ..probed }.promote(wnd, probed.effective_window());
        self.ack_items(self.acklist.len() as int) + probed.probe_items(self.last_ack())
            + promoted.transmit_rule(wnd).data_items(promoted.snd_buf)
    }

    /// The engine after a flush that was due: the list to acknowledge is empty,
    /// the probe timer was looked at and no probe is pending, segments have
    /// moved from the send queue into the window, every segment in flight was
    /// decided on, timeouts are counted, a segment sent too often has declared
    /// the link dead, and the congestion window has answered.
    pub open spec fn flushed(self) -> KcpView {
        let wnd = self.wnd_advertised();
        let probed = KcpView { acklist: Seq::empty(), ..self }.probe_step();
        let cwnd = probed.effective_window();
        let promoted = KcpView { probe: 0, ..probed }.promote(wnd, cwnd);
        let rule = promoted.transmit_rule(wnd);
        KcpView {
            snd_buf: rule.transmit_all(promoted.snd_buf),
            xmit: saturate(promoted.xmit + rule.timeouts(promoted.snd_buf)),
            state: if rule.dead(promoted.snd_buf) > 0 {
                STATE_DEAD
            } else {
                promoted.state
            },
            ..promoted
        }.congestion(
            rule.fast_resends(promoted.snd_buf) > 0,
            rule.timeouts(promoted.snd_buf) > 0,
            cwnd,
        )
    }

    /// The engine after a flush, and the datagrams it sends. Before the first
    /// update a flush does nothing. Else the engine is as [`KcpView::flushed`]
    /// says, and what [`KcpView::flush_items`] lists is sent, packed into
    /// datagrams of at most `mtu` bytes.
    pub open spec fn flush(self) -> (KcpView, Seq<Seq<u8>>) {
        if !self.updated {
            (self, Seq::empty())
        } else {
            (
                self.flushed(),
                Packing::start().add_all(
                    self.flush_items(),
                    self.mtu as int,
                    scratch_size(self.mtu as int),
                ).finish(),
            )
        }
    }
}

} // verus!
