//! The engine as a mathematical state machine.
//!
//! [`KcpView`] is the state of one peer. Every operation of the engine is a
//! function from states to states here, and the executable engine is proved to
//! compute exactly these functions.

use crate::segment::SegmentView;
use crate::serial::{advance, diff, offset};
use vstd::prelude::*;

pub mod receive;
pub mod ack;
pub mod flush;
pub mod laws;
pub mod transfer;
pub mod handover;
pub mod order;
pub mod window;

verus! {

/// Smallest retransmission timeout in no-delay mode, in milliseconds.
pub const RTO_NDL: u32 = 30;

/// Smallest retransmission timeout in normal mode.
pub const RTO_MIN: u32 = 100;

/// The retransmission timeout before any round trip was measured.
pub const RTO_DEF: u32 = 200;

/// Largest retransmission timeout.
pub const RTO_MAX: u32 = 60000;

/// Probe bit: a window-ask segment is due.
pub const ASK_SEND: u32 = 1;

/// Probe bit: a window-inform segment is due.
pub const ASK_TELL: u32 = 2;

/// Default send window, in segments.
pub const WND_SND: u32 = 32;

/// Default receive window, in segments.
pub const WND_RCV: u32 = 32;

/// Default maximum transmission unit, in bytes.
pub const MTU_DEF: u32 = 1400;

/// Smallest maximum transmission unit that is accepted.
pub const MTU_MIN: u32 = 50;

/// Largest maximum transmission unit that is accepted: the largest for which
/// the size of the scratch area, three times the unit plus a header, is a
/// 32-bit number.
pub const MTU_MAX: u32 = 1431655741;

/// Default flush period, in milliseconds.
pub const INTERVAL: u32 = 100;

/// How many transmissions of one segment declare the link dead.
pub const DEADLINK: u32 = 20;

/// Initial slow-start threshold.
pub const THRESH_INIT: u32 = 2;

/// Smallest slow-start threshold.
pub const THRESH_MIN: u32 = 2;

/// First wait before probing a closed remote window, in milliseconds.
pub const PROBE_INIT: u32 = 7000;

/// Longest wait between two probes of a closed remote window.
pub const PROBE_LIMIT: u32 = 120000;

/// The value of `state` once the link is dead.
pub const STATE_DEAD: u32 = 0xffff_ffff;

/// The state of one peer.
pub ghost struct KcpView {
    /// Conversation id, the same on both peers.
    pub conv: u32,
    /// Maximum transmission unit.
    pub mtu: u32,
    /// Maximum segment size: the unit less the header.
    pub mss: u32,
    /// 0 while the link is live.
    pub state: u32,
    /// The oldest sequence number sent and not yet acknowledged.
    pub snd_una: u32,
    /// The next sequence number to assign.
    pub snd_nxt: u32,
    /// The next sequence number expected from the peer.
    pub rcv_nxt: u32,
    /// Slow-start threshold.
    pub ssthresh: u32,
    /// Smoothed mean deviation of the round-trip time.
    pub rx_rttval: u32,
    /// Smoothed round-trip time.
    pub rx_srtt: u32,
    /// Current retransmission timeout.
    pub rx_rto: u32,
    /// Floor of the retransmission timeout.
    pub rx_minrto: u32,
    /// Send window.
    pub snd_wnd: u32,
    /// Receive window.
    pub rcv_wnd: u32,
    /// The window the peer last advertised.
    pub rmt_wnd: u32,
    /// Congestion window.
    pub cwnd: u32,
    /// Pending window probes, a mask of `ASK_SEND` and `ASK_TELL`.
    pub probe: u32,
    /// The clock at the last update.
    pub current: u32,
    /// Flush period.
    pub interval: u32,
    /// When the next flush is due.
    pub ts_flush: u32,
    /// How many retransmissions timeouts have caused so far.
    pub xmit: u32,
    /// Whether no-delay mode is on.
    pub nodelay: bool,
    /// Whether `update` was ever called.
    pub updated: bool,
    /// When the next probe of a closed remote window is due.
    pub ts_probe: u32,
    /// The current wait between probes; 0 while the remote window is open.
    pub probe_wait: u32,
    /// How many transmissions of one segment declare the link dead.
    pub dead_link: u32,
    /// The congestion window in bytes.
    pub incr: u32,
    /// After how many skipping acknowledgements a segment is retransmitted at
    /// once; 0 turns fast retransmission off.
    pub fastresend: u32,
    /// Whether congestion control is off.
    pub nocwnd: bool,
    /// Segments waiting for room in the window, oldest first.
    pub snd_queue: Seq<SegmentView>,
    /// Segments received in order, waiting for the application.
    pub rcv_queue: Seq<SegmentView>,
    /// Segments in flight, in ascending sequence number.
    pub snd_buf: Seq<SegmentView>,
    /// Segments received ahead of order, in ascending sequence number.
    pub rcv_buf: Seq<SegmentView>,
    /// Sequence number and timestamp of each segment to acknowledge at the
    /// next flush.
    pub acklist: Seq<(u32, u32)>,
}

/// How many fragments a payload of `len` bytes takes with segments of at most
/// `mss` bytes.
pub open spec fn fragment_count(len: int, mss: int) -> int {
    if len <= mss {
        1
    } else {
        (len + mss - 1) / mss
    }
}

/// Fragment number `i` of `count` of `payload`: the fragment index counts
/// down, so that the last fragment carries 0.
pub open spec fn fragment(payload: Seq<u8>, mss: int, count: int, i: int) -> SegmentView {
    let end = if (i + 1) * mss < payload.len() {
        (i + 1) * mss
    } else {
        payload.len() as int
    };
    SegmentView {
        frg: (count - 1 - i) as u8,
        data: payload.subrange(i * mss, end),
        ..SegmentView::blank()
    }
}

/// The fragments that `payload` is cut into, in order.
pub open spec fn fragments(payload: Seq<u8>, mss: int) -> Seq<SegmentView> {
    let count = fragment_count(payload.len() as int, mss);
    Seq::new(count as nat, |i: int| fragment(payload, mss, count, i))
}

/// The payloads of `segs` joined in order.
pub open spec fn payload_of(segs: Seq<SegmentView>) -> Seq<u8>
    decreases segs.len(),
{
    if segs.len() == 0 {
        Seq::empty()
    } else {
        payload_of(segs.drop_last()) + segs.last().data
    }
}

/// The smallest signed distance from `now` to the retransmission time of a
/// segment of `segs`, or the largest 32-bit distance if there is none.
pub open spec fn earliest_resend(segs: Seq<SegmentView>, now: u32) -> int
    decreases segs.len(),
{
    if segs.len() == 0 {
        0x7fff_ffff
    } else {
        let rest = earliest_resend(segs.drop_last(), now);
        let due = diff(segs.last().resendts, now);
        if due < rest {
            due
        } else {
            rest
        }
    }
}

/// How far the sequence number of segment `i` of `buf` lies ahead of `base`.
pub open spec fn ahead(buf: Seq<SegmentView>, base: u32, i: int) -> int {
    offset(buf[i].sn, base)
}

/// The sequence numbers of `buf` lie less than `limit` ahead of `base`, each
/// further ahead than the one before.
pub open spec fn ascending(buf: Seq<SegmentView>, base: u32, limit: int) -> bool {
    &&& forall|i: int| 0 <= i < buf.len() ==> #[trigger] ahead(buf, base, i) < limit
    &&& forall|i: int, j: int|
        0 <= i < j < buf.len() ==> #[trigger] ahead(buf, base, i) < #[trigger] ahead(buf, base, j)
}

/// Every segment of `buf` is a data segment of conversation `conv` whose
/// payload fits the length field.
pub open spec fn tagged(buf: Seq<SegmentView>, conv: u32) -> bool {
    forall|i: int|
        0 <= i < buf.len() ==> (#[trigger] buf[i]).conv == conv && buf[i].cmd
            == crate::segment::CMD_PUSH && buf[i].encodable()
}

/// The segments of `queue` carry consecutive sequence numbers, the last of
/// them the one before `next`.
pub open spec fn numbered(queue: Seq<SegmentView>, next: u32) -> bool {
    forall|i: int|
        0 <= i < queue.len() ==> (#[trigger] queue[i]).sn as int == (next - (queue.len() - i))
            % 0x1_0000_0000
}

/// The payload of every segment of `buf` fits the length field.
pub open spec fn encodable(buf: Seq<SegmentView>) -> bool {
    forall|i: int| 0 <= i < buf.len() ==> (#[trigger] buf[i]).encodable()
}

impl KcpView {
    /// The state of a fresh engine for conversation `conv`.
    pub open spec fn init(conv: u32) -> KcpView {
        KcpView {
            conv,
            mtu: MTU_DEF,
            mss: (MTU_DEF - 24) as u32,
            state: 0,
            snd_una: 0,
            snd_nxt: 0,
            rcv_nxt: 0,
            ssthresh: THRESH_INIT,
            rx_rttval: 0,
            rx_srtt: 0,
            rx_rto: RTO_DEF,
            rx_minrto: RTO_MIN,
            snd_wnd: WND_SND,
            rcv_wnd: WND_RCV,
            rmt_wnd: WND_RCV,
            cwnd: 0,
            probe: 0,
            current: 0,
            interval: INTERVAL,
            ts_flush: INTERVAL,
            xmit: 0,
            nodelay: false,
            updated: false,
            ts_probe: 0,
            probe_wait: 0,
            dead_link: DEADLINK,
            incr: 0,
            fastresend: 0,
            nocwnd: false,
            snd_queue: Seq::empty(),
            rcv_queue: Seq::empty(),
            snd_buf: Seq::empty(),
            rcv_buf: Seq::empty(),
            acklist: Seq::empty(),
        }
    }

    /// How many sequence numbers are assigned and not yet acknowledged.
    pub open spec fn inflight(self) -> int {
        offset(self.snd_nxt, self.snd_una)
    }

    /// The send side is in order: at most 65535 sequence numbers are
    /// unacknowledged, the segments in flight carry strictly ascending sequence
    /// numbers among them, and the oldest of them, or the next to assign if
    /// there is none, is the oldest unacknowledged.
    pub open spec fn snd_window_ok(self) -> bool {
        &&& self.inflight() <= 0xffff
        &&& ascending(self.snd_buf, self.snd_una, self.inflight())
        &&& self.snd_buf.len() > 0 ==> self.snd_buf[0].sn == self.snd_una
        &&& self.snd_buf.len() == 0 ==> self.snd_una == self.snd_nxt
    }

    /// The receive side is in order: the segments received ahead of order
    /// carry strictly ascending sequence numbers, none behind the next expected
    /// one.
    pub open spec fn rcv_buf_ok(self) -> bool {
        ascending(self.rcv_buf, self.rcv_nxt, 0x8000_0000)
    }

    /// The segments queued for the application carry consecutive sequence
    /// numbers, the last of them the one before the next expected: the
    /// application is handed every sequence number once, in order.
    pub open spec fn delivers_in_order(self) -> bool {
        numbered(self.rcv_queue, self.rcv_nxt)
    }

    /// What holds of every state the engine can reach: the segment size goes
    /// with the unit, the timers lie within their limits, no probe is pending
    /// but, at most, a window-inform, both sides are in
    /// order, every segment in flight is a data segment of the conversation,
    /// every payload waiting or in flight fits the length field, and delivery is
    /// in order.
    pub open spec fn wf(self) -> bool {
        &&& MTU_MIN <= self.mtu <= MTU_MAX
        &&& self.mss == self.mtu - 24
        &&& self.rx_rto <= RTO_MAX
        &&& (self.rx_minrto == RTO_MIN || self.rx_minrto == RTO_NDL)
        &&& 10 <= self.interval <= 5000
        &&& self.rmt_wnd <= 0xffff
        &&& self.ssthresh >= THRESH_MIN
        &&& self.probe_wait <= PROBE_LIMIT
        &&& (self.probe == 0 || self.probe == ASK_TELL)
        &&& self.snd_window_ok()
        &&& self.rcv_buf_ok()
        &&& tagged(self.snd_buf, self.conv)
        &&& encodable(self.snd_queue)
        &&& self.delivers_in_order()
    }

    /// The engine after `payload` was submitted, and the result code: -1 and no
    /// change for an empty payload, -2 and no change for one of more than 255
    /// fragments, else 0 with the fragments appended to the send queue.
    pub open spec fn send(self, payload: Seq<u8>) -> (KcpView, int) {
        if payload.len() == 0 {
            (self, -1)
        } else if fragment_count(payload.len() as int, self.mss as int) > 255 {
            (self, -2)
        } else {
            (
                KcpView {
                    snd_queue: self.snd_queue + fragments(payload, self.mss as int),
                    ..self
                },
                0,
            )
        }
    }

    /// The engine after the clock was set to `now`, and the datagrams that are
    /// due. The first call starts the flush schedule; a clock ten seconds
    /// or more off the schedule restarts it; a flush happens when one is due.
    pub open spec fn update(self, now: u32) -> (KcpView, Seq<Seq<u8>>) {
        let s0 = KcpView { current: now, ..self };
        let s1 = if !s0.updated {
            KcpView { updated: true, ts_flush: now, ..s0 }
        } else {
            s0
        };
        let slap = diff(now, s1.ts_flush);
        let resync = slap >= 10000 || slap <= -10000;
        let s2 = if resync {
            KcpView { ts_flush: now, ..s1 }
        } else {
            s1
        };
        if resync || slap >= 0 {
            let next = advance(s2.ts_flush, s2.interval as int);
            let next = if diff(now, next) >= 0 {
                advance(now, s2.interval as int)
            } else {
                next
            };
            KcpView { ts_flush: next, ..s2 }.flush()
        } else {
            (s2, Seq::empty())
        }
    }

    /// When `update` should next be called if nothing else happens: at once
    /// before the first update, when a flush is due or a segment is due for
    /// retransmission; else after the shortest of the time to the next flush,
    /// the time to the next retransmission and the flush period.
    pub open spec fn check(self, now: u32) -> u32 {
        let slap = diff(now, self.ts_flush);
        let ts_flush = if slap >= 10000 || slap <= -10000 {
            now
        } else {
            self.ts_flush
        };
        let tm_packet = earliest_resend(self.snd_buf, now);
        let tm_flush = diff(ts_flush, now);
        if !self.updated || diff(now, ts_flush) >= 0 || tm_packet <= 0 {
            now
        } else {
            let least = if tm_packet < tm_flush {
                tm_packet
            } else {
                tm_flush
            };
            let least = if least < self.interval {
                least
            } else {
                self.interval as int
            };
            advance(now, least)
        }
    }

    /// The engine after a request for the unit `mtu`, and the result code: -1
    /// and no change unless `MTU_MIN <= mtu <= MTU_MAX`, else 0.
    pub open spec fn set_mtu(self, mtu: int) -> (KcpView, int) {
        if mtu < MTU_MIN || mtu > MTU_MAX {
            (self, -1)
        } else {
            (KcpView { mtu: mtu as u32, mss: (mtu - 24) as u32, ..self }, 0)
        }
    }

    /// The engine after its mode was set. A negative argument leaves its
    /// setting alone. `nodelay` turns no-delay mode on unless it is 0, and sets
    /// the floor of the retransmission timeout to match; `interval` is the flush
    /// period, clamped to 10..=5000; `resend` is the fast-retransmission
    /// threshold, at most the largest 32-bit number; `nc` turns congestion
    /// control off unless it is 0.
    pub open spec fn no_delay(self, nodelay: int, interval: int, resend: int, nc: int) -> KcpView {
        KcpView {
            nodelay: if nodelay >= 0 {
                nodelay != 0
            } else {
                self.nodelay
            },
            rx_minrto: if nodelay > 0 {
                RTO_NDL
            } else if nodelay == 0 {
                RTO_MIN
            } else {
                self.rx_minrto
            },
            interval: if interval > 5000 {
                5000
            } else if interval >= 10 {
                interval as u32
            } else if interval >= 0 {
                10
            } else {
                self.interval
            },
            fastresend: if resend > u32::MAX {
                u32::MAX
            } else if resend >= 0 {
                resend as u32
            } else {
                self.fastresend
            },
            nocwnd: if nc >= 0 {
                nc != 0
            } else {
                self.nocwnd
            },
            ..self
        }
    }

    /// The engine after its windows were set. Only a positive argument changes
    /// its window, to at most the largest 32-bit number.
    pub open spec fn wnd_size(self, sndwnd: int, rcvwnd: int) -> KcpView {
        KcpView {
            snd_wnd: if sndwnd > u32::MAX {
                u32::MAX
            } else if sndwnd > 0 {
                sndwnd as u32
            } else {
                self.snd_wnd
            },
            rcv_wnd: if rcvwnd > u32::MAX {
                u32::MAX
            } else if rcvwnd > 0 {
                rcvwnd as u32
            } else {
                self.rcv_wnd
            },
            ..self
        }
    }

    /// How many segments wait to be sent or acknowledged.
    pub open spec fn wait_snd(self) -> int {
        (self.snd_buf.len() + self.snd_queue.len()) as int
    }
}

} // verus!
