//! The acknowledgement side of the model: what an incoming datagram does to
//! the engine.

use crate::model::{KcpView, ASK_TELL, RTO_MAX};
use crate::segment::{parse, parse_header, parse_len, SegmentView, CMD_ACK, CMD_PUSH, CMD_WASK, CMD_WINS};
use crate::serial::{diff, saturate};
use vstd::prelude::*;

verus! {

/// `buf` without its leading segments whose sequence number lies behind
/// `una`.
pub open spec fn drop_acked(buf: Seq<SegmentView>, una: u32) -> Seq<SegmentView>
    decreases buf.len(),
{
    if buf.len() > 0 && diff(una, buf[0].sn) > 0 {
        drop_acked(buf.subrange(1, buf.len() as int), una)
    } else {
        buf
    }
}

/// `buf` without its first segment with sequence number `sn`, if it has one.
pub open spec fn remove_sn(buf: Seq<SegmentView>, sn: u32) -> Seq<SegmentView>
    decreases buf.len(),
{
    if buf.len() == 0 {
        buf
    } else if buf[0].sn == sn {
        buf.subrange(1, buf.len() as int)
    } else {
        seq![buf[0]] + remove_sn(buf.subrange(1, buf.len() as int), sn)
    }
}

/// `seg` with one more skipping acknowledgement counted if its sequence
/// number lies behind `maxack`.
pub open spec fn count_skip(seg: SegmentView, maxack: u32) -> SegmentView {
    if diff(maxack, seg.sn) > 0 {
        SegmentView { fastack: saturate(seg.fastack + 1), ..seg }
    } else {
        seg
    }
}

/// Whether `cmd` is one of the four commands.
pub open spec fn known_command(cmd: u8) -> bool {
    cmd == CMD_PUSH || cmd == CMD_ACK || cmd == CMD_WASK || cmd == CMD_WINS
}

/// The largest acknowledged sequence number once `sn` was acknowledged after
/// `seen`.
pub open spec fn later_ack(seen: Option<u32>, sn: u32) -> Option<u32> {
    match seen {
        None => Some(sn),
        Some(m) => if diff(sn, m) > 0 {
            Some(sn)
        } else {
            Some(m)
        },
    }
}

/// The largest acknowledged sequence number once `seg` was accepted after
/// `seen`.
pub open spec fn next_ack(seen: Option<u32>, seg: SegmentView) -> Option<u32> {
    if seg.cmd == CMD_ACK {
        later_ack(seen, seg.sn)
    } else {
        seen
    }
}

/// Whether the segment that `rest` starts with is accepted in conversation
/// `conv`: 0 if so, else -1 for a foreign conversation, -2 for a payload cut
/// short, -3 for an unknown command, in this order.
pub open spec fn verdict(conv: u32, rest: Seq<u8>) -> int {
    if parse_header(rest).conv != conv {
        -1
    } else if rest.len() - 24 < parse_len(rest) {
        -2
    } else if !known_command(parse_header(rest).cmd) {
        -3
    } else {
        0
    }
}

/// How the segments of one datagram were worked off.
pub ghost struct Parsed {
    /// The engine after the segments that were accepted.
    pub state: KcpView,
    /// The largest sequence number that an accepted segment acknowledged.
    pub maxack: Option<u32>,
    /// 0, or why the segment at `pos` was rejected: -1 for a foreign
    /// conversation, -2 for a payload cut short, -3 for an unknown command.
    pub code: int,
    /// How many bytes of the datagram were consumed.
    pub pos: int,
}

impl KcpView {
    /// The engine after every segment in flight behind `una` was taken as
    /// acknowledged.
    pub open spec fn parse_una(self, una: u32) -> KcpView {
        KcpView { snd_buf: drop_acked(self.snd_buf, una), ..self }
    }

    /// The engine with the oldest unacknowledged sequence number brought up to
    /// date: that of the oldest segment in flight, or the next to assign.
    pub open spec fn shrink_buf(self) -> KcpView {
        KcpView {
            snd_una: if self.snd_buf.len() > 0 {
                self.snd_buf[0].sn
            } else {
                self.snd_nxt
            },
            ..self
        }
    }

    /// The engine after sequence number `sn` was acknowledged: the segment
    /// that carries it leaves the segments in flight, provided `sn` lies between
    /// the oldest unacknowledged and the next to assign.
    pub open spec fn parse_ack(self, sn: u32) -> KcpView {
        if diff(sn, self.snd_una) < 0 || diff(sn, self.snd_nxt) >= 0 {
            self
        } else {
            KcpView { snd_buf: remove_sn(self.snd_buf, sn), ..self }
        }
    }

    /// The engine after a datagram whose largest acknowledged sequence number
    /// was `maxack`: every segment in flight behind it was skipped once more.
    pub open spec fn parse_fastack(self, maxack: u32) -> KcpView {
        KcpView {
            snd_buf: self.snd_buf.map_values(|seg: SegmentView| count_skip(seg, maxack)),
            ..self
        }
    }

    /// The engine after a round trip of `rtt` milliseconds was measured. The
    /// first sample is taken as it is; later ones are smoothed in with weight
    /// 1/8, their deviation with weight 1/4. The retransmission timeout is the
    /// smoothed time plus four deviations, at least 1, kept between the floor and
    /// `RTO_MAX`.
    pub open spec fn update_ack(self, rtt: u32) -> KcpView {
        let delta = if rtt > self.rx_srtt {
            rtt - self.rx_srtt
        } else {
            self.rx_srtt - rtt
        };
        let rttval = if self.rx_srtt == 0 {
            rtt as int / 2
        } else {
            (3 * self.rx_rttval + delta) / 4
        };
        let smoothed = (7 * self.rx_srtt + rtt) / 8;
        let srtt = if self.rx_srtt == 0 {
            rtt as int
        } else if smoothed < 1 {
            1
        } else {
            smoothed
        };
        let spread = if 4 * rttval < 1 {
            1
        } else {
            4 * rttval
        };
        let rto = if srtt + spread < self.rx_minrto {
            self.rx_minrto as int
        } else if srtt + spread > RTO_MAX {
            RTO_MAX as int
        } else {
            srtt + spread
        };
        KcpView { rx_srtt: srtt as u32, rx_rttval: rttval as u32, rx_rto: rto as u32, ..self }
    }

    /// The engine after the congestion window was opened one step towards the
    /// remote window: by a whole segment below the slow-start threshold, by a
    /// fraction of one above it.
    pub open spec fn grow_cwnd(self) -> KcpView {
        if self.cwnd < self.rmt_wnd {
            let grown = if self.cwnd < self.ssthresh {
                KcpView {
                    cwnd: (self.cwnd + 1) as u32,
                    incr: saturate(self.incr + self.mss),
                    ..self
                }
            } else {
                let base = if self.incr < self.mss {
                    self.mss
                } else {
                    self.incr
                };
                let incr = saturate(base + (self.mss * self.mss) / (base as int) + self.mss / 16);
                KcpView {
                    cwnd: if (self.cwnd + 1) * self.mss <= incr {
                        (self.cwnd + 1) as u32
                    } else {
                        self.cwnd
                    },
                    incr,
                    ..self
                }
            };
            if grown.cwnd > grown.rmt_wnd {
                KcpView {
                    cwnd: grown.rmt_wnd,
                    incr: saturate(grown.rmt_wnd * grown.mss),
                    ..grown
                }
            } else {
                grown
            }
        } else {
            self
        }
    }

    /// The engine after the segment `seg` of an incoming datagram was accepted.
    /// Every segment updates the remote window and acknowledges what lies behind
    /// its `una`. An acknowledgement also samples the round trip, if its
    /// timestamp is not ahead of the clock, and releases its segment. A data
    /// segment inside the window, or behind it, is put on the list to
    /// acknowledge, and kept if it is not behind the window. A window-ask
    /// schedules a window-inform.
    #[verifier::opaque]
    pub open spec fn on_segment(self, seg: SegmentView) -> KcpView {
        let s = KcpView { rmt_wnd: seg.wnd as u32, ..self }.parse_una(seg.una).shrink_buf();
        if seg.cmd == CMD_ACK {
            let sampled = if diff(s.current, seg.ts) >= 0 {
                s.update_ack(diff(s.current, seg.ts) as u32)
            } else {
                s
            };
            sampled.parse_ack(seg.sn).shrink_buf()
        } else if seg.cmd == CMD_PUSH {
            if diff(seg.sn, crate::serial::advance(s.rcv_nxt, s.rcv_wnd as int)) < 0 {
                let noted = KcpView { acklist: s.acklist.push((seg.sn, seg.ts)), ..s };
                if diff(seg.sn, noted.rcv_nxt) >= 0 {
                    noted.parse_data(seg)
                } else {
                    noted
                }
            } else {
                s
            }
        } else if seg.cmd == CMD_WASK {
            KcpView { probe: s.probe | ASK_TELL, ..s }
        } else {
            s
        }
    }

    /// Works off the segments of `frame` from position `pos` on, one after the
    /// other, until fewer than 24 bytes are left or a segment is rejected.
    pub open spec fn parse_from(self, maxack: Option<u32>, frame: Seq<u8>, pos: int) -> Parsed
        decreases frame.len() - pos,
    {
        let rest = frame.subrange(pos, frame.len() as int);
        if pos < 0 || frame.len() - pos < 24 {
            Parsed { state: self, maxack, code: 0, pos }
        } else if verdict(self.conv, rest) != 0 {
            Parsed { state: self, maxack, code: verdict(self.conv, rest), pos }
        } else {
            self.on_segment(parse(rest)).parse_from(
                next_ack(maxack, parse(rest)),
                frame,
                pos + 24 + parse_len(rest),
            )
        }
    }

    /// The engine after the datagram `frame` arrived, the result code, and how
    /// many bytes of the datagram were consumed. A datagram of fewer than 24
    /// bytes is rejected with -1 and changes nothing. A rejected segment ends
    /// the work with its code; what the segments before it did stays. Once all
    /// segments are accepted, the segments in flight that the largest
    /// acknowledgement skipped are counted, and the congestion window opens a
    /// step if the oldest unacknowledged number did not move back.
    pub open spec fn input(self, frame: Seq<u8>) -> (KcpView, int, int) {
        if frame.len() < 24 {
            (self, -1, 0)
        } else {
            let parsed = self.parse_from(None, frame, 0);
            if parsed.code != 0 {
                (parsed.state, parsed.code, parsed.pos)
            } else {
                let counted = match parsed.maxack {
                    Some(m) => parsed.state.parse_fastack(m),
                    None => parsed.state,
                };
                let opened = if diff(counted.snd_una, self.snd_una) >= 0 {
                    counted.grow_cwnd()
                } else {
                    counted
                };
                (opened, 0, parsed.pos)
            }
        }
    }
}

} // verus!
