//! The acknowledgement side of the engine: taking in a datagram.

use crate::buf::ByteBuffer;
use crate::kcp::{lemma_views_subrange, views, KCP};
use crate::model::ack::{count_skip, drop_acked, verdict, Parsed};
use crate::model::laws::{
    lemma_on_segment_wf, lemma_parse_fastack_wf, lemma_parse_una_wf, lemma_remove_sn,
};
use crate::model::{KcpView, ASK_TELL, RTO_MAX};
use crate::segment::{
    parse, parse_len, Segment, SegmentView, CMD_ACK, CMD_PUSH, CMD_WASK, CMD_WINS,
};
use crate::serial::sub_u32;
use vstd::prelude::*;

verus! {

impl KCP {
    /// Notes a segment to acknowledge at the next flush.
    pub(crate) fn ack_push(&mut self, sn: u32, ts: u32)
        requires
            old(self).wf(),
        ensures
            final(self).wf(),
            final(self)@ == (KcpView { acklist: old(self)@.acklist.push((sn, ts)), ..old(self)@ }),
    {
        self.acklist.push((sn, ts));
    }

    /// Entry `p` of the list to acknowledge: sequence number and timestamp.
    pub(crate) fn ack_get(&self, p: usize) -> (entry: (u32, u32))
        requires
            p < self@.acklist.len(),
        ensures
            entry == self@.acklist[p as int],
    {
        self.acklist[p]
    }

    /// Releases every segment in flight whose sequence number lies behind
    /// `una`.
    pub(crate) fn parse_una(&mut self, una: u32)
        requires
            old(self).scratch_ok(),
        ensures
            final(self).scratch_ok(),
            final(self)@ == old(self)@.parse_una(una),
    {
        let ghost buf = self@.snd_buf;
        let n: usize = self.snd_buf.len();
        let mut k: usize = 0;
        assert(buf.subrange(0, n as int) =~= buf);
        while k < n
            invariant
                0 <= k <= n,
                n == buf.len(),
                buf == views(self.snd_buf@),
                drop_acked(buf, una) == drop_acked(buf.subrange(k as int, n as int), una),
            ensures
                0 <= k <= n,
                drop_acked(buf, una) == buf.subrange(k as int, n as int),
            decreases n - k,
        {
            if sub_u32(una, self.snd_buf[k].sn) <= 0 {
                break ;
            }
            assert(buf.subrange(k as int, n as int).subrange(1, n - k) =~= buf.subrange(
                k + 1,
                n as int,
            ));
            k = k + 1;
        }
        if k > 0 {
            let ghost held = self.snd_buf@;
            let rest: Vec<Segment> = self.snd_buf.split_off(k);
            self.snd_buf = rest;
            proof {
                lemma_views_subrange(held, k as int, n as int);
            }
        } else {
            assert(buf.subrange(0, n as int) =~= buf);
        }
    }

    /// Brings the oldest unacknowledged sequence number up to date.
    pub(crate) fn shrink_buf(&mut self)
        requires
            old(self).scratch_ok(),
        ensures
            final(self).scratch_ok(),
            final(self)@ == old(self)@.shrink_buf(),
    {
        if self.snd_buf.len() > 0 {
            self.snd_una = self.snd_buf[0].sn;
        } else {
            self.snd_una = self.snd_nxt;
        }
    }

    /// Releases the segment in flight that carries sequence number `sn`.
    pub(crate) fn parse_ack(&mut self, sn: u32)
        requires
            old(self).scratch_ok(),
        ensures
            final(self).scratch_ok(),
            final(self)@ == old(self)@.parse_ack(sn),
    {
        if sub_u32(sn, self.snd_una) < 0 || sub_u32(sn, self.snd_nxt) >= 0 {
            return ;
        }
        let ghost buf = self@.snd_buf;
        let n: usize = self.snd_buf.len();
        let mut i: usize = 0;
        while i < n
            invariant
                0 <= i <= n,
                n == buf.len(),
                buf == views(self.snd_buf@),
                forall|j: int| 0 <= j < i ==> buf[j].sn != sn,
            ensures
                0 <= i <= n,
                i < n ==> buf[i as int].sn == sn,
                forall|j: int| 0 <= j < i ==> buf[j].sn != sn,
            decreases n - i,
        {
            if self.snd_buf[i].sn == sn {
                break ;
            }
            i = i + 1;
        }
        proof {
            let p = lemma_remove_sn(buf, sn);
            if i < n {
                assert(p == i);
            } else {
                assert(p == -1);
            }
        }
        if i < n {
            let _ = self.snd_buf.remove(i);
            assert(self@.snd_buf =~= buf.remove(i as int));
        }
    }

    /// Counts one more skipping acknowledgement for every segment in flight
    /// whose sequence number lies behind `maxack`.
    pub(crate) fn parse_fastack(&mut self, maxack: u32)
        requires
            old(self).scratch_ok(),
        ensures
            final(self).scratch_ok(),
            final(self)@ == old(self)@.parse_fastack(maxack),
    {
        let ghost buf = self@.snd_buf;
        let n: usize = self.snd_buf.len();
        let mut i: usize = 0;
        while i < n
            invariant
                0 <= i <= n,
                n == buf.len(),
                n == self.snd_buf@.len(),
                forall|j: int| 0 <= j < i ==> (#[trigger] self.snd_buf@[j])@ == count_skip(
                    buf[j],
                    maxack,
                ),
                forall|j: int| i <= j < n ==> (#[trigger] self.snd_buf@[j])@ == buf[j],
                self@ == (KcpView { snd_buf: self@.snd_buf, ..old(self)@ }),
                self.scratch_ok(),
            decreases n - i,
        {
            if sub_u32(maxack, self.snd_buf[i].sn) > 0 {
                let count: u32 = self.snd_buf[i].fastack;
                self.snd_buf[i].fastack = count.saturating_add(1);
            }
            i = i + 1;
        }
        assert(self@.snd_buf =~= buf.map_values(|seg: SegmentView| count_skip(seg, maxack)));
    }

    /// Takes in a measured round trip of `rtt` milliseconds.
    pub(crate) fn update_ack(&mut self, rtt: u32)
        requires
            old(self).scratch_ok(),
        ensures
            final(self).scratch_ok(),
            final(self)@ == old(self)@.update_ack(rtt),
            old(self)@.rx_minrto <= RTO_MAX ==> final(self)@.rx_minrto <= final(self)@.rx_rto
                <= RTO_MAX,
    {
        let sample: u64 = rtt as u64;
        let srtt0: u64 = self.rx_srtt as u64;
        let rttval0: u64 = self.rx_rttval as u64;
        let mut srtt: u64 = sample;
        let mut rttval: u64 = sample / 2;
        if srtt0 != 0 {
            let delta: u64 = if sample > srtt0 {
                sample - srtt0
            } else {
                srtt0 - sample
            };
            rttval = (3 * rttval0 + delta) / 4;
            srtt = (7 * srtt0 + sample) / 8;
            if srtt < 1 {
                srtt = 1;
            }
        }
        let spread: u64 = if 4 * rttval < 1 {
            1
        } else {
            4 * rttval
        };
        let floor: u64 = self.rx_minrto as u64;
        let rto: u64 = if srtt + spread < floor {
            floor
        } else if srtt + spread > RTO_MAX as u64 {
            RTO_MAX as u64
        } else {
            srtt + spread
        };
        self.rx_srtt = srtt as u32;
        self.rx_rttval = rttval as u32;
        self.rx_rto = rto as u32;
    }

    /// Opens the congestion window one step towards the remote window.
    pub(crate) fn grow_cwnd(&mut self)
        requires
            old(self).wf(),
        ensures
            final(self).wf(),
            final(self)@ == old(self)@.grow_cwnd(),
    {
        if self.cwnd < self.rmt_wnd {
            let mss: u64 = self.mss as u64;
            if self.cwnd < self.ssthresh {
                self.cwnd = self.cwnd + 1;
                self.incr = self.incr.saturating_add(self.mss);
            } else {
                let base: u64 = if self.incr < self.mss {
                    mss
                } else {
                    self.incr as u64
                };
                assert(mss * mss <= 0xffff_ffff * 0xffff_ffff) by (nonlinear_arith)
                    requires
                        0 <= mss <= 0xffff_ffff,
                ;
                let square: u64 = mss * mss;
                assert(square / base <= square) by {
                    vstd::arithmetic::div_mod::lemma_div_nonincreasing(square as int, base as int);
                }
                assert(square / base <= mss) by {
                    vstd::arithmetic::div_mod::lemma_div_is_ordered_by_denominator(
                        square as int,
                        mss as int,
                        base as int,
                    );
                    vstd::arithmetic::div_mod::lemma_div_multiples_vanish(mss as int, mss as int);
                }
                let sum: u64 = base + square / base + mss / 16;
                let incr: u32 = if sum > 0xffff_ffff {
                    0xffff_ffff
                } else {
                    sum as u32
                };
                assert((self.cwnd + 1) * mss <= 0x1_0000_0000 * 0xffff_ffff) by (nonlinear_arith)
                    requires
                        0 <= self.cwnd + 1 <= 0x1_0000_0000,
                        0 <= mss <= 0xffff_ffff,
                ;
                if (self.cwnd as u64 + 1) * mss <= incr as u64 {
                    self.cwnd = self.cwnd + 1;
                }
                self.incr = incr;
            }
            if self.cwnd > self.rmt_wnd {
                assert(self.rmt_wnd * mss <= 0xffff_ffff * 0xffff_ffff) by (nonlinear_arith)
                    requires
                        0 <= self.rmt_wnd <= 0xffff_ffff,
                        0 <= mss <= 0xffff_ffff,
                ;
                let bytes: u64 = self.rmt_wnd as u64 * mss;
                self.cwnd = self.rmt_wnd;
                self.incr = if bytes > 0xffff_ffff {
                    0xffff_ffff
                } else {
                    bytes as u32
                };
            }
        }
    }

    /// Takes in one accepted segment of a datagram.
    pub(crate) fn on_segment(&mut self, seg: Segment)
        requires
            old(self).wf(),
        ensures
            final(self).wf(),
            final(self)@ == old(self)@.on_segment(seg@),
    {
        proof {
            reveal(KcpView::on_segment);
            lemma_on_segment_wf(self@, seg@);
            lemma_parse_una_wf(KcpView { rmt_wnd: seg.wnd as u32, ..self@ }, seg.una);
        }
        self.rmt_wnd = seg.wnd as u32;
        self.parse_una(seg.una);
        self.shrink_buf();
        if seg.cmd == CMD_ACK {
            let rtt: i32 = sub_u32(self.current, seg.ts);
            if rtt >= 0 {
                self.update_ack(rtt as u32);
            }
            self.parse_ack(seg.sn);
            self.shrink_buf();
        } else if seg.cmd == CMD_PUSH {
            if sub_u32(seg.sn, self.rcv_nxt.wrapping_add(self.rcv_wnd)) < 0 {
                self.ack_push(seg.sn, seg.ts);
                if sub_u32(seg.sn, self.rcv_nxt) >= 0 {
                    self.parse_data(seg);
                }
            }
        } else if seg.cmd == CMD_WASK {
            self.probe = self.probe | ASK_TELL;
        }
    }

    /// Reads the segment that the unread bytes of `data` start with, or says
    /// why it is rejected and leaves it unread.
    pub(crate) fn next_segment(&self, data: &mut ByteBuffer) -> (res: Result<Segment, isize>)
        requires
            old(data).wf(),
            old(data)@.unread().len() >= 24,
        ensures
            final(data).wf(),
            match res {
                Ok(seg) => verdict(self@.conv, old(data)@.unread()) == 0 && seg@ == parse(
                    old(data)@.unread(),
                ) && seg@.data.len() == parse_len(old(data)@.unread()) && final(data)@ == old(
                    data,
                )@.skip(24 + seg@.data.len() as int),
                Err(code) => code != 0 && code == verdict(self@.conv, old(data)@.unread())
                    && final(data)@ == old(data)@,
            },
    {
        let start: usize = data.get_rpos();
        let ghost rest = data@.unread();
        match Segment::decode_header(data) {
            Err(_) => Err(-1),
            Ok((mut seg, len)) => {
                if seg.conv != self.conv {
                    data.rewind(start);
                    return Err(-1);
                }
                if data.read_remain() < len as usize {
                    data.rewind(start);
                    return Err(-2);
                }
                if seg.cmd != CMD_PUSH && seg.cmd != CMD_ACK && seg.cmd != CMD_WASK && seg.cmd
                    != CMD_WINS {
                    data.rewind(start);
                    return Err(-3);
                }
                match data.read_bytes(len as usize) {
                    Ok(bytes) => {
                        assert(bytes@ =~= rest.subrange(24, 24 + len));
                        seg.data = bytes;
                    },
                    Err(_) => {},
                }
                Ok(seg)
            },
        }
    }

    /// Takes in a received datagram: the unread bytes of `data`, one or more
    /// segments one behind the other. Returns 0 once every segment was
    /// accepted; fewer than 24 bytes at the end are left unread. Returns -1 for
    /// a datagram of fewer than 24 bytes, and for a segment of another
    /// conversation; -2 for a segment whose payload is cut short; -3 for a
    /// segment with an unknown command. A rejected segment ends the work and
    /// stays unread; what the segments before it did remains.
    pub fn input(&mut self, data: &mut ByteBuffer) -> (code: isize)
        requires
            old(self).wf(),
            old(data).wf(),
        ensures
            final(self).wf(),
            final(data).wf(),
            final(self)@ == old(self)@.input(old(data)@.unread()).0,
            code == old(self)@.input(old(data)@.unread()).1,
            final(data)@ == old(data)@.skip(old(self)@.input(old(data)@.unread()).2),
    {
        if data.read_remain() < 24 {
            assert(old(data)@.skip(0) == old(data)@);
            return -1;
        }
        let ghost frame = data@.unread();
        let ghost origin = data@;
        let first: usize = data.get_rpos();
        let prev_una: u32 = self.snd_una;
        let mut maxack: Option<u32> = None;
        assert(origin.skip(0) == origin);
        loop
            invariant
                self.wf(),
                data.wf(),
                origin.wf(),
                origin == old(data)@,
                frame == origin.unread(),
                frame.len() >= 24,
                first == origin.rpos,
                data@ == origin.skip(data@.rpos - first),
                first <= data@.rpos,
                old(self)@.parse_from(None, frame, 0) == self@.parse_from(
                    maxack,
                    frame,
                    data@.rpos - first,
                ),
            ensures
                self.wf(),
                data.wf(),
                data@ == origin.skip(data@.rpos - first),
                old(self)@.parse_from(None, frame, 0) == (Parsed {
                    state: self@,
                    maxack,
                    code: 0,
                    pos: data@.rpos - first,
                }),
            decreases data@.data.len() - data@.rpos,
        {
            let ghost pos = data@.rpos - first;
            assert(data@.unread() =~= frame.subrange(pos, frame.len() as int));
            if data.read_remain() < 24 {
                break ;
            }
            match self.next_segment(data) {
                Err(code) => {
                    assert(old(self)@.parse_from(None, frame, 0) == (Parsed {
                        state: self@,
                        maxack,
                        code: code as int,
                        pos,
                    }));
                    return code;
                },
                Ok(seg) => {
                    if seg.cmd == CMD_ACK {
                        maxack = match maxack {
                            None => Some(seg.sn),
                            Some(m) => if sub_u32(seg.sn, m) > 0 {
                                Some(seg.sn)
                            } else {
                                Some(m)
                            },
                        };
                    }
                    self.on_segment(seg);
                },
            }
        }
        match maxack {
            Some(m) => {
                proof {
                    lemma_parse_fastack_wf(self@, m);
                }
                self.parse_fastack(m);
            },
            None => {},
        }
        if sub_u32(self.snd_una, prev_una) >= 0 {
            self.grow_cwnd();
        }
        0
    }
}

} // verus!
