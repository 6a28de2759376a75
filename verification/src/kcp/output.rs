//! The transmission side of the engine: the flush and the timer that drives
//! it.

use crate::buf::{lemma_written_after_write, ByteBuffer, ByteBufferView};
use crate::kcp::{lemma_views_push, lemma_views_subrange, views, KCP};
use crate::model::flush::{
    lemma_add_all_concat, lemma_add_all_none, lemma_add_all_push, lemma_counts, scratch_size,
    Packing,
};
use crate::model::laws::{lemma_flush_wf, lemma_update_wf};
use crate::model::{
    earliest_resend, KcpView, ASK_SEND, ASK_TELL, PROBE_INIT, PROBE_LIMIT, RTO_MAX, STATE_DEAD,
    THRESH_MIN,
};
use crate::segment::{
    lemma_encoding_len, Segment, SegmentView, CMD_ACK, CMD_PUSH, CMD_WASK, CMD_WINS,
};
use crate::serial::sub_u32;
use vstd::prelude::*;

verus! {

/// The datagrams of `frames` as mathematical values.
pub open spec fn datagrams(frames: Seq<Vec<u8>>) -> Seq<Seq<u8>> {
    frames.map_values(|frame: Vec<u8>| frame@)
}

/// The datagrams under assembly: those in `frames` and the content of the
/// scratch area.
pub open spec fn packing(frames: Seq<Vec<u8>>, scratch: ByteBufferView) -> Packing {
    Packing { frames: datagrams(frames), cur: scratch.written() }
}

/// Sends the content of the scratch area off as a datagram and empties the
/// area.
fn send_off(buffer: &mut ByteBuffer, frames: &mut Vec<Vec<u8>>)
    requires
        old(buffer).wf(),
        old(buffer)@.rpos == 0,
    ensures
        final(buffer).wf(),
        final(buffer)@ == (ByteBufferView { wpos: 0, rpos: 0, ..old(buffer)@ }),
        datagrams(final(frames)@) == datagrams(old(frames)@).push(old(buffer)@.written()),
{
    let size: usize = buffer.get_wpos();
    match buffer.read_bytes(size) {
        Ok(frame) => {
            frames.push(frame);
        },
        Err(_) => {},
    }
    buffer.clear();
    assert(datagrams(frames@) =~= datagrams(old(frames)@).push(old(buffer)@.written()));
}

/// Sends off what is left in the scratch area, if anything.
fn send_rest(buffer: &mut ByteBuffer, frames: &mut Vec<Vec<u8>>)
    requires
        old(buffer).wf(),
        old(buffer)@.rpos == 0,
    ensures
        final(buffer).wf(),
        final(buffer)@ == (ByteBufferView { wpos: 0, rpos: 0, ..old(buffer)@ }),
        datagrams(final(frames)@) == packing(old(frames)@, old(buffer)@).finish(),
{
    if buffer.get_wpos() > 0 {
        send_off(buffer, frames);
    }
}

/// Adds one segment to the datagrams under assembly.
fn pack(buffer: &mut ByteBuffer, frames: &mut Vec<Vec<u8>>, seg: &Segment, mtu: u32)
    requires
        old(buffer).wf(),
        old(buffer)@.rpos == 0,
    ensures
        final(buffer).wf(),
        final(buffer)@.rpos == 0,
        final(buffer)@.data.len() == old(buffer)@.data.len(),
        packing(final(frames)@, final(buffer)@) == packing(old(frames)@, old(buffer)@).add(
            seg@.encoding(),
            mtu as int,
            old(buffer)@.data.len() as int,
        ),
{
    let size: usize = buffer.get_wpos();
    let len: usize = seg.data.len();
    proof {
        lemma_encoding_len(seg@);
    }
    if size > 0 && size as u128 + 24 + len as u128 > mtu as u128 {
        send_off(buffer, frames);
        assert(buffer@.written() =~= Seq::<u8>::empty());
    }
    proof {
        if seg@.encodable() && 24 + len <= buffer@.room() {
            lemma_written_after_write(buffer@, seg@.encoding());
        }
    }
    let _ = seg.encode(buffer);
}

impl KCP {
    /// The datagrams under assembly: those in `frames` and the content of the
    /// scratch area.
    pub open spec fn assembling(&self, frames: Seq<Vec<u8>>) -> Packing {
        packing(frames, self.scratch())
    }

    /// The receive window that is left.
    pub(crate) fn wnd_unused(&self) -> (wnd: u32)
        ensures
            wnd == self@.wnd_unused(),
    {
        let queued: usize = self.rcv_queue.len();
        if queued < self.rcv_wnd as usize {
            self.rcv_wnd - queued as u32
        } else {
            0
        }
    }

    /// A header-only segment of this engine.
    fn control(&self, cmd: u8, sn: u32, ts: u32, wnd: u16) -> (seg: Segment)
        requires
            wnd == self@.wnd_advertised(),
        ensures
            seg@ == self@.control(cmd, sn, ts),
    {
        let mut seg = Segment::new();
        seg.conv = self.conv;
        seg.cmd = cmd;
        seg.wnd = wnd;
        seg.ts = ts;
        seg.sn = sn;
        seg.una = self.rcv_nxt;
        seg
    }

    /// Packs an acknowledgement for every entry of the list and empties the
    /// list.
    fn flush_acks(&mut self, frames: &mut Vec<Vec<u8>>, wnd: u16)
        requires
            old(self).scratch_sized(),
            wnd == old(self)@.wnd_advertised(),
        ensures
            final(self).scratch_sized(),
            final(self)@ == (KcpView { acklist: Seq::empty(), ..old(self)@ }),
            final(self).assembling(final(frames)@) == old(self).assembling(old(frames)@).add_all(
                old(self)@.ack_items(old(self)@.acklist.len() as int),
                old(self)@.mtu as int,
                scratch_size(old(self)@.mtu as int),
            ),
    {
        let n: usize = self.acklist.len();
        let ghost start = self.assembling(frames@);
        let ghost mtu = self.mtu as int;
        let ghost cap = scratch_size(mtu);
        let mut i: usize = 0;
        proof {
            assert(self@.ack_items(0) =~= Seq::empty());
            lemma_add_all_none(start, mtu, cap);
        }
        while i < n
            invariant
                0 <= i <= n,
                n == self@.acklist.len(),
                self@ == old(self)@,
                wnd == self@.wnd_advertised(),
                mtu == self.mtu,
                cap == scratch_size(mtu),
                self.scratch_sized(),
                self.assembling(frames@) == start.add_all(self@.ack_items(i as int), mtu, cap),
            decreases n - i,
        {
            let entry: (u32, u32) = self.ack_get(i);
            let seg = self.control(CMD_ACK, entry.0, entry.1, wnd);
            proof {
                lemma_add_all_push(start, self@.ack_items(i as int), seg@.encoding(), mtu, cap);
                assert(self@.ack_items(i as int).push(seg@.encoding()) =~= self@.ack_items(i + 1));
            }
            pack(&mut self.buffer, frames, &seg, self.mtu);
            i = i + 1;
        }
        self.acklist.clear();
    }

    /// Looks at the probe timer.
    fn probe_step(&mut self)
        requires
            old(self).scratch_sized(),
            old(self)@.probe_wait <= PROBE_LIMIT,
        ensures
            final(self).scratch_sized(),
            final(self).scratch() == old(self).scratch(),
            final(self)@ == old(self)@.probe_step(),
    {
        if self.rmt_wnd == 0 {
            if self.probe_wait == 0 {
                self.probe_wait = PROBE_INIT;
                self.ts_probe = self.current.wrapping_add(PROBE_INIT);
            } else if sub_u32(self.current, self.ts_probe) >= 0 {
                if self.probe_wait < PROBE_INIT {
                    self.probe_wait = PROBE_INIT;
                }
                self.probe_wait = self.probe_wait + self.probe_wait / 2;
                if self.probe_wait > PROBE_LIMIT {
                    self.probe_wait = PROBE_LIMIT;
                }
                self.ts_probe = self.current.wrapping_add(self.probe_wait);
                self.probe = self.probe | ASK_SEND;
            }
        } else {
            self.ts_probe = 0;
            self.probe_wait = 0;
        }
    }

    /// Packs the probes that are pending and clears them.
    fn flush_probes(&mut self, frames: &mut Vec<Vec<u8>>, wnd: u16, last: (u32, u32))
        requires
            old(self).scratch_sized(),
            wnd == old(self)@.wnd_advertised(),
        ensures
            final(self).scratch_sized(),
            final(self)@ == (KcpView { probe: 0, ..old(self)@ }),
            final(self).assembling(final(frames)@) == old(self).assembling(old(frames)@).add_all(
                old(self)@.probe_items(last),
                old(self)@.mtu as int,
                scratch_size(old(self)@.mtu as int),
            ),
    {
        let ghost start = self.assembling(frames@);
        let ghost mtu = self.mtu as int;
        let ghost cap = scratch_size(mtu);
        let ghost none = Seq::<Seq<u8>>::empty();
        let ghost ask = seq![self@.control(CMD_WASK, last.0, last.1).encoding()];
        let ghost tell = seq![self@.control(CMD_WINS, last.0, last.1).encoding()];
        proof {
            lemma_add_all_none(start, mtu, cap);
            lemma_add_all_push(start, none, ask[0], mtu, cap);
            assert(none.push(ask[0]) =~= ask);
            assert(none + none =~= none);
            assert(ask + none =~= ask);
            assert(none + tell =~= tell);
        }
        if (self.probe & ASK_SEND) != 0 {
            let seg = self.control(CMD_WASK, last.0, last.1, wnd);
            pack(&mut self.buffer, frames, &seg, self.mtu);
        }
        let ghost middle = self.assembling(frames@);
        proof {
            lemma_add_all_none(middle, mtu, cap);
            lemma_add_all_push(middle, none, tell[0], mtu, cap);
            assert(none.push(tell[0]) =~= tell);
            lemma_add_all_concat(start, ask, tell, mtu, cap);
        }
        if (self.probe & ASK_TELL) != 0 {
            let seg = self.control(CMD_WINS, last.0, last.1, wnd);
            pack(&mut self.buffer, frames, &seg, self.mtu);
        }
        self.probe = 0;
    }

    /// Moves segments from the send queue into the window.
    fn promote(&mut self, wnd: u16, cwnd: u32)
        requires
            old(self).scratch_sized(),
        ensures
            final(self).scratch_sized(),
            final(self).scratch() == old(self).scratch(),
            final(self)@ == old(self)@.promote(wnd, cwnd),
    {
        loop
            invariant
                self.scratch_sized(),
                self.scratch() == old(self).scratch(),
                self@.promote(wnd, cwnd) == old(self)@.promote(wnd, cwnd),
            ensures
                self.scratch_sized(),
                self.scratch() == old(self).scratch(),
                self@ == old(self)@.promote(wnd, cwnd),
            decreases self.snd_queue@.len(),
        {
            if self.snd_queue.len() == 0 || sub_u32(
                self.snd_nxt,
                self.snd_una.wrapping_add(cwnd),
            ) >= 0 {
                break ;
            }
            let ghost before = self@;
            let ghost queue = self.snd_queue@;
            let ghost flying = self.snd_buf@;
            match self.snd_queue.pop_front() {
                Some(mut seg) => {
                    seg.conv = self.conv;
                    seg.cmd = CMD_PUSH;
                    seg.wnd = wnd;
                    seg.ts = self.current;
                    seg.sn = self.snd_nxt;
                    seg.una = self.rcv_nxt;
                    seg.resendts = self.current;
                    seg.rto = self.rx_rto;
                    seg.fastack = 0;
                    seg.xmit = 0;
                    assert(seg@ == before.stamped(wnd));
                    self.snd_buf.push(seg);
                    self.snd_nxt = self.snd_nxt.wrapping_add(1);
                    proof {
                        lemma_views_push(flying, seg);
                        lemma_views_subrange(queue, 1, queue.len() as int);
                    }
                },
                None => {},
            }
        }
    }

    /// Decides on every segment in flight and packs those that go out.
    /// Returns whether a segment was retransmitted ahead of its time, and
    /// whether one timed out.
    fn transmit(&mut self, frames: &mut Vec<Vec<u8>>, wnd: u16) -> (flags: (bool, bool))
        requires
            old(self).scratch_sized(),
            old(self)@.rx_rto <= RTO_MAX,
        ensures
            final(self).scratch_sized(),
            final(self)@ == (KcpView {
                snd_buf: old(self)@.transmit_rule(wnd).transmit_all(old(self)@.snd_buf),
                xmit: crate::serial::saturate(
                    old(self)@.xmit + old(self)@.transmit_rule(wnd).timeouts(old(self)@.snd_buf),
                ),
                state: if old(self)@.transmit_rule(wnd).dead(old(self)@.snd_buf) > 0 {
                    STATE_DEAD
                } else {
                    old(self)@.state
                },
                ..old(self)@
            }),
            flags.0 == (old(self)@.transmit_rule(wnd).fast_resends(old(self)@.snd_buf) > 0),
            flags.1 == (old(self)@.transmit_rule(wnd).timeouts(old(self)@.snd_buf) > 0),
            final(self).assembling(final(frames)@) == old(self).assembling(old(frames)@).add_all(
                old(self)@.transmit_rule(wnd).data_items(old(self)@.snd_buf),
                old(self)@.mtu as int,
                scratch_size(old(self)@.mtu as int),
            ),
    {
        let current: u32 = self.current;
        let rx_rto: u32 = self.rx_rto;
        let nodelay: bool = self.nodelay;
        let una: u32 = self.rcv_nxt;
        let dead_link: u32 = self.dead_link;
        let fastresend: u32 = self.fastresend;
        let rtomin: u32 = if nodelay {
            0
        } else {
            rx_rto / 8
        };
        let ghost rule = self@.transmit_rule(wnd);
        let ghost buf = self@.snd_buf;
        let ghost start = self.assembling(frames@);
        let ghost mtu = self.mtu as int;
        let ghost cap = scratch_size(mtu);
        let n: usize = self.snd_buf.len();
        let mut change: bool = false;
        let mut lost: bool = false;
        let mut i: usize = 0;
        proof {
            assert(buf.subrange(0, 0) =~= Seq::empty());
            lemma_add_all_none(start, mtu, cap);
        }
        while i < n
            invariant
                0 <= i <= n,
                n == buf.len(),
                n == self.snd_buf@.len(),
                rule == old(self)@.transmit_rule(wnd),
                rule.current == current,
                rule.rx_rto == rx_rto,
                rule.nodelay == nodelay,
                rule.una == una,
                rule.dead_link == dead_link,
                rule.fastresend == fastresend,
                rule.wnd == wnd,
                rule.rtomin() == rtomin,
                rx_rto <= RTO_MAX,
                buf == old(self)@.snd_buf,
                mtu == self.mtu,
                cap == scratch_size(mtu),
                forall|j: int| 0 <= j < i ==> (#[trigger] self.snd_buf@[j])@ == rule.transmit(buf[j]),
                forall|j: int| i <= j < n ==> (#[trigger] self.snd_buf@[j])@ == buf[j],
                self@ == (KcpView {
                    snd_buf: self@.snd_buf,
                    xmit: self@.xmit,
                    state: self@.state,
                    ..old(self)@
                }),
                self@.xmit == crate::serial::saturate(
                    old(self)@.xmit + rule.timeouts(buf.subrange(0, i as int)),
                ),
                self@.state == if rule.dead(buf.subrange(0, i as int)) > 0 {
                    STATE_DEAD
                } else {
                    old(self)@.state
                },
                change == (rule.fast_resends(buf.subrange(0, i as int)) > 0),
                lost == (rule.timeouts(buf.subrange(0, i as int)) > 0),
                self.scratch_sized(),
                self.assembling(frames@) == start.add_all(
                    rule.data_items(buf.subrange(0, i as int)),
                    mtu,
                    cap,
                ),
            decreases n - i,
        {
            let ghost seg = buf[i as int];
            let ghost done = buf.subrange(0, i as int);
            proof {
                assert(buf.subrange(0, i + 1).drop_last() =~= done);
                assert(buf.subrange(0, i + 1).last() == seg);
                lemma_counts(rule, done);
                lemma_add_all_push(start, rule.data_items(done), rule.transmit(seg).encoding(), mtu, cap);
            }
            let xmit: u32 = self.snd_buf[i].xmit;
            let mut needsend: bool = false;
            if xmit == 0 {
                needsend = true;
                self.snd_buf[i].xmit = 1;
                self.snd_buf[i].rto = rx_rto;
                self.snd_buf[i].resendts = current.wrapping_add(rx_rto).wrapping_add(rtomin);
            } else if sub_u32(current, self.snd_buf[i].resendts) >= 0 {
                needsend = true;
                let step: u64 = if nodelay {
                    (rx_rto / 2) as u64
                } else {
                    rx_rto as u64
                };
                let grown: u64 = self.snd_buf[i].rto as u64 + step;
                let most: u64 = 8 * (rx_rto as u64);
                let rto: u32 = if grown < most {
                    grown as u32
                } else {
                    most as u32
                };
                self.snd_buf[i].xmit = xmit.saturating_add(1);
                self.snd_buf[i].rto = rto;
                self.snd_buf[i].resendts = current.wrapping_add(rto);
                self.xmit = self.xmit.saturating_add(1);
                lost = true;
            } else if fastresend > 0 && self.snd_buf[i].fastack >= fastresend {
                needsend = true;
                let rto: u32 = self.snd_buf[i].rto;
                self.snd_buf[i].xmit = xmit.saturating_add(1);
                self.snd_buf[i].fastack = 0;
                self.snd_buf[i].resendts = current.wrapping_add(rto);
                change = true;
            }
            if needsend {
                self.snd_buf[i].ts = current;
                self.snd_buf[i].wnd = wnd;
                self.snd_buf[i].una = una;
                assert(self.snd_buf@[i as int]@ == rule.transmit(seg));
                pack(&mut self.buffer, frames, &self.snd_buf[i], self.mtu);
                if self.snd_buf[i].xmit >= dead_link {
                    self.state = STATE_DEAD;
                }
            }
            assert(self.snd_buf@[i as int]@ == rule.transmit(seg));
            i = i + 1;
        }
        proof {
            assert(buf.subrange(0, n as int) =~= buf);
            assert(self@.snd_buf =~= rule.transmit_all(buf));
        }
        (change, lost)
    }

    /// Lets the congestion window answer to a flush.
    fn congestion(&mut self, change: bool, lost: bool, cwnd: u32)
        requires
            old(self).scratch_sized(),
        ensures
            final(self).scratch_sized(),
            final(self).scratch() == old(self).scratch(),
            final(self)@ == old(self)@.congestion(change, lost, cwnd),
    {
        let mss: u64 = self.mss as u64;
        if change {
            let inflight: u32 = self.snd_nxt.wrapping_sub(self.snd_una);
            self.ssthresh = inflight / 2;
            if self.ssthresh < THRESH_MIN {
                self.ssthresh = THRESH_MIN;
            }
            self.cwnd = self.ssthresh.saturating_add(self.fastresend);
            assert(self.cwnd * mss <= 0xffff_ffff * 0xffff_ffff) by (nonlinear_arith)
                requires
                    0 <= self.cwnd <= 0xffff_ffff,
                    0 <= mss <= 0xffff_ffff,
            ;
            let bytes: u64 = self.cwnd as u64 * mss;
            self.incr = if bytes > 0xffff_ffff {
                0xffff_ffff
            } else {
                bytes as u32
            };
        }
        if lost {
            self.ssthresh = cwnd / 2;
            if self.ssthresh < THRESH_MIN {
                self.ssthresh = THRESH_MIN;
            }
            self.cwnd = 1;
            self.incr = self.mss;
        }
        if self.cwnd < 1 {
            self.cwnd = 1;
            self.incr = self.mss;
        }
    }

    /// The flush of an engine that was updated before.
    #[verifier::rlimit(40)]
    fn flush_due(&mut self) -> (frames: Vec<Vec<u8>>)
        requires
            old(self).scratch_ok(),
            old(self)@.rx_rto <= RTO_MAX,
            old(self)@.probe_wait <= PROBE_LIMIT,
        ensures
            final(self).scratch_ok(),
            final(self)@ == old(self)@.flushed(),
            datagrams(frames@) == Packing::start().add_all(
                old(self)@.flush_items(),
                old(self)@.mtu as int,
                scratch_size(old(self)@.mtu as int),
            ).finish(),
    {
        let mut frames: Vec<Vec<u8>> = Vec::new();
        let ghost mtu = self.mtu as int;
        let ghost cap = scratch_size(mtu);
        let ghost start = self.assembling(frames@);
        assert(start == Packing::start()) by {
            assert(datagrams(frames@) =~= Seq::empty());
            assert(self.scratch().written() =~= Seq::<u8>::empty());
        }
        let wnd: u16 = (self.wnd_unused() % 0x1_0000) as u16;
        let last: (u32, u32) = if self.acklist.len() > 0 {
            self.acklist[self.acklist.len() - 1]
        } else {
            (0, 0)
        };
        let ghost acks = self@.ack_items(self@.acklist.len() as int);
        self.flush_acks(&mut frames, wnd);
        self.probe_step();
        let ghost probes = self@.probe_items(last);
        let mut cwnd: u32 = if self.snd_wnd < self.rmt_wnd {
            self.snd_wnd
        } else {
            self.rmt_wnd
        };
        if !self.nocwnd && self.cwnd < cwnd {
            cwnd = self.cwnd;
        }
        self.flush_probes(&mut frames, wnd, last);
        proof {
            crate::model::laws::lemma_promote_keeps(self@, wnd, cwnd);
        }
        self.promote(wnd, cwnd);
        let ghost data = self@.transmit_rule(wnd).data_items(self@.snd_buf);
        let flags: (bool, bool) = self.transmit(&mut frames, wnd);
        let ghost packed = self.assembling(frames@);
        assert(packed == Packing::start().add_all(
            old(self)@.flush_items(),
            old(self)@.mtu as int,
            scratch_size(old(self)@.mtu as int),
        )) by {
            lemma_add_all_concat(start, acks, probes, mtu, cap);
            lemma_add_all_concat(start, acks + probes, data, mtu, cap);
            assert(old(self)@.flush_items() == acks + probes + data);
        }
        self.congestion(flags.0, flags.1, cwnd);
        send_rest(&mut self.buffer, &mut frames);
        assert(datagrams(frames@) == packed.finish());
        frames
    }

    /// Sends what is due: returns the datagrams to transmit, in order. Before
    /// the first call of `update` this does nothing. [`KcpView::flush`] says
    /// what is sent and what becomes of the engine. After a flush that did
    /// something the congestion window is at least 1.
    pub fn flush(&mut self) -> (frames: Vec<Vec<u8>>)
        requires
            old(self).wf(),
        ensures
            final(self).wf(),
            final(self)@ == old(self)@.flush().0,
            datagrams(frames@) == old(self)@.flush().1,
            old(self)@.updated ==> final(self)@.cwnd >= 1,
    {
        if !self.updated {
            let frames: Vec<Vec<u8>> = Vec::new();
            assert(datagrams(frames@) =~= Seq::empty());
            return frames;
        }
        let frames = self.flush_due();
        proof {
            lemma_flush_wf(old(self)@);
            crate::model::laws::lemma_flush_cwnd(old(self)@);
        }
        frames
    }

    /// Sets the clock to `current`, in milliseconds, and sends what is due:
    /// returns the datagrams to transmit, in order. To be called every 10 to 100
    /// milliseconds, or when `check` says. [`KcpView::update`] says when a flush
    /// is due.
    pub fn update(&mut self, current: u32) -> (frames: Vec<Vec<u8>>)
        requires
            old(self).wf(),
        ensures
            final(self).wf(),
            final(self)@ == old(self)@.update(current).0,
            datagrams(frames@) == old(self)@.update(current).1,
    {
        self.current = current;
        if !self.updated {
            self.updated = true;
            self.ts_flush = current;
        }
        let mut slap: i32 = sub_u32(current, self.ts_flush);
        if slap >= 10000 || slap <= -10000 {
            self.ts_flush = current;
            slap = 0;
        }
        if slap >= 0 {
            self.ts_flush = self.ts_flush.wrapping_add(self.interval);
            if sub_u32(current, self.ts_flush) >= 0 {
                self.ts_flush = current.wrapping_add(self.interval);
            }
            let frames = self.flush();
            proof {
                lemma_update_wf(old(self)@, current);
            }
            frames
        } else {
            let frames: Vec<Vec<u8>> = Vec::new();
            assert(datagrams(frames@) =~= Seq::empty());
            frames
        }
    }

    /// When `update` should next be called, given the clock `current`, if no
    /// `send` or `input` happens before. [`KcpView::check`] says how it is
    /// found.
    pub fn check(&self, current: u32) -> (next: u32)
        requires
            self.wf(),
        ensures
            next == self@.check(current),
    {
        if !self.updated {
            return current;
        }
        let mut ts_flush: u32 = self.ts_flush;
        let slap: i32 = sub_u32(current, ts_flush);
        if slap >= 10000 || slap <= -10000 {
            ts_flush = current;
        }
        if sub_u32(current, ts_flush) >= 0 {
            return current;
        }
        let ghost buf = self@.snd_buf;
        let n: usize = self.snd_buf.len();
        let mut tm_packet: i32 = 0x7fff_ffff;
        let mut i: usize = 0;
        assert(buf.subrange(0, 0) =~= Seq::empty());
        while i < n
            invariant
                0 <= i <= n,
                n == buf.len(),
                buf == views(self.snd_buf@),
                tm_packet == earliest_resend(buf.subrange(0, i as int), current),
            decreases n - i,
        {
            let due: i32 = sub_u32(self.snd_buf[i].resendts, current);
            assert(buf.subrange(0, i + 1).drop_last() =~= buf.subrange(0, i as int));
            if due < tm_packet {
                tm_packet = due;
            }
            i = i + 1;
        }
        assert(buf.subrange(0, n as int) =~= buf);
        if tm_packet <= 0 {
            return current;
        }
        let tm_flush: i32 = sub_u32(ts_flush, current);
        let mut least: u32 = if tm_packet < tm_flush {
            tm_packet as u32
        } else {
            tm_flush as u32
        };
        if least >= self.interval {
            least = self.interval;
        }
        current.wrapping_add(least)
    }
}

} // verus!
