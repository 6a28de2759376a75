use kcp::buf::ByteBuffer;
use kcp::kcp::KCP;
use kcp::model::{
    DEADLINK, INTERVAL, MTU_DEF, MTU_MAX, MTU_MIN, RTO_DEF, RTO_MAX, RTO_MIN, RTO_NDL,
    STATE_DEAD, THRESH_INIT, WND_RCV, WND_SND,
};
use kcp::segment::{Segment, CMD_ACK, CMD_PUSH, CMD_WASK, CMD_WINS, OVERHEAD};

fn segment(conv: u32, cmd: u8, frg: u8, wnd: u16, ts: u32, sn: u32, una: u32, data: &[u8]) -> Segment {
    let mut seg = Segment::from_bytes(data);
    seg.conv = conv;
    seg.cmd = cmd;
    seg.frg = frg;
    seg.wnd = wnd;
    seg.ts = ts;
    seg.sn = sn;
    seg.una = una;
    seg
}

fn push(sn: u32, frg: u8, data: &[u8]) -> Segment {
    segment(1, CMD_PUSH, frg, 32, 0, sn, 0, data)
}

fn ack(sn: u32, ts: u32, una: u32) -> Segment {
    segment(1, CMD_ACK, 0, 32, ts, sn, una, &[])
}

fn datagram(segs: &[Segment]) -> ByteBuffer {
    let mut size: usize = 0;
    for seg in segs {
        size += 24 + seg.data.len();
    }
    let mut buf = ByteBuffer::with_capacity(size);
    for seg in segs {
        seg.encode(&mut buf).unwrap();
    }
    buf
}

fn filled(bytes: &[u8]) -> ByteBuffer {
    let mut buf = ByteBuffer::with_capacity(bytes.len());
    buf.write_bytes(bytes).unwrap();
    buf
}

fn segments(frames: &Vec<Vec<u8>>) -> Vec<Segment> {
    let mut out: Vec<Segment> = Vec::new();
    for frame in frames {
        let mut buf = filled(frame);
        while buf.read_remain() >= 24 {
            out.push(Segment::decode(&mut buf).unwrap());
        }
        assert_eq!(buf.read_remain(), 0);
    }
    out
}

fn count(segs: &Vec<Segment>, cmd: u8) -> usize {
    segs.iter().filter(|seg| seg.cmd == cmd).count()
}

fn deliver(frames: &Vec<Vec<u8>>, to: &mut KCP) {
    for frame in frames {
        let mut buf = filled(frame);
        assert_eq!(to.input(&mut buf), 0);
    }
}

fn pattern(len: usize) -> Vec<u8> {
    let mut bytes: Vec<u8> = Vec::with_capacity(len);
    let mut i: usize = 0;
    while i < len {
        bytes.push((i % 251) as u8);
        i += 1;
    }
    bytes
}

fn open_sender() -> KCP {
    let mut kcp = KCP::new(1);
    assert_eq!(kcp.no_delay(0, 10, 0, 1), 0);
    kcp
}

#[test]
fn test_kcp() {
    let kcp = KCP::new(22);
    assert!(kcp.conv() == 22);
    assert!(kcp.snd_wnd() == WND_SND);
    assert!(kcp.rcv_wnd() == WND_RCV);
    assert!(kcp.rmt_wnd() == WND_RCV);
    assert!(kcp.mtu() == MTU_DEF);
    assert!(kcp.mss() == kcp.mtu() - OVERHEAD);
    assert!(kcp.rx_rto() == RTO_DEF);
    assert!(kcp.rx_minrto() == RTO_MIN);
    assert!(kcp.interval() == INTERVAL);
    assert!(kcp.ts_flush() == INTERVAL);
    assert!(kcp.ssthresh() == THRESH_INIT);
    assert!(kcp.dead_link() == DEADLINK);
}

#[test]
fn defaults_have_the_documented_values() {
    assert_eq!(MTU_DEF, 1400);
    assert_eq!(WND_SND, 32);
    assert_eq!(WND_RCV, 32);
    assert_eq!(INTERVAL, 100);
    assert_eq!(RTO_DEF, 200);
    assert_eq!(RTO_MIN, 100);
    assert_eq!(RTO_NDL, 30);
    assert_eq!(RTO_MAX, 60000);
    assert_eq!(THRESH_INIT, 2);
    assert_eq!(DEADLINK, 20);
    let kcp = KCP::new(7);
    assert_eq!(kcp.mss(), 1376);
    assert_eq!(kcp.state(), 0);
    assert_eq!(kcp.snd_una(), 0);
    assert_eq!(kcp.snd_nxt(), 0);
    assert_eq!(kcp.rcv_nxt(), 0);
    assert_eq!(kcp.cwnd(), 0);
    assert_eq!(kcp.incr(), 0);
    assert_eq!(kcp.probe(), 0);
    assert_eq!(kcp.xmit(), 0);
    assert_eq!(kcp.current(), 0);
    assert_eq!(kcp.rx_srtt(), 0);
    assert_eq!(kcp.rx_rttval(), 0);
    assert_eq!(kcp.wait_snd(), 0);
    assert_eq!(kcp.peek_size(), -1);
    assert_eq!(kcp.rcv_buf_len(), 0);
    assert_eq!(kcp.rcv_queue_len(), 0);
}

#[test]
fn send_of_nothing_is_refused() {
    let mut kcp = KCP::new(1);
    let mut empty = ByteBuffer::with_capacity(0);
    assert_eq!(kcp.send(&mut empty), -1);
    assert_eq!(kcp.wait_snd(), 0);
    let mut consumed = filled(&[1, 2, 3]);
    consumed.read_bytes(3).unwrap();
    assert_eq!(kcp.send(&mut consumed), -1);
    assert_eq!(kcp.wait_snd(), 0);
}

#[test]
fn send_of_255_full_fragments_succeeds() {
    let mut kcp = KCP::new(1);
    let mut payload = ByteBuffer::with_capacity(255 * 1376);
    assert_eq!(kcp.send(&mut payload), 0);
    assert_eq!(kcp.wait_snd(), 255);
    assert_eq!(payload.read_remain(), 0);
}

#[test]
fn send_of_256_full_fragments_is_refused() {
    let mut kcp = KCP::new(1);
    let mut payload = ByteBuffer::with_capacity(256 * 1376);
    assert_eq!(kcp.send(&mut payload), -2);
    assert_eq!(kcp.wait_snd(), 0);
    assert_eq!(payload.read_remain(), 256 * 1376);
}

#[test]
fn send_of_one_byte_more_than_255_fragments_is_refused() {
    let mut kcp = KCP::new(1);
    let mut payload = ByteBuffer::with_capacity(255 * 1376 + 1);
    assert_eq!(kcp.send(&mut payload), -2);
    assert_eq!(kcp.wait_snd(), 0);
    assert_eq!(payload.get_rpos(), 0);
}

#[test]
fn send_takes_the_unread_bytes_only() {
    let mut kcp = open_sender();
    let mut payload = filled(&[9, 8, 7, 6, 5]);
    payload.read_bytes(2).unwrap();
    assert_eq!(kcp.send(&mut payload), 0);
    assert_eq!(payload.read_remain(), 0);
    let sent = segments(&kcp.update(0));
    assert_eq!(sent.len(), 1);
    assert_eq!(sent[0].data, vec![7u8, 6, 5]);
}

#[test]
fn send_cuts_the_payload_into_fragments_counting_down() {
    let mut kcp = open_sender();
    let bytes = pattern(3000);
    assert_eq!(kcp.send(&mut filled(&bytes)), 0);
    assert_eq!(kcp.wait_snd(), 3);
    let frames = kcp.update(0);
    assert_eq!(frames.len(), 3);
    assert_eq!(frames[0].len(), 1400);
    assert_eq!(frames[1].len(), 1400);
    assert_eq!(frames[2].len(), 272);
    let sent = segments(&frames);
    assert_eq!(sent.len(), 3);
    let mut i: usize = 0;
    while i < 3 {
        assert_eq!(sent[i].conv, 1);
        assert_eq!(sent[i].cmd, CMD_PUSH);
        assert_eq!(sent[i].frg as usize, 2 - i);
        assert_eq!(sent[i].sn as usize, i);
        assert_eq!(sent[i].wnd, 32);
        assert_eq!(sent[i].una, 0);
        assert_eq!(sent[i].ts, 0);
        i += 1;
    }
    assert_eq!(sent[0].data, bytes[0..1376].to_vec());
    assert_eq!(sent[1].data, bytes[1376..2752].to_vec());
    assert_eq!(sent[2].data, bytes[2752..3000].to_vec());
    assert_eq!(kcp.snd_nxt(), 3);
    assert_eq!(kcp.snd_una(), 0);
    assert_eq!(kcp.wait_snd(), 3);
}

#[test]
fn send_of_exactly_one_segment_is_one_fragment() {
    let mut kcp = open_sender();
    assert_eq!(kcp.send(&mut filled(&pattern(1376))), 0);
    assert_eq!(kcp.wait_snd(), 1);
    assert_eq!(kcp.send(&mut filled(&pattern(1377))), 0);
    assert_eq!(kcp.wait_snd(), 3);
    let sent = segments(&kcp.update(0));
    assert_eq!(sent.len(), 3);
    assert_eq!(sent[0].frg, 0);
    assert_eq!(sent[0].data.len(), 1376);
    assert_eq!(sent[1].frg, 1);
    assert_eq!(sent[1].data.len(), 1376);
    assert_eq!(sent[2].frg, 0);
    assert_eq!(sent[2].data.len(), 1);
}

#[test]
fn flush_before_the_first_update_does_nothing() {
    let mut kcp = open_sender();
    assert_eq!(kcp.send(&mut filled(&[1])), 0);
    assert!(kcp.flush().is_empty());
    assert_eq!(kcp.cwnd(), 0);
    assert_eq!(kcp.snd_nxt(), 0);
    assert_eq!(kcp.wait_snd(), 1);
}

#[test]
fn flush_leaves_a_congestion_window_of_at_least_one() {
    let mut kcp = KCP::new(1);
    assert_eq!(kcp.send(&mut filled(&[1])), 0);
    assert_eq!(kcp.send(&mut filled(&[2])), 0);
    let frames = kcp.update(0);
    assert!(frames.is_empty());
    assert_eq!(kcp.cwnd(), 1);
    assert_eq!(kcp.incr(), 1376);
    let sent = segments(&kcp.update(100));
    assert_eq!(sent.len(), 1);
    assert_eq!(sent[0].sn, 0);
    assert_eq!(sent[0].ts, 100);
    assert!(kcp.cwnd() >= 1);
    let again = kcp.flush();
    assert!(again.is_empty());
    assert!(kcp.cwnd() >= 1);
}

#[test]
fn recv_of_nothing_is_refused() {
    let mut kcp = KCP::new(1);
    let mut out = ByteBuffer::with_capacity(10);
    assert_eq!(kcp.recv(&mut out), -1);
    assert_eq!(out.get_wpos(), 0);
}

#[test]
fn recv_hands_over_one_message() {
    let mut kcp = KCP::new(1);
    assert_eq!(kcp.input(&mut datagram(&[push(0, 0, b"hello")])), 0);
    assert_eq!(kcp.rcv_queue_len(), 1);
    assert_eq!(kcp.rcv_nxt(), 1);
    assert_eq!(kcp.peek_size(), 5);
    let mut out = ByteBuffer::with_capacity(8);
    assert_eq!(kcp.recv(&mut out), 5);
    assert_eq!(out.get_wpos(), 5);
    assert_eq!(out.to_bytes(), vec![b'h', b'e', b'l', b'l', b'o', 0, 0, 0]);
    assert_eq!(kcp.rcv_queue_len(), 0);
    assert_eq!(kcp.peek_size(), -1);
    assert_eq!(kcp.recv(&mut out), -1);
}

#[test]
fn recv_of_an_incomplete_message_is_refused() {
    let mut kcp = KCP::new(1);
    assert_eq!(kcp.input(&mut datagram(&[push(0, 2, b"ab"), push(1, 1, b"cd")])), 0);
    assert_eq!(kcp.rcv_queue_len(), 2);
    assert_eq!(kcp.peek_size(), -1);
    let mut out = ByteBuffer::with_capacity(16);
    assert_eq!(kcp.recv(&mut out), -2);
    assert_eq!(out.get_wpos(), 0);
    assert_eq!(kcp.rcv_queue_len(), 2);
    assert_eq!(kcp.input(&mut datagram(&[push(2, 0, b"e")])), 0);
    assert_eq!(kcp.peek_size(), 5);
    assert_eq!(kcp.recv(&mut out), 5);
    assert_eq!(out.to_bytes()[0..5].to_vec(), b"abcde".to_vec());
    assert_eq!(kcp.rcv_queue_len(), 0);
}

#[test]
fn recv_into_too_little_room_is_refused() {
    let mut kcp = KCP::new(1);
    assert_eq!(kcp.input(&mut datagram(&[push(0, 0, b"hello")])), 0);
    let mut small = ByteBuffer::with_capacity(4);
    assert_eq!(kcp.recv(&mut small), -3);
    assert_eq!(small.get_wpos(), 0);
    assert_eq!(kcp.rcv_queue_len(), 1);
    let mut used = ByteBuffer::with_capacity(8);
    used.write_u32(0).unwrap();
    assert_eq!(kcp.recv(&mut used), -3);
    assert_eq!(used.get_wpos(), 4);
    let mut exact = ByteBuffer::with_capacity(5);
    assert_eq!(kcp.recv(&mut exact), 5);
    assert_eq!(exact.to_bytes(), b"hello".to_vec());
}

#[test]
fn recv_hands_over_messages_one_at_a_time_in_order() {
    let mut kcp = KCP::new(1);
    assert_eq!(
        kcp.input(&mut datagram(&[push(0, 0, b"one"), push(1, 1, b"tw"), push(2, 0, b"o")])),
        0
    );
    assert_eq!(kcp.peek_size(), 3);
    let mut out = ByteBuffer::with_capacity(3);
    assert_eq!(kcp.recv(&mut out), 3);
    assert_eq!(out.to_bytes(), b"one".to_vec());
    assert_eq!(kcp.peek_size(), 3);
    let mut out = ByteBuffer::with_capacity(3);
    assert_eq!(kcp.recv(&mut out), 3);
    assert_eq!(out.to_bytes(), b"two".to_vec());
}

#[test]
fn input_of_a_short_datagram_is_refused() {
    let mut kcp = KCP::new(1);
    let mut short = ByteBuffer::with_capacity(23);
    assert_eq!(kcp.input(&mut short), -1);
    assert_eq!(short.get_rpos(), 0);
    let mut empty = ByteBuffer::with_capacity(0);
    assert_eq!(kcp.input(&mut empty), -1);
}

#[test]
fn input_of_another_conversation_is_refused() {
    let mut kcp = KCP::new(1);
    let mut data = datagram(&[segment(2, CMD_PUSH, 0, 5, 0, 0, 0, b"x")]);
    assert_eq!(kcp.input(&mut data), -1);
    assert_eq!(data.get_rpos(), 0);
    assert_eq!(kcp.rmt_wnd(), 32);
    assert_eq!(kcp.rcv_queue_len(), 0);
}

#[test]
fn input_of_a_payload_cut_short_is_refused() {
    let mut kcp = KCP::new(1);
    let whole = datagram(&[segment(1, CMD_PUSH, 0, 5, 0, 0, 0, &pattern(10))]).to_bytes();
    let mut data = filled(&whole[0..29]);
    assert_eq!(kcp.input(&mut data), -2);
    assert_eq!(data.get_rpos(), 0);
    assert_eq!(kcp.rmt_wnd(), 32);
    assert_eq!(kcp.rcv_queue_len(), 0);
}

#[test]
fn input_of_an_unknown_command_is_refused() {
    let mut kcp = KCP::new(1);
    let mut low = datagram(&[segment(1, 80, 0, 5, 0, 0, 0, &[])]);
    assert_eq!(kcp.input(&mut low), -3);
    let mut high = datagram(&[segment(1, 85, 0, 5, 0, 0, 0, &[])]);
    assert_eq!(kcp.input(&mut high), -3);
    assert_eq!(high.get_rpos(), 0);
    assert_eq!(kcp.rmt_wnd(), 32);
}

#[test]
fn input_checks_conversation_before_length_before_command() {
    let mut kcp = KCP::new(1);
    let whole = datagram(&[segment(2, 85, 0, 5, 0, 0, 0, &pattern(10))]).to_bytes();
    assert_eq!(kcp.input(&mut filled(&whole[0..29])), -1);
    let whole = datagram(&[segment(1, 85, 0, 5, 0, 0, 0, &pattern(10))]).to_bytes();
    assert_eq!(kcp.input(&mut filled(&whole[0..29])), -2);
    assert_eq!(kcp.input(&mut filled(&whole)), -3);
}

#[test]
fn input_keeps_what_the_segments_before_a_bad_one_did() {
    let mut kcp = KCP::new(1);
    let mut data = datagram(&[
        segment(1, CMD_PUSH, 0, 7, 0, 0, 0, b"ok"),
        segment(1, 99, 0, 9, 0, 1, 0, b"bad"),
    ]);
    assert_eq!(kcp.input(&mut data), -3);
    assert_eq!(data.get_rpos(), 26);
    assert_eq!(kcp.rmt_wnd(), 7);
    assert_eq!(kcp.rcv_queue_len(), 1);
    assert_eq!(kcp.rcv_nxt(), 1);
}

#[test]
fn input_leaves_a_tail_shorter_than_a_header_unread() {
    let mut kcp = KCP::new(1);
    let mut bytes = datagram(&[segment(1, CMD_WINS, 0, 9, 0, 0, 0, &[])]).to_bytes();
    bytes.extend(vec![1u8, 2, 3]);
    let mut data = filled(&bytes);
    assert_eq!(kcp.input(&mut data), 0);
    assert_eq!(data.get_rpos(), 24);
    assert_eq!(kcp.rmt_wnd(), 9);
}

#[test]
fn input_skips_the_payload_of_a_segment_that_is_not_data() {
    let mut kcp = KCP::new(1);
    let mut data = datagram(&[
        segment(1, CMD_WINS, 0, 9, 0, 0, 0, b"ignored"),
        segment(1, CMD_PUSH, 0, 11, 0, 0, 0, b"kept"),
    ]);
    assert_eq!(kcp.input(&mut data), 0);
    assert_eq!(data.read_remain(), 0);
    assert_eq!(kcp.rmt_wnd(), 11);
    assert_eq!(kcp.peek_size(), 4);
}

#[test]
fn segment_at_the_end_of_the_window_is_dropped() {
    let mut kcp = KCP::new(1);
    assert_eq!(kcp.rcv_nxt() + kcp.rcv_wnd(), 32);
    assert_eq!(kcp.input(&mut datagram(&[push(32, 0, b"x")])), 0);
    assert_eq!(kcp.rcv_buf_len(), 0);
    assert_eq!(kcp.rcv_queue_len(), 0);
    let sent = segments(&kcp.update(0));
    assert_eq!(count(&sent, CMD_ACK), 0);
}

#[test]
fn segment_just_inside_the_window_is_accepted() {
    let mut kcp = KCP::new(1);
    assert_eq!(kcp.input(&mut datagram(&[push(31, 0, b"x")])), 0);
    assert_eq!(kcp.rcv_buf_len(), 1);
    assert_eq!(kcp.rcv_queue_len(), 0);
    let sent = segments(&kcp.update(0));
    assert_eq!(count(&sent, CMD_ACK), 1);
    assert_eq!(sent[0].sn, 31);
    assert_eq!(sent[0].una, 0);
}

#[test]
fn segment_behind_the_window_is_acknowledged_and_dropped() {
    let mut kcp = KCP::new(1);
    assert_eq!(kcp.input(&mut datagram(&[push(0, 0, b"a")])), 0);
    assert_eq!(kcp.rcv_nxt(), 1);
    assert_eq!(kcp.input(&mut datagram(&[push(0, 0, b"a")])), 0);
    assert_eq!(kcp.rcv_queue_len(), 1);
    assert_eq!(kcp.rcv_buf_len(), 0);
    let sent = segments(&kcp.update(0));
    assert_eq!(count(&sent, CMD_ACK), 2);
    assert_eq!(sent[0].una, 1);
}

#[test]
fn window_follows_the_next_expected_number_around_the_wrap() {
    let mut kcp = KCP::new(1);
    assert_eq!(kcp.wnd_size(0, 4), 0);
    assert_eq!(kcp.input(&mut datagram(&[push(0xffff_ffff, 0, b"x")])), 0);
    assert_eq!(kcp.rcv_buf_len(), 0);
    assert_eq!(kcp.input(&mut datagram(&[push(4, 0, b"x")])), 0);
    assert_eq!(kcp.rcv_buf_len(), 0);
    assert_eq!(kcp.input(&mut datagram(&[push(3, 0, b"x")])), 0);
    assert_eq!(kcp.rcv_buf_len(), 1);
}

#[test]
fn duplicate_segment_is_discarded() {
    let mut kcp = KCP::new(1);
    assert_eq!(kcp.input(&mut datagram(&[push(5, 0, b"first")])), 0);
    assert_eq!(kcp.rcv_buf_len(), 1);
    assert_eq!(kcp.input(&mut datagram(&[push(5, 0, b"again")])), 0);
    assert_eq!(kcp.rcv_buf_len(), 1);
    assert_eq!(kcp.input(&mut datagram(&[push(3, 0, b"x"), push(3, 0, b"y"), push(5, 0, b"z")])), 0);
    assert_eq!(kcp.rcv_buf_len(), 2);
    assert_eq!(kcp.rcv_queue_len(), 0);
}

#[test]
fn segments_out_of_order_are_delivered_in_order() {
    let mut kcp = KCP::new(1);
    assert_eq!(
        kcp.input(&mut datagram(&[push(3, 0, b"d"), push(1, 0, b"b"), push(2, 0, b"c")])),
        0
    );
    assert_eq!(kcp.rcv_buf_len(), 3);
    assert_eq!(kcp.rcv_queue_len(), 0);
    assert_eq!(kcp.rcv_nxt(), 0);
    assert_eq!(kcp.recv(&mut ByteBuffer::with_capacity(1)), -1);
    assert_eq!(kcp.input(&mut datagram(&[push(0, 0, b"a")])), 0);
    assert_eq!(kcp.rcv_buf_len(), 0);
    assert_eq!(kcp.rcv_queue_len(), 4);
    assert_eq!(kcp.rcv_nxt(), 4);
    for expected in [b'a', b'b', b'c', b'd'] {
        let mut out = ByteBuffer::with_capacity(1);
        assert_eq!(kcp.recv(&mut out), 1);
        assert_eq!(out.to_bytes(), vec![expected]);
    }
}

#[test]
fn delivery_stops_when_the_queue_is_as_long_as_the_window() {
    let mut kcp = KCP::new(1);
    assert_eq!(kcp.wnd_size(0, 2), 0);
    assert_eq!(kcp.input(&mut datagram(&[push(1, 0, b"b")])), 0);
    assert_eq!(kcp.input(&mut datagram(&[push(0, 0, b"a")])), 0);
    assert_eq!(kcp.rcv_queue_len(), 2);
    assert_eq!(kcp.rcv_nxt(), 2);
    assert_eq!(kcp.input(&mut datagram(&[push(2, 0, b"c")])), 0);
    assert_eq!(kcp.rcv_queue_len(), 2);
    assert_eq!(kcp.rcv_buf_len(), 1);
    assert_eq!(kcp.rcv_nxt(), 2);
    assert_eq!(kcp.probe(), 0);
    let mut out = ByteBuffer::with_capacity(1);
    assert_eq!(kcp.recv(&mut out), 1);
    assert_eq!(kcp.rcv_queue_len(), 2);
    assert_eq!(kcp.rcv_buf_len(), 0);
    assert_eq!(kcp.rcv_nxt(), 3);
    assert_eq!(kcp.probe(), 0);
    let mut out = ByteBuffer::with_capacity(1);
    assert_eq!(kcp.recv(&mut out), 1);
    assert_eq!(kcp.rcv_queue_len(), 1);
    assert_eq!(kcp.probe(), 2);
    let sent = segments(&kcp.update(0));
    assert_eq!(count(&sent, CMD_WINS), 1);
    assert_eq!(kcp.probe(), 0);
}

#[test]
fn advertised_window_is_what_is_left_of_the_receive_window() {
    let mut kcp = KCP::new(1);
    assert_eq!(kcp.wnd_size(0, 3), 0);
    assert_eq!(kcp.input(&mut datagram(&[push(0, 0, b"a"), push(1, 0, b"b")])), 0);
    let sent = segments(&kcp.update(0));
    assert_eq!(sent.len(), 2);
    assert_eq!(sent[0].cmd, CMD_ACK);
    assert_eq!(sent[0].wnd, 1);
    assert_eq!(sent[0].sn, 0);
    assert_eq!(sent[1].sn, 1);
    assert_eq!(sent[1].wnd, 1);
    assert_eq!(sent[1].una, 2);
    assert_eq!(kcp.input(&mut datagram(&[push(2, 0, b"c"), push(3, 0, b"d")])), 0);
    let sent = segments(&kcp.update(100));
    assert_eq!(sent.len(), 2);
    assert_eq!(sent[0].wnd, 0);
    assert_eq!(sent[0].sn, 2);
    assert_eq!(sent[0].una, 3);
    assert_eq!(sent[1].sn, 3);
}

#[test]
fn acknowledgements_echo_the_timestamp_and_empty_the_list() {
    let mut kcp = KCP::new(0xaabb_ccdd);
    let data = segment(0xaabb_ccdd, CMD_PUSH, 0, 32, 0x0102_0304, 0, 0, b"x");
    assert_eq!(kcp.input(&mut datagram(&[data])), 0);
    let frames = kcp.update(50);
    assert_eq!(frames.len(), 1);
    assert_eq!(frames[0].len(), 24);
    let sent = segments(&frames);
    assert_eq!(sent[0].conv, 0xaabb_ccdd);
    assert_eq!(sent[0].cmd, CMD_ACK);
    assert_eq!(sent[0].frg, 0);
    assert_eq!(sent[0].wnd, 31);
    assert_eq!(sent[0].ts, 0x0102_0304);
    assert_eq!(sent[0].sn, 0);
    assert_eq!(sent[0].una, 1);
    assert!(sent[0].data.is_empty());
    assert!(kcp.update(150).is_empty());
}

#[test]
fn acknowledgements_are_packed_up_to_the_unit() {
    let mut kcp = KCP::new(1);
    assert_eq!(kcp.set_mtu(50), 0);
    assert_eq!(
        kcp.input(&mut datagram(&[push(0, 0, b"a"), push(1, 0, b"b"), push(2, 0, b"c")])),
        0
    );
    let frames = kcp.update(0);
    assert_eq!(frames.len(), 2);
    assert_eq!(frames[0].len(), 48);
    assert_eq!(frames[1].len(), 24);
    let sent = segments(&frames);
    assert_eq!(sent[0].sn, 0);
    assert_eq!(sent[1].sn, 1);
    assert_eq!(sent[2].sn, 2);
}

#[test]
fn cumulative_acknowledgement_releases_everything_behind_it() {
    let mut kcp = open_sender();
    let mut i: u8 = 0;
    while i < 10 {
        assert_eq!(kcp.send(&mut filled(&[i])), 0);
        i += 1;
    }
    let sent = segments(&kcp.update(0));
    assert_eq!(count(&sent, CMD_PUSH), 10);
    assert_eq!(kcp.wait_snd(), 10);
    assert_eq!(kcp.snd_nxt(), 10);
    assert_eq!(kcp.input(&mut datagram(&[segment(1, CMD_WINS, 0, 32, 0, 0, 7, &[])])), 0);
    assert_eq!(kcp.wait_snd(), 3);
    assert_eq!(kcp.snd_una(), 7);
    assert_eq!(kcp.snd_nxt(), 10);
}

#[test]
fn single_acknowledgement_releases_its_segment() {
    let mut kcp = open_sender();
    let mut i: u8 = 0;
    while i < 10 {
        assert_eq!(kcp.send(&mut filled(&[i])), 0);
        i += 1;
    }
    kcp.update(0);
    assert_eq!(kcp.input(&mut datagram(&[ack(8, 0, 0)])), 0);
    assert_eq!(kcp.wait_snd(), 9);
    assert_eq!(kcp.snd_una(), 0);
    assert_eq!(kcp.input(&mut datagram(&[ack(8, 0, 0), ack(0, 0, 0)])), 0);
    assert_eq!(kcp.wait_snd(), 8);
    assert_eq!(kcp.snd_una(), 1);
    assert_eq!(kcp.input(&mut datagram(&[ack(8, 0, 7)])), 0);
    assert_eq!(kcp.wait_snd(), 2);
    assert_eq!(kcp.snd_una(), 7);
    assert_eq!(kcp.input(&mut datagram(&[ack(7, 0, 7)])), 0);
    assert_eq!(kcp.wait_snd(), 1);
    assert_eq!(kcp.snd_una(), 9);
    assert_eq!(kcp.input(&mut datagram(&[ack(9, 0, 10)])), 0);
    assert_eq!(kcp.wait_snd(), 0);
    assert_eq!(kcp.snd_una(), 10);
    assert_eq!(kcp.snd_nxt(), 10);
}

#[test]
fn acknowledgement_outside_the_window_releases_nothing() {
    let mut kcp = open_sender();
    assert_eq!(kcp.send(&mut filled(&[1])), 0);
    assert_eq!(kcp.send(&mut filled(&[2])), 0);
    kcp.update(0);
    assert_eq!(kcp.input(&mut datagram(&[ack(2, 0, 0)])), 0);
    assert_eq!(kcp.wait_snd(), 2);
    assert_eq!(kcp.input(&mut datagram(&[ack(0xffff_ffff, 0, 0)])), 0);
    assert_eq!(kcp.wait_snd(), 2);
    assert_eq!(kcp.snd_una(), 0);
    assert_eq!(kcp.snd_nxt(), 2);
}

#[test]
fn first_round_trip_sample_is_taken_as_it_is() {
    let mut kcp = open_sender();
    assert_eq!(kcp.send(&mut filled(&[1])), 0);
    assert_eq!(kcp.send(&mut filled(&[2])), 0);
    kcp.update(0);
    kcp.update(100);
    assert_eq!(kcp.input(&mut datagram(&[ack(0, 0, 1)])), 0);
    assert_eq!(kcp.rx_srtt(), 100);
    assert_eq!(kcp.rx_rttval(), 50);
    assert_eq!(kcp.rx_rto(), 300);
    kcp.update(150);
    assert_eq!(kcp.current(), 150);
    assert_eq!(kcp.input(&mut datagram(&[ack(1, 0, 2)])), 0);
    assert_eq!(kcp.rx_rttval(), 50);
    assert_eq!(kcp.rx_srtt(), 106);
    assert_eq!(kcp.rx_rto(), 306);
}

#[test]
fn retransmission_timeout_stays_between_floor_and_ceiling() {
    let mut kcp = open_sender();
    kcp.update(1_000_000);
    assert_eq!(kcp.input(&mut datagram(&[ack(0, 0, 0)])), 0);
    assert_eq!(kcp.rx_srtt(), 1_000_000);
    assert_eq!(kcp.rx_rttval(), 500_000);
    assert_eq!(kcp.rx_rto(), 60000);
    assert!(kcp.rx_minrto() <= kcp.rx_rto() && kcp.rx_rto() <= RTO_MAX);

    let mut quick = open_sender();
    quick.update(500);
    assert_eq!(quick.input(&mut datagram(&[ack(0, 500, 0)])), 0);
    assert_eq!(quick.rx_srtt(), 0);
    assert_eq!(quick.rx_rttval(), 0);
    assert_eq!(quick.rx_rto(), 100);
    assert_eq!(quick.no_delay(1, -1, -1, -1), 0);
    assert_eq!(quick.input(&mut datagram(&[ack(0, 499, 0)])), 0);
    assert_eq!(quick.rx_srtt(), 1);
    assert_eq!(quick.rx_rttval(), 0);
    assert_eq!(quick.rx_rto(), 30);
    assert!(quick.rx_minrto() <= quick.rx_rto() && quick.rx_rto() <= RTO_MAX);
}

#[test]
fn acknowledgement_from_the_future_is_not_sampled() {
    let mut kcp = open_sender();
    kcp.update(100);
    assert_eq!(kcp.input(&mut datagram(&[ack(0, 101, 0)])), 0);
    assert_eq!(kcp.rx_srtt(), 0);
    assert_eq!(kcp.rx_rto(), 200);
    assert_eq!(kcp.input(&mut datagram(&[ack(0, 0xffff_fff0, 0)])), 0);
    assert_eq!(kcp.rx_srtt(), 116);
    assert_eq!(kcp.rx_rttval(), 58);
    assert_eq!(kcp.rx_rto(), 348);
}

#[test]
fn congestion_window_opens_step_by_step() {
    let mut kcp = KCP::new(1);
    kcp.update(0);
    assert_eq!(kcp.cwnd(), 1);
    assert_eq!(kcp.incr(), 1376);
    assert_eq!(kcp.input(&mut datagram(&[segment(1, CMD_WINS, 0, 32, 0, 0, 0, &[])])), 0);
    assert_eq!(kcp.cwnd(), 2);
    assert_eq!(kcp.incr(), 2752);
    assert_eq!(kcp.input(&mut datagram(&[segment(1, CMD_WINS, 0, 32, 0, 0, 0, &[])])), 0);
    assert_eq!(kcp.cwnd(), 2);
    assert_eq!(kcp.incr(), 3526);
    assert_eq!(kcp.input(&mut datagram(&[segment(1, CMD_WINS, 0, 32, 0, 0, 0, &[])])), 0);
    assert_eq!(kcp.cwnd(), 3);
    assert_eq!(kcp.incr(), 4148);
    assert_eq!(kcp.input(&mut datagram(&[segment(1, CMD_WINS, 0, 3, 0, 0, 0, &[])])), 0);
    assert_eq!(kcp.cwnd(), 3);
    assert_eq!(kcp.incr(), 4148);
    assert_eq!(kcp.input(&mut datagram(&[segment(1, CMD_WINS, 0, 2, 0, 0, 0, &[])])), 0);
    assert_eq!(kcp.cwnd(), 3);
    assert_eq!(kcp.rmt_wnd(), 2);
}

#[test]
fn window_stays_shut_until_the_congestion_window_opens() {
    let mut kcp = KCP::new(1);
    let mut i: u8 = 0;
    while i < 5 {
        assert_eq!(kcp.send(&mut filled(&[i])), 0);
        i += 1;
    }
    assert!(kcp.update(0).is_empty());
    assert_eq!(count(&segments(&kcp.update(100)), CMD_PUSH), 1);
    assert_eq!(kcp.input(&mut datagram(&[ack(0, 100, 1)])), 0);
    assert_eq!(kcp.cwnd(), 2);
    assert_eq!(count(&segments(&kcp.update(200)), CMD_PUSH), 2);
    assert_eq!(kcp.snd_nxt(), 3);
    assert_eq!(kcp.wait_snd(), 4);
}

#[test]
fn send_window_limits_what_is_in_flight() {
    let mut kcp = open_sender();
    assert_eq!(kcp.wnd_size(4, 0), 0);
    let mut i: u8 = 0;
    while i < 10 {
        assert_eq!(kcp.send(&mut filled(&[i])), 0);
        i += 1;
    }
    assert_eq!(count(&segments(&kcp.update(0)), CMD_PUSH), 4);
    assert_eq!(kcp.snd_nxt(), 4);
    assert_eq!(kcp.input(&mut datagram(&[ack(0, 0, 2)])), 0);
    assert_eq!(kcp.snd_una(), 2);
    let sent = segments(&kcp.update(10));
    assert_eq!(count(&sent, CMD_PUSH), 2);
    assert_eq!(sent[0].sn, 4);
    assert_eq!(sent[1].sn, 5);
    assert_eq!(kcp.snd_nxt(), 6);
}

#[test]
fn update_starts_and_keeps_the_flush_schedule() {
    let mut kcp = KCP::new(1);
    assert_eq!(kcp.check(5), 5);
    kcp.update(1000);
    assert_eq!(kcp.current(), 1000);
    assert_eq!(kcp.ts_flush(), 1100);
    kcp.update(1050);
    assert_eq!(kcp.current(), 1050);
    assert_eq!(kcp.ts_flush(), 1100);
    kcp.update(1100);
    assert_eq!(kcp.ts_flush(), 1200);
    kcp.update(1450);
    assert_eq!(kcp.ts_flush(), 1550);
    kcp.update(11550);
    assert_eq!(kcp.ts_flush(), 11650);
    kcp.update(1650);
    assert_eq!(kcp.ts_flush(), 1750);
    kcp.update(1700);
    assert_eq!(kcp.ts_flush(), 1750);
}

#[test]
fn update_across_the_wrap_of_the_clock() {
    let mut kcp = KCP::new(1);
    kcp.update(0xffff_ffc0);
    assert_eq!(kcp.ts_flush(), 36);
    assert_eq!(kcp.check(0xffff_fff0), 36);
    kcp.update(0xffff_fff0);
    assert_eq!(kcp.ts_flush(), 36);
    kcp.update(40);
    assert_eq!(kcp.ts_flush(), 136);
}

#[test]
fn check_gives_the_next_time_something_is_due() {
    let mut kcp = KCP::new(1);
    assert_eq!(kcp.check(77), 77);
    kcp.update(0);
    assert_eq!(kcp.check(0), 100);
    assert_eq!(kcp.check(40), 100);
    assert_eq!(kcp.check(99), 100);
    assert_eq!(kcp.check(100), 100);
    assert_eq!(kcp.check(150), 150);
    assert_eq!(kcp.check(20000), 20000);
    assert_eq!(kcp.check(0xffff_fff0), 84);

    let mut busy = KCP::new(1);
    assert_eq!(busy.no_delay(0, 5000, 0, 1), 0);
    assert_eq!(busy.send(&mut filled(&[1])), 0);
    assert_eq!(count(&segments(&busy.update(0)), CMD_PUSH), 1);
    assert_eq!(busy.ts_flush(), 5000);
    assert_eq!(busy.check(10), 225);
    assert_eq!(busy.check(224), 225);
    assert_eq!(busy.check(225), 225);
    assert_eq!(busy.check(300), 300);
    assert_eq!(busy.input(&mut datagram(&[ack(0, 0, 1)])), 0);
    assert_eq!(busy.check(10), 5000);
    assert_eq!(busy.check(4000), 5000);
    assert_eq!(busy.no_delay(-1, 300, -1, -1), 0);
    assert_eq!(busy.check(10), 310);
}

#[test]
fn set_mtu_sets_unit_and_segment_size() {
    let mut kcp = KCP::new(1);
    assert_eq!(MTU_MIN, 50);
    assert_eq!(kcp.set_mtu(49), -1);
    assert_eq!(kcp.set_mtu(0), -1);
    assert_eq!(kcp.set_mtu(-1), -1);
    assert_eq!(kcp.set_mtu(MTU_MAX as isize + 1), -1);
    assert_eq!(kcp.set_mtu(isize::MAX), -1);
    assert_eq!(kcp.mtu(), 1400);
    assert_eq!(kcp.mss(), 1376);
    assert_eq!(kcp.set_mtu(50), 0);
    assert_eq!(kcp.mtu(), 50);
    assert_eq!(kcp.mss(), 26);
    assert_eq!(kcp.set_mtu(9000), 0);
    assert_eq!(kcp.mtu(), 9000);
    assert_eq!(kcp.mss(), 8976);
}

#[test]
fn set_mtu_changes_how_payloads_are_cut() {
    let mut kcp = open_sender();
    assert_eq!(kcp.set_mtu(124), 0);
    assert_eq!(kcp.send(&mut filled(&pattern(250))), 0);
    assert_eq!(kcp.wait_snd(), 3);
    let frames = kcp.update(0);
    assert_eq!(frames.len(), 3);
    assert_eq!(frames[0].len(), 124);
    assert_eq!(frames[1].len(), 124);
    assert_eq!(frames[2].len(), 74);
    assert_eq!(kcp.send(&mut filled(&pattern(255 * 100 + 1))), -2);
    assert_eq!(kcp.send(&mut filled(&pattern(255 * 100))), 0);
}

#[test]
fn segment_too_long_for_a_smaller_unit_goes_out_alone() {
    let mut kcp = open_sender();
    assert_eq!(kcp.send(&mut filled(&pattern(100))), 0);
    assert_eq!(kcp.send(&mut filled(&pattern(10))), 0);
    assert_eq!(kcp.set_mtu(50), 0);
    let frames = kcp.update(0);
    assert_eq!(frames.len(), 2);
    assert_eq!(frames[0].len(), 124);
    assert_eq!(frames[1].len(), 34);
    let sent = segments(&frames);
    assert_eq!(sent[0].data, pattern(100));
    assert_eq!(sent[1].data, pattern(10));
}

#[test]
fn segment_too_long_for_the_scratch_area_is_left_out() {
    let mut kcp = open_sender();
    assert_eq!(kcp.send(&mut filled(&pattern(199))), 0);
    assert_eq!(kcp.send(&mut filled(&pattern(10))), 0);
    assert_eq!(kcp.set_mtu(50), 0);
    let frames = kcp.update(0);
    assert_eq!(frames.len(), 1);
    assert_eq!(frames[0].len(), 34);
    assert_eq!(kcp.snd_nxt(), 2);
    assert_eq!(kcp.wait_snd(), 2);
    assert_eq!(kcp.set_mtu(1400), 0);
    assert!(kcp.update(220).is_empty());
    let again = segments(&kcp.update(230));
    assert_eq!(again.len(), 2);
    assert_eq!(again[0].data, pattern(199));
    assert_eq!(again[1].data, pattern(10));
}

#[test]
fn no_delay_sets_the_mode() {
    let mut kcp = KCP::new(1);
    assert_eq!(kcp.no_delay(1, 10, 2, 1), 0);
    assert_eq!(kcp.rx_minrto(), 30);
    assert_eq!(kcp.interval(), 10);
    assert_eq!(kcp.no_delay(-1, -1, -1, -1), 0);
    assert_eq!(kcp.rx_minrto(), 30);
    assert_eq!(kcp.interval(), 10);
    assert_eq!(kcp.no_delay(0, 5, -1, -1), 0);
    assert_eq!(kcp.rx_minrto(), 100);
    assert_eq!(kcp.interval(), 10);
    assert_eq!(kcp.no_delay(7, 0, -1, -1), 0);
    assert_eq!(kcp.rx_minrto(), 30);
    assert_eq!(kcp.interval(), 10);
    assert_eq!(kcp.no_delay(-1, 5000, -1, -1), 0);
    assert_eq!(kcp.interval(), 5000);
    assert_eq!(kcp.no_delay(-1, 5001, -1, -1), 0);
    assert_eq!(kcp.interval(), 5000);
    assert_eq!(kcp.no_delay(-1, 4999, -1, -1), 0);
    assert_eq!(kcp.interval(), 4999);
    assert_eq!(kcp.no_delay(-1, isize::MAX, isize::MAX, isize::MAX), 0);
    assert_eq!(kcp.interval(), 5000);
}

#[test]
fn no_delay_shortens_the_first_timeout() {
    let mut slow = KCP::new(1);
    assert_eq!(slow.no_delay(0, 5000, 0, 1), 0);
    assert_eq!(slow.send(&mut filled(&[1])), 0);
    slow.update(0);
    assert_eq!(slow.check(1), 225);
    let mut fast = KCP::new(1);
    assert_eq!(fast.no_delay(1, 5000, 0, 1), 0);
    assert_eq!(fast.send(&mut filled(&[1])), 0);
    fast.update(0);
    assert_eq!(fast.check(1), 200);
}

#[test]
fn wnd_size_sets_positive_windows_only() {
    let mut kcp = KCP::new(1);
    assert_eq!(kcp.wnd_size(128, 64), 0);
    assert_eq!(kcp.snd_wnd(), 128);
    assert_eq!(kcp.rcv_wnd(), 64);
    assert_eq!(kcp.wnd_size(0, -5), 0);
    assert_eq!(kcp.snd_wnd(), 128);
    assert_eq!(kcp.rcv_wnd(), 64);
    assert_eq!(kcp.wnd_size(-1, 1), 0);
    assert_eq!(kcp.snd_wnd(), 128);
    assert_eq!(kcp.rcv_wnd(), 1);
    assert_eq!(kcp.wnd_size(1, 0), 0);
    assert_eq!(kcp.snd_wnd(), 1);
    assert_eq!(kcp.rcv_wnd(), 1);
    assert_eq!(kcp.rmt_wnd(), 32);
}

#[test]
fn wait_snd_counts_queued_and_flying_segments() {
    let mut kcp = open_sender();
    assert_eq!(kcp.wnd_size(2, 0), 0);
    assert_eq!(kcp.wait_snd(), 0);
    assert_eq!(kcp.send(&mut filled(&[1])), 0);
    assert_eq!(kcp.send(&mut filled(&[2])), 0);
    assert_eq!(kcp.send(&mut filled(&[3])), 0);
    assert_eq!(kcp.wait_snd(), 3);
    kcp.update(0);
    assert_eq!(kcp.snd_nxt(), 2);
    assert_eq!(kcp.wait_snd(), 3);
    assert_eq!(kcp.input(&mut datagram(&[ack(0, 0, 1)])), 0);
    assert_eq!(kcp.wait_snd(), 2);
}

#[test]
fn closed_remote_window_holds_data_back_and_probes() {
    let mut kcp = open_sender();
    assert_eq!(kcp.input(&mut datagram(&[segment(1, CMD_WINS, 0, 0, 0, 0, 0, &[])])), 0);
    assert_eq!(kcp.rmt_wnd(), 0);
    assert_eq!(kcp.send(&mut filled(&[1])), 0);
    assert!(kcp.update(0).is_empty());
    assert_eq!(kcp.wait_snd(), 1);
    assert_eq!(kcp.snd_nxt(), 0);
    assert!(kcp.update(6990).is_empty());
    let sent = segments(&kcp.update(7000));
    assert_eq!(sent.len(), 1);
    assert_eq!(sent[0].cmd, CMD_WASK);
    assert_eq!(sent[0].conv, 1);
    assert_eq!(sent[0].wnd, 32);
    assert_eq!(sent[0].una, 0);
    assert!(sent[0].data.is_empty());
    assert!(kcp.update(7010).is_empty());
    assert!(kcp.update(17490).is_empty());
    assert_eq!(count(&segments(&kcp.update(17500)), CMD_WASK), 1);
    assert!(kcp.update(33240).is_empty());
    assert_eq!(count(&segments(&kcp.update(33250)), CMD_WASK), 1);
    assert_eq!(kcp.snd_nxt(), 0);
    assert_eq!(kcp.input(&mut datagram(&[segment(1, CMD_WINS, 0, 5, 0, 0, 0, &[])])), 0);
    let sent = segments(&kcp.update(33260));
    assert_eq!(sent.len(), 1);
    assert_eq!(sent[0].cmd, CMD_PUSH);
    assert_eq!(kcp.snd_nxt(), 1);
    assert_eq!(kcp.input(&mut datagram(&[segment(1, CMD_ACK, 0, 0, 33260, 0, 1, &[])])), 0);
    assert_eq!(kcp.wait_snd(), 0);
    assert_eq!(kcp.rmt_wnd(), 0);
    assert!(kcp.update(33270).is_empty());
    assert!(kcp.update(40260).is_empty());
    assert_eq!(count(&segments(&kcp.update(40270)), CMD_WASK), 1);
}

#[test]
fn window_ask_is_answered_with_the_window() {
    let mut kcp = KCP::new(1);
    assert_eq!(kcp.input(&mut datagram(&[segment(1, CMD_WASK, 0, 32, 0, 0, 0, &[])])), 0);
    assert_eq!(kcp.probe(), 2);
    let sent = segments(&kcp.update(0));
    assert_eq!(sent.len(), 1);
    assert_eq!(sent[0].cmd, CMD_WINS);
    assert_eq!(sent[0].wnd, 32);
    assert_eq!(kcp.probe(), 0);
    assert!(kcp.update(100).is_empty());
}

#[test]
fn probes_carry_the_last_acknowledgement() {
    let mut kcp = KCP::new(1);
    assert_eq!(
        kcp.input(&mut datagram(&[
            segment(1, CMD_PUSH, 0, 32, 77, 0, 0, b"a"),
            segment(1, CMD_PUSH, 0, 32, 88, 1, 0, b"b"),
            segment(1, CMD_WASK, 0, 32, 0, 0, 0, &[]),
        ])),
        0
    );
    let sent = segments(&kcp.update(0));
    assert_eq!(sent.len(), 3);
    assert_eq!(sent[0].cmd, CMD_ACK);
    assert_eq!(sent[0].ts, 77);
    assert_eq!(sent[1].cmd, CMD_ACK);
    assert_eq!(sent[1].sn, 1);
    assert_eq!(sent[1].ts, 88);
    assert_eq!(sent[2].cmd, CMD_WINS);
    assert_eq!(sent[2].sn, 1);
    assert_eq!(sent[2].ts, 88);
    assert_eq!(sent[2].una, 2);
    assert_eq!(sent[2].wnd, 30);
}

#[test]
fn timed_out_segment_is_sent_again_with_a_longer_timeout() {
    let mut kcp = open_sender();
    assert_eq!(kcp.send(&mut filled(&[1])), 0);
    let first = segments(&kcp.update(0));
    assert_eq!(first.len(), 1);
    assert_eq!(first[0].ts, 0);
    assert!(kcp.update(220).is_empty());
    assert_eq!(kcp.xmit(), 0);
    let again = segments(&kcp.update(230));
    assert_eq!(again.len(), 1);
    assert_eq!(again[0].sn, 0);
    assert_eq!(again[0].ts, 230);
    assert_eq!(again[0].data, vec![1u8]);
    assert_eq!(kcp.xmit(), 1);
    assert_eq!(kcp.cwnd(), 1);
    assert_eq!(kcp.incr(), 1376);
    assert_eq!(kcp.ssthresh(), 16);
    assert!(kcp.update(620).is_empty());
    assert_eq!(count(&segments(&kcp.update(630)), CMD_PUSH), 1);
    assert_eq!(kcp.xmit(), 2);
    assert!(kcp.update(1220).is_empty());
    assert_eq!(count(&segments(&kcp.update(1230)), CMD_PUSH), 1);
    assert_eq!(kcp.xmit(), 3);
    assert_eq!(kcp.state(), 0);
}

#[test]
fn timeout_grows_by_half_steps_in_no_delay_mode() {
    let mut kcp = KCP::new(1);
    assert_eq!(kcp.no_delay(1, 10, 0, 1), 0);
    assert_eq!(kcp.send(&mut filled(&[1])), 0);
    assert_eq!(count(&segments(&kcp.update(0)), CMD_PUSH), 1);
    assert!(kcp.update(190).is_empty());
    assert_eq!(count(&segments(&kcp.update(200)), CMD_PUSH), 1);
    assert!(kcp.update(490).is_empty());
    assert_eq!(count(&segments(&kcp.update(500)), CMD_PUSH), 1);
    assert!(kcp.update(890).is_empty());
    assert_eq!(count(&segments(&kcp.update(900)), CMD_PUSH), 1);
    assert_eq!(kcp.xmit(), 3);
}

#[test]
fn segment_skipped_twice_is_sent_again_at_once() {
    let mut kcp = KCP::new(1);
    assert_eq!(kcp.no_delay(0, 10, 2, 1), 0);
    assert_eq!(kcp.wnd_size(128, 128), 0);
    let mut i: u8 = 0;
    while i < 21 {
        assert_eq!(kcp.send(&mut filled(&[i])), 0);
        i += 1;
    }
    assert_eq!(count(&segments(&kcp.update(0)), CMD_PUSH), 21);
    let mut first: Vec<Segment> = Vec::new();
    let mut second: Vec<Segment> = Vec::new();
    let mut sn: u32 = 0;
    while sn <= 20 {
        if sn < 5 || (sn > 5 && sn <= 12) {
            first.push(segment(1, CMD_ACK, 0, 128, 0, sn, 5, &[]));
        } else if sn > 12 {
            second.push(segment(1, CMD_ACK, 0, 128, 0, sn, 5, &[]));
        }
        sn += 1;
    }
    assert_eq!(kcp.input(&mut datagram(&first)), 0);
    assert_eq!(kcp.wait_snd(), 9);
    assert_eq!(kcp.snd_una(), 5);
    assert!(kcp.update(10).is_empty());
    assert_eq!(kcp.input(&mut datagram(&second)), 0);
    assert_eq!(kcp.wait_snd(), 1);
    assert_eq!(kcp.snd_una(), 5);
    assert_eq!(kcp.snd_nxt(), 21);
    let again = segments(&kcp.update(20));
    assert_eq!(again.len(), 1);
    assert_eq!(again[0].cmd, CMD_PUSH);
    assert_eq!(again[0].sn, 5);
    assert_eq!(again[0].ts, 20);
    assert_eq!(again[0].data, vec![5u8]);
    assert_eq!(kcp.xmit(), 0);
    assert_eq!(kcp.ssthresh(), 8);
    assert_eq!(kcp.cwnd(), 10);
    assert_eq!(kcp.incr(), 13760);
    assert!(kcp.update(30).is_empty());
    assert_eq!(kcp.state(), 0);
}

#[test]
fn segment_skipped_is_not_sent_again_with_fast_resend_off() {
    let mut kcp = open_sender();
    assert_eq!(kcp.send(&mut filled(&[0])), 0);
    assert_eq!(kcp.send(&mut filled(&[1])), 0);
    assert_eq!(kcp.send(&mut filled(&[2])), 0);
    kcp.update(0);
    assert_eq!(kcp.input(&mut datagram(&[ack(1, 0, 0)])), 0);
    assert_eq!(kcp.input(&mut datagram(&[ack(2, 0, 0)])), 0);
    assert_eq!(kcp.input(&mut datagram(&[ack(2, 0, 0)])), 0);
    assert_eq!(kcp.wait_snd(), 1);
    assert!(kcp.update(10).is_empty());
    assert!(kcp.update(220).is_empty());
    assert_eq!(count(&segments(&kcp.update(230)), CMD_PUSH), 1);
}

#[test]
fn link_is_dead_after_twenty_transmissions() {
    let mut kcp = KCP::new(1);
    assert_eq!(kcp.send(&mut filled(&[1])), 0);
    let mut now: u32 = 0;
    let mut sent: u32 = 0;
    let mut before: u32 = 0;
    while now < 60000 && kcp.state() == 0 {
        let frames = kcp.update(now);
        sent += count(&segments(&frames), CMD_PUSH) as u32;
        assert!(kcp.xmit() >= before);
        before = kcp.xmit();
        assert_eq!(kcp.wait_snd(), 1);
        if sent < 20 {
            assert_eq!(kcp.state(), 0);
        }
        now += 10;
    }
    assert_eq!(sent, 20);
    assert_eq!(kcp.state(), STATE_DEAD);
    assert_eq!(kcp.xmit(), 19);
    assert_eq!(kcp.wait_snd(), 1);
    let mut later: u32 = 0;
    while later < 5000 {
        sent += count(&segments(&kcp.update(now + later)), CMD_PUSH) as u32;
        later += 10;
    }
    assert!(sent > 20);
    assert_eq!(kcp.state(), STATE_DEAD);
    assert!(kcp.xmit() > 19);
    assert_eq!(kcp.wait_snd(), 1);
}

#[test]
fn sequence_numbers_stay_in_order_through_an_exchange() {
    let mut a = open_sender();
    let mut b = KCP::new(1);
    let mut now: u32 = 0;
    let mut round: u8 = 0;
    while round < 40 {
        assert_eq!(a.send(&mut filled(&[round])), 0);
        let frames = a.update(now);
        let mut kept: Vec<Vec<u8>> = Vec::new();
        for (i, frame) in frames.iter().enumerate() {
            if (i + round as usize) % 3 != 0 {
                kept.push(frame.clone());
            }
        }
        deliver(&kept, &mut b);
        while b.recv(&mut ByteBuffer::with_capacity(1)) >= 0 {}
        deliver(&b.update(now), &mut a);
        assert!(a.snd_una() <= a.snd_nxt());
        assert!(a.snd_nxt() - a.snd_una() <= 32);
        assert!(b.rcv_buf_len() <= 32);
        assert!(a.cwnd() >= 1);
        now += 10;
        round += 1;
    }
    while a.wait_snd() > 0 && now < 20000 {
        deliver(&a.update(now), &mut b);
        while b.recv(&mut ByteBuffer::with_capacity(1)) >= 0 {}
        deliver(&b.update(now), &mut a);
        assert!(a.snd_una() <= a.snd_nxt());
        now += 10;
    }
    assert_eq!(a.wait_snd(), 0);
    assert_eq!(a.snd_una(), 40);
    assert_eq!(a.snd_nxt(), 40);
    assert_eq!(b.rcv_nxt(), 40);
    assert_eq!(b.rcv_buf_len(), 0);
}

#[test]
fn fragmented_payload_arrives_whole() {
    let mut a = open_sender();
    let mut b = KCP::new(1);
    let bytes = pattern(5000);
    assert_eq!(a.send(&mut filled(&bytes)), 0);
    deliver(&a.update(0), &mut b);
    assert_eq!(b.rcv_queue_len(), 4);
    assert_eq!(b.peek_size(), 5000);
    let mut out = ByteBuffer::with_capacity(5000);
    assert_eq!(b.recv(&mut out), 5000);
    assert_eq!(out.to_bytes(), bytes);
    deliver(&b.update(0), &mut a);
    assert_eq!(a.wait_snd(), 0);
    assert_eq!(a.snd_una(), 4);
}

#[test]
fn full_receiver_stalls_the_sender_until_it_reads() {
    let mut a = KCP::new(1);
    let mut b = KCP::new(1);
    assert_eq!(a.no_delay(0, 10, 0, 1), 0);
    assert_eq!(b.no_delay(0, 10, 0, 1), 0);
    let mut i: u32 = 0;
    while i < 200 {
        let mut payload = ByteBuffer::with_capacity(4);
        payload.write_u32(i).unwrap();
        assert_eq!(a.send(&mut payload), 0);
        i += 1;
    }
    let mut now: u32 = 0;
    let mut asks: usize = 0;
    let mut pushes_while_shut: usize = 0;
    while now <= 20000 {
        let out = a.update(now);
        let segs = segments(&out);
        asks += count(&segs, CMD_WASK);
        if now > 1000 {
            pushes_while_shut += count(&segs, CMD_PUSH);
        }
        deliver(&out, &mut b);
        deliver(&b.update(now), &mut a);
        now += 10;
    }
    assert_eq!(b.rcv_queue_len(), 32);
    assert_eq!(a.rmt_wnd(), 0);
    assert_eq!(a.wait_snd(), 168);
    assert_eq!(asks, 2);
    assert_eq!(pushes_while_shut, 0);
    assert_eq!(a.state(), 0);
    let mut next: u32 = 0;
    while now <= 40000 {
        loop {
            let mut out = ByteBuffer::with_capacity(4);
            if b.recv(&mut out) < 0 {
                break;
            }
            assert_eq!(out.read_u32().unwrap(), next);
            next += 1;
        }
        deliver(&a.update(now), &mut b);
        deliver(&b.update(now), &mut a);
        now += 10;
    }
    assert_eq!(next, 200);
    assert_eq!(a.wait_snd(), 0);
    assert_eq!(a.state(), 0);
}

#[test]
fn window_ask_goes_out_alone_in_one_datagram() {
    let mut kcp = open_sender();
    assert_eq!(kcp.wnd_size(0, 5), 0);
    assert_eq!(kcp.input(&mut datagram(&[push(0, 0, b"a"), push(1, 0, b"b")])), 0);
    assert_eq!(kcp.input(&mut datagram(&[segment(1, CMD_WINS, 0, 0, 0, 0, 0, &[])])), 0);
    assert_eq!(count(&segments(&kcp.update(0)), CMD_ACK), 2);
    assert_eq!(kcp.probe(), 0);
    assert!(kcp.update(6990).is_empty());
    assert_eq!(kcp.probe(), 0);
    let frames = kcp.update(7000);
    assert_eq!(frames.len(), 1);
    assert_eq!(frames[0].len(), 24);
    let sent = segments(&frames);
    assert_eq!(sent[0].conv, 1);
    assert_eq!(sent[0].cmd, CMD_WASK);
    assert_eq!(sent[0].frg, 0);
    assert_eq!(sent[0].wnd, 3);
    assert_eq!(sent[0].una, 2);
    assert!(sent[0].data.is_empty());
    assert_eq!(kcp.probe(), 0);
    assert!(kcp.update(7010).is_empty());
}

#[test]
fn fast_resend_off_waits_for_the_timeout_however_often_skipped() {
    let mut kcp = open_sender();
    let mut i: u8 = 0;
    while i < 3 {
        assert_eq!(kcp.send(&mut filled(&[i])), 0);
        i += 1;
    }
    kcp.update(0);
    let mut round: u32 = 0;
    while round < 50 {
        assert_eq!(kcp.input(&mut datagram(&[ack(2, 0, 0)])), 0);
        round += 1;
    }
    assert_eq!(kcp.wait_snd(), 2);
    let mut now: u32 = 10;
    while now < 230 {
        assert!(kcp.update(now).is_empty());
        now += 10;
    }
    assert_eq!(kcp.xmit(), 0);
    let again = segments(&kcp.update(230));
    assert_eq!(again.len(), 2);
    assert_eq!(again[0].sn, 0);
    assert_eq!(again[1].sn, 1);
    assert_eq!(kcp.xmit(), 2);
    assert_eq!(kcp.cwnd(), 1);
}
