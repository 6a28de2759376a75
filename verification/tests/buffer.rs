use kcp::buf::{BufferResult, ByteBuffer};

#[test]
fn with_capacity_gives_zero_bytes_and_cursors_at_start() {
    let buf = ByteBuffer::with_capacity(5);
    assert_eq!(buf.len(), 5);
    assert_eq!(buf.read_remain(), 5);
    assert_eq!(buf.get_wpos(), 0);
    assert_eq!(buf.get_rpos(), 0);
    assert_eq!(buf.to_bytes(), vec![0u8, 0, 0, 0, 0]);
}

#[test]
fn with_capacity_zero_is_empty() {
    let mut buf = ByteBuffer::with_capacity(0);
    assert_eq!(buf.len(), 0);
    assert_eq!(buf.read_remain(), 0);
    assert_eq!(buf.write_u8(1), Err(BufferResult::WriteOverflow));
    assert_eq!(buf.read_u8_as_u32(), Err(BufferResult::ReadOverflow));
}

#[test]
fn write_u32_stores_low_byte_first() {
    let mut buf = ByteBuffer::with_capacity(4);
    assert_eq!(buf.write_u32(0x1122_3344), Ok(()));
    assert_eq!(buf.to_bytes(), vec![0x44u8, 0x33, 0x22, 0x11]);
    assert_eq!(buf.get_wpos(), 4);
}

#[test]
fn write_u16_stores_low_byte_first() {
    let mut buf = ByteBuffer::with_capacity(2);
    assert_eq!(buf.write_u16(0xabcd), Ok(()));
    assert_eq!(buf.to_bytes(), vec![0xcdu8, 0xab]);
    assert_eq!(buf.get_wpos(), 2);
}

#[test]
fn write_u8_stores_the_byte() {
    let mut buf = ByteBuffer::with_capacity(2);
    assert_eq!(buf.write_u8(0x7f), Ok(()));
    assert_eq!(buf.write_u8(0x80), Ok(()));
    assert_eq!(buf.to_bytes(), vec![0x7fu8, 0x80]);
}

#[test]
fn read_u32_takes_low_byte_first() {
    let mut buf = ByteBuffer::with_capacity(4);
    assert_eq!(buf.write_bytes(&[0x44u8, 0x33, 0x22, 0x11]), Ok(()));
    assert_eq!(buf.read_u32(), Ok(0x1122_3344));
    assert_eq!(buf.get_rpos(), 4);
    assert_eq!(buf.read_remain(), 0);
}

#[test]
fn read_u16_takes_low_byte_first() {
    let mut buf = ByteBuffer::with_capacity(2);
    assert_eq!(buf.write_bytes(&[0xcdu8, 0xab]), Ok(()));
    assert_eq!(buf.read_u16_as_u32(), Ok(0xabcd));
    assert_eq!(buf.get_rpos(), 2);
}

#[test]
fn read_u8_widens_the_byte() {
    let mut buf = ByteBuffer::with_capacity(1);
    assert_eq!(buf.write_u8(0xfe), Ok(()));
    assert_eq!(buf.read_u8_as_u32(), Ok(0xfe));
    assert_eq!(buf.read_u8_as_u32(), Err(BufferResult::ReadOverflow));
}

#[test]
fn numbers_written_are_read_back() {
    let mut buf = ByteBuffer::with_capacity(7);
    assert_eq!(buf.write_u32(0xffff_ffff), Ok(()));
    assert_eq!(buf.write_u16(0x0100), Ok(()));
    assert_eq!(buf.write_u8(9), Ok(()));
    assert_eq!(buf.read_u32(), Ok(0xffff_ffff));
    assert_eq!(buf.read_u16_as_u32(), Ok(0x0100));
    assert_eq!(buf.read_u8_as_u32(), Ok(9));
}

#[test]
fn the_last_bytes_of_the_buffer_can_be_read() {
    let mut buf = ByteBuffer::with_capacity(6);
    assert_eq!(buf.write_bytes(&[1u8, 0, 2, 0, 0, 0]), Ok(()));
    assert_eq!(buf.read_u16_as_u32(), Ok(1));
    assert_eq!(buf.read_u32(), Ok(2));
    assert_eq!(buf.read_remain(), 0);
}

#[test]
fn write_overflow_changes_nothing() {
    let mut buf = ByteBuffer::with_capacity(3);
    assert_eq!(buf.write_u8(5), Ok(()));
    assert_eq!(buf.write_u32(1), Err(BufferResult::WriteOverflow));
    assert_eq!(buf.write_bytes(&[1u8, 2, 3]), Err(BufferResult::WriteOverflow));
    assert_eq!(buf.get_wpos(), 1);
    assert_eq!(buf.to_bytes(), vec![5u8, 0, 0]);
    assert_eq!(buf.write_u16(0x0201), Ok(()));
    assert_eq!(buf.write_u16(0x0201), Err(BufferResult::WriteOverflow));
    assert_eq!(buf.to_bytes(), vec![5u8, 1, 2]);
}

#[test]
fn read_overflow_changes_nothing() {
    let mut buf = ByteBuffer::with_capacity(3);
    assert_eq!(buf.read_u32(), Err(BufferResult::ReadOverflow));
    assert_eq!(buf.get_rpos(), 0);
    assert_eq!(buf.read_u8_as_u32(), Ok(0));
    assert_eq!(buf.read_bytes(3), Err(BufferResult::ReadOverflow));
    assert_eq!(buf.get_rpos(), 1);
    assert_eq!(buf.read_u16_as_u32(), Ok(0));
    assert_eq!(buf.read_u16_as_u32(), Err(BufferResult::ReadOverflow));
    assert_eq!(buf.get_rpos(), 3);
}

#[test]
fn read_bytes_hands_out_the_next_bytes() {
    let mut buf = ByteBuffer::with_capacity(5);
    assert_eq!(buf.write_bytes(&[1u8, 2, 3, 4, 5]), Ok(()));
    assert_eq!(buf.read_bytes(2), Ok(vec![1u8, 2]));
    assert_eq!(buf.read_remain(), 3);
    assert_eq!(buf.read_bytes(0), Ok(vec![]));
    assert_eq!(buf.read_bytes(3), Ok(vec![3u8, 4, 5]));
    assert_eq!(buf.read_remain(), 0);
}

#[test]
fn write_bytes_goes_behind_what_was_written() {
    let mut buf = ByteBuffer::with_capacity(5);
    assert_eq!(buf.write_bytes(&[1u8, 2]), Ok(()));
    assert_eq!(buf.write_bytes(&[]), Ok(()));
    assert_eq!(buf.write_bytes(&[3u8, 4, 5]), Ok(()));
    assert_eq!(buf.get_wpos(), 5);
    assert_eq!(buf.to_bytes(), vec![1u8, 2, 3, 4, 5]);
}

#[test]
fn clear_rewinds_both_cursors_and_keeps_the_bytes() {
    let mut buf = ByteBuffer::with_capacity(4);
    assert_eq!(buf.write_u32(0x0403_0201), Ok(()));
    assert_eq!(buf.read_u16_as_u32(), Ok(0x0201));
    buf.clear();
    assert_eq!(buf.get_wpos(), 0);
    assert_eq!(buf.get_rpos(), 0);
    assert_eq!(buf.read_remain(), 4);
    assert_eq!(buf.to_bytes(), vec![1u8, 2, 3, 4]);
    assert_eq!(buf.write_u8(9), Ok(()));
    assert_eq!(buf.to_bytes(), vec![9u8, 2, 3, 4]);
}

#[test]
fn default_buffer_has_no_capacity() {
    let mut buf = ByteBuffer::default();
    assert_eq!(buf.len(), 0);
    assert_eq!(buf.get_wpos(), 0);
    assert_eq!(buf.get_rpos(), 0);
    assert_eq!(buf.write_u8(1), Err(BufferResult::WriteOverflow));
}
