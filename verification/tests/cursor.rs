use dns_codec::error::DnsError;
use dns_codec::packet_buffer::{PacketBuffer, PacketWriter};

#[test]
fn read_u8() {
    let mut buf = PacketBuffer::from_bytes(&[3, 5]);
    assert_eq!(buf.read_u8(), Ok(3));
    assert_eq!(buf.read_u8(), Ok(5));
    assert_eq!(buf.read_u8(), Err(DnsError::BufferUnderrun));
}

#[test]
fn read_u16() {
    let mut buf = PacketBuffer::from_bytes(&[0, 1]);
    assert_eq!(buf.read_u16(), Ok(1));
}

#[test]
fn read_u16_underrun_leaves_position() {
    let mut buf = PacketBuffer::from_bytes(&[7]);
    assert_eq!(buf.read_u16(), Err(DnsError::BufferUnderrun));
    assert_eq!(buf.read_u8(), Ok(7));
}

#[test]
fn read_u32_big_endian() {
    let mut buf = PacketBuffer::from_bytes(&[0x01, 0x02, 0x03, 0x04]);
    assert_eq!(buf.read_u32(), Ok(0x0102_0304));
}

#[test]
fn peek_does_not_advance() {
    let mut buf = PacketBuffer::from_bytes(&[9, 8]);
    assert_eq!(buf.peek_u8(1), Ok(8));
    assert_eq!(buf.peek_u8(2), Err(DnsError::BufferUnderrun));
    assert_eq!(buf.read_u8(), Ok(9));
}

#[test]
fn seek_and_get_pos() {
    let mut buf = PacketBuffer::from_bytes(&[1, 2, 3]);
    assert_eq!(buf.get_pos(), 0);
    buf.seek(2);
    assert_eq!(buf.get_pos(), 2);
    assert_eq!(buf.read_u8(), Ok(3));
}

#[test]
fn read_bytes_exact() {
    let mut buf = PacketBuffer::from_bytes(&[1, 2, 3, 4]);
    assert_eq!(buf.read_bytes(3), Ok(vec![1, 2, 3]));
    assert_eq!(buf.read_bytes(2), Err(DnsError::BufferUnderrun));
    assert_eq!(buf.read_bytes(1), Ok(vec![4]));
}

#[test]
fn writer_big_endian() {
    let mut out = PacketWriter::new(16);
    out.write_u8(0xAB).unwrap();
    out.write_u16(0x0102).unwrap();
    out.write_u32(0x0304_0506).unwrap();
    assert_eq!(out.into_bytes(), vec![0xAB, 0x01, 0x02, 0x03, 0x04, 0x05, 0x06]);
}

#[test]
fn writer_overflow_is_reported() {
    let mut out = PacketWriter::new(1);
    assert_eq!(out.write_u16(0x0102), Err(DnsError::BufferOverflow));
    out.write_u8(5).unwrap();
    assert_eq!(out.write_u8(6), Err(DnsError::BufferOverflow));
    assert_eq!(out.into_bytes(), vec![5]);
}

#[test]
fn writer_backpatch() {
    let mut out = PacketWriter::new(8);
    out.write_u16(0).unwrap();
    out.write_u8(0x77).unwrap();
    out.write_u16_at(0, 0x0102).unwrap();
    assert_eq!(out.write_u16_at(2, 0x0304), Err(DnsError::BufferOverflow));
    assert_eq!(out.into_bytes(), vec![0x01, 0x02, 0x77]);
}
