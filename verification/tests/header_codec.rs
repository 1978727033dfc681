use dns_codec::error::DnsError;
use dns_codec::header::{is_bit_set, DnsHeader, ResultCode};
use dns_codec::packet_buffer::{PacketBuffer, PacketWriter};

fn decode_header(bytes: &[u8]) -> DnsHeader {
    let mut buffer = PacketBuffer::from_bytes(bytes);
    DnsHeader::from_buffer(&mut buffer).unwrap()
}

#[test]
fn is_bit_set_test() {
    let num = 0b1010_1010;
    assert_eq!(is_bit_set(num, 1), true);
    assert_eq!(is_bit_set(num, 2), false);
    assert_eq!(is_bit_set(num, 8), false);
}

#[test]
fn chapter_example() {
    let bytes = "86 2a 01 20 00 01 00 00 00 00 00 00"
        .split(" ")
        .map(|s| u8::from_str_radix(s, 16).unwrap())
        .collect::<Vec<_>>();
    let mut buffer = PacketBuffer::from_bytes(&bytes);
    let actual = DnsHeader::from_buffer(&mut buffer).unwrap();
    let expected = DnsHeader {
        id: 0x862a,
        response: false,
        opcode: 0,
        authoritative_answer: false,
        truncated_message: false,
        recursion_desired: true,
        recursion_available: false,
        z: false,
        authed_data: true,
        checking_disabled: false,
        rescode: ResultCode::NOERROR,
        questions: 1,
        answers: 0,
        authoritative_entries: 0,
        resource_entries: 0,
    };
    assert_eq!(actual, expected);
}

#[test]
fn each_flag_bit_decodes_independently() {
    let h = decode_header(&[0, 0, 0b1000_0000, 0, 0, 0, 0, 0, 0, 0, 0, 0]);
    assert!(h.response && !h.authoritative_answer && !h.truncated_message && !h.recursion_desired);
    let h = decode_header(&[0, 0, 0b0000_0100, 0, 0, 0, 0, 0, 0, 0, 0, 0]);
    assert!(h.authoritative_answer && !h.response);
    let h = decode_header(&[0, 0, 0b0000_0010, 0, 0, 0, 0, 0, 0, 0, 0, 0]);
    assert!(h.truncated_message);
    let h = decode_header(&[0, 0, 0b0000_0001, 0, 0, 0, 0, 0, 0, 0, 0, 0]);
    assert!(h.recursion_desired);
    let h = decode_header(&[0, 0, 0b0111_1000, 0, 0, 0, 0, 0, 0, 0, 0, 0]);
    assert_eq!(h.opcode, 15);
    let h = decode_header(&[0, 0, 0, 0b1000_0000, 0, 0, 0, 0, 0, 0, 0, 0]);
    assert!(h.recursion_available && !h.z && !h.authed_data && !h.checking_disabled);
    let h = decode_header(&[0, 0, 0, 0b0100_0000, 0, 0, 0, 0, 0, 0, 0, 0]);
    assert!(h.z);
    let h = decode_header(&[0, 0, 0, 0b0010_0000, 0, 0, 0, 0, 0, 0, 0, 0]);
    assert!(h.authed_data);
    let h = decode_header(&[0, 0, 0, 0b0001_0000, 0, 0, 0, 0, 0, 0, 0, 0]);
    assert!(h.checking_disabled);
}

#[test]
fn rescode_closed_enumeration() {
    assert_eq!(ResultCode::from(0u8), ResultCode::NOERROR);
    assert_eq!(ResultCode::from(1u8), ResultCode::FORMERR);
    assert_eq!(ResultCode::from(2u8), ResultCode::SERVFAIL);
    assert_eq!(ResultCode::from(3u8), ResultCode::NXDOMAIN);
    assert_eq!(ResultCode::from(4u8), ResultCode::NOTIMP);
    assert_eq!(ResultCode::from(5u8), ResultCode::REFUSED);
    assert_eq!(ResultCode::from(6u8), ResultCode::NOERROR);
    assert_eq!(ResultCode::from(15u8), ResultCode::NOERROR);
    let h = decode_header(&[0, 0, 0, 0x03, 0, 0, 0, 0, 0, 0, 0, 0]);
    assert_eq!(h.rescode, ResultCode::NXDOMAIN);
}

#[test]
fn header_underrun() {
    let mut buffer = PacketBuffer::from_bytes(&[1, 2, 3]);
    assert_eq!(DnsHeader::from_buffer(&mut buffer), Err(DnsError::BufferUnderrun));
    assert_eq!(buffer.get_pos(), 0);
}

#[test]
fn header_encode_decode_round_trip() {
    let header = DnsHeader {
        id: 0xBEEF,
        response: true,
        opcode: 4,
        authoritative_answer: true,
        truncated_message: false,
        recursion_desired: true,
        recursion_available: false,
        z: true,
        authed_data: false,
        checking_disabled: true,
        rescode: ResultCode::SERVFAIL,
        questions: 3,
        answers: 1,
        authoritative_entries: 2,
        resource_entries: 7,
    };
    let mut out = PacketWriter::new(12);
    header.write(&mut out).unwrap();
    let bytes = out.into_bytes();
    assert_eq!(bytes.len(), 12);
    assert_eq!(decode_header(&bytes), header);
}
