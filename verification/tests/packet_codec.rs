use dns_codec::error::DnsError;
use dns_codec::header::{DnsHeader, ResultCode};
use dns_codec::name::DnsName;
use dns_codec::packet::DnsPacket;
use dns_codec::packet_buffer::{PacketBuffer, PacketWriter};
use dns_codec::question::DnsQuestion;
use dns_codec::record::{DnsRecord, DnsRecordData};

fn name(parts: &[&str]) -> DnsName {
    DnsName::from_labels(parts.iter().map(|p| p.as_bytes().to_vec()).collect())
}

fn header_with_counts(questions: u16, answers: u16, authorities: u16, resources: u16) -> DnsHeader {
    DnsHeader {
        id: 0x862a,
        response: true,
        opcode: 0,
        authoritative_answer: false,
        truncated_message: false,
        recursion_desired: true,
        recursion_available: true,
        z: false,
        authed_data: false,
        checking_disabled: false,
        rescode: ResultCode::NOERROR,
        questions,
        answers,
        authoritative_entries: authorities,
        resource_entries: resources,
    }
}

#[test]
fn full_packet_round_trip() {
    let packet = DnsPacket {
        header: header_with_counts(1, 2, 1, 2),
        questions: vec![DnsQuestion { name: name(&["www", "example", "com"]), qtype: 1, qclass: 1 }],
        answers: vec![
            DnsRecord {
                name: name(&["www", "example", "com"]),
                class: 1,
                ttl: 300,
                data: DnsRecordData::A { addr: vec![93, 184, 216, 34] },
            },
            DnsRecord {
                name: name(&["example", "com"]),
                class: 1,
                ttl: 3600,
                data: DnsRecordData::Mx { priority: 10, host: name(&["mail", "example", "com"]) },
            },
        ],
        authorities: vec![DnsRecord {
            name: name(&["example", "com"]),
            class: 1,
            ttl: 86400,
            data: DnsRecordData::Ns { host: name(&["ns1", "example", "com"]) },
        }],
        resources: vec![
            DnsRecord {
                name: name(&["mail", "example", "com"]),
                class: 1,
                ttl: 60,
                data: DnsRecordData::Aaaa { addr: vec![0x20, 0x01, 0x0d, 0xb8, 0, 0, 0, 0, 0, 0, 0, 0, 0, 0, 0, 1] },
            },
            DnsRecord {
                name: name(&["example", "com"]),
                class: 1,
                ttl: 120,
                data: DnsRecordData::Cname { host: name(&["alias", "example", "com"]) },
            },
        ],
    };
    let bytes = packet.to_bytes().unwrap();
    let decoded = DnsPacket::from_bytes(&bytes).unwrap();
    assert_eq!(decoded, packet);
}

#[test]
fn empty_sections_round_trip() {
    let packet = DnsPacket {
        header: header_with_counts(0, 0, 0, 0),
        questions: Vec::new(),
        answers: Vec::new(),
        authorities: Vec::new(),
        resources: Vec::new(),
    };
    let bytes = packet.to_bytes().unwrap();
    assert_eq!(bytes.len(), 12);
    let decoded = DnsPacket::from_bytes(&bytes).unwrap();
    assert_eq!(decoded, packet);
}

#[test]
fn round_trip_preserves_section_order() {
    let mk = |label: &str, last: u8| DnsRecord {
        name: name(&[label, "example", "com"]),
        class: 1,
        ttl: 17,
        data: DnsRecordData::A { addr: vec![10, 0, 0, last] },
    };
    let packet = DnsPacket {
        header: header_with_counts(0, 3, 1, 1),
        questions: Vec::new(),
        answers: vec![mk("a", 1), mk("b", 2), mk("c", 3)],
        authorities: vec![DnsRecord {
            name: name(&["example", "com"]),
            class: 1,
            ttl: 1,
            data: DnsRecordData::Ns { host: name(&["ns", "example", "com"]) },
        }],
        resources: vec![mk("d", 4)],
    };
    let bytes = packet.to_bytes().unwrap();
    let decoded = DnsPacket::from_bytes(&bytes).unwrap();
    assert_eq!(decoded.answers, packet.answers);
    assert_eq!(decoded.authorities, packet.authorities);
    assert_eq!(decoded.resources, packet.resources);
}

#[test]
fn unknown_record_keeps_declared_length_payload() {
    let payload: Vec<u8> = (0u8..7).collect();
    let record = DnsRecord {
        name: name(&["example", "com"]),
        class: 1,
        ttl: 42,
        data: DnsRecordData::Unknown { rtype: 99, data: payload.clone() },
    };
    let mut out = PacketWriter::new(512);
    record.write(&mut out).unwrap();
    let bytes = out.into_bytes();
    // The last 7 bytes are the opaque payload, byte for byte.
    assert_eq!(bytes[bytes.len() - 7..].to_vec(), payload);
    // The declared length field just before it says 7.
    let n = bytes.len();
    assert_eq!(&bytes[n - 9..n - 7], &[0, 7]);
    let mut buffer = PacketBuffer::from_bytes(&bytes);
    let decoded = DnsRecord::from_buffer(&mut buffer).unwrap();
    assert_eq!(decoded, record);
    assert_eq!(buffer.get_pos(), bytes.len());
    // Re-encoding is byte-for-byte identical.
    let mut out2 = PacketWriter::new(512);
    decoded.write(&mut out2).unwrap();
    assert_eq!(out2.into_bytes(), bytes);
}

#[test]
fn question_count_larger_than_body_fails_with_underrun() {
    // Header advertises 2 questions; only 1 is present before the end.
    let mut bytes = vec![0, 0, 0, 0, 0, 2, 0, 0, 0, 0, 0, 0];
    bytes.extend([0, 0, 1, 0, 1]); // root name, type 1, class 1
    assert_eq!(DnsPacket::from_bytes(&bytes), Err(DnsError::BufferUnderrun));
}

#[test]
fn encode_derives_counts_from_sections() {
    // The header claims 5 questions; the encoder writes the real count.
    let packet = DnsPacket {
        header: header_with_counts(5, 0, 0, 0),
        questions: vec![DnsQuestion { name: name(&["example", "com"]), qtype: 1, qclass: 1 }],
        answers: Vec::new(),
        authorities: Vec::new(),
        resources: Vec::new(),
    };
    let bytes = packet.to_bytes().unwrap();
    let decoded = DnsPacket::from_bytes(&bytes).unwrap();
    assert_eq!(decoded.header.questions, 1);
    assert_eq!(decoded.questions, packet.questions);
}

#[test]
fn oversized_message_fails_with_overflow() {
    let packet = DnsPacket {
        header: header_with_counts(0, 1, 0, 0),
        questions: Vec::new(),
        answers: vec![DnsRecord {
            name: name(&["example", "com"]),
            class: 1,
            ttl: 0,
            data: DnsRecordData::Unknown { rtype: 99, data: vec![0xAA; 600] },
        }],
        authorities: Vec::new(),
        resources: Vec::new(),
    };
    assert_eq!(packet.to_bytes(), Err(DnsError::BufferOverflow));
}

#[test]
fn oversized_section_fails_with_count_mismatch() {
    let q = DnsQuestion { name: DnsName::new(), qtype: 0, qclass: 0 };
    let packet = DnsPacket {
        header: header_with_counts(0, 0, 0, 0),
        questions: vec![q; 0x1_0000],
        answers: Vec::new(),
        authorities: Vec::new(),
        resources: Vec::new(),
    };
    assert_eq!(packet.to_bytes(), Err(DnsError::SectionCountMismatch));
}

#[test]
fn bad_label_fails_encode_with_invalid_label_length() {
    let packet = DnsPacket {
        header: header_with_counts(1, 0, 0, 0),
        questions: vec![DnsQuestion {
            name: DnsName::from_labels(vec![vec![b'x'; 64]]),
            qtype: 1,
            qclass: 1,
        }],
        answers: Vec::new(),
        authorities: Vec::new(),
        resources: Vec::new(),
    };
    assert_eq!(packet.to_bytes(), Err(DnsError::InvalidLabelLength));
}

#[test]
fn question_decode_reads_name_type_class() {
    let bytes = [3, b'f', b'o', b'o', 0, 0, 28, 0, 1, 0xEE];
    let mut buffer = PacketBuffer::from_bytes(&bytes);
    let q = DnsQuestion::from_buffer(&mut buffer).unwrap();
    assert_eq!(q.name.text(), b"foo".to_vec());
    assert_eq!(q.qtype, 28);
    assert_eq!(q.qclass, 1);
    assert_eq!(buffer.get_pos(), 9);
}

#[test]
fn trailing_bytes_are_tolerated() {
    let packet = DnsPacket {
        header: header_with_counts(0, 0, 0, 0),
        questions: Vec::new(),
        answers: Vec::new(),
        authorities: Vec::new(),
        resources: Vec::new(),
    };
    let mut bytes = packet.to_bytes().unwrap();
    bytes.extend([1, 2, 3]);
    let decoded = DnsPacket::from_bytes(&bytes).unwrap();
    assert_eq!(decoded, packet);
}
