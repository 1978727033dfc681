use dns_codec::error::DnsError;
use dns_codec::name::DnsName;
use dns_codec::packet_buffer::{PacketBuffer, PacketWriter};

fn labels(parts: &[&str]) -> Vec<Vec<u8>> {
    parts.iter().map(|p| p.as_bytes().to_vec()).collect()
}

#[test]
fn three_labels_decode_and_reencode() {
    let bytes = [
        3, b'w', b'w', b'w', 7, b'e', b'x', b'a', b'm', b'p', b'l', b'e', 3, b'c', b'o', b'm', 0,
    ];
    let mut buffer = PacketBuffer::from_bytes(&bytes);
    let name = buffer.read_qname().unwrap();
    assert_eq!(name.text(), b"www.example.com".to_vec());
    assert_eq!(buffer.get_pos(), bytes.len());

    let mut out = PacketWriter::new(64);
    name.write(&mut out).unwrap();
    let reencoded = out.into_bytes();
    assert_eq!(reencoded, bytes.to_vec());

    let mut buffer2 = PacketBuffer::from_bytes(&reencoded);
    let name2 = buffer2.read_qname().unwrap();
    assert_eq!(name2.text(), b"www.example.com".to_vec());
    assert_eq!(name2, name);
}

#[test]
fn root_name_is_a_single_zero_byte() {
    let mut buffer = PacketBuffer::from_bytes(&[0, 9]);
    let name = buffer.read_qname().unwrap();
    assert_eq!(name.labels().len(), 0);
    assert_eq!(name.text(), Vec::<u8>::new());
    assert_eq!(buffer.get_pos(), 1);
}

#[test]
fn compressed_name_resumes_after_pointer() {
    // "mail" + pointer to "example.com" at offset 0; name starts at 13.
    let mut bytes = vec![
        7, b'e', b'x', b'a', b'm', b'p', b'l', b'e', 3, b'c', b'o', b'm', 0,
    ];
    bytes.extend([4, b'm', b'a', b'i', b'l', 0xC0, 0x00, 0xFF]);
    let mut buffer = PacketBuffer::from_bytes(&bytes);
    buffer.seek(13);
    let name = buffer.read_qname().unwrap();
    assert_eq!(name.text(), b"mail.example.com".to_vec());
    assert_eq!(buffer.get_pos(), 20);
}

#[test]
fn self_pointer_fails_with_loop_detected() {
    let mut buffer = PacketBuffer::from_bytes(&[0xC0, 0x00]);
    assert_eq!(buffer.read_qname(), Err(DnsError::CompressionLoopDetected));
    assert_eq!(buffer.get_pos(), 0);
}

#[test]
fn pointer_chain_over_limit_fails_with_loop_detected() {
    // At offset 2 a pointer back to 0; the label at 0 runs into the same
    // pointer again, so the jump counter runs out.
    let bytes = [1, b'a', 0xC0, 0x00];
    let mut buffer = PacketBuffer::from_bytes(&bytes);
    buffer.seek(2);
    assert_eq!(buffer.read_qname(), Err(DnsError::CompressionLoopDetected));
}

#[test]
fn forward_pointer_fails_with_loop_detected() {
    let bytes = [0xC0, 0x05, 0, 0, 0, 0];
    let mut buffer = PacketBuffer::from_bytes(&bytes);
    assert_eq!(buffer.read_qname(), Err(DnsError::CompressionLoopDetected));
}

#[test]
fn oversized_label_fails_with_invalid_label_length() {
    let mut bytes = vec![64];
    bytes.extend(std::iter::repeat(b'x').take(70));
    bytes.push(0);
    let mut buffer = PacketBuffer::from_bytes(&bytes);
    assert_eq!(buffer.read_qname(), Err(DnsError::InvalidLabelLength));
}

#[test]
fn truncated_label_fails_with_invalid_label_length() {
    let mut buffer = PacketBuffer::from_bytes(&[5, b'a', b'b']);
    assert_eq!(buffer.read_qname(), Err(DnsError::InvalidLabelLength));
}

#[test]
fn unterminated_name_fails_with_underrun() {
    let mut buffer = PacketBuffer::from_bytes(&[3, b'w', b'w', b'w']);
    assert_eq!(buffer.read_qname(), Err(DnsError::BufferUnderrun));
}

#[test]
fn name_wf_rejects_oversized_label() {
    let good = DnsName::from_labels(labels(&["www", "example", "com"]));
    assert!(good.is_wf());
    let bad = DnsName::from_labels(vec![vec![b'x'; 64]]);
    assert!(!bad.is_wf());
    let empty_label = DnsName::from_labels(vec![Vec::new()]);
    assert!(!empty_label.is_wf());
}
