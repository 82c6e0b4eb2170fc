use rdns::buffer::BytePacketBuffer;
use rdns::errors::DnsError;
use rdns::header::{DnsHeader, ResultCode};
use rdns::packet::DnsPacket;
use rdns::question::{DnsQuestion, QueryType};
use rdns::record::{DnsRecord, Ipv4Address, Ipv6Address};

fn read_name_at(buffer: &mut BytePacketBuffer, pos: usize) -> Result<String, DnsError> {
    buffer.seek(pos).unwrap();
    let mut out = String::new();
    buffer.read_qname(&mut out)?;
    Ok(out)
}

#[test]
fn name_roundtrip_simple() {
    let mut buffer = BytePacketBuffer::new();
    buffer.write_qname("example.com").unwrap();
    assert_eq!(buffer.pos, "example.com".len() + 2);
    let name = read_name_at(&mut buffer, 0).unwrap();
    assert_eq!(name, "example.com");
}

#[test]
fn name_roundtrip_lowercases_mixed_case() {
    let mut buffer = BytePacketBuffer::new();
    buffer.write_qname("Example.COM").unwrap();
    let name = read_name_at(&mut buffer, 0).unwrap();
    assert_eq!(name, "example.com");
}

#[test]
fn name_wire_bytes_exact() {
    let mut buffer = BytePacketBuffer::new();
    buffer.write_qname("ab.c").unwrap();
    assert_eq!(&buffer.buf[0..6], &[2, b'a', b'b', 1, b'c', 0]);
}

#[test]
fn compression_pointer_decodes_same_string() {
    let mut buffer = BytePacketBuffer::new();
    // A name at offset 0, then unrelated labels, then a pointer back to 0.
    buffer.write_qname("example.com").unwrap();
    buffer.write_qname("unrelated.test").unwrap();
    let ptr_pos = buffer.pos;
    buffer.write(0xC0).unwrap();
    buffer.write(0x00).unwrap();
    let direct = read_name_at(&mut buffer, 0).unwrap();
    let via_pointer = read_name_at(&mut buffer, ptr_pos).unwrap();
    assert_eq!(direct, via_pointer);
    assert_eq!(via_pointer, "example.com");
    // The cursor resumes right after the two pointer bytes.
    assert_eq!(buffer.pos, ptr_pos + 2);
}

#[test]
fn pointer_into_middle_of_name() {
    let mut buffer = BytePacketBuffer::new();
    buffer.write_qname("www.example.com").unwrap();
    // Offset 4 is the start of the "example" label.
    let ptr_pos = 40;
    buffer.set(ptr_pos, 0xC0).unwrap();
    buffer.set(ptr_pos + 1, 4).unwrap();
    let name = read_name_at(&mut buffer, ptr_pos).unwrap();
    assert_eq!(name, "example.com");
}

/// Lay down `n` chained pointers ending at a real name, and return the
/// offset of the first pointer.
fn chain_of_pointers(buffer: &mut BytePacketBuffer, n: usize) -> usize {
    // The name itself lives at offset 100.
    buffer.seek(100).unwrap();
    buffer.write_qname("deep.example").unwrap();
    // Pointers at 0, 2, 4, ...: each jumps to the next; the last to 100.
    for i in 0..n {
        let target = if i + 1 == n { 100 } else { 2 * (i + 1) };
        buffer.set(2 * i, 0xC0).unwrap();
        buffer.set(2 * i + 1, target as u8).unwrap();
    }
    0
}

#[test]
fn five_jumps_succeed() {
    let mut buffer = BytePacketBuffer::new();
    let start = chain_of_pointers(&mut buffer, 5);
    let name = read_name_at(&mut buffer, start).unwrap();
    assert_eq!(name, "deep.example");
}

#[test]
fn six_jumps_fail_with_jump_limit() {
    let mut buffer = BytePacketBuffer::new();
    let start = chain_of_pointers(&mut buffer, 6);
    buffer.seek(start).unwrap();
    let mut out = String::new();
    let err = buffer.read_qname(&mut out).unwrap_err();
    assert_eq!(err, DnsError::JumpLimitExceeded);
}

#[test]
fn sixty_four_byte_label_fails() {
    let mut buffer = BytePacketBuffer::new();
    let label: String = std::iter::repeat('a').take(64).collect();
    let err = buffer.write_qname(&label).unwrap_err();
    assert_eq!(err, DnsError::LabelTooLong);
    // Nothing was written.
    assert_eq!(buffer.pos, 0);
    assert_eq!(&buffer.buf[0..4], &[0, 0, 0, 0]);
}

#[test]
fn sixty_three_byte_label_succeeds() {
    let mut buffer = BytePacketBuffer::new();
    let label: String = std::iter::repeat('a').take(63).collect();
    buffer.write_qname(&label).unwrap();
    let name = read_name_at(&mut buffer, 0).unwrap();
    assert_eq!(name, label);
}

#[test]
fn rescode_low_nibble_three_is_nxdomain() {
    assert_eq!(ResultCode::from_num(3), ResultCode::NXDOMAIN);
    // Through a full header decode: flag byte two with low nibble 3.
    let mut buffer = BytePacketBuffer::new();
    buffer.set(3, 0x03).unwrap();
    let mut header = DnsHeader::new();
    header.read(&mut buffer).unwrap();
    assert_eq!(header.rescode, ResultCode::NXDOMAIN);
}

#[test]
fn rescode_six_normalizes_to_noerror() {
    assert_eq!(ResultCode::from_num(6), ResultCode::NOERROR);
    let mut buffer = BytePacketBuffer::new();
    buffer.set(3, 0x06).unwrap();
    let mut header = DnsHeader::new();
    header.read(&mut buffer).unwrap();
    assert_eq!(header.rescode, ResultCode::NOERROR);
}

#[test]
fn header_roundtrip_all_flags() {
    let mut header = DnsHeader::new();
    header.id = 0xBEEF;
    header.recursion_desired = true;
    header.truncated_message = true;
    header.authoritative_answer = true;
    header.opcode = 5;
    header.response = true;
    header.rescode = ResultCode::REFUSED;
    header.checking_disabled = true;
    header.authed_data = true;
    header.z = true;
    header.recursion_available = true;
    header.questions = 1;
    header.answers = 2;
    header.authoritative_entries = 3;
    header.resource_entries = 4;

    let mut buffer = BytePacketBuffer::new();
    header.write(&mut buffer).unwrap();
    assert_eq!(buffer.pos, 12);
    let mut decoded = DnsHeader::new();
    buffer.seek(0).unwrap();
    decoded.read(&mut buffer).unwrap();
    assert_eq!(decoded, header);
}

#[test]
fn query_type_codes_roundtrip() {
    assert_eq!(QueryType::from_num(1), QueryType::A);
    assert_eq!(QueryType::from_num(2), QueryType::NS);
    assert_eq!(QueryType::from_num(5), QueryType::CNAME);
    assert_eq!(QueryType::from_num(15), QueryType::MX);
    assert_eq!(QueryType::from_num(28), QueryType::AAAA);
    assert_eq!(QueryType::from_num(99), QueryType::UNKNOWN(99));
    assert_eq!(QueryType::A.to_num(), 1);
    assert_eq!(QueryType::NS.to_num(), 2);
    assert_eq!(QueryType::CNAME.to_num(), 5);
    assert_eq!(QueryType::MX.to_num(), 15);
    assert_eq!(QueryType::AAAA.to_num(), 28);
    assert_eq!(QueryType::UNKNOWN(99).to_num(), 99);
}

#[test]
fn packet_roundtrip_all_record_types() {
    let mut packet = DnsPacket::new();
    packet.header.id = 4660;
    packet.header.response = true;
    packet.header.recursion_desired = true;
    packet.questions.push(DnsQuestion::new("www.example.com", QueryType::A));
    packet.answers.push(DnsRecord::A {
        domain: String::from("www.example.com"),
        addr: Ipv4Address { o0: 10, o1: 0, o2: 0, o3: 7 },
        ttl: 3600,
    });
    packet.answers.push(DnsRecord::AAAA {
        domain: String::from("www.example.com"),
        addr: Ipv6Address { s0: 0x2001, s1: 0xdb8, s2: 0, s3: 0, s4: 0, s5: 0, s6: 0, s7: 1 },
        ttl: 60,
    });
    packet.authorities.push(DnsRecord::NS {
        domain: String::from("example.com"),
        host: String::from("ns1.example.com"),
        ttl: 86400,
    });
    packet.authorities.push(DnsRecord::MX {
        domain: String::from("example.com"),
        priority: 10,
        host: String::from("mail.example.com"),
        ttl: 300,
    });
    packet.resources.push(DnsRecord::CNAME {
        domain: String::from("alias.example.com"),
        host: String::from("www.example.com"),
        ttl: 120,
    });

    let mut buffer = BytePacketBuffer::new();
    packet.write(&mut buffer).unwrap();
    buffer.seek(0).unwrap();
    let decoded = DnsPacket::from_buffer(&mut buffer).unwrap();

    assert_eq!(decoded.header, packet.header);
    assert_eq!(decoded.header.questions, 1);
    assert_eq!(decoded.header.answers, 2);
    assert_eq!(decoded.header.authoritative_entries, 2);
    assert_eq!(decoded.header.resource_entries, 1);
    assert_eq!(decoded.questions, packet.questions);
    assert_eq!(decoded.answers, packet.answers);
    assert_eq!(decoded.authorities, packet.authorities);
    assert_eq!(decoded.resources, packet.resources);
}

#[test]
fn unknown_record_payload_skipped_on_decode() {
    // Hand-build a record of type 99 with a 4-byte payload.
    let mut buffer = BytePacketBuffer::new();
    buffer.write_qname("odd.example").unwrap();
    buffer.write_u16(99).unwrap(); // type
    buffer.write_u16(1).unwrap(); // class
    buffer.write_u32(7).unwrap(); // ttl
    buffer.write_u16(4).unwrap(); // payload length
    buffer.write_u32(0xDEADBEEF).unwrap(); // payload, to be skipped
    let end = buffer.pos;
    buffer.seek(0).unwrap();
    let rec = DnsRecord::read(&mut buffer).unwrap();
    assert_eq!(
        rec,
        DnsRecord::UNKNOWN { domain: String::from("odd.example"), qtype: 99, data_len: 4, ttl: 7 }
    );
    assert_eq!(buffer.pos, end);
}

#[test]
fn unknown_record_dropped_on_encode() {
    let rec =
        DnsRecord::UNKNOWN { domain: String::from("odd.example"), qtype: 99, data_len: 4, ttl: 7 };
    let mut buffer = BytePacketBuffer::new();
    let written = rec.write(&mut buffer).unwrap();
    assert_eq!(written, 0);
    assert_eq!(buffer.pos, 0);
}

#[test]
fn record_length_field_is_back_patched() {
    let rec = DnsRecord::NS {
        domain: String::from("example.com"),
        host: String::from("ns1.example.com"),
        ttl: 1,
    };
    let mut buffer = BytePacketBuffer::new();
    let written = rec.write(&mut buffer).unwrap();
    // name (13) + type (2) + class (2) + ttl (4) + len (2) + host name (17)
    assert_eq!(written, 40);
    // The patched length field counts exactly the host name's bytes.
    let len_pos = 13 + 2 + 2 + 4;
    assert_eq!(buffer.buf[len_pos], 0);
    assert_eq!(buffer.buf[len_pos + 1], 17);
}

#[test]
fn read_past_end_fails_without_consuming() {
    let mut buffer = BytePacketBuffer::new();
    buffer.seek(511).unwrap();
    assert_eq!(buffer.read_u16().unwrap_err(), DnsError::EndOfBuffer);
    assert_eq!(buffer.pos, 511);
    assert_eq!(buffer.read().unwrap(), 0);
    assert_eq!(buffer.read().unwrap_err(), DnsError::EndOfBuffer);
}

#[test]
fn write_past_end_fails_without_writing() {
    let mut buffer = BytePacketBuffer::new();
    buffer.seek(511).unwrap();
    assert_eq!(buffer.write_u32(1).unwrap_err(), DnsError::EndOfBuffer);
    assert_eq!(buffer.pos, 511);
    buffer.seek(512).unwrap();
    assert_eq!(buffer.write(1).unwrap_err(), DnsError::EndOfBuffer);
}

#[test]
fn big_endian_byte_order() {
    let mut buffer = BytePacketBuffer::new();
    buffer.write_u16(0xABCD).unwrap();
    buffer.write_u32(0x01020304).unwrap();
    assert_eq!(&buffer.buf[0..6], &[0xAB, 0xCD, 0x01, 0x02, 0x03, 0x04]);
    buffer.seek(0).unwrap();
    assert_eq!(buffer.read_u16().unwrap(), 0xABCD);
    assert_eq!(buffer.read_u32().unwrap(), 0x01020304);
}

#[test]
fn get_range_borrows_bytes() {
    let mut buffer = BytePacketBuffer::new();
    buffer.write_qname("ab").unwrap();
    let range = buffer.get_range(0, 4).unwrap();
    assert_eq!(range, &[2, b'a', b'b', 0]);
    assert_eq!(buffer.get_range(510, 3).unwrap_err(), DnsError::EndOfBuffer);
}

#[test]
fn set_u16_patches_without_moving_cursor() {
    let mut buffer = BytePacketBuffer::new();
    buffer.write_u32(0).unwrap();
    buffer.set_u16(1, 0x1234).unwrap();
    assert_eq!(buffer.pos, 4);
    assert_eq!(&buffer.buf[0..4], &[0, 0x12, 0x34, 0]);
}

#[test]
fn packet_with_zero_questions_roundtrips() {
    let mut packet = DnsPacket::new();
    packet.header.id = 42;
    let mut buffer = BytePacketBuffer::new();
    packet.write(&mut buffer).unwrap();
    buffer.seek(0).unwrap();
    let decoded = DnsPacket::from_buffer(&mut buffer).unwrap();
    assert_eq!(decoded.header.id, 42);
    assert_eq!(decoded.questions.len(), 0);
    assert_eq!(decoded.answers.len(), 0);
}

#[test]
fn packet_starting_too_late_fails_decode() {
    let mut buffer = BytePacketBuffer::new();
    buffer.seek(505).unwrap();
    let err = DnsPacket::from_buffer(&mut buffer).unwrap_err();
    assert_eq!(err, DnsError::EndOfBuffer);
}

#[test]
fn header_claiming_too_many_records_fails_decode() {
    let mut buffer = BytePacketBuffer::new();
    // An answer count far beyond what 512 bytes can hold: the reads for the
    // claimed records run off the end of the buffer.
    buffer.set(6, 0xEA).unwrap();
    buffer.set(7, 0x60).unwrap();
    let err = DnsPacket::from_buffer(&mut buffer).unwrap_err();
    assert_eq!(err, DnsError::EndOfBuffer);
}

#[test]
fn question_roundtrip() {
    let q = DnsQuestion::new("mail.example.org", QueryType::MX);
    let mut buffer = BytePacketBuffer::new();
    q.write(&mut buffer).unwrap();
    // name (16 + 2) + type (2) + class (2)
    assert_eq!(buffer.pos, 22);
    buffer.seek(0).unwrap();
    let mut decoded = DnsQuestion::new("", QueryType::UNKNOWN(0));
    decoded.read(&mut buffer).unwrap();
    assert_eq!(decoded, q);
    assert_eq!(buffer.pos, 22);
}

#[test]
fn question_class_is_always_in() {
    let q = DnsQuestion::new("a.b", QueryType::A);
    let mut buffer = BytePacketBuffer::new();
    q.write(&mut buffer).unwrap();
    // The last two bytes are the class, fixed at IN (1).
    assert_eq!(&buffer.buf[7..9], &[0, 1]);
}
