use dns_resolver::byte_packet_buffer::BytePacketBuffer;
use dns_resolver::dns_header::DnsHeader;
use dns_resolver::dns_packet::DnsPacket;
use dns_resolver::dns_question::DnsQuestion;
use dns_resolver::dns_records::DnsRecord;
use dns_resolver::query_type::QueryType;
use dns_resolver::result_code::ResultCode;

#[test]
fn query_type_codes_round_trip() {
    assert_eq!(QueryType::A.to_num(), 1);
    assert_eq!(QueryType::NS.to_num(), 2);
    assert_eq!(QueryType::CNAME.to_num(), 5);
    assert_eq!(QueryType::MX.to_num(), 15);
    assert_eq!(QueryType::AAAA.to_num(), 28);
    assert_eq!(QueryType::from_num(28), QueryType::AAAA);
    assert_eq!(QueryType::from_num(99), QueryType::UNKNOWN(99));
}

#[test]
fn result_codes_round_trip() {
    assert_eq!(ResultCode::from_num(0), ResultCode::NOERROR);
    assert_eq!(ResultCode::from_num(3), ResultCode::NXDOMAIN);
    assert_eq!(ResultCode::from_num(9), ResultCode::UNKNOWN(9));
    assert_eq!(ResultCode::SERVFAIL.to_num(), 2);
}

#[test]
fn header_round_trips_through_twelve_bytes() {
    let mut header = DnsHeader::new();
    header.id = 0xBEEF;
    header.recursion_desired = true;
    header.response = true;
    header.opcode = 2;
    header.rescode = ResultCode::NXDOMAIN;
    header.z = true;
    header.questions = 1;
    header.answers = 3;
    header.authoritative_entries = 2;
    header.resource_entries = 7;

    let mut buffer = BytePacketBuffer::new();
    header.write(&mut buffer).unwrap();
    assert_eq!(buffer.pos, 12);

    buffer.seek(0);
    let mut read_back = DnsHeader::new();
    read_back.read(&mut buffer).unwrap();
    assert_eq!(read_back, header);
}

#[test]
fn question_round_trips() {
    let question = DnsQuestion::new(b"www.example.com".to_vec(), QueryType::MX);
    let mut buffer = BytePacketBuffer::new();
    question.write(&mut buffer).unwrap();

    buffer.seek(0);
    let read_back = DnsQuestion::from_buffer(&mut buffer).unwrap();
    assert_eq!(read_back, question);
}

#[test]
fn a_record_round_trips() {
    let record = DnsRecord::A { domain: b"example.com".to_vec(), addr: 0xC0000201, ttl: 3600 };
    let mut buffer = BytePacketBuffer::new();
    let written = record.write(&mut buffer).unwrap();
    assert_eq!(written, buffer.pos);

    buffer.seek(0);
    let read_back = DnsRecord::read(&mut buffer).unwrap();
    assert_eq!(read_back, record);
}

#[test]
fn mx_record_round_trips_with_backpatched_length() {
    let record = DnsRecord::MX {
        domain: b"example.com".to_vec(),
        priority: 10,
        host: b"mail.example.com".to_vec(),
        ttl: 300,
    };
    let mut buffer = BytePacketBuffer::new();
    let written = record.write(&mut buffer).unwrap();

    // The data-length field sits after name, type, class and ttl; its
    // stored value must equal the bytes between its end and the
    // record's end.
    let name_len = 13; // "example.com" as labels: 1+7 + 1+3 + 1
    let dl_pos = name_len + 2 + 2 + 4;
    let stored = ((buffer.buff[dl_pos] as usize) << 8) | buffer.buff[dl_pos + 1] as usize;
    assert_eq!(stored, written - (dl_pos + 2));

    buffer.seek(0);
    let read_back = DnsRecord::read(&mut buffer).unwrap();
    assert_eq!(read_back, record);
}

#[test]
fn ns_record_backpatch_matches_payload() {
    let record = DnsRecord::NS {
        domain: b"com".to_vec(),
        host: b"ns1.example.com".to_vec(),
        ttl: 86400,
    };
    let mut buffer = BytePacketBuffer::new();
    let written = record.write(&mut buffer).unwrap();

    let name_len = 5; // "com" as labels: 1+3 + 1
    let dl_pos = name_len + 8;
    let stored = ((buffer.buff[dl_pos] as usize) << 8) | buffer.buff[dl_pos + 1] as usize;
    assert_eq!(stored, written - (dl_pos + 2));
    assert_eq!(stored, 17); // "ns1.example.com" as labels

    buffer.seek(0);
    assert_eq!(DnsRecord::read(&mut buffer).unwrap(), record);
}

#[test]
fn aaaa_record_round_trips() {
    let record = DnsRecord::AAAA {
        domain: b"example.com".to_vec(),
        addr0: 0x20010DB8,
        addr1: 0,
        addr2: 0,
        addr3: 1,
        ttl: 60,
    };
    let mut buffer = BytePacketBuffer::new();
    record.write(&mut buffer).unwrap();
    buffer.seek(0);
    assert_eq!(DnsRecord::read(&mut buffer).unwrap(), record);
}

#[test]
fn unknown_record_skips_its_payload_and_is_not_written() {
    // Hand-build a record of type code 99 with a 4-byte payload.
    let mut buffer = BytePacketBuffer::new();
    buffer.write_qname(&b"odd.example".to_vec()).unwrap();
    buffer.write_u16(99).unwrap();
    buffer.write_u16(1).unwrap();
    buffer.write_u32(120).unwrap();
    buffer.write_u16(4).unwrap();
    buffer.write_u32(0xDEADBEEF).unwrap();
    let end = buffer.pos;

    buffer.seek(0);
    let record = DnsRecord::read(&mut buffer).unwrap();
    assert_eq!(buffer.pos, end); // consumed exactly dataLen payload bytes
    assert_eq!(
        record,
        DnsRecord::UNKNOWN {
            domain: b"odd.example".to_vec(),
            query_type: 99,
            data_len: 4,
            ttl: 120,
        }
    );

    // Re-encoding such a record writes nothing at all.
    let mut out = BytePacketBuffer::new();
    out.seek(7);
    assert_eq!(record.write(&mut out), Ok(0));
    assert_eq!(out.pos, 7);
    assert!(out.buff.iter().all(|b| *b == 0));
}

#[test]
fn packet_round_trips_and_counts_follow_sections() {
    let mut packet = DnsPacket::new();
    packet.header.id = 0x1234;
    packet.header.recursion_desired = true;
    packet.header.response = true;
    packet.header.rescode = ResultCode::NOERROR;
    // Deliberately wrong counts: the encoder recomputes them.
    packet.header.questions = 9;
    packet.header.answers = 9;

    packet.questions.push(DnsQuestion::new(b"www.example.com".to_vec(), QueryType::A));
    packet.answers.push(DnsRecord::A {
        domain: b"www.example.com".to_vec(),
        addr: 0x5DB8D822,
        ttl: 300,
    });
    packet.authorities.push(DnsRecord::NS {
        domain: b"example.com".to_vec(),
        host: b"ns1.example.com".to_vec(),
        ttl: 86400,
    });
    packet.resources.push(DnsRecord::A {
        domain: b"ns1.example.com".to_vec(),
        addr: 0xC0000201,
        ttl: 86400,
    });

    let mut buffer = BytePacketBuffer::new();
    packet.write(&mut buffer).unwrap();

    buffer.seek(0);
    let decoded = DnsPacket::from_buffer(&mut buffer).unwrap();
    assert_eq!(decoded.header.id, 0x1234);
    assert_eq!(decoded.header.questions, 1);
    assert_eq!(decoded.header.answers, 1);
    assert_eq!(decoded.header.authoritative_entries, 1);
    assert_eq!(decoded.header.resource_entries, 1);
    assert_eq!(decoded.header.rescode, ResultCode::NOERROR);
    assert!(decoded.header.response);
    assert_eq!(decoded.questions, packet.questions);
    assert_eq!(decoded.answers, packet.answers);
    assert_eq!(decoded.authorities, packet.authorities);
    assert_eq!(decoded.resources, packet.resources);
}

#[test]
fn decoding_an_empty_packet_works() {
    let mut buffer = BytePacketBuffer::new();
    let decoded = DnsPacket::from_buffer(&mut buffer).unwrap();
    assert_eq!(decoded.header.questions, 0);
    assert!(decoded.questions.is_empty());
    assert!(decoded.answers.is_empty());
}
