use dns_resolver::buffer::BytePacketBuffer;
use dns_resolver::header::DNSHeader;
use dns_resolver::packet::DNSPacket;
use dns_resolver::question::DNSQuestion;
use dns_resolver::record::DNSRecord;
use dns_resolver::types::DnsError;
use dns_resolver::types::Ipv4Addr;
use dns_resolver::types::Ipv6Addr;
use dns_resolver::types::QueryType;
use dns_resolver::types::ResultCode;

#[test]
fn query_type_num_round_trip_all() {
    for n in 0..=65535u16 {
        assert_eq!(QueryType::from_num(n).to_num(), n);
    }
    assert_eq!(QueryType::from_num(1), QueryType::A);
    assert_eq!(QueryType::from_num(2), QueryType::NS);
    assert_eq!(QueryType::from_num(5), QueryType::CNAME);
    assert_eq!(QueryType::from_num(15), QueryType::MX);
    assert_eq!(QueryType::from_num(28), QueryType::AAAA);
    assert_eq!(QueryType::from_num(16), QueryType::UNKNOWN(16));
}

#[test]
fn result_code_folds_unknown_to_noerror() {
    assert_eq!(ResultCode::from_num(0), ResultCode::NOERROR);
    assert_eq!(ResultCode::from_num(1), ResultCode::FORMERR);
    assert_eq!(ResultCode::from_num(2), ResultCode::SERVFAIL);
    assert_eq!(ResultCode::from_num(3), ResultCode::NXDOMAIN);
    assert_eq!(ResultCode::from_num(4), ResultCode::NOTIMP);
    assert_eq!(ResultCode::from_num(5), ResultCode::REFUSED);
    assert_eq!(ResultCode::from_num(77), ResultCode::NOERROR);
}

#[test]
fn buffer_big_endian_round_trip() {
    let mut b = BytePacketBuffer::new();
    b.write_u16(0xBEEF).unwrap();
    b.write_u32(0x01020304).unwrap();
    b.write_u8(0x7F).unwrap();
    assert_eq!(b.pos, 7);
    assert_eq!(&b.buf[0..7], &[0xBE, 0xEF, 0x01, 0x02, 0x03, 0x04, 0x7F]);
    b.set_position(0).unwrap();
    assert_eq!(b.read_u16().unwrap(), 0xBEEF);
    assert_eq!(b.read_u32().unwrap(), 0x01020304);
    assert_eq!(b.read_u8().unwrap(), 0x7F);
}

#[test]
fn buffer_bounds_are_enforced() {
    let mut b = BytePacketBuffer::new();
    b.set_position(511).unwrap();
    assert_eq!(b.read_u16(), Err(DnsError::OutOfBounds));
    b.set_position(512).unwrap();
    assert_eq!(b.read_u8(), Err(DnsError::OutOfBounds));
    assert_eq!(b.write_u8(1), Err(DnsError::OutOfBounds));
    assert_eq!(b.set_position(513), Err(DnsError::OutOfBounds));
    let mut c = BytePacketBuffer::new();
    assert_eq!(c.skip(513), Err(DnsError::OutOfBounds));
    assert_eq!(c.skip(512), Ok(()));
    assert_eq!(c.pos, 512);
    assert_eq!(c.peek(512), Err(DnsError::OutOfBounds));
    assert_eq!(c.peek_many(509, 4), Err(DnsError::OutOfBounds));
    assert!(c.peek_many(508, 4).is_ok());
}

#[test]
fn set_u16_at_back_patches_without_moving_cursor() {
    let mut b = BytePacketBuffer::new();
    b.write_u32(0).unwrap();
    b.set_u16_at(1, 0x0203).unwrap();
    assert_eq!(b.pos, 4);
    assert_eq!(&b.buf[0..4], &[0x00, 0x02, 0x03, 0x00]);
    assert_eq!(b.set_u16_at(511, 7), Err(DnsError::OutOfBounds));
}

#[test]
fn header_round_trip_scenario() {
    // id 0x1337, recursion desired, one question, nothing else
    let mut header = DNSHeader::new();
    header.id = 0x1337;
    header.recursion_desired = true;
    header.questions = 1;
    let mut b = BytePacketBuffer::new();
    header.write(&mut b).unwrap();
    assert_eq!(b.pos, 12);
    assert_eq!(
        &b.buf[0..12],
        &[0x13, 0x37, 0x01, 0x00, 0x00, 0x01, 0x00, 0x00, 0x00, 0x00, 0x00, 0x00]
    );
    b.set_position(0).unwrap();
    let mut back = DNSHeader::new();
    back.read(&mut b).unwrap();
    assert_eq!(back, header);
}

#[test]
fn header_flags_round_trip() {
    let mut header = DNSHeader::new();
    header.id = 0xABCD;
    header.response = true;
    header.opcode = 11;
    header.authoritative_answer = true;
    header.truncated_message = true;
    header.recursion_desired = true;
    header.recursion_available = true;
    header.z = true;
    header.authed_data = true;
    header.checking_disabled = true;
    header.rescode = ResultCode::REFUSED;
    header.questions = 3;
    header.answers = 4;
    header.authoritative_entries = 5;
    header.resource_entries = 6;
    let mut b = BytePacketBuffer::new();
    header.write(&mut b).unwrap();
    b.set_position(0).unwrap();
    let mut back = DNSHeader::new();
    back.read(&mut b).unwrap();
    assert_eq!(back, header);
    assert_eq!(b.pos, 12);
}

#[test]
fn question_encode_scenario() {
    let q = DNSQuestion::new(b"www.example.com".to_vec(), QueryType::A);
    let mut b = BytePacketBuffer::new();
    q.write(&mut b).unwrap();
    let mut expected: Vec<u8> = Vec::new();
    expected.push(3);
    expected.extend_from_slice(b"www");
    expected.push(7);
    expected.extend_from_slice(b"example");
    expected.push(3);
    expected.extend_from_slice(b"com");
    expected.extend_from_slice(&[0x00, 0x00, 0x01, 0x00, 0x01]);
    assert_eq!(&b.buf[0..b.pos], &expected[..]);
}

#[test]
fn name_decompression_scenario() {
    // offset 12 holds "foo", offset 20 points back at it
    let mut b = BytePacketBuffer::new();
    b.buf[12] = 3;
    b.buf[13] = b'f';
    b.buf[14] = b'o';
    b.buf[15] = b'o';
    b.buf[16] = 0;
    b.buf[20] = 0xC0;
    b.buf[21] = 0x0C;
    b.set_position(20).unwrap();
    let mut out: Vec<u8> = Vec::new();
    b.read_qname(&mut out).unwrap();
    assert_eq!(out, b"foo".to_vec());
    assert_eq!(b.pos, 22);
}

#[test]
fn jump_limit_defends_against_cycles() {
    // a pointer at offset 12 that points at itself
    let mut b = BytePacketBuffer::new();
    b.buf[12] = 0xC0;
    b.buf[13] = 0x0C;
    b.set_position(12).unwrap();
    let mut out: Vec<u8> = Vec::new();
    assert_eq!(b.read_qname(&mut out), Err(DnsError::JumpLimit));
}

#[test]
fn qname_is_lowercased_on_read() {
    let mut b = BytePacketBuffer::new();
    b.write_qname(&b"WWW.Example.COM".to_vec()).unwrap();
    b.set_position(0).unwrap();
    let mut out: Vec<u8> = Vec::new();
    b.read_qname(&mut out).unwrap();
    assert_eq!(out, b"www.example.com".to_vec());
}

#[test]
fn label_of_64_fails_encode() {
    let mut name: Vec<u8> = Vec::new();
    for _ in 0..64 {
        name.push(b'a');
    }
    let mut b = BytePacketBuffer::new();
    assert_eq!(b.write_qname(&name), Err(DnsError::LabelTooLong));
    // 63 is the longest label that goes out
    let mut ok_name: Vec<u8> = Vec::new();
    for _ in 0..63 {
        ok_name.push(b'a');
    }
    let mut c = BytePacketBuffer::new();
    assert_eq!(c.write_qname(&ok_name), Ok(()));
    assert_eq!(c.pos, 65);
}

#[test]
fn encode_never_writes_past_the_buffer() {
    // a name whose encoding would cross octet 512 is refused
    let mut b = BytePacketBuffer::new();
    b.set_position(505).unwrap();
    assert_eq!(b.write_qname(&b"www.example.com".to_vec()), Err(DnsError::OutOfBounds));
    let mut header = DNSHeader::new();
    let mut c = BytePacketBuffer::new();
    c.set_position(505).unwrap();
    assert_eq!(header.write(&mut c), Err(DnsError::OutOfBounds));
    header.id = 1;
    let mut packet = DNSPacket::new();
    packet.header = header;
    let mut d = BytePacketBuffer::new();
    d.set_position(501).unwrap();
    assert_eq!(packet.write(&mut d), Err(DnsError::OutOfBounds));
}

#[test]
fn a_record_decode_scenario() {
    // an A record for dns.google with RDATA 08 08 08 08
    let mut b = BytePacketBuffer::new();
    let bytes: Vec<u8> = vec![
        3, b'd', b'n', b's', 6, b'g', b'o', b'o', b'g', b'l', b'e', 0, // name
        0x00, 0x01, // type A
        0x00, 0x01, // class IN
        0x00, 0x00, 0x01, 0x2C, // ttl 300
        0x00, 0x04, // RDATA length
        0x08, 0x08, 0x08, 0x08, // 8.8.8.8
    ];
    for (i, x) in bytes.iter().enumerate() {
        b.buf[i] = *x;
    }
    let rec = DNSRecord::read(&mut b).unwrap();
    assert_eq!(
        rec,
        DNSRecord::A {
            domain: b"dns.google".to_vec(),
            addr: Ipv4Addr::new(8, 8, 8, 8),
            ttl: 300,
        }
    );
    assert_eq!(b.pos, bytes.len());
}

#[test]
fn unknown_record_rdata_is_skipped() {
    let mut b = BytePacketBuffer::new();
    let bytes: Vec<u8> = vec![
        1, b'x', 0, // name "x"
        0x00, 0x10, // type 16 (unsupported)
        0x00, 0x01, // class
        0x00, 0x00, 0x00, 0x05, // ttl 5
        0x00, 0x03, // RDATA length 3
        0xAA, 0xBB, 0xCC, // RDATA, skipped
    ];
    for (i, x) in bytes.iter().enumerate() {
        b.buf[i] = *x;
    }
    let rec = DNSRecord::read(&mut b).unwrap();
    assert_eq!(
        rec,
        DNSRecord::UNKNOWN { domain: b"x".to_vec(), qtype: 16, data_len: 3, ttl: 5 }
    );
    assert_eq!(b.pos, bytes.len());
}

#[test]
fn ns_record_host_may_be_compressed() {
    // an NS record whose host points back at the record's own name
    let mut b = BytePacketBuffer::new();
    let bytes: Vec<u8> = vec![
        3, b'c', b'o', b'm', 0, // name "com" at offset 0
        0x00, 0x02, // type NS
        0x00, 0x01, // class IN
        0x00, 0x00, 0x00, 0x3C, // ttl 60
        0x00, 0x05, // RDATA length
        2, b'n', b's', 0xC0, 0x00, // "ns" + pointer to offset 0
    ];
    for (i, x) in bytes.iter().enumerate() {
        b.buf[i] = *x;
    }
    let rec = DNSRecord::read(&mut b).unwrap();
    assert_eq!(
        rec,
        DNSRecord::NS { domain: b"com".to_vec(), host: b"ns.com".to_vec(), ttl: 60 }
    );
    // a compressed name costs exactly two octets at the cursor
    assert_eq!(b.pos, bytes.len());
}

#[test]
fn ns_record_encode_back_patches_rdlength() {
    let rec = DNSRecord::NS { domain: b"com".to_vec(), host: b"ns.com".to_vec(), ttl: 60 };
    let mut b = BytePacketBuffer::new();
    let n = rec.write(&mut b).unwrap();
    assert_eq!(n, 23);
    assert_eq!(&b.buf[0..5], &[3, b'c', b'o', b'm', 0]);
    assert_eq!(&b.buf[5..7], &[0, 2]); // type NS
    assert_eq!(&b.buf[7..9], &[0, 1]); // class IN
    assert_eq!(&b.buf[9..13], &[0, 0, 0, 60]); // ttl
    assert_eq!(&b.buf[13..15], &[0, 8]); // RDATA length, patched to the host's size
    assert_eq!(&b.buf[15..23], &[2, b'n', b's', 3, b'c', b'o', b'm', 0]);
}

#[test]
fn mx_record_encode_back_patches_rdlength() {
    let rec = DNSRecord::MX {
        domain: b"com".to_vec(),
        priority: 10,
        host: b"mx.com".to_vec(),
        ttl: 60,
    };
    let mut b = BytePacketBuffer::new();
    let n = rec.write(&mut b).unwrap();
    assert_eq!(n, 25);
    assert_eq!(&b.buf[5..7], &[0, 15]); // type MX
    assert_eq!(&b.buf[13..15], &[0, 10]); // RDATA length: priority + host
    assert_eq!(&b.buf[15..17], &[0, 10]); // priority
    assert_eq!(&b.buf[17..25], &[2, b'm', b'x', 3, b'c', b'o', b'm', 0]);
}

#[test]
fn unknown_records_are_dropped_on_encode() {
    let rec = DNSRecord::UNKNOWN { domain: b"x".to_vec(), qtype: 16, data_len: 3, ttl: 5 };
    let mut b = BytePacketBuffer::new();
    assert_eq!(rec.write(&mut b), Ok(0));
    assert_eq!(b.pos, 0);
}

#[test]
fn message_round_trip_all_supported_types() {
    let mut m = DNSPacket::new();
    m.header.id = 0x0102;
    m.header.response = true;
    m.header.recursion_available = true;
    m.questions.push(DNSQuestion::new(b"example.com".to_vec(), QueryType::A));
    m.answers.push(DNSRecord::A {
        domain: b"example.com".to_vec(),
        addr: Ipv4Addr::new(93, 184, 216, 34),
        ttl: 3600,
    });
    m.answers.push(DNSRecord::AAAA {
        domain: b"example.com".to_vec(),
        addr: Ipv6Addr::new(0x2606, 0x2800, 0x220, 0x1, 0x248, 0x1893, 0x25c8, 0x1946),
        ttl: 3600,
    });
    m.authorities.push(DNSRecord::NS {
        domain: b"example.com".to_vec(),
        host: b"a.iana-servers.net".to_vec(),
        ttl: 86400,
    });
    m.authorities.push(DNSRecord::CNAME {
        domain: b"alias.example.com".to_vec(),
        host: b"example.com".to_vec(),
        ttl: 60,
    });
    m.resources.push(DNSRecord::MX {
        domain: b"example.com".to_vec(),
        priority: 10,
        host: b"mail.example.com".to_vec(),
        ttl: 7200,
    });

    let mut b = BytePacketBuffer::new();
    m.write(&mut b).unwrap();
    let end = b.pos;
    b.set_position(0).unwrap();
    let back = DNSPacket::from_buffer(&mut b).unwrap();
    assert_eq!(b.pos, end);

    // counts were synced by the encode
    assert_eq!(back.header.questions, 1);
    assert_eq!(back.header.answers, 2);
    assert_eq!(back.header.authoritative_entries, 2);
    assert_eq!(back.header.resource_entries, 1);
    assert_eq!(back.header, m.header);
    assert_eq!(back.questions, m.questions);
    assert_eq!(back.answers, m.answers);
    assert_eq!(back.authorities, m.authorities);
    assert_eq!(back.resources, m.resources);
}

#[test]
fn round_trip_lowercases_mixed_case_names() {
    let mut m = DNSPacket::new();
    m.header.id = 7;
    m.questions.push(DNSQuestion::new(b"WWW.Example.COM".to_vec(), QueryType::NS));
    let mut b = BytePacketBuffer::new();
    m.write(&mut b).unwrap();
    b.set_position(0).unwrap();
    let back = DNSPacket::from_buffer(&mut b).unwrap();
    assert_eq!(back.questions[0].name, b"www.example.com".to_vec());
    assert_eq!(back.questions[0].qtype, QueryType::NS);
}
