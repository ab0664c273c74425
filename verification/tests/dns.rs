use dns_blocker::dns::{
    build_blocked_answer, build_servfail, parse_dns_request, question_name_end,
    try_parse_dns_request, DnsError,
};

#[test]
fn test_parse_dns_request() {
    // A query for www.google.com (type A, class IN) followed by stray
    // records, in a 1024-byte receive buffer.
    let mut bytes: Vec<u8> = vec![
        198, 8, 1, 0, 0, 1, 0, 0, 0, 0, 0, 0, 3, 119, 119, 119, 6, 103, 111, 111, 103, 108,
        101, 3, 99, 111, 109, 0, 0, 1, 0, 1, 3, 99, 111, 109, 0, 0, 28, 0, 1, 3, 99, 111, 109,
        0, 0, 1, 0, 1, 108, 0, 0, 1, 0, 1,
    ];
    bytes.resize(1024, 0);

    let result = parse_dns_request(bytes.as_slice()).unwrap();

    println!("{:#?}", result);
    assert_eq!(result.header.id, 50696);
    assert!(result.header.qr);
    assert_eq!(result.question.qname, "www.google.com");
    assert_eq!(result.question.qtype, 1);
    assert_eq!(result.question.qclass, 1);
}

/// A query for `www.google.com`, type A, class IN, id 0xC608, RD set.
fn google_query(qtype: u16) -> Vec<u8> {
    let mut q = vec![198, 8, 1, 0, 0, 1, 0, 0, 0, 0, 0, 0];
    q.extend_from_slice(&[3, b'w', b'w', b'w', 6, b'g', b'o', b'o', b'g', b'l', b'e', 3, b'c', b'o', b'm', 0]);
    q.extend_from_slice(&qtype.to_be_bytes());
    q.extend_from_slice(&[0, 1]);
    q
}

#[test]
fn parse_reads_header_and_question() {
    let bytes = google_query(1);
    let req = parse_dns_request(&bytes).unwrap();
    assert_eq!(req.header.id, 0xC608);
    assert!(req.header.qr);
    assert_eq!(req.header.opcode, 0);
    assert!(!req.header.aa);
    assert!(!req.header.tc);
    assert!(req.header.rd);
    assert!(!req.header.ra);
    assert_eq!(req.header.z, 0);
    assert_eq!(req.header.rcode, 0);
    assert_eq!(req.header.qdcount, 1);
    assert_eq!(req.header.ancount, 0);
    assert_eq!(req.header.nscount, 0);
    assert_eq!(req.header.arcount, 0);
    assert_eq!(req.question.qname, "www.google.com");
    assert_eq!(req.question.qtype, 1);
    assert_eq!(req.question.qclass, 1);
}

#[test]
fn parse_reads_every_flag_bit() {
    let mut bytes = google_query(28);
    bytes[2] = 0b1010_1111;
    bytes[3] = 0b1101_0101;
    let req = parse_dns_request(&bytes).unwrap();
    assert!(!req.header.qr);
    assert_eq!(req.header.opcode, 0b0101);
    assert!(req.header.aa);
    assert!(req.header.tc);
    assert!(req.header.rd);
    assert!(req.header.ra);
    assert_eq!(req.header.z, 0b101);
    assert_eq!(req.header.rcode, 0b0101);
    assert_eq!(req.question.qtype, 28);
}

#[test]
fn parse_root_name_is_empty() {
    let bytes = vec![0, 1, 0, 0, 0, 1, 0, 0, 0, 0, 0, 0, 0, 0, 2, 0, 1];
    let req = parse_dns_request(&bytes).unwrap();
    assert_eq!(req.question.qname, "");
    assert_eq!(req.question.qtype, 2);
}

#[test]
fn parse_keeps_utf8_labels() {
    let mut bytes = vec![0, 1, 0, 0, 0, 1, 0, 0, 0, 0, 0, 0];
    bytes.extend_from_slice(&[2, 0xC3, 0xA9, 1, b'x', 0, 0, 1, 0, 1]);
    let req = parse_dns_request(&bytes).unwrap();
    assert_eq!(req.question.qname, "\u{e9}.x");
}

#[test]
fn parse_rejects_invalid_utf8_label() {
    let mut bytes = vec![0, 1, 0, 0, 0, 1, 0, 0, 0, 0, 0, 0];
    bytes.extend_from_slice(&[1, 0xFF, 0, 0, 1, 0, 1]);
    assert!(matches!(parse_dns_request(&bytes), Err(DnsError::InvalidLabel)));
    assert!(matches!(try_parse_dns_request(&bytes), Some(Err(DnsError::InvalidLabel))));
}

#[test]
fn invalid_label_is_reported_before_a_truncated_one() {
    let mut bytes = vec![0, 1, 0, 0, 0, 1, 0, 0, 0, 0, 0, 0];
    bytes.extend_from_slice(&[1, 0xFF, 9, b'a']);
    assert!(matches!(try_parse_dns_request(&bytes), Some(Err(DnsError::InvalidLabel))));
}

#[test]
fn truncated_messages_are_refused() {
    let full = google_query(1);
    assert!(try_parse_dns_request(&full).is_some());
    for len in 0..full.len() {
        assert!(try_parse_dns_request(&full[..len]).is_none(), "length {}", len);
    }
}

#[test]
fn blocked_answer_for_a_query() {
    let bytes = google_query(1);
    let req = parse_dns_request(&bytes).unwrap();
    let resp = build_blocked_answer(&bytes, &req);
    let mut expected = vec![198, 8, 0x85, 0, 0, 1, 0, 1, 0, 0, 0, 0];
    expected.extend_from_slice(&bytes[12..]);
    expected.extend_from_slice(&[0xC0, 0x0C, 0, 1, 0, 1, 0, 0, 0, 60, 0, 4, 0, 0, 0, 0]);
    assert_eq!(resp, expected);
}

#[test]
fn blocked_answer_for_aaaa_query() {
    let mut bytes = google_query(28);
    bytes[2] = 0;
    let req = parse_dns_request(&bytes).unwrap();
    let resp = build_blocked_answer(&bytes, &req);
    let mut expected = vec![198, 8, 0x84, 0, 0, 1, 0, 1, 0, 0, 0, 0];
    expected.extend_from_slice(&bytes[12..]);
    expected.extend_from_slice(&[0xC0, 0x0C, 0, 28, 0, 1, 0, 0, 0, 60, 0, 16]);
    expected.extend_from_slice(&[0u8; 16]);
    assert_eq!(resp, expected);
}

#[test]
fn blocked_answer_for_other_types_is_nxdomain() {
    let bytes = google_query(15);
    let req = parse_dns_request(&bytes).unwrap();
    let resp = build_blocked_answer(&bytes, &req);
    let mut expected = vec![198, 8, 0x85, 3, 0, 1, 0, 0, 0, 0, 0, 0];
    expected.extend_from_slice(&bytes[12..]);
    assert_eq!(resp, expected);
}

#[test]
fn blocked_answer_copies_only_the_question() {
    let mut bytes = google_query(1);
    let question_end = bytes.len();
    bytes.extend_from_slice(&[9, 9, 9]);
    let req = parse_dns_request(&bytes).unwrap();
    let resp = build_blocked_answer(&bytes, &req);
    assert_eq!(&resp[12..12 + question_end - 12], &bytes[12..question_end]);
    assert_eq!(resp.len(), 12 + (question_end - 12) + 16);
}

#[test]
fn servfail_echoes_question() {
    let bytes = google_query(1);
    let resp = build_servfail(&bytes, 0x1234);
    let mut expected = vec![0x12, 0x34, 0x80, 0x02, 0, 1, 0, 0, 0, 0, 0, 0];
    expected.extend_from_slice(&bytes[12..]);
    assert_eq!(resp, expected);
}

#[test]
fn servfail_without_complete_question() {
    let bytes = google_query(1);
    let resp = build_servfail(&bytes[..bytes.len() - 1], 7);
    assert_eq!(resp, vec![0, 7, 0x80, 0x02, 0, 1, 0, 0, 0, 0, 0, 0]);
    let resp = build_servfail(&[1, 2, 3], 7);
    assert_eq!(resp, vec![0, 7, 0x80, 0x02, 0, 1, 0, 0, 0, 0, 0, 0]);
}

#[test]
fn question_name_end_finds_zero_byte() {
    let bytes = google_query(1);
    assert_eq!(question_name_end(&bytes), Some(27));
    assert_eq!(question_name_end(&bytes[..20]), None);
    assert_eq!(question_name_end(&[0u8; 5]), None);
}
