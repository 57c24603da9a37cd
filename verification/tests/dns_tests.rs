use dns_core::header::DnsHeader;
use dns_core::domain::{encode_domain_name, parse_domain_name};
use dns_core::question::parse_question;
use dns_core::response::{
    build_response, create_response, BuildOutcome, DropReason, RecordTable,
};

/// A well-formed query buffer: header with the given id, then the single
/// question.
fn make_query(id: u16, name: &[u8], qtype: u16, qclass: u16) -> Vec<u8> {
    let header = DnsHeader {
        id,
        flags: 0x0100,
        question_count: 1,
        answer_count: 0,
        authority_count: 0,
        additional_count: 0,
    };
    let mut buf = header.to_bytes();
    let mut q = encode_domain_name(name);
    buf.append(&mut q);
    buf.extend_from_slice(&qtype.to_be_bytes());
    buf.extend_from_slice(&qclass.to_be_bytes());
    buf
}

fn example_table() -> RecordTable {
    let mut records = RecordTable::new();
    records.insert(b"example.com".to_vec(), [93, 184, 216, 34]);
    records
}

#[test]
fn header_round_trip() {
    let h = DnsHeader {
        id: 0xABCD,
        flags: 0x0100,
        question_count: 1,
        answer_count: 2,
        authority_count: 3,
        additional_count: 0xFFFF,
    };
    let bytes = h.to_bytes();
    assert_eq!(bytes.len(), 12);
    assert_eq!(bytes[0], 0xAB);
    assert_eq!(bytes[1], 0xCD);
    assert_eq!(DnsHeader::parse(&bytes), Some(h));
}

#[test]
fn header_parse_needs_twelve_bytes() {
    assert_eq!(DnsHeader::parse(&[0u8; 11]), None);
    assert!(DnsHeader::parse(&[0u8; 12]).is_some());
}

#[test]
fn name_round_trip() {
    let encoded = encode_domain_name(b"example.com");
    assert_eq!(
        encoded,
        vec![7, b'e', b'x', b'a', b'm', b'p', b'l', b'e', 3, b'c', b'o', b'm', 0]
    );
    let mut offset = 0usize;
    let decoded = parse_domain_name(&encoded, &mut offset);
    assert_eq!(decoded, Some(b"example.com".to_vec()));
    assert_eq!(offset, encoded.len());
}

#[test]
fn encode_collapses_empty_labels() {
    assert_eq!(encode_domain_name(b"a..b"), encode_domain_name(b"a.b"));
    assert_eq!(encode_domain_name(b".a.b."), encode_domain_name(b"a.b"));
    assert_eq!(encode_domain_name(b""), vec![0]);
    assert_eq!(encode_domain_name(b"..."), vec![0]);
}

#[test]
fn compressed_name_decodes_like_its_target() {
    // a name at offset 12, and elsewhere a name that is solely a pointer
    // back to offset 12
    let mut buf = vec![0u8; 12];
    buf.append(&mut encode_domain_name(b"example.com"));
    let p = buf.len();
    buf.push(0xC0);
    buf.push(0x0C);

    let mut at_twelve = 12usize;
    let direct = parse_domain_name(&buf, &mut at_twelve);
    let mut at_pointer = p;
    let via_pointer = parse_domain_name(&buf, &mut at_pointer);
    assert_eq!(direct, Some(b"example.com".to_vec()));
    assert_eq!(via_pointer, direct);
    assert_eq!(at_pointer, p + 2);
}

#[test]
fn pointer_self_loop_is_malformed() {
    // the label-length byte at offset 12 is a pointer to its own offset
    let mut buf = vec![0u8; 12];
    buf.push(0xC0);
    buf.push(0x0C);
    let mut offset = 12usize;
    assert_eq!(parse_domain_name(&buf, &mut offset), None);
    assert_eq!(offset, 12);
}

#[test]
fn pointer_chain_is_bounded_at_sixteen_hops() {
    // seventeen chained pointers: one hop too many
    let mut buf = Vec::new();
    for i in 0..17u16 {
        let target = 2 * (i + 1);
        buf.push(0xC0);
        buf.push(target as u8);
    }
    buf.push(1);
    buf.push(b'x');
    buf.push(0);
    let mut offset = 0usize;
    assert_eq!(parse_domain_name(&buf, &mut offset), None);

    // starting one pointer later uses only sixteen hops and succeeds
    let mut offset = 2usize;
    assert_eq!(parse_domain_name(&buf, &mut offset), Some(b"x".to_vec()));
    assert_eq!(offset, 4);
}

#[test]
fn longest_plain_label_round_trips() {
    // a 191-byte label is the longest whose length byte is no pointer
    let name = vec![b'a'; 191];
    let encoded = encode_domain_name(&name);
    let mut offset = 0usize;
    assert_eq!(parse_domain_name(&encoded, &mut offset), Some(name));
    assert_eq!(offset, encoded.len());

    // a 200-byte label gets the length byte 200, which reads back as a
    // compression pointer, so the round trip is lost
    let long = vec![b'a'; 200];
    let encoded = encode_domain_name(&long);
    assert_eq!(encoded[0], 200);
    let mut offset = 0usize;
    assert_eq!(parse_domain_name(&encoded, &mut offset), None);
}

#[test]
fn label_running_past_the_buffer_is_malformed() {
    let buf = [5, b'a', b'b', 0];
    let mut offset = 0usize;
    assert_eq!(parse_domain_name(&buf, &mut offset), None);
    assert_eq!(offset, 0);
}

#[test]
fn question_parses_name_type_and_class() {
    let query = make_query(7, b"test.local", 1, 1);
    let mut offset = 12usize;
    let q = parse_question(&query, &mut offset).unwrap();
    assert_eq!(q.name, b"test.local".to_vec());
    assert_eq!(q.qtype, 1);
    assert_eq!(q.qclass, 1);
    assert_eq!(offset, query.len());
}

#[test]
fn question_missing_class_is_malformed() {
    let query = make_query(7, b"test.local", 1, 1);
    let truncated = &query[..query.len() - 2];
    let mut offset = 12usize;
    assert!(parse_question(truncated, &mut offset).is_none());
}

#[test]
fn hit_scenario() {
    let records = example_table();
    let query = make_query(0x1234, b"example.com", 1, 1);
    let response = match build_response(&query, &records) {
        BuildOutcome::Success(b) => b,
        other => panic!("expected a successful response, got {:?}", other),
    };

    let mut expected = Vec::new();
    // header: query id, response/no-error flags, one question, one answer
    expected.extend_from_slice(&[0x12, 0x34, 0x81, 0x80, 0, 1, 0, 1, 0, 0, 0, 0]);
    // the question echoed back
    expected.extend_from_slice(&[7]);
    expected.extend_from_slice(b"example");
    expected.extend_from_slice(&[3]);
    expected.extend_from_slice(b"com");
    expected.extend_from_slice(&[0, 0, 1, 0, 1]);
    // the answer: pointer to the question name, type A, class IN,
    // TTL 300, four data bytes
    expected.extend_from_slice(&[0xC0, 0x0C, 0, 1, 0, 1, 0, 0, 1, 44, 0, 4, 93, 184, 216, 34]);
    assert_eq!(response, expected);
}

#[test]
fn miss_scenario() {
    let records = example_table();
    let query = make_query(0x4321, b"nosuch.example", 1, 1);
    let response = match build_response(&query, &records) {
        BuildOutcome::NotFound(b) => b,
        other => panic!("expected an NXDOMAIN response, got {:?}", other),
    };

    // header: query id, response/NXDOMAIN flags, one question, no answers
    assert_eq!(&response[..12], &[0x43, 0x21, 0x81, 0x83, 0, 1, 0, 0, 0, 0, 0, 0]);
    // the question echoed verbatim, and nothing after it
    assert_eq!(&response[12..], &query[12..]);
}

#[test]
fn type_filtering_drops_non_a_queries() {
    let records = example_table();
    let query = make_query(0x1234, b"example.com", 28, 1);
    assert!(matches!(
        build_response(&query, &records),
        BuildOutcome::Dropped(DropReason::UnsupportedType)
    ));
    assert!(create_response(&query, query.len(), &records).is_none());
}

#[test]
fn truncated_buffer_produces_nothing() {
    let records = example_table();
    let buf = [0u8; 10];
    assert!(matches!(
        build_response(&buf, &records),
        BuildOutcome::Dropped(DropReason::Malformed)
    ));
    assert!(create_response(&buf, buf.len(), &records).is_none());
}

#[test]
fn self_pointing_question_produces_nothing() {
    let records = example_table();
    let mut buf = vec![0u8; 12];
    buf.push(0xC0);
    buf.push(0x0C);
    buf.extend_from_slice(&[0, 1, 0, 1]);
    assert!(matches!(
        build_response(&buf, &records),
        BuildOutcome::Dropped(DropReason::Malformed)
    ));
}

#[test]
fn create_response_returns_the_success_buffer() {
    let records = example_table();
    let query = make_query(0x1234, b"example.com", 1, 1);
    let via_option = create_response(&query, query.len(), &records).unwrap();
    let via_outcome = match build_response(&query, &records) {
        BuildOutcome::Success(b) => b,
        other => panic!("expected a successful response, got {:?}", other),
    };
    assert_eq!(via_option, via_outcome);
}

#[test]
fn later_insert_shadows_earlier_entry() {
    let mut records = RecordTable::new();
    records.insert(b"test.local".to_vec(), [1, 2, 3, 4]);
    records.insert(b"test.local".to_vec(), [5, 6, 7, 8]);
    assert_eq!(records.lookup(b"test.local"), Some([5, 6, 7, 8]));
    assert_eq!(records.lookup(b"other.local"), None);
}

#[test]
fn lookup_is_case_sensitive() {
    let records = example_table();
    assert_eq!(records.lookup(b"example.com"), Some([93, 184, 216, 34]));
    assert_eq!(records.lookup(b"Example.com"), None);
}
