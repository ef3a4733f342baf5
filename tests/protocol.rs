use dns_codec::protocol::{DNSAnswer, DNSHeader, DNSQuery, DNSQuestion, DNSResponse, ProtocolError};

fn labels(parts: &[&str]) -> Vec<Vec<u8>> {
    parts.iter().map(|p| p.as_bytes().to_vec()).collect()
}

fn example_question() -> DNSQuestion {
    DNSQuestion { domain_name: labels(&["example", "com"]), query_type: 1, query_class: 1 }
}

fn example_question_bytes() -> Vec<u8> {
    let mut b = vec![7];
    b.extend_from_slice(b"example");
    b.push(3);
    b.extend_from_slice(b"com");
    b.extend_from_slice(&[0, 0, 1, 0, 1]);
    b
}

fn full_header() -> DNSHeader {
    DNSHeader {
        id: 0xBEEF,
        qr: 1,
        opcode: 0b1010,
        aa: 1,
        tc: 0,
        rd: 1,
        ra: 1,
        z: 0b101,
        rcode: 0b0011,
        qdcount: 0x0102,
        ancount: 0x0304,
        nscount: 0x0506,
        arcount: 0xFFFF,
    }
}

#[test]
fn header_new_sets_only_id_and_flag() {
    let h = DNSHeader::new(0x1234, true);
    assert_eq!(h.id, 0x1234);
    assert_eq!(h.qr, 1);
    assert_eq!(h.to_bytes(), [0x12, 0x34, 0x80, 0, 0, 0, 0, 0, 0, 0, 0, 0]);
    assert_eq!(DNSHeader::new(7, false).qr, 0);
}

#[test]
fn header_encodes_bit_exact() {
    let b = full_header().to_bytes();
    assert_eq!(b, [0xBE, 0xEF, 0b1101_0101, 0b1101_0011, 1, 2, 3, 4, 5, 6, 0xFF, 0xFF]);
}

#[test]
fn header_round_trip() {
    let h = full_header();
    let decoded = DNSHeader::from_bytes(&h.to_bytes()).unwrap();
    assert_eq!(decoded, h);
    let plain = DNSHeader::new(0, false);
    assert_eq!(DNSHeader::from_bytes(&plain.to_bytes()).unwrap(), plain);
}

#[test]
fn header_short_buffer_is_format_error() {
    let bytes = [0xFFu8; 12];
    for n in 0..12 {
        assert_eq!(DNSHeader::from_bytes(&bytes[..n]), Err(ProtocolError));
    }
    assert!(DNSHeader::from_bytes(&bytes).is_ok());
}

#[test]
fn header_decodes_unchecked_opcode_and_ignores_extra_bytes() {
    let bytes = [0, 1, 9 << 3, 0, 0, 0, 0, 0, 0, 0, 0, 0, 42, 42];
    let h = DNSHeader::from_bytes(&bytes).unwrap();
    assert_eq!(h.opcode, 9);
    assert_eq!(h.id, 1);
}

#[test]
fn question_encodes_labels_type_and_class() {
    assert_eq!(example_question().to_bytes(), example_question_bytes());
}

#[test]
fn question_round_trip() {
    let q = DNSQuestion { domain_name: labels(&["a", "bc", "def"]), query_type: 0x1C, query_class: 0xFE01 };
    let bytes = q.to_bytes();
    let (decoded, consumed) = DNSQuestion::from_bytes(&bytes, 0).unwrap();
    assert_eq!(decoded, q);
    assert_eq!(consumed, bytes.len());
}

#[test]
fn question_with_longest_decodable_label_round_trips() {
    let q = DNSQuestion { domain_name: vec![vec![b'x'; 191]], query_type: 1, query_class: 1 };
    let bytes = q.to_bytes();
    assert_eq!(bytes[0], 191);
    let (decoded, consumed) = DNSQuestion::from_bytes(&bytes, 0).unwrap();
    assert_eq!(decoded, q);
    assert_eq!(consumed, bytes.len());
}

#[test]
fn question_root_name() {
    let q = DNSQuestion { domain_name: vec![], query_type: 2, query_class: 3 };
    assert_eq!(q.to_bytes(), vec![0, 0, 2, 0, 3]);
    let (decoded, consumed) = DNSQuestion::from_bytes(&[0, 0, 2, 0, 3], 0).unwrap();
    assert_eq!(decoded, q);
    assert_eq!(consumed, 5);
}

#[test]
fn question_decodes_from_offset() {
    let mut bytes = vec![0xAA, 0xBB, 0xCC];
    bytes.extend(example_question_bytes());
    bytes.push(0xDD);
    let (q, consumed) = DNSQuestion::from_bytes(&bytes, 3).unwrap();
    assert_eq!(q, example_question());
    assert_eq!(consumed, example_question_bytes().len());
}

#[test]
fn question_final_label_too_long_is_format_error() {
    let bytes = [7, b'e', b'x', b'a', b'm', b'p', b'l', b'e', 5, b'c', b'o', b'm'];
    assert_eq!(DNSQuestion::from_bytes(&bytes, 0), Err(ProtocolError));
}

#[test]
fn question_missing_terminator_is_format_error() {
    let bytes = [3, b'c', b'o', b'm'];
    assert_eq!(DNSQuestion::from_bytes(&bytes, 0), Err(ProtocolError));
}

#[test]
fn question_compression_pointer_is_format_error() {
    let bytes = [0xC0, 0x0C, 0, 1, 0, 1];
    assert_eq!(DNSQuestion::from_bytes(&bytes, 0), Err(ProtocolError));
}

#[test]
fn question_truncated_type_and_class_is_format_error() {
    let bytes = [3, b'c', b'o', b'm', 0, 0, 1, 0];
    assert_eq!(DNSQuestion::from_bytes(&bytes, 0), Err(ProtocolError));
}

#[test]
fn question_start_past_end_is_format_error() {
    let bytes = example_question_bytes();
    assert_eq!(DNSQuestion::from_bytes(&bytes, bytes.len()), Err(ProtocolError));
    assert_eq!(DNSQuestion::from_bytes(&bytes, bytes.len() + 5), Err(ProtocolError));
}

#[test]
fn question_validity_of_labels() {
    assert!(example_question().is_valid());
    let empty = DNSQuestion { domain_name: vec![vec![]], query_type: 1, query_class: 1 };
    assert!(!empty.is_valid());
    let long = DNSQuestion { domain_name: vec![vec![b'a'; 256]], query_type: 1, query_class: 1 };
    assert!(!long.is_valid());
    let longest = DNSQuestion { domain_name: vec![vec![b'a'; 255]], query_type: 1, query_class: 1 };
    assert!(longest.is_valid());
}

#[test]
fn answer_encodes_all_fields() {
    let a = DNSAnswer {
        domain_name: labels(&["ab"]),
        query_type: 1,
        query_class: 1,
        ttl: 0x01020304,
        rdlength: 4,
        rdata: [10, 0, 0, 1],
    };
    assert_eq!(a.to_bytes(), vec![2, b'a', b'b', 0, 0, 1, 0, 1, 1, 2, 3, 4, 0, 4, 10, 0, 0, 1]);
}

#[test]
fn answer_rdlength_follows_data_not_declared_field() {
    let a = DNSAnswer {
        domain_name: labels(&["example", "com"]),
        query_type: 1,
        query_class: 1,
        ttl: 60,
        rdlength: 99,
        rdata: [1, 2, 3, 4],
    };
    let b = a.to_bytes();
    let n = b.len();
    assert_eq!(&b[n - 6..n - 4], &[0, 4]);
    assert_eq!(&b[n - 4..], &[1, 2, 3, 4]);
}

#[test]
fn query_new_and_to_bytes() {
    let q = DNSQuery::new(0x1234, example_question());
    assert_eq!(q.header, DNSHeader::new(0x1234, false));
    let mut expected = vec![0x12, 0x34, 0, 0, 0, 0, 0, 0, 0, 0, 0, 0];
    expected.extend(example_question_bytes());
    assert_eq!(q.to_bytes(), expected);
}

#[test]
fn query_from_bytes_keeps_header_and_question() {
    let mut bytes = full_header().to_bytes().to_vec();
    bytes.extend(example_question_bytes());
    let q = DNSQuery::from_bytes(&bytes).unwrap();
    assert_eq!(q.header, full_header());
    assert_eq!(q.question_section, example_question());
}

#[test]
fn query_from_bytes_errors() {
    assert_eq!(DNSQuery::from_bytes(&[0, 1, 2]), Err(ProtocolError));
    let header_only = DNSHeader::new(1, false).to_bytes();
    assert_eq!(DNSQuery::from_bytes(&header_only), Err(ProtocolError));
    let mut bad = header_only.to_vec();
    bad.extend_from_slice(&[9, b'a', 0]);
    assert_eq!(DNSQuery::from_bytes(&bad), Err(ProtocolError));
}

#[test]
fn end_to_end_response_for_example_com() {
    let query = DNSQuery::new(0x1234, example_question());
    assert_eq!(query.header.qr, 0);
    let query = DNSQuery::from_bytes(&query.to_bytes()).unwrap();
    let response = DNSResponse::for_request(query);
    let bytes = response.to_bytes();
    let mut expected = vec![0x12, 0x34, 0x80, 0, 0, 1, 0, 1, 0, 0, 0, 0];
    expected.extend(example_question_bytes());
    expected.extend(example_question_bytes());
    expected.extend_from_slice(&[0, 0, 0, 60, 0, 4, 8, 8, 8, 8]);
    assert_eq!(bytes, expected);
}

#[test]
fn response_fields_for_request() {
    let mut query = DNSQuery::new(0xABCD, example_question());
    query.header.rd = 1;
    query.header.opcode = 2;
    let r = DNSResponse::for_request(query);
    let mut header = DNSHeader::new(0xABCD, true);
    header.qdcount = 1;
    header.ancount = 1;
    assert_eq!(r.header, header);
    assert_eq!(r.question_section, example_question());
    assert_eq!(r.answer_section.domain_name, labels(&["example", "com"]));
    assert_eq!(r.answer_section.ttl, 60);
    assert_eq!(r.answer_section.rdlength, 4);
    assert_eq!(r.answer_section.rdata, [8, 8, 8, 8]);
}

#[test]
fn response_encoding_is_repeatable() {
    let r = DNSResponse::for_request(DNSQuery::new(9, example_question()));
    assert_eq!(r.to_bytes(), r.to_bytes());
}
