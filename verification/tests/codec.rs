use dns_codec::err::DnsError;
use dns_codec::header::Headers;
use dns_codec::message::DNSPacket;
use dns_codec::name::{encode_name, get_name};
use dns_codec::record::{Answer, Question};

fn sample_header() -> Headers {
    Headers {
        packet_id: 0x1234,
        query_response_indicator: true,
        operation_code: 9,
        authoritative_answer: false,
        truncation: true,
        recursion_desired: true,
        recursion_available: false,
        reserved: 5,
        response_code: 11,
        question_count: 3,
        answer_record_count: 700,
        authority_record_count: 0xFFFF,
        additional_record_count: 1,
    }
}

#[test]
fn header_round_trip() {
    let h = sample_header();
    let bytes = h.to_bytes();
    assert_eq!(bytes.len(), 12);
    let back = Headers::from_bytes(&bytes).unwrap();
    assert_eq!(back, h);
}

#[test]
fn header_exact_bytes() {
    let h = Headers {
        packet_id: 0x1234,
        query_response_indicator: false,
        operation_code: 0,
        authoritative_answer: false,
        truncation: false,
        recursion_desired: true,
        recursion_available: false,
        reserved: 0,
        response_code: 0,
        question_count: 1,
        answer_record_count: 0,
        authority_record_count: 0,
        additional_record_count: 0,
    };
    let bytes = h.to_bytes();
    assert_eq!(bytes, vec![0x12, 0x34, 0x01, 0x00, 0x00, 0x01, 0x00, 0x00, 0x00, 0x00, 0x00, 0x00]);
}

#[test]
fn header_decode_short_buffer_is_truncated() {
    let buf = [0u8; 11];
    assert_eq!(Headers::from_bytes(&buf), Err(DnsError::TruncatedBuffer));
    let empty: [u8; 0] = [];
    assert_eq!(Headers::from_bytes(&empty), Err(DnsError::TruncatedBuffer));
}

#[test]
fn name_round_trip() {
    let name = vec![String::from("codecrafters"), String::from("io")];
    let bytes = encode_name(&name);
    let mut expected = vec![12u8];
    expected.extend(b"codecrafters".iter().copied());
    expected.push(2);
    expected.extend(b"io".iter().copied());
    expected.push(0);
    assert_eq!(bytes, expected);
    let (decoded, end) = get_name(&bytes, 0).unwrap();
    assert_eq!(decoded, name);
    assert_eq!(end, bytes.len());
}

#[test]
fn name_root_round_trip() {
    let name: Vec<String> = Vec::new();
    let bytes = encode_name(&name);
    assert_eq!(bytes, vec![0u8]);
    let (decoded, end) = get_name(&bytes, 0).unwrap();
    assert!(decoded.is_empty());
    assert_eq!(end, 1);
}

#[test]
fn name_pointer_decompression() {
    // "io" is stored at offset 0; the name at offset 4 is "a" followed by a
    // pointer back to it.
    let buf = vec![2, b'i', b'o', 0, 1, b'a', 0xC0, 0x00];
    let (decoded, end) = get_name(&buf, 4).unwrap();
    assert_eq!(decoded, vec![String::from("a"), String::from("io")]);
    assert_eq!(end, 8);
}

#[test]
fn name_pointer_self_cycle_is_malformed() {
    let buf = vec![0xC0, 0x00];
    assert_eq!(get_name(&buf, 0), Err(DnsError::MalformedName));
}

#[test]
fn name_pointer_two_cycle_is_malformed() {
    let buf = vec![0xC0, 0x02, 0xC0, 0x00];
    assert_eq!(get_name(&buf, 0), Err(DnsError::MalformedName));
    assert_eq!(get_name(&buf, 2), Err(DnsError::MalformedName));
}

#[test]
fn name_invalid_utf8_is_malformed() {
    let buf = vec![1, 0xFF, 0];
    assert_eq!(get_name(&buf, 0), Err(DnsError::MalformedName));
}

#[test]
fn name_multibyte_utf8_label() {
    // A two-byte UTF-8 label must come back as its one decoded character.
    let buf = vec![2, 0xC3, 0xA9, 0];
    let (decoded, end) = get_name(&buf, 0).unwrap();
    assert_eq!(decoded, vec![String::from("\u{e9}")]);
    assert_eq!(end, 4);
}

#[test]
fn name_overlong_length_byte_is_malformed() {
    let mut buf = vec![64u8];
    buf.extend(std::iter::repeat(b'a').take(64));
    buf.push(0);
    assert_eq!(get_name(&buf, 0), Err(DnsError::MalformedName));
}

#[test]
fn name_truncated_label_is_truncated() {
    let buf = vec![5, b'a', b'b'];
    assert_eq!(get_name(&buf, 0), Err(DnsError::TruncatedBuffer));
    let buf2 = vec![1, b'a'];
    assert_eq!(get_name(&buf2, 0), Err(DnsError::TruncatedBuffer));
}

#[test]
fn name_truncated_pointer_is_truncated() {
    let buf = vec![0xC0];
    assert_eq!(get_name(&buf, 0), Err(DnsError::TruncatedBuffer));
}

#[test]
fn question_round_trip() {
    let q = Question {
        name: vec![String::from("example"), String::from("com")],
        record_type: 1,
        class: 1,
    };
    let bytes = q.to_bytes();
    let (back, end) = Question::from_bytes(&bytes, 0).unwrap();
    assert_eq!(back.name, q.name);
    assert_eq!(back.record_type, 1);
    assert_eq!(back.class, 1);
    assert_eq!(end, bytes.len());
}

#[test]
fn answer_round_trip() {
    let a = Answer {
        name: vec![String::from("example"), String::from("com")],
        record_type: 1,
        class: 1,
        ttl: 0xDEADBEEF,
        data: vec![1, 2, 3, 4, 5],
    };
    let bytes = a.to_bytes().unwrap();
    let (back, end) = Answer::from_bytes(&bytes, 0).unwrap();
    assert_eq!(back.name, a.name);
    assert_eq!(back.record_type, 1);
    assert_eq!(back.class, 1);
    assert_eq!(back.ttl, 0xDEADBEEF);
    assert_eq!(back.data, vec![1, 2, 3, 4, 5]);
    assert_eq!(end, bytes.len());
}

#[test]
fn answer_rdata_too_large() {
    let a = Answer {
        name: vec![String::from("example")],
        record_type: 1,
        class: 1,
        ttl: 60,
        data: vec![0u8; 0x10000],
    };
    assert_eq!(a.to_bytes(), Err(DnsError::RdataTooLarge));
}

#[test]
fn message_round_trip() {
    let packet = DNSPacket {
        headers: Headers {
            packet_id: 77,
            query_response_indicator: true,
            operation_code: 0,
            authoritative_answer: false,
            truncation: false,
            recursion_desired: true,
            recursion_available: false,
            reserved: 0,
            response_code: 0,
            question_count: 2,
            answer_record_count: 1,
            authority_record_count: 0,
            additional_record_count: 0,
        },
        questions: vec![
            Question { name: vec![String::from("a"), String::from("io")], record_type: 1, class: 1 },
            Question { name: vec![String::from("b")], record_type: 28, class: 1 },
        ],
        answers: vec![Answer {
            name: vec![String::from("a"), String::from("io")],
            record_type: 1,
            class: 1,
            ttl: 300,
            data: vec![127, 0, 0, 1],
        }],
    };
    let bytes = packet.to_bytes().unwrap();
    let back = DNSPacket::from_bytes(&bytes).unwrap();
    assert_eq!(back.headers, packet.headers);
    assert_eq!(back.questions.len(), packet.questions.len());
    assert_eq!(back.answers.len(), packet.answers.len());
    assert_eq!(back.headers.question_count as usize, packet.questions.len());
    assert_eq!(back.headers.answer_record_count as usize, packet.answers.len());
    assert_eq!(back.questions[0].name, packet.questions[0].name);
    assert_eq!(back.questions[1].name, packet.questions[1].name);
    assert_eq!(back.questions[1].record_type, 28);
    assert_eq!(back.answers[0].name, packet.answers[0].name);
    assert_eq!(back.answers[0].ttl, 300);
    assert_eq!(back.answers[0].data, vec![127, 0, 0, 1]);
    // Re-encoding the decoded message gives the same bytes.
    assert_eq!(back.to_bytes().unwrap(), bytes);
}

#[test]
fn message_declares_more_questions_than_present() {
    let h = Headers {
        packet_id: 1,
        query_response_indicator: false,
        operation_code: 0,
        authoritative_answer: false,
        truncation: false,
        recursion_desired: false,
        recursion_available: false,
        reserved: 0,
        response_code: 0,
        question_count: 1,
        answer_record_count: 0,
        authority_record_count: 0,
        additional_record_count: 0,
    };
    let bytes = h.to_bytes();
    assert!(matches!(DNSPacket::from_bytes(&bytes), Err(DnsError::TruncatedBuffer)));
}

#[test]
fn message_truncated_rdata() {
    let mut packet_bytes = Headers {
        packet_id: 1,
        query_response_indicator: true,
        operation_code: 0,
        authoritative_answer: false,
        truncation: false,
        recursion_desired: false,
        recursion_available: false,
        reserved: 0,
        response_code: 0,
        question_count: 0,
        answer_record_count: 1,
        authority_record_count: 0,
        additional_record_count: 0,
    }
    .to_bytes();
    // One answer: root name, type 1, class 1, ttl 0, declared rdata length 4
    // but only 2 bytes of rdata present.
    packet_bytes.extend([0, 0, 1, 0, 1, 0, 0, 0, 0, 0, 4, 9, 9]);
    assert!(matches!(DNSPacket::from_bytes(&packet_bytes), Err(DnsError::TruncatedBuffer)));
}
