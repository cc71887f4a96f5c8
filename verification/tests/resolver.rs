use dns_codec::header::Headers;
use dns_codec::message::DNSPacket;
use dns_codec::record::{Answer, Question};
use dns_codec::resolver::{
    forward_merge, placeholder_response, response_header, server_failure_response, sub_query,
};

fn request_header(id: u16, opcode: u8, rd: bool, qcount: u16) -> Headers {
    Headers {
        packet_id: id,
        query_response_indicator: false,
        operation_code: opcode,
        authoritative_answer: false,
        truncation: false,
        recursion_desired: rd,
        recursion_available: false,
        reserved: 0,
        response_code: 0,
        question_count: qcount,
        answer_record_count: 0,
        authority_record_count: 0,
        additional_record_count: 0,
    }
}

fn codecrafters_question() -> Question {
    Question {
        name: vec![String::from("codecrafters"), String::from("io")],
        record_type: 1,
        class: 1,
    }
}

#[test]
fn placeholder_mode_standard_query() {
    let req = DNSPacket {
        headers: request_header(0x1234, 0, true, 1),
        questions: vec![codecrafters_question()],
        answers: Vec::new(),
    };
    let resp = placeholder_response(&req);
    assert!(resp.headers.query_response_indicator);
    assert_eq!(resp.headers.packet_id, 0x1234);
    assert_eq!(resp.headers.response_code, 0);
    assert!(resp.headers.recursion_desired);
    assert_eq!(resp.headers.question_count, 1);
    assert_eq!(resp.headers.answer_record_count, 1);
    assert_eq!(resp.headers.authority_record_count, 0);
    assert_eq!(resp.headers.additional_record_count, 0);
    // The question section is byte-identical to the request's.
    assert_eq!(resp.questions[0].to_bytes(), req.questions[0].to_bytes());
    // One synthesized record per question.
    assert_eq!(resp.answers.len(), 1);
    let a = &resp.answers[0];
    assert_eq!(a.name, req.questions[0].name);
    assert_eq!(a.record_type, 1);
    assert_eq!(a.class, 1);
    assert_eq!(a.ttl, 60);
    assert_eq!(a.data, vec![8, 8, 8, 8]);
}

#[test]
fn placeholder_mode_nonstandard_opcode() {
    let req = DNSPacket {
        headers: request_header(0x1234, 5, true, 1),
        questions: vec![codecrafters_question()],
        answers: Vec::new(),
    };
    let resp = placeholder_response(&req);
    assert_eq!(resp.headers.response_code, 4);
    assert_eq!(resp.headers.packet_id, 0x1234);
    assert_eq!(resp.headers.question_count, 1);
    assert_eq!(resp.headers.answer_record_count, 1);
}

#[test]
fn response_header_echoes_request_fields() {
    let h = response_header(&request_header(7, 3, false, 2), 9);
    assert_eq!(h.packet_id, 7);
    assert!(h.query_response_indicator);
    assert_eq!(h.operation_code, 3);
    assert_eq!(h.response_code, 4);
    assert!(!h.recursion_desired);
    assert_eq!(h.question_count, 2);
    assert_eq!(h.answer_record_count, 9);
    assert_eq!(h.reserved, 0);
}

#[test]
fn forwarding_two_questions_in_order() {
    let q0 = Question { name: vec![String::from("abc"), String::from("io")], record_type: 1, class: 1 };
    let q1 = Question { name: vec![String::from("def"), String::from("io")], record_type: 1, class: 1 };
    let req = DNSPacket {
        headers: request_header(0x4242, 0, true, 2),
        questions: vec![q0.clone(), q1.clone()],
        answers: Vec::new(),
    };

    // The sub-queries carry one question each, in original question order.
    let s0 = sub_query(&req, 0);
    let s1 = sub_query(&req, 1);
    assert_eq!(s0.headers.question_count, 1);
    assert_eq!(s1.headers.question_count, 1);
    assert_eq!(s0.headers.packet_id, 0x4242);
    assert_eq!(s1.headers.packet_id, 0x4242);
    assert_eq!(s0.headers.operation_code, 0);
    assert!(s0.headers.recursion_desired);
    assert_eq!(s0.questions.len(), 1);
    assert_eq!(s1.questions.len(), 1);
    assert_eq!(s0.questions[0].to_bytes(), q0.to_bytes());
    assert_eq!(s1.questions[0].to_bytes(), q1.to_bytes());

    // Fabricated upstream responses: one answer for the first question, two
    // for the second.
    let a0 = Answer { name: q0.name.clone(), record_type: 1, class: 1, ttl: 60, data: vec![1, 1, 1, 1] };
    let a1 = Answer { name: q1.name.clone(), record_type: 1, class: 1, ttl: 60, data: vec![2, 2, 2, 2] };
    let a2 = Answer { name: q1.name.clone(), record_type: 1, class: 1, ttl: 60, data: vec![3, 3, 3, 3] };
    let r0 = DNSPacket {
        headers: Headers { answer_record_count: 1, ..request_header(0x4242, 0, true, 1) },
        questions: vec![q0.clone()],
        answers: vec![a0.clone()],
    };
    let r1 = DNSPacket {
        headers: Headers { answer_record_count: 2, ..request_header(0x4242, 0, true, 1) },
        questions: vec![q1.clone()],
        answers: vec![a1.clone(), a2.clone()],
    };

    let resp = forward_merge(&req, &vec![r0, r1]);
    // All original questions are carried, and the answer list is the
    // concatenation of the sub-responses' answers in send order.
    assert_eq!(resp.headers.packet_id, 0x4242);
    assert_eq!(resp.headers.question_count, 2);
    assert_eq!(resp.headers.answer_record_count, 3);
    assert_eq!(resp.questions.len(), 2);
    assert_eq!(resp.questions[0].to_bytes(), q0.to_bytes());
    assert_eq!(resp.questions[1].to_bytes(), q1.to_bytes());
    assert_eq!(resp.answers.len(), 3);
    assert_eq!(resp.answers[0].data, vec![1, 1, 1, 1]);
    assert_eq!(resp.answers[1].data, vec![2, 2, 2, 2]);
    assert_eq!(resp.answers[2].data, vec![3, 3, 3, 3]);
    assert_eq!(resp.answers[0].name, q0.name);
    assert_eq!(resp.answers[1].name, q1.name);
}

#[test]
fn server_failure_carries_rcode_two() {
    let req = DNSPacket {
        headers: request_header(0x77, 0, true, 1),
        questions: vec![codecrafters_question()],
        answers: Vec::new(),
    };
    let resp = server_failure_response(&req);
    assert_eq!(resp.headers.response_code, 2);
    assert_eq!(resp.headers.packet_id, 0x77);
    assert!(resp.headers.query_response_indicator);
    assert_eq!(resp.headers.question_count, 1);
    assert_eq!(resp.headers.answer_record_count, 0);
    assert!(resp.answers.is_empty());
    assert_eq!(resp.questions[0].to_bytes(), req.questions[0].to_bytes());
}

#[test]
fn placeholder_response_encodes_and_reparses() {
    let req = DNSPacket {
        headers: request_header(0x1234, 0, true, 1),
        questions: vec![codecrafters_question()],
        answers: Vec::new(),
    };
    let resp = placeholder_response(&req);
    let bytes = resp.to_bytes().unwrap();
    let back = DNSPacket::from_bytes(&bytes).unwrap();
    assert_eq!(back.headers, resp.headers);
    assert_eq!(back.questions.len(), 1);
    assert_eq!(back.answers.len(), 1);
    assert_eq!(back.answers[0].data, vec![8, 8, 8, 8]);
    assert_eq!(back.questions[0].name, vec![String::from("codecrafters"), String::from("io")]);
}
