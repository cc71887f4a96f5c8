use vstd::prelude::*;

use crate::header::Headers;
use crate::message::{
    clone_answers, clone_questions, msg_encodable, msg_wf, rdata_fits, DNSPacket, MessageV,
};
use crate::record::{answer_wf, question_wf, Answer, AnswerV, Question, QuestionV};

verus! {

/// The header of a response to `req`: id, opcode and RD echoed, QR set,
/// AA, TC, RA and the reserved bits cleared, RCODE 0 for a standard query
/// and 4 (not implemented) otherwise, the question count echoed and the
/// answer count as given.
pub open spec fn spec_response_header(req: Headers, answer_count: u16) -> Headers {
    Headers {
        packet_id: req.packet_id,
        query_response_indicator: true,
        operation_code: req.operation_code,
        authoritative_answer: false,
        truncation: false,
        recursion_desired: req.recursion_desired,
        recursion_available: false,
        reserved: 0,
        response_code: if req.operation_code == 0 {
            0u8
        } else {
            4u8
        },
        question_count: req.question_count,
        answer_record_count: answer_count,
        authority_record_count: 0,
        additional_record_count: 0,
    }
}

/// The placeholder record synthesized for a question when no upstream is
/// configured: same name, type and class, TTL 60 and a fixed 4-byte rdata.
pub open spec fn spec_placeholder_answer(q: QuestionV) -> AnswerV {
    AnswerV {
        name: q.name,
        record_type: q.record_type,
        class: q.class,
        ttl: 60,
        data: seq![8u8, 8u8, 8u8, 8u8],
    }
}

/// The full response in placeholder mode: response header, the request's
/// questions, and one placeholder record per question, in question order.
pub open spec fn spec_placeholder_response(m: MessageV) -> MessageV {
    MessageV {
        headers: spec_response_header(m.headers, m.headers.question_count),
        questions: m.questions,
        answers: m.questions.map_values(|q: QuestionV| spec_placeholder_answer(q)),
    }
}

/// The single-question sub-message forwarded upstream for question `i`:
/// the request's header with the question count forced to 1, only that
/// question, and the request's answer section carried unchanged.
pub open spec fn spec_sub_query(m: MessageV, i: int) -> MessageV {
    MessageV {
        headers: Headers { question_count: 1, ..m.headers },
        questions: seq![m.questions[i]],
        answers: m.answers,
    }
}

/// The answer sections of the given messages, concatenated in order.
pub open spec fn concat_answers(rs: Seq<MessageV>) -> Seq<AnswerV>
    decreases rs.len(),
{
    if rs.len() == 0 {
        Seq::empty()
    } else {
        rs[0].answers + concat_answers(rs.drop_first())
    }
}

/// The aggregate response to `m` carrying the collected answers: response
/// header with the total answer count, all original questions, and the
/// collected answers in collection order.
pub open spec fn spec_aggregate(m: MessageV, ans: Seq<AnswerV>) -> MessageV {
    MessageV {
        headers: spec_response_header(m.headers, ans.len() as u16),
        questions: m.questions,
        answers: ans,
    }
}

/// The response sent when an upstream round trip fails: RCODE 2 (server
/// failure), id, opcode and RD echoed, the questions echoed, no answers.
pub open spec fn spec_server_failure(m: MessageV) -> MessageV {
    MessageV {
        headers: Headers {
            packet_id: m.headers.packet_id,
            query_response_indicator: true,
            operation_code: m.headers.operation_code,
            authoritative_answer: false,
            truncation: false,
            recursion_desired: m.headers.recursion_desired,
            recursion_available: false,
            reserved: 0,
            response_code: 2,
            question_count: m.headers.question_count,
            answer_record_count: 0,
            authority_record_count: 0,
            additional_record_count: 0,
        },
        questions: m.questions,
        answers: Seq::empty(),
    }
}

/// Builds the response header for `req` with the given answer count.
pub fn response_header(req: &Headers, answer_count: u16) -> (h: Headers)
    ensures
        h == spec_response_header(*req, answer_count),
        req.wf() ==> h.wf(),
{
    Headers {
        packet_id: req.packet_id,
        query_response_indicator: true,
        operation_code: req.operation_code,
        authoritative_answer: false,
        truncation: false,
        recursion_desired: req.recursion_desired,
        recursion_available: false,
        reserved: 0,
        response_code: if req.operation_code == 0 {
            0u8
        } else {
            4u8
        },
        question_count: req.question_count,
        answer_record_count: answer_count,
        authority_record_count: 0,
        additional_record_count: 0,
    }
}

/// Builds the placeholder-mode response: one synthesized record per
/// question, in question order.
pub fn placeholder_response(req: &DNSPacket) -> (resp: DNSPacket)
    requires
        msg_wf(req.deep_view()),
    ensures
        resp.deep_view() == spec_placeholder_response(req.deep_view()),
        msg_encodable(resp.deep_view()),
{
    let ghost m = req.deep_view();
    let headers = response_header(&req.headers, req.headers.question_count);
    let questions = clone_questions(&req.questions);
    let mut answers: Vec<Answer> = Vec::new();
    let mut i: usize = 0;
    while i < req.questions.len()
        invariant
            m == req.deep_view(),
            msg_wf(m),
            i <= req.questions@.len(),
            answers@.len() == i as int,
            forall|k: int|
                0 <= k < i ==> (#[trigger] answers@[k]).deep_view() == spec_placeholder_answer(
                    m.questions[k],
                ),
        decreases req.questions@.len() - i,
    {
        let q = req.questions[i].clone();
        let mut data: Vec<u8> = Vec::new();
        data.push(8);
        data.push(8);
        data.push(8);
        data.push(8);
        proof {
            assert(data@ =~= seq![8u8, 8u8, 8u8, 8u8]);
            assert(q.deep_view() == m.questions[i as int]);
        }
        let a = Answer {
            name: q.name,
            record_type: q.record_type,
            class: q.class,
            ttl: 60,
            data,
        };
        answers.push(a);
        i = i + 1;
    }
    let resp = DNSPacket { headers, questions, answers };
    proof {
        let spec_ans = m.questions.map_values(|q: QuestionV| spec_placeholder_answer(q));
        assert forall|k: int| 0 <= k < resp.answers@.len() implies resp.answers.deep_view()[k]
            == spec_ans[k] by {
            assert(resp.answers.deep_view()[k] == resp.answers@[k].deep_view());
        }
        assert(resp.answers.deep_view() =~= spec_ans);
        assert(resp.deep_view() =~= spec_placeholder_response(m));
        assert forall|k: int| 0 <= k < resp.deep_view().answers.len() implies answer_wf(
            #[trigger] resp.deep_view().answers[k],
        ) by {
            assert(resp.deep_view().answers[k] == spec_ans[k]);
            assert(question_wf(m.questions[k]));
        }
    }
    resp
}

/// Builds the single-question sub-message forwarded upstream for question
/// `i` of `req`. Called for `i` of 0, 1, ... in turn, this yields the
/// upstream queries in original question order.
pub fn sub_query(req: &DNSPacket, i: usize) -> (sq: DNSPacket)
    requires
        msg_wf(req.deep_view()),
        i < req.questions@.len(),
    ensures
        sq.deep_view() == spec_sub_query(req.deep_view(), i as int),
        msg_wf(sq.deep_view()),
        rdata_fits(req.deep_view()) ==> msg_encodable(sq.deep_view()),
{
    let ghost m = req.deep_view();
    let mut headers = req.headers;
    headers.question_count = 1;
    let mut questions: Vec<Question> = Vec::new();
    questions.push(req.questions[i].clone());
    let answers = clone_answers(&req.answers);
    let sq = DNSPacket { headers, questions, answers };
    proof {
        assert(sq.questions.deep_view() =~= seq![m.questions[i as int]]);
        assert(sq.deep_view() =~= spec_sub_query(m, i as int));
        assert(question_wf(m.questions[i as int]));
    }
    sq
}

/// Merges the decoded upstream responses, one per original question and in
/// question order, into the aggregate client response: the answer list is
/// the concatenation of the sub-responses' answer lists in that same
/// order, and the header carries the total count.
pub fn forward_merge(req: &DNSPacket, subs: &Vec<DNSPacket>) -> (resp: DNSPacket)
    requires
        msg_wf(req.deep_view()),
        forall|i: int| 0 <= i < subs@.len() ==> msg_encodable((#[trigger] subs@[i]).deep_view()),
        concat_answers(subs.deep_view()).len() <= 0xFFFF,
    ensures
        resp.deep_view() == spec_aggregate(req.deep_view(), concat_answers(subs.deep_view())),
        msg_encodable(resp.deep_view()),
{
    let ghost m = req.deep_view();
    let ghost rs = subs.deep_view();
    let mut answers: Vec<Answer> = Vec::new();
    let mut i: usize = 0;
    proof {
        assert(rs.take(0) =~= Seq::<MessageV>::empty());
        assert(answers.deep_view() =~= concat_answers(rs.take(0)));
    }
    while i < subs.len()
        invariant
            rs == subs.deep_view(),
            forall|k: int| 0 <= k < subs@.len() ==> msg_encodable((#[trigger] subs@[k]).deep_view()),
            i <= subs@.len(),
            answers@.len() == answers.deep_view().len(),
            answers.deep_view() == concat_answers(rs.take(i as int)),
        decreases subs@.len() - i,
    {
        let ghost olddv = answers.deep_view();
        let ghost oldlen = answers@.len() as int;
        let mut a = clone_answers(&subs[i].answers);
        let ghost adv = a.deep_view();
        proof {
            assert(adv == subs@[i as int].answers.deep_view());
            assert(subs@[i as int].deep_view().answers == adv);
            assert(rs[i as int] == subs@[i as int].deep_view());
        }
        answers.append(&mut a);
        i = i + 1;
        proof {
            assert forall|k: int| 0 <= k < answers@.len() implies answers.deep_view()[k] == (olddv
                + adv)[k] by {
                assert(answers.deep_view()[k] == answers@[k].deep_view());
                if k >= oldlen {
                    assert(answers@[k].deep_view() == adv[k - oldlen]);
                }
            }
            assert(answers.deep_view() =~= olddv + adv);
            lemma_concat_answers_snoc(rs, i as int - 1);
        }
    }
    proof {
        assert(rs.take(subs@.len() as int) =~= rs);
        assert(answers.deep_view() == concat_answers(rs));
    }
    let headers = response_header(&req.headers, answers.len() as u16);
    let questions = clone_questions(&req.questions);
    let resp = DNSPacket { headers, questions, answers };
    proof {
        assert(resp.deep_view() =~= spec_aggregate(m, concat_answers(rs)));
        assert forall|k: int| 0 <= k < resp.deep_view().answers.len() implies answer_wf(
            #[trigger] resp.deep_view().answers[k],
        ) by {
            lemma_concat_answers_wf(rs, k);
        }
    }
    resp
}

/// The chosen failure policy: when any upstream round trip fails, the
/// whole request is answered with a server-failure response (RCODE 2)
/// instead of terminating the server.
pub fn server_failure_response(req: &DNSPacket) -> (resp: DNSPacket)
    requires
        msg_wf(req.deep_view()),
    ensures
        resp.deep_view() == spec_server_failure(req.deep_view()),
        msg_encodable(resp.deep_view()),
{
    let ghost m = req.deep_view();
    let headers = Headers {
        packet_id: req.headers.packet_id,
        query_response_indicator: true,
        operation_code: req.headers.operation_code,
        authoritative_answer: false,
        truncation: false,
        recursion_desired: req.headers.recursion_desired,
        recursion_available: false,
        reserved: 0,
        response_code: 2,
        question_count: req.headers.question_count,
        answer_record_count: 0,
        authority_record_count: 0,
        additional_record_count: 0,
    };
    let questions = clone_questions(&req.questions);
    let resp = DNSPacket { headers, questions, answers: Vec::new() };
    proof {
        assert(resp.answers.deep_view() =~= Seq::<AnswerV>::empty());
        assert(resp.deep_view() =~= spec_server_failure(m));
    }
    resp
}

proof fn lemma_concat_answers_push(s: Seq<MessageV>, x: MessageV)
    ensures
        concat_answers(s.push(x)) == concat_answers(s) + x.answers,
    decreases s.len(),
{
    let p = s.push(x);
    assert(p.len() == s.len() + 1);
    if s.len() == 0 {
        assert(p[0] == x);
        assert(p.drop_first() =~= Seq::<MessageV>::empty());
        assert(concat_answers(p) == p[0].answers + concat_answers(p.drop_first()));
        assert(concat_answers(p) =~= concat_answers(s) + x.answers);
    } else {
        assert(p[0] == s[0]);
        assert(p.drop_first() =~= s.drop_first().push(x));
        lemma_concat_answers_push(s.drop_first(), x);
        assert(concat_answers(p) =~= concat_answers(s) + x.answers);
    }
}

proof fn lemma_concat_answers_snoc(rs: Seq<MessageV>, i: int)
    requires
        0 <= i < rs.len(),
    ensures
        concat_answers(rs.take(i + 1)) == concat_answers(rs.take(i)) + rs[i].answers,
{
    assert(rs.take(i + 1) =~= rs.take(i).push(rs[i]));
    lemma_concat_answers_push(rs.take(i), rs[i]);
}

/// Every record in a concatenation of well-formed answer sections is
/// well-formed.
proof fn lemma_concat_answers_wf(rs: Seq<MessageV>, k: int)
    requires
        forall|i: int| 0 <= i < rs.len() ==> msg_encodable(#[trigger] rs[i]),
        0 <= k < concat_answers(rs).len(),
    ensures
        answer_wf(concat_answers(rs)[k]),
    decreases rs.len(),
{
    if rs.len() == 0 {
    } else {
        assert(msg_encodable(rs[0]));
        if k < rs[0].answers.len() {
            assert(concat_answers(rs)[k] == rs[0].answers[k]);
        } else {
            let rest = rs.drop_first();
            assert forall|i: int| 0 <= i < rest.len() implies msg_encodable(
                #[trigger] rest[i],
            ) by {
                assert(rest[i] == rs[i + 1]);
            }
            lemma_concat_answers_wf(rest, k - rs[0].answers.len());
            assert(concat_answers(rs)[k] == concat_answers(rest)[k - rs[0].answers.len()]);
        }
    }
}

} // verus!
