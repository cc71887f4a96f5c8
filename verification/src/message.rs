use vstd::prelude::*;

use crate::err::DnsError;
use crate::header::{lemma_decode_header_prefix, spec_decode_header, spec_encode_header, Headers};
use crate::name::name_wf;
use crate::record::{
    answer_wf, lemma_decode_encoded_answer, lemma_decode_encoded_question, question_wf,
    spec_decode_answer, spec_decode_question, spec_encode_answer, spec_encode_question, Answer,
    AnswerV, Question, QuestionV,
};

verus! {

/// The mathematical value of a whole message.
#[verifier::ext_equal]
pub ghost struct MessageV {
    pub headers: Headers,
    pub questions: Seq<QuestionV>,
    pub answers: Seq<AnswerV>,
}

/// A message whose header counts agree with its record lists and whose
/// names are well-formed.
pub open spec fn msg_wf(m: MessageV) -> bool {
    &&& m.headers.wf()
    &&& m.headers.question_count == m.questions.len()
    &&& m.headers.answer_record_count == m.answers.len()
    &&& forall|i: int| 0 <= i < m.questions.len() ==> question_wf(#[trigger] m.questions[i])
    &&& forall|i: int| 0 <= i < m.answers.len() ==> name_wf(#[trigger] m.answers[i].name)
}

/// Every record's rdata fits the 16-bit length field.
pub open spec fn rdata_fits(m: MessageV) -> bool {
    forall|i: int| 0 <= i < m.answers.len() ==> (#[trigger] m.answers[i].data.len()) <= 0xFFFF
}

/// A message that can be serialized without loss.
pub open spec fn msg_encodable(m: MessageV) -> bool {
    msg_wf(m) && rdata_fits(m)
}

pub open spec fn spec_encode_questions(qs: Seq<QuestionV>) -> Seq<u8>
    decreases qs.len(),
{
    if qs.len() == 0 {
        Seq::empty()
    } else {
        spec_encode_question(qs[0]) + spec_encode_questions(qs.drop_first())
    }
}

pub open spec fn spec_encode_answers(ans: Seq<AnswerV>) -> Seq<u8>
    decreases ans.len(),
{
    if ans.len() == 0 {
        Seq::empty()
    } else {
        spec_encode_answer(ans[0]) + spec_encode_answers(ans.drop_first())
    }
}

/// The wire bytes of a message: header, questions in list order, then
/// answers in list order.
pub open spec fn spec_encode_message(m: MessageV) -> Seq<u8> {
    spec_encode_header(m.headers) + spec_encode_questions(m.questions) + spec_encode_answers(
        m.answers,
    )
}

/// Decodes exactly `n` questions from `buf`, advancing a shared cursor.
pub open spec fn spec_decode_questions(buf: Seq<u8>, pos: int, n: nat) -> Result<
    (Seq<QuestionV>, int),
    DnsError,
>
    decreases n,
{
    if n == 0 {
        Ok((Seq::empty(), pos))
    } else {
        match spec_decode_question(buf, pos) {
            Err(e) => Err(e),
            Ok((q, p)) => match spec_decode_questions(buf, p, (n - 1) as nat) {
                Err(e) => Err(e),
                Ok((qs, end)) => Ok((seq![q] + qs, end)),
            },
        }
    }
}

/// Decodes exactly `n` resource records from `buf`, advancing a shared
/// cursor.
pub open spec fn spec_decode_answers(buf: Seq<u8>, pos: int, n: nat) -> Result<
    (Seq<AnswerV>, int),
    DnsError,
>
    decreases n,
{
    if n == 0 {
        Ok((Seq::empty(), pos))
    } else {
        match spec_decode_answer(buf, pos) {
            Err(e) => Err(e),
            Ok((a, p)) => match spec_decode_answers(buf, p, (n - 1) as nat) {
                Err(e) => Err(e),
                Ok((ans, end)) => Ok((seq![a] + ans, end)),
            },
        }
    }
}

/// The message decoded from `buf`: the header, then as many questions and
/// answers as the header counts declare. Authority and additional counts
/// are carried through unparsed.
pub open spec fn spec_decode_message(buf: Seq<u8>) -> Result<MessageV, DnsError> {
    if buf.len() < 12 {
        Err(DnsError::TruncatedBuffer)
    } else {
        let h = spec_decode_header(buf);
        match spec_decode_questions(buf, 12, h.question_count as nat) {
            Err(e) => Err(e),
            Ok((qs, p)) => match spec_decode_answers(buf, p, h.answer_record_count as nat) {
                Err(e) => Err(e),
                Ok((ans, _)) => Ok(MessageV { headers: h, questions: qs, answers: ans }),
            },
        }
    }
}

/// A whole message: header plus ordered question and answer lists. The
/// lists own their contents; decoded names never borrow the wire buffer.
#[derive(Debug)]
pub struct DNSPacket {
    pub headers: Headers,
    pub questions: Vec<Question>,
    pub answers: Vec<Answer>,
}

impl DeepView for DNSPacket {
    type V = MessageV;

    open spec fn deep_view(&self) -> MessageV {
        MessageV {
            headers: self.headers,
            questions: self.questions.deep_view(),
            answers: self.answers.deep_view(),
        }
    }
}

/// Copies a question vector, question by question, keeping the values.
pub fn clone_questions(v: &Vec<Question>) -> (r: Vec<Question>)
    ensures
        r.deep_view() == v.deep_view(),
        r@.len() == v@.len(),
{
    let mut out: Vec<Question> = Vec::new();
    let mut i: usize = 0;
    while i < v.len()
        invariant
            i <= v@.len(),
            out@.len() == i as int,
            forall|k: int| 0 <= k < i ==> (#[trigger] out@[k]).deep_view() == v@[k].deep_view(),
        decreases v@.len() - i,
    {
        let q = v[i].clone();
        out.push(q);
        i = i + 1;
    }
    proof {
        assert forall|k: int| 0 <= k < v@.len() implies out.deep_view()[k] == v.deep_view()[k] by {
            assert(out@[k].deep_view() == v@[k].deep_view());
        }
        assert(out.deep_view() =~= v.deep_view());
    }
    out
}

/// Copies an answer vector, record by record, keeping the values.
pub fn clone_answers(v: &Vec<Answer>) -> (r: Vec<Answer>)
    ensures
        r.deep_view() == v.deep_view(),
        r@.len() == v@.len(),
{
    let mut out: Vec<Answer> = Vec::new();
    let mut i: usize = 0;
    while i < v.len()
        invariant
            i <= v@.len(),
            out@.len() == i as int,
            forall|k: int| 0 <= k < i ==> (#[trigger] out@[k]).deep_view() == v@[k].deep_view(),
        decreases v@.len() - i,
    {
        let a = v[i].clone();
        out.push(a);
        i = i + 1;
    }
    proof {
        assert forall|k: int| 0 <= k < v@.len() implies out.deep_view()[k] == v.deep_view()[k] by {
            assert(out@[k].deep_view() == v@[k].deep_view());
        }
        assert(out.deep_view() =~= v.deep_view());
    }
    out
}

impl Clone for DNSPacket {
    fn clone(&self) -> (r: DNSPacket)
        ensures
            r.deep_view() == self.deep_view(),
    {
        let r = DNSPacket {
            headers: self.headers,
            questions: clone_questions(&self.questions),
            answers: clone_answers(&self.answers),
        };
        proof {
            assert(r.deep_view() =~= self.deep_view());
        }
        r
    }
}

impl DNSPacket {
    /// Parses a whole message: the header, then exactly the declared number
    /// of questions and answers. Any mismatch with the actual buffer
    /// content is a decode error, never a panic.
    pub fn from_bytes(buf: &[u8]) -> (r: Result<DNSPacket, DnsError>)
        ensures
            match r {
                Ok(p) => {
                    &&& spec_decode_message(buf@) == Ok::<MessageV, DnsError>(p.deep_view())
                    &&& msg_encodable(p.deep_view())
                },
                Err(e) => spec_decode_message(buf@) == Err::<MessageV, DnsError>(e),
            },
    {
        let headers = match Headers::from_bytes(buf) {
            Ok(h) => h,
            Err(e) => {
                return Err(e);
            },
        };
        let qn = headers.question_count;
        let an = headers.answer_record_count;
        let mut questions: Vec<Question> = Vec::new();
        let mut pos: usize = 12;
        let mut i: u16 = 0;
        proof {
            assert(questions.deep_view() =~= Seq::<QuestionV>::empty());
            match spec_decode_questions(buf@, 12, qn as nat) {
                Ok((qs, e)) => {
                    assert(questions.deep_view() + qs =~= qs);
                },
                Err(_) => {},
            }
        }
        while i < qn
            invariant
                buf@.len() >= 12,
                headers == spec_decode_header(buf@),
                qn == headers.question_count,
                i <= qn,
                questions@.len() == i as int,
                pos <= buf@.len(),
                forall|k: int|
                    0 <= k < i ==> question_wf((#[trigger] questions@[k]).deep_view()),
                (match spec_decode_questions(buf@, pos as int, (qn - i) as nat) {
                    Ok((qs, e)) => spec_decode_questions(buf@, 12, qn as nat) == Ok::<
                        (Seq<QuestionV>, int),
                        DnsError,
                    >((questions.deep_view() + qs, e)),
                    Err(er) => spec_decode_questions(buf@, 12, qn as nat) == Err::<
                        (Seq<QuestionV>, int),
                        DnsError,
                    >(er),
                }),
            decreases qn - i,
        {
            let ghost olddv = questions.deep_view();
            let ghost opos = pos as int;
            let (q, p2) = match Question::from_bytes(buf, pos) {
                Ok(x) => x,
                Err(e) => {
                    proof {
                        assert(spec_decode_questions(buf@, opos, (qn - i) as nat) == Err::<
                            (Seq<QuestionV>, int),
                            DnsError,
                        >(e));
                    }
                    return Err(e);
                },
            };
            questions.push(q);
            pos = p2;
            i = i + 1;
            proof {
                assert(questions.deep_view() =~= olddv + seq![q.deep_view()]) by {
                    assert forall|k: int| 0 <= k < questions@.len() implies questions.deep_view()[k]
                        == (olddv + seq![q.deep_view()])[k] by {
                        if k < olddv.len() {
                            assert(questions.deep_view()[k] == questions@[k].deep_view());
                        }
                    }
                }
                let inner = spec_decode_questions(buf@, pos as int, (qn - i) as nat);
                assert(spec_decode_questions(buf@, opos, (qn - i + 1) as nat) == (match inner {
                    Ok((qs, e)) => Ok::<(Seq<QuestionV>, int), DnsError>(
                        (seq![q.deep_view()] + qs, e),
                    ),
                    Err(e) => Err::<(Seq<QuestionV>, int), DnsError>(e),
                }));
                match inner {
                    Ok((qs, e)) => {
                        assert(olddv + (seq![q.deep_view()] + qs) =~= questions.deep_view() + qs);
                    },
                    Err(_) => {},
                }
            }
        }
        let ghost qdv = questions.deep_view();
        proof {
            assert(spec_decode_questions(buf@, pos as int, 0) == Ok::<
                (Seq<QuestionV>, int),
                DnsError,
            >((Seq::empty(), pos as int)));
            assert(qdv + Seq::<QuestionV>::empty() =~= qdv);
            assert(spec_decode_questions(buf@, 12, qn as nat) == Ok::<
                (Seq<QuestionV>, int),
                DnsError,
            >((qdv, pos as int)));
        }
        let ghost qend = pos as int;
        let mut answers: Vec<Answer> = Vec::new();
        let mut j: u16 = 0;
        proof {
            assert(answers.deep_view() =~= Seq::<AnswerV>::empty());
            match spec_decode_answers(buf@, qend, an as nat) {
                Ok((ans, e)) => {
                    assert(answers.deep_view() + ans =~= ans);
                },
                Err(_) => {},
            }
        }
        while j < an
            invariant
                buf@.len() >= 12,
                headers == spec_decode_header(buf@),
                qn == headers.question_count,
                an == headers.answer_record_count,
                spec_decode_questions(buf@, 12, qn as nat) == Ok::<
                    (Seq<QuestionV>, int),
                    DnsError,
                >((qdv, qend)),
                j <= an,
                answers@.len() == j as int,
                pos <= buf@.len(),
                forall|k: int| 0 <= k < j ==> answer_wf((#[trigger] answers@[k]).deep_view()),
                (match spec_decode_answers(buf@, pos as int, (an - j) as nat) {
                    Ok((ans, e)) => spec_decode_answers(buf@, qend, an as nat) == Ok::<
                        (Seq<AnswerV>, int),
                        DnsError,
                    >((answers.deep_view() + ans, e)),
                    Err(er) => spec_decode_answers(buf@, qend, an as nat) == Err::<
                        (Seq<AnswerV>, int),
                        DnsError,
                    >(er),
                }),
            decreases an - j,
        {
            let ghost olddv = answers.deep_view();
            let ghost opos = pos as int;
            let (a, p2) = match Answer::from_bytes(buf, pos) {
                Ok(x) => x,
                Err(e) => {
                    proof {
                        assert(spec_decode_answers(buf@, opos, (an - j) as nat) == Err::<
                            (Seq<AnswerV>, int),
                            DnsError,
                        >(e));
                    }
                    return Err(e);
                },
            };
            answers.push(a);
            pos = p2;
            j = j + 1;
            proof {
                assert(answers.deep_view() =~= olddv + seq![a.deep_view()]) by {
                    assert forall|k: int| 0 <= k < answers@.len() implies answers.deep_view()[k]
                        == (olddv + seq![a.deep_view()])[k] by {
                        if k < olddv.len() {
                            assert(answers.deep_view()[k] == answers@[k].deep_view());
                        }
                    }
                }
                let inner = spec_decode_answers(buf@, pos as int, (an - j) as nat);
                assert(spec_decode_answers(buf@, opos, (an - j + 1) as nat) == (match inner {
                    Ok((ans, e)) => Ok::<(Seq<AnswerV>, int), DnsError>(
                        (seq![a.deep_view()] + ans, e),
                    ),
                    Err(e) => Err::<(Seq<AnswerV>, int), DnsError>(e),
                }));
                match inner {
                    Ok((ans, e)) => {
                        assert(olddv + (seq![a.deep_view()] + ans) =~= answers.deep_view() + ans);
                    },
                    Err(_) => {},
                }
            }
        }
        let p = DNSPacket { headers, questions, answers };
        proof {
            assert(spec_decode_answers(buf@, pos as int, 0) == Ok::<
                (Seq<AnswerV>, int),
                DnsError,
            >((Seq::empty(), pos as int)));
            assert(p.answers.deep_view() + Seq::<AnswerV>::empty() =~= p.answers.deep_view());
            assert(spec_decode_message(buf@) == Ok::<MessageV, DnsError>(p.deep_view()));
            assert forall|k: int| 0 <= k < p.deep_view().questions.len() implies question_wf(
                #[trigger] p.deep_view().questions[k],
            ) by {
                assert(p.deep_view().questions[k] == p.questions@[k].deep_view());
            }
            assert forall|k: int| 0 <= k < p.deep_view().answers.len() implies answer_wf(
                #[trigger] p.deep_view().answers[k],
            ) by {
                assert(p.deep_view().answers[k] == p.answers@[k].deep_view());
            }
        }
        Ok(p)
    }

    /// Serializes the message: header bytes, each question in list order,
    /// each answer in list order. Oversized rdata is the one encode error.
    pub fn to_bytes(&self) -> (r: Result<Vec<u8>, DnsError>)
        requires
            msg_wf(self.deep_view()),
        ensures
            rdata_fits(self.deep_view()) ==> (r matches Ok(b) && b@ == spec_encode_message(
                self.deep_view(),
            )),
            !rdata_fits(self.deep_view()) ==> r == Err::<Vec<u8>, DnsError>(
                DnsError::RdataTooLarge,
            ),
    {
        let ghost m = self.deep_view();
        let mut out = self.headers.to_bytes();
        let mut i: usize = 0;
        proof {
            assert(m.questions.take(0) =~= Seq::<QuestionV>::empty());
            assert(out@ + Seq::<u8>::empty() =~= out@);
        }
        while i < self.questions.len()
            invariant
                m == self.deep_view(),
                msg_wf(m),
                i <= self.questions@.len(),
                out@ == spec_encode_header(m.headers) + spec_encode_questions(
                    m.questions.take(i as int),
                ),
            decreases self.questions@.len() - i,
        {
            proof {
                assert(self.questions@[i as int].deep_view() == m.questions[i as int]);
                assert(question_wf(m.questions[i as int]));
            }
            let mut qb = self.questions[i].to_bytes();
            out.append(&mut qb);
            i = i + 1;
            proof {
                lemma_encode_questions_snoc(m.questions, i as int - 1);
            }
        }
        proof {
            assert(m.questions.take(self.questions@.len() as int) =~= m.questions);
        }
        let ghost qpart = out@;
        let mut j: usize = 0;
        proof {
            assert(m.answers.take(0) =~= Seq::<AnswerV>::empty());
            assert(out@ + Seq::<u8>::empty() =~= out@);
        }
        while j < self.answers.len()
            invariant
                m == self.deep_view(),
                msg_wf(m),
                qpart == spec_encode_header(m.headers) + spec_encode_questions(m.questions),
                j <= self.answers@.len(),
                forall|k: int| 0 <= k < j ==> (#[trigger] m.answers[k].data.len()) <= 0xFFFF,
                out@ == qpart + spec_encode_answers(m.answers.take(j as int)),
            decreases self.answers@.len() - j,
        {
            proof {
                assert(self.answers@[j as int].deep_view() == m.answers[j as int]);
                assert(name_wf(m.answers[j as int].name));
            }
            let mut ab = match self.answers[j].to_bytes() {
                Ok(b) => b,
                Err(e) => {
                    proof {
                        assert(m.answers[j as int].data.len() > 0xFFFF);
                        assert(!rdata_fits(m));
                    }
                    return Err(e);
                },
            };
            out.append(&mut ab);
            j = j + 1;
            proof {
                lemma_encode_answers_snoc(m.answers, j as int - 1);
            }
        }
        proof {
            assert(m.answers.take(self.answers@.len() as int) =~= m.answers);
            assert(out@ == spec_encode_message(m));
        }
        Ok(out)
    }
}

proof fn lemma_encode_questions_push(s: Seq<QuestionV>, x: QuestionV)
    ensures
        spec_encode_questions(s.push(x)) == spec_encode_questions(s) + spec_encode_question(x),
    decreases s.len(),
{
    let p = s.push(x);
    assert(p.len() == s.len() + 1);
    if s.len() == 0 {
        assert(p[0] == x);
        assert(p.drop_first() =~= Seq::<QuestionV>::empty());
        assert(spec_encode_questions(p) == spec_encode_question(p[0]) + spec_encode_questions(
            p.drop_first(),
        ));
        assert(spec_encode_questions(p) =~= spec_encode_questions(s) + spec_encode_question(x));
    } else {
        assert(p[0] == s[0]);
        assert(p.drop_first() =~= s.drop_first().push(x));
        lemma_encode_questions_push(s.drop_first(), x);
        assert(spec_encode_questions(p) =~= spec_encode_questions(s) + spec_encode_question(x));
    }
}

proof fn lemma_encode_questions_snoc(qs: Seq<QuestionV>, i: int)
    requires
        0 <= i < qs.len(),
    ensures
        spec_encode_questions(qs.take(i + 1)) == spec_encode_questions(qs.take(i))
            + spec_encode_question(qs[i]),
{
    assert(qs.take(i + 1) =~= qs.take(i).push(qs[i]));
    lemma_encode_questions_push(qs.take(i), qs[i]);
}

proof fn lemma_encode_answers_push(s: Seq<AnswerV>, x: AnswerV)
    ensures
        spec_encode_answers(s.push(x)) == spec_encode_answers(s) + spec_encode_answer(x),
    decreases s.len(),
{
    let p = s.push(x);
    assert(p.len() == s.len() + 1);
    if s.len() == 0 {
        assert(p[0] == x);
        assert(p.drop_first() =~= Seq::<AnswerV>::empty());
        assert(spec_encode_answers(p) == spec_encode_answer(p[0]) + spec_encode_answers(
            p.drop_first(),
        ));
        assert(spec_encode_answers(p) =~= spec_encode_answers(s) + spec_encode_answer(x));
    } else {
        assert(p[0] == s[0]);
        assert(p.drop_first() =~= s.drop_first().push(x));
        lemma_encode_answers_push(s.drop_first(), x);
        assert(spec_encode_answers(p) =~= spec_encode_answers(s) + spec_encode_answer(x));
    }
}

/// A buffer that carries the encodings of `qs` back to back at `pos`
/// decodes, question count in hand, to exactly `qs`.
pub proof fn lemma_decode_encoded_questions(buf: Seq<u8>, pos: int, qs: Seq<QuestionV>)
    requires
        forall|i: int| 0 <= i < qs.len() ==> question_wf(#[trigger] qs[i]),
        0 <= pos,
        pos + spec_encode_questions(qs).len() <= buf.len(),
        buf.subrange(pos, pos + spec_encode_questions(qs).len() as int) == spec_encode_questions(
            qs,
        ),
    ensures
        spec_decode_questions(buf, pos, qs.len() as nat) == Ok::<(Seq<QuestionV>, int), DnsError>(
            (qs, pos + spec_encode_questions(qs).len()),
        ),
    decreases qs.len(),
{
    let enc = spec_encode_questions(qs);
    assert forall|k: int| pos <= k < pos + enc.len() implies #[trigger] buf[k] == enc[k - pos] by {
        assert(buf.subrange(pos, pos + enc.len() as int)[k - pos] == buf[k]);
    }
    if qs.len() == 0 {
        assert(qs =~= Seq::<QuestionV>::empty());
    } else {
        let enc0 = spec_encode_question(qs[0]);
        let rest = qs.drop_first();
        let renc = spec_encode_questions(rest);
        assert(enc == enc0 + renc);
        assert(question_wf(qs[0]));
        assert(buf.subrange(pos, pos + enc0.len() as int) =~= enc0) by {
            assert forall|j: int| 0 <= j < enc0.len() implies buf.subrange(
                pos,
                pos + enc0.len() as int,
            )[j] == enc0[j] by {
                assert(buf.subrange(pos, pos + enc0.len() as int)[j] == buf[pos + j]);
                assert(buf[pos + j] == enc[j]);
                assert(enc[j] == enc0[j]);
            }
        }
        lemma_decode_encoded_question(buf, pos, qs[0]);
        let pos2 = pos + enc0.len();
        assert forall|i: int| 0 <= i < rest.len() implies question_wf(#[trigger] rest[i]) by {
            assert(rest[i] == qs[i + 1]);
        }
        assert(buf.subrange(pos2, pos2 + renc.len() as int) =~= renc) by {
            assert forall|j: int| 0 <= j < renc.len() implies buf.subrange(
                pos2,
                pos2 + renc.len() as int,
            )[j] == renc[j] by {
                assert(buf.subrange(pos2, pos2 + renc.len() as int)[j] == buf[pos2 + j]);
                assert(buf[pos2 + j] == enc[pos2 + j - pos]);
                assert(enc[enc0.len() + j] == renc[j]);
            }
        }
        lemma_decode_encoded_questions(buf, pos2, rest);
        assert(seq![qs[0]] + rest =~= qs);
        assert(spec_decode_questions(buf, pos, qs.len() as nat) == Ok::<
            (Seq<QuestionV>, int),
            DnsError,
        >((seq![qs[0]] + rest, pos2 + renc.len())));
        assert(pos2 + renc.len() == pos + enc.len());
    }
}

/// A buffer that carries the encodings of `ans` back to back at `pos`
/// decodes, answer count in hand, to exactly `ans`.
pub proof fn lemma_decode_encoded_answers(buf: Seq<u8>, pos: int, ans: Seq<AnswerV>)
    requires
        forall|i: int| 0 <= i < ans.len() ==> answer_wf(#[trigger] ans[i]),
        0 <= pos,
        pos + spec_encode_answers(ans).len() <= buf.len(),
        buf.subrange(pos, pos + spec_encode_answers(ans).len() as int) == spec_encode_answers(ans),
    ensures
        spec_decode_answers(buf, pos, ans.len() as nat) == Ok::<(Seq<AnswerV>, int), DnsError>(
            (ans, pos + spec_encode_answers(ans).len()),
        ),
    decreases ans.len(),
{
    let enc = spec_encode_answers(ans);
    assert forall|k: int| pos <= k < pos + enc.len() implies #[trigger] buf[k] == enc[k - pos] by {
        assert(buf.subrange(pos, pos + enc.len() as int)[k - pos] == buf[k]);
    }
    if ans.len() == 0 {
        assert(ans =~= Seq::<AnswerV>::empty());
    } else {
        let enc0 = spec_encode_answer(ans[0]);
        let rest = ans.drop_first();
        let renc = spec_encode_answers(rest);
        assert(enc == enc0 + renc);
        assert(answer_wf(ans[0]));
        assert(buf.subrange(pos, pos + enc0.len() as int) =~= enc0) by {
            assert forall|j: int| 0 <= j < enc0.len() implies buf.subrange(
                pos,
                pos + enc0.len() as int,
            )[j] == enc0[j] by {
                assert(buf.subrange(pos, pos + enc0.len() as int)[j] == buf[pos + j]);
                assert(buf[pos + j] == enc[j]);
                assert(enc[j] == enc0[j]);
            }
        }
        lemma_decode_encoded_answer(buf, pos, ans[0]);
        let pos2 = pos + enc0.len();
        assert forall|i: int| 0 <= i < rest.len() implies answer_wf(#[trigger] rest[i]) by {
            assert(rest[i] == ans[i + 1]);
        }
        assert(buf.subrange(pos2, pos2 + renc.len() as int) =~= renc) by {
            assert forall|j: int| 0 <= j < renc.len() implies buf.subrange(
                pos2,
                pos2 + renc.len() as int,
            )[j] == renc[j] by {
                assert(buf.subrange(pos2, pos2 + renc.len() as int)[j] == buf[pos2 + j]);
                assert(buf[pos2 + j] == enc[pos2 + j - pos]);
                assert(enc[enc0.len() + j] == renc[j]);
            }
        }
        lemma_decode_encoded_answers(buf, pos2, rest);
        assert(seq![ans[0]] + rest =~= ans);
        assert(spec_decode_answers(buf, pos, ans.len() as nat) == Ok::<
            (Seq<AnswerV>, int),
            DnsError,
        >((seq![ans[0]] + rest, pos2 + renc.len())));
        assert(pos2 + renc.len() == pos + enc.len());
    }
}

/// A message with consistent header counts survives a serialize/parse
/// round trip: decoding its encoding gives back the same header, the same
/// questions in order, and the same answers in order (so in particular the
/// decoded counts equal the original list lengths).
pub proof fn lemma_message_round_trip(m: MessageV)
    requires
        msg_encodable(m),
    ensures
        spec_decode_message(spec_encode_message(m)) == Ok::<MessageV, DnsError>(m),
{
    let buf = spec_encode_message(m);
    let henc = spec_encode_header(m.headers);
    let qenc = spec_encode_questions(m.questions);
    let aenc = spec_encode_answers(m.answers);
    assert(henc.len() == 12);
    assert(buf == henc + qenc + aenc);
    assert forall|k: int| 0 <= k < 12 implies #[trigger] buf[k] == henc[k] by {
        assert(buf[k] == (henc + qenc)[k]);
        assert((henc + qenc)[k] == henc[k]);
    }
    assert(buf.subrange(0, 12) =~= henc);
    lemma_decode_header_prefix(buf, m.headers);
    assert(buf.subrange(12, 12 + qenc.len() as int) =~= qenc) by {
        assert forall|j: int| 0 <= j < qenc.len() implies buf.subrange(
            12,
            12 + qenc.len() as int,
        )[j] == qenc[j] by {
            assert(buf.subrange(12, 12 + qenc.len() as int)[j] == buf[12 + j]);
            assert((henc + qenc)[12 + j] == qenc[j]);
            assert(buf[12 + j] == (henc + qenc)[12 + j]);
        }
    }
    lemma_decode_encoded_questions(buf, 12, m.questions);
    let apos = 12 + qenc.len() as int;
    assert(buf.subrange(apos, apos + aenc.len() as int) =~= aenc) by {
        assert forall|j: int| 0 <= j < aenc.len() implies buf.subrange(
            apos,
            apos + aenc.len() as int,
        )[j] == aenc[j] by {
            assert(buf.subrange(apos, apos + aenc.len() as int)[j] == buf[apos + j]);
            assert(buf[apos + j] == aenc[j]);
        }
    }
    lemma_decode_encoded_answers(buf, apos, m.answers);
    assert(spec_decode_questions(buf, 12, m.headers.question_count as nat) == Ok::<
        (Seq<QuestionV>, int),
        DnsError,
    >((m.questions, apos)));
    assert(spec_decode_answers(buf, apos, m.headers.answer_record_count as nat) == Ok::<
        (Seq<AnswerV>, int),
        DnsError,
    >((m.answers, apos + aenc.len())));
    assert(spec_decode_message(buf) == Ok::<MessageV, DnsError>(
        MessageV { headers: m.headers, questions: m.questions, answers: m.answers },
    ));
    assert(MessageV { headers: m.headers, questions: m.questions, answers: m.answers } =~= m);
}

proof fn lemma_encode_answers_snoc(ans: Seq<AnswerV>, i: int)
    requires
        0 <= i < ans.len(),
    ensures
        spec_encode_answers(ans.take(i + 1)) == spec_encode_answers(ans.take(i))
            + spec_encode_answer(ans[i]),
{
    assert(ans.take(i + 1) =~= ans.take(i).push(ans[i]));
    lemma_encode_answers_push(ans.take(i), ans[i]);
}

} // verus!
