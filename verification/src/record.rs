use vstd::prelude::*;
use vstd::slice::{slice_subrange, slice_to_vec};

use crate::err::DnsError;
use crate::header::{be16_at, be32_at, lemma_be16_round, lemma_be32_round};
use crate::name::{
    encode_name, get_name, lemma_decode_encoded_name, name_wf, spec_decode_name, spec_encode_name,
};

verus! {

/// The mathematical value of a question: a name plus its type and class.
#[verifier::ext_equal]
pub ghost struct QuestionV {
    pub name: Seq<Seq<char>>,
    pub record_type: u16,
    pub class: u16,
}

/// The mathematical value of a resource record.
#[verifier::ext_equal]
pub ghost struct AnswerV {
    pub name: Seq<Seq<char>>,
    pub record_type: u16,
    pub class: u16,
    pub ttl: u32,
    pub data: Seq<u8>,
}

pub open spec fn question_wf(q: QuestionV) -> bool {
    name_wf(q.name)
}

pub open spec fn answer_wf(a: AnswerV) -> bool {
    name_wf(a.name) && a.data.len() <= 0xFFFF
}

/// A question: a domain name, a record type and a class.
#[derive(Debug)]
pub struct Question {
    pub name: Vec<String>,
    pub record_type: u16,
    pub class: u16,
}

/// A resource record: a name, type, class, time to live and opaque rdata
/// bytes.
#[derive(Debug)]
pub struct Answer {
    pub name: Vec<String>,
    pub record_type: u16,
    pub class: u16,
    pub ttl: u32,
    pub data: Vec<u8>,
}

impl DeepView for Question {
    type V = QuestionV;

    open spec fn deep_view(&self) -> QuestionV {
        QuestionV { name: self.name.deep_view(), record_type: self.record_type, class: self.class }
    }
}

impl DeepView for Answer {
    type V = AnswerV;

    open spec fn deep_view(&self) -> AnswerV {
        AnswerV {
            name: self.name.deep_view(),
            record_type: self.record_type,
            class: self.class,
            ttl: self.ttl,
            data: self.data@,
        }
    }
}

/// Copies a label vector, label by label, keeping the exact characters.
fn clone_labels(v: &Vec<String>) -> (r: Vec<String>)
    ensures
        r.deep_view() == v.deep_view(),
        r@.len() == v@.len(),
{
    let mut out: Vec<String> = Vec::new();
    let mut i: usize = 0;
    while i < v.len()
        invariant
            i <= v@.len(),
            out@.len() == i as int,
            forall|k: int| 0 <= k < i ==> out@[k] == #[trigger] v@[k],
        decreases v@.len() - i,
    {
        let s = v[i].clone();
        out.push(s);
        i = i + 1;
    }
    proof {
        assert forall|k: int| 0 <= k < v@.len() implies out.deep_view()[k] == v.deep_view()[k] by {
            assert(out@[k] == v@[k]);
        }
        assert(out.deep_view() =~= v.deep_view());
    }
    out
}

impl Clone for Question {
    fn clone(&self) -> (r: Question)
        ensures
            r.deep_view() == self.deep_view(),
    {
        Question {
            name: clone_labels(&self.name),
            record_type: self.record_type,
            class: self.class,
        }
    }
}

impl Clone for Answer {
    fn clone(&self) -> (r: Answer)
        ensures
            r.deep_view() == self.deep_view(),
    {
        let mut data: Vec<u8> = Vec::new();
        let mut i: usize = 0;
        while i < self.data.len()
            invariant
                i <= self.data.len(),
                data@ == self.data@.take(i as int),
            decreases self.data.len() - i,
        {
            data.push(self.data[i]);
            i = i + 1;
            proof {
                assert(data@ =~= self.data@.take(i as int));
            }
        }
        proof {
            assert(self.data@.take(self.data.len() as int) =~= self.data@);
        }
        Answer {
            name: clone_labels(&self.name),
            record_type: self.record_type,
            class: self.class,
            ttl: self.ttl,
            data,
        }
    }
}

/// The question decoded from `buf` at `pos`: a name, then two big-endian
/// 16-bit fields.
pub open spec fn spec_decode_question(buf: Seq<u8>, pos: int) -> Result<(QuestionV, int), DnsError> {
    match spec_decode_name(buf, pos, 0) {
        Err(e) => Err(e),
        Ok((name, p)) => {
            if p + 4 > buf.len() {
                Err(DnsError::TruncatedBuffer)
            } else {
                Ok(
                    (
                        QuestionV { name, record_type: be16_at(buf, p), class: be16_at(buf, p + 2) },
                        p + 4,
                    ),
                )
            }
        },
    }
}

/// The resource record decoded from `buf` at `pos`: a name, type, class,
/// TTL, then a 16-bit length prefix and that many rdata bytes, copied out.
pub open spec fn spec_decode_answer(buf: Seq<u8>, pos: int) -> Result<(AnswerV, int), DnsError> {
    match spec_decode_name(buf, pos, 0) {
        Err(e) => Err(e),
        Ok((name, p)) => {
            if p + 10 > buf.len() {
                Err(DnsError::TruncatedBuffer)
            } else {
                let dlen = be16_at(buf, p + 8) as int;
                if p + 10 + dlen > buf.len() {
                    Err(DnsError::TruncatedBuffer)
                } else {
                    Ok(
                        (
                            AnswerV {
                                name,
                                record_type: be16_at(buf, p),
                                class: be16_at(buf, p + 2),
                                ttl: be32_at(buf, p + 4),
                                data: buf.subrange(p + 10, p + 10 + dlen),
                            },
                            p + 10 + dlen,
                        ),
                    )
                }
            }
        },
    }
}

/// The wire bytes of a question.
pub open spec fn spec_encode_question(q: QuestionV) -> Seq<u8> {
    spec_encode_name(q.name) + seq![
        (q.record_type / 256) as u8,
        (q.record_type % 256) as u8,
        (q.class / 256) as u8,
        (q.class % 256) as u8,
    ]
}

/// The wire bytes of a resource record, with the rdata length prefix
/// computed from the actual rdata length.
pub open spec fn spec_encode_answer(a: AnswerV) -> Seq<u8> {
    spec_encode_name(a.name) + seq![
        (a.record_type / 256) as u8,
        (a.record_type % 256) as u8,
        (a.class / 256) as u8,
        (a.class % 256) as u8,
        (a.ttl / 0x1000000) as u8,
        ((a.ttl / 0x10000) % 256) as u8,
        ((a.ttl / 256) % 256) as u8,
        (a.ttl % 256) as u8,
        ((a.data.len() / 256) % 256) as u8,
        (a.data.len() % 256) as u8,
    ] + a.data
}

impl Question {
    /// Decodes a question. The offset just past it is returned with it.
    pub fn from_bytes(buf: &[u8], pos: usize) -> (r: Result<(Question, usize), DnsError>)
        ensures
            match r {
                Ok((q, end)) => {
                    &&& spec_decode_question(buf@, pos as int) == Ok::<(QuestionV, int), DnsError>(
                        (q.deep_view(), end as int),
                    )
                    &&& question_wf(q.deep_view())
                    &&& pos < end <= buf@.len()
                },
                Err(e) => spec_decode_question(buf@, pos as int) == Err::<
                    (QuestionV, int),
                    DnsError,
                >(e),
            },
    {
        let (name, p) = match get_name(buf, pos) {
            Ok(x) => x,
            Err(e) => {
                return Err(e);
            },
        };
        if buf.len() - p < 4 {
            return Err(DnsError::TruncatedBuffer);
        }
        let record_type = (buf[p] as u16) * 256 + (buf[p + 1] as u16);
        let class = (buf[p + 2] as u16) * 256 + (buf[p + 3] as u16);
        Ok((Question { name, record_type, class }, p + 4))
    }

    /// Serializes the question: labels, the terminating zero byte, type,
    /// class.
    pub fn to_bytes(&self) -> (r: Vec<u8>)
        requires
            question_wf(self.deep_view()),
        ensures
            r@ == spec_encode_question(self.deep_view()),
    {
        let mut out = encode_name(&self.name);
        out.push((self.record_type / 256) as u8);
        out.push((self.record_type % 256) as u8);
        out.push((self.class / 256) as u8);
        out.push((self.class % 256) as u8);
        proof {
            assert(out@ =~= spec_encode_question(self.deep_view()));
        }
        out
    }
}

impl Answer {
    /// Decodes a resource record. The offset just past it is returned with
    /// it; the rdata bytes are copied out of the buffer.
    pub fn from_bytes(buf: &[u8], pos: usize) -> (r: Result<(Answer, usize), DnsError>)
        ensures
            match r {
                Ok((a, end)) => {
                    &&& spec_decode_answer(buf@, pos as int) == Ok::<(AnswerV, int), DnsError>(
                        (a.deep_view(), end as int),
                    )
                    &&& answer_wf(a.deep_view())
                    &&& pos < end <= buf@.len()
                },
                Err(e) => spec_decode_answer(buf@, pos as int) == Err::<(AnswerV, int), DnsError>(
                    e,
                ),
            },
    {
        let (name, p) = match get_name(buf, pos) {
            Ok(x) => x,
            Err(e) => {
                return Err(e);
            },
        };
        if buf.len() - p < 10 {
            return Err(DnsError::TruncatedBuffer);
        }
        let record_type = (buf[p] as u16) * 256 + (buf[p + 1] as u16);
        let class = (buf[p + 2] as u16) * 256 + (buf[p + 3] as u16);
        let ttl = (buf[p + 4] as u32) * 0x1000000 + (buf[p + 5] as u32) * 0x10000 + (buf[p
            + 6] as u32) * 256 + (buf[p + 7] as u32);
        let data_len = ((buf[p + 8] as u16) * 256 + (buf[p + 9] as u16)) as usize;
        if data_len > buf.len() - (p + 10) {
            return Err(DnsError::TruncatedBuffer);
        }
        let data = slice_to_vec(slice_subrange(buf, p + 10, p + 10 + data_len));
        Ok((Answer { name, record_type, class, ttl, data }, p + 10 + data_len))
    }

    /// Serializes the resource record; rdata longer than the 16-bit length
    /// field can carry is rejected as `RdataTooLarge`.
    pub fn to_bytes(&self) -> (r: Result<Vec<u8>, DnsError>)
        requires
            name_wf(self.deep_view().name),
        ensures
            self.data@.len() <= 0xFFFF ==> (r matches Ok(b) && b@ == spec_encode_answer(
                self.deep_view(),
            )),
            self.data@.len() > 0xFFFF ==> r == Err::<Vec<u8>, DnsError>(DnsError::RdataTooLarge),
    {
        if self.data.len() > 0xFFFF {
            return Err(DnsError::RdataTooLarge);
        }
        let mut out = encode_name(&self.name);
        out.push((self.record_type / 256) as u8);
        out.push((self.record_type % 256) as u8);
        out.push((self.class / 256) as u8);
        out.push((self.class % 256) as u8);
        out.push((self.ttl / 0x1000000) as u8);
        out.push(((self.ttl / 0x10000) % 256) as u8);
        out.push(((self.ttl / 256) % 256) as u8);
        out.push((self.ttl % 256) as u8);
        out.push(((self.data.len() / 256) % 256) as u8);
        out.push((self.data.len() % 256) as u8);
        let ghost mid = out@;
        let mut j: usize = 0;
        while j < self.data.len()
            invariant
                j <= self.data.len(),
                out@ == mid + self.data@.take(j as int),
            decreases self.data.len() - j,
        {
            out.push(self.data[j]);
            j = j + 1;
            proof {
                assert(out@ =~= mid + self.data@.take(j as int));
            }
        }
        proof {
            assert(mid + self.data@.take(0) =~= mid);
            assert(self.data@.take(self.data.len() as int) =~= self.data@);
            assert(out@ =~= spec_encode_answer(self.deep_view()));
        }
        Ok(out)
    }
}

/// A buffer that carries a pointer-free question encoding at `pos` decodes
/// to exactly that question.
pub proof fn lemma_decode_encoded_question(buf: Seq<u8>, pos: int, q: QuestionV)
    requires
        question_wf(q),
        0 <= pos,
        pos + spec_encode_question(q).len() <= buf.len(),
        buf.subrange(pos, pos + spec_encode_question(q).len() as int) == spec_encode_question(q),
    ensures
        spec_decode_question(buf, pos) == Ok::<(QuestionV, int), DnsError>(
            (q, pos + spec_encode_question(q).len()),
        ),
{
    let enc = spec_encode_question(q);
    let nenc = spec_encode_name(q.name);
    assert forall|k: int| pos <= k < pos + enc.len() implies #[trigger] buf[k] == enc[k - pos] by {
        assert(buf.subrange(pos, pos + enc.len() as int)[k - pos] == buf[k]);
    }
    assert(buf.subrange(pos, pos + nenc.len() as int) =~= nenc) by {
        assert forall|j: int| 0 <= j < nenc.len() implies buf.subrange(
            pos,
            pos + nenc.len() as int,
        )[j] == nenc[j] by {
            assert(buf.subrange(pos, pos + nenc.len() as int)[j] == buf[pos + j]);
            assert(buf[pos + j] == enc[j]);
            assert(enc[j] == nenc[j]);
        }
    }
    lemma_decode_encoded_name(buf, pos, q.name, 0);
    let p = pos + nenc.len();
    assert(buf[p] == enc[nenc.len() as int]);
    assert(buf[p + 1] == enc[nenc.len() as int + 1]);
    assert(buf[p + 2] == enc[nenc.len() as int + 2]);
    assert(buf[p + 3] == enc[nenc.len() as int + 3]);
    lemma_be16_round(q.record_type);
    lemma_be16_round(q.class);
    assert(be16_at(buf, p) == q.record_type);
    assert(be16_at(buf, p + 2) == q.class);
    assert(spec_decode_question(buf, pos) == Ok::<(QuestionV, int), DnsError>(
        (QuestionV { name: q.name, record_type: q.record_type, class: q.class }, p + 4),
    ));
    assert(QuestionV { name: q.name, record_type: q.record_type, class: q.class } =~= q);
    assert(p + 4 == pos + enc.len());
}

/// A buffer that carries a pointer-free resource-record encoding at `pos`
/// decodes to exactly that record.
pub proof fn lemma_decode_encoded_answer(buf: Seq<u8>, pos: int, a: AnswerV)
    requires
        answer_wf(a),
        0 <= pos,
        pos + spec_encode_answer(a).len() <= buf.len(),
        buf.subrange(pos, pos + spec_encode_answer(a).len() as int) == spec_encode_answer(a),
    ensures
        spec_decode_answer(buf, pos) == Ok::<(AnswerV, int), DnsError>(
            (a, pos + spec_encode_answer(a).len()),
        ),
{
    let enc = spec_encode_answer(a);
    let nenc = spec_encode_name(a.name);
    let dlen = a.data.len() as int;
    assert forall|k: int| pos <= k < pos + enc.len() implies #[trigger] buf[k] == enc[k - pos] by {
        assert(buf.subrange(pos, pos + enc.len() as int)[k - pos] == buf[k]);
    }
    assert(buf.subrange(pos, pos + nenc.len() as int) =~= nenc) by {
        assert forall|j: int| 0 <= j < nenc.len() implies buf.subrange(
            pos,
            pos + nenc.len() as int,
        )[j] == nenc[j] by {
            assert(buf.subrange(pos, pos + nenc.len() as int)[j] == buf[pos + j]);
            assert(buf[pos + j] == enc[j]);
            assert(enc[j] == nenc[j]);
        }
    }
    lemma_decode_encoded_name(buf, pos, a.name, 0);
    let p = pos + nenc.len();
    assert(buf[p] == enc[nenc.len() as int]);
    assert(buf[p + 1] == enc[nenc.len() as int + 1]);
    assert(buf[p + 2] == enc[nenc.len() as int + 2]);
    assert(buf[p + 3] == enc[nenc.len() as int + 3]);
    assert(buf[p + 4] == enc[nenc.len() as int + 4]);
    assert(buf[p + 5] == enc[nenc.len() as int + 5]);
    assert(buf[p + 6] == enc[nenc.len() as int + 6]);
    assert(buf[p + 7] == enc[nenc.len() as int + 7]);
    assert(buf[p + 8] == enc[nenc.len() as int + 8]);
    assert(buf[p + 9] == enc[nenc.len() as int + 9]);
    lemma_be16_round(a.record_type);
    lemma_be16_round(a.class);
    lemma_be32_round(a.ttl);
    lemma_be16_round(a.data.len() as u16);
    assert(be16_at(buf, p) == a.record_type);
    assert(be16_at(buf, p + 2) == a.class);
    assert(be32_at(buf, p + 4) == a.ttl);
    assert(be16_at(buf, p + 8) == a.data.len());
    assert(buf.subrange(p + 10, p + 10 + dlen) =~= a.data) by {
        assert forall|j: int| 0 <= j < dlen implies buf.subrange(p + 10, p + 10 + dlen)[j]
            == a.data[j] by {
            assert(buf.subrange(p + 10, p + 10 + dlen)[j] == buf[p + 10 + j]);
            assert(buf[p + 10 + j] == enc[nenc.len() as int + 10 + j]);
            assert(enc[nenc.len() as int + 10 + j] == a.data[j]);
        }
    }
    assert(spec_decode_answer(buf, pos) == Ok::<(AnswerV, int), DnsError>(
        (
            AnswerV {
                name: a.name,
                record_type: a.record_type,
                class: a.class,
                ttl: a.ttl,
                data: buf.subrange(p + 10, p + 10 + dlen),
            },
            p + 10 + dlen,
        ),
    ));
    assert(AnswerV {
        name: a.name,
        record_type: a.record_type,
        class: a.class,
        ttl: a.ttl,
        data: buf.subrange(p + 10, p + 10 + dlen),
    } =~= a);
    assert(p + 10 + dlen == pos + enc.len());
}

} // verus!
