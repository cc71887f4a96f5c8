use vstd::prelude::*;

use crate::err::DnsError;

verus! {

/// The fixed 12-byte message header.
///
/// `operation_code` uses 4 bits, `reserved` 3 bits and `response_code` 4 bits
/// on the wire; [`Headers::wf`] captures those bounds.
#[derive(Clone, Copy, Debug, PartialEq, Eq, Structural)]
pub struct Headers {
    pub packet_id: u16,
    pub query_response_indicator: bool,
    pub operation_code: u8,
    pub authoritative_answer: bool,
    pub truncation: bool,
    pub recursion_desired: bool,
    pub recursion_available: bool,
    pub reserved: u8,
    pub response_code: u8,
    pub question_count: u16,
    pub answer_record_count: u16,
    pub authority_record_count: u16,
    pub additional_record_count: u16,
}

/// The big-endian 16-bit integer stored at `buf[i]` and `buf[i + 1]`.
pub open spec fn be16_at(buf: Seq<u8>, i: int) -> u16
    recommends
        0 <= i,
        i + 2 <= buf.len(),
{
    (buf[i] * 256 + buf[i + 1]) as u16
}

/// The big-endian 32-bit integer stored at `buf[i]` through `buf[i + 3]`.
pub open spec fn be32_at(buf: Seq<u8>, i: int) -> u32
    recommends
        0 <= i,
        i + 4 <= buf.len(),
{
    (buf[i] * 0x1000000 + buf[i + 1] * 0x10000 + buf[i + 2] * 256 + buf[i + 3]) as u32
}

/// Byte 1 of the header: QR, OPCODE, AA, TC and RD packed into one byte.
pub open spec fn spec_flags1(h: Headers) -> u8 {
    (if h.query_response_indicator {
        0x80u8
    } else {
        0u8
    }) | (h.operation_code << 3) | (if h.authoritative_answer {
        4u8
    } else {
        0u8
    }) | (if h.truncation {
        2u8
    } else {
        0u8
    }) | (if h.recursion_desired {
        1u8
    } else {
        0u8
    })
}

/// Byte 2 of the header: RA, the reserved bits and RCODE packed into one byte.
pub open spec fn spec_flags2(h: Headers) -> u8 {
    (if h.recursion_available {
        0x80u8
    } else {
        0u8
    }) | (h.reserved << 4) | h.response_code
}

/// The 12 wire bytes of a header, all multi-byte fields big-endian.
pub open spec fn spec_encode_header(h: Headers) -> Seq<u8> {
    seq![
        (h.packet_id / 256) as u8,
        (h.packet_id % 256) as u8,
        spec_flags1(h),
        spec_flags2(h),
        (h.question_count / 256) as u8,
        (h.question_count % 256) as u8,
        (h.answer_record_count / 256) as u8,
        (h.answer_record_count % 256) as u8,
        (h.authority_record_count / 256) as u8,
        (h.authority_record_count % 256) as u8,
        (h.additional_record_count / 256) as u8,
        (h.additional_record_count % 256) as u8,
    ]
}

/// The header read from the first 12 bytes of `buf`.
pub open spec fn spec_decode_header(buf: Seq<u8>) -> Headers
    recommends
        buf.len() >= 12,
{
    Headers {
        packet_id: be16_at(buf, 0),
        query_response_indicator: (buf[2] >> 7) & 1 == 1,
        operation_code: (buf[2] >> 3) & 0xF,
        authoritative_answer: (buf[2] >> 2) & 1 == 1,
        truncation: (buf[2] >> 1) & 1 == 1,
        recursion_desired: buf[2] & 1 == 1,
        recursion_available: (buf[3] >> 7) & 1 == 1,
        reserved: (buf[3] >> 4) & 0x7,
        response_code: buf[3] & 0xF,
        question_count: be16_at(buf, 4),
        answer_record_count: be16_at(buf, 6),
        authority_record_count: be16_at(buf, 8),
        additional_record_count: be16_at(buf, 10),
    }
}

impl Headers {
    /// The narrow fields fit their wire widths.
    pub open spec fn wf(self) -> bool {
        self.operation_code < 16 && self.reserved < 8 && self.response_code < 16
    }

    /// Decodes the first 12 bytes of `buf`; a shorter buffer is rejected as
    /// `TruncatedBuffer`, never a panic.
    pub fn from_bytes(buf: &[u8]) -> (r: Result<Headers, DnsError>)
        ensures
            buf@.len() >= 12 ==> r == Ok::<Headers, DnsError>(spec_decode_header(buf@)),
            buf@.len() >= 12 ==> spec_decode_header(buf@).wf(),
            buf@.len() < 12 ==> r == Err::<Headers, DnsError>(DnsError::TruncatedBuffer),
    {
        if buf.len() < 12 {
            return Err(DnsError::TruncatedBuffer);
        }
        let b1 = buf[2];
        let b2 = buf[3];
        proof {
            lemma_masked_fields_bounded(b1, b2);
        }
        Ok(
            Headers {
                packet_id: (buf[0] as u16) * 256 + (buf[1] as u16),
                query_response_indicator: (b1 >> 7) & 1 == 1,
                operation_code: (b1 >> 3) & 0xF,
                authoritative_answer: (b1 >> 2) & 1 == 1,
                truncation: (b1 >> 1) & 1 == 1,
                recursion_desired: b1 & 1 == 1,
                recursion_available: (b2 >> 7) & 1 == 1,
                reserved: (b2 >> 4) & 0x7,
                response_code: b2 & 0xF,
                question_count: (buf[4] as u16) * 256 + (buf[5] as u16),
                answer_record_count: (buf[6] as u16) * 256 + (buf[7] as u16),
                authority_record_count: (buf[8] as u16) * 256 + (buf[9] as u16),
                additional_record_count: (buf[10] as u16) * 256 + (buf[11] as u16),
            },
        )
    }

    /// Serializes the header to its exact 12 wire bytes.
    pub fn to_bytes(&self) -> (r: Vec<u8>)
        requires
            self.wf(),
        ensures
            r@ == spec_encode_header(*self),
            r@.len() == 12,
    {
        let mut out: Vec<u8> = Vec::new();
        out.push((self.packet_id / 256) as u8);
        out.push((self.packet_id % 256) as u8);
        let f1: u8 = (if self.query_response_indicator {
            0x80u8
        } else {
            0u8
        }) | (self.operation_code << 3) | (if self.authoritative_answer {
            4u8
        } else {
            0u8
        }) | (if self.truncation {
            2u8
        } else {
            0u8
        }) | (if self.recursion_desired {
            1u8
        } else {
            0u8
        });
        out.push(f1);
        let f2: u8 = (if self.recursion_available {
            0x80u8
        } else {
            0u8
        }) | (self.reserved << 4) | self.response_code;
        out.push(f2);
        out.push((self.question_count / 256) as u8);
        out.push((self.question_count % 256) as u8);
        out.push((self.answer_record_count / 256) as u8);
        out.push((self.answer_record_count % 256) as u8);
        out.push((self.authority_record_count / 256) as u8);
        out.push((self.authority_record_count % 256) as u8);
        out.push((self.additional_record_count / 256) as u8);
        out.push((self.additional_record_count % 256) as u8);
        assert(out@ =~= spec_encode_header(*self));
        out
    }
}

proof fn lemma_masked_fields_bounded(b1: u8, b2: u8)
    by (bit_vector)
    ensures
        ((b1 >> 3) & 0xF) < 16,
        ((b2 >> 4) & 0x7) < 8,
        (b2 & 0xF) < 16,
{
}

proof fn lemma_flags1_round(qr: u8, op: u8, aa: u8, tc: u8, rd: u8)
    by (bit_vector)
    requires
        qr == 0x80 || qr == 0,
        op < 16,
        aa == 4 || aa == 0,
        tc == 2 || tc == 0,
        rd == 1 || rd == 0,
    ensures
        ({
            let b = qr | (op << 3) | aa | tc | rd;
            &&& (((b >> 7) & 1 == 1) <==> (qr == 0x80))
            &&& ((b >> 3) & 0xF) == op
            &&& (((b >> 2) & 1 == 1) <==> (aa == 4))
            &&& (((b >> 1) & 1 == 1) <==> (tc == 2))
            &&& ((b & 1 == 1) <==> (rd == 1))
        }),
{
}

proof fn lemma_flags2_round(ra: u8, z: u8, rc: u8)
    by (bit_vector)
    requires
        ra == 0x80 || ra == 0,
        z < 8,
        rc < 16,
    ensures
        ({
            let b = ra | (z << 4) | rc;
            &&& (((b >> 7) & 1 == 1) <==> (ra == 0x80))
            &&& ((b >> 4) & 0x7) == z
            &&& (b & 0xF) == rc
        }),
{
}

pub proof fn lemma_be16_round(x: u16)
    by (bit_vector)
    ensures
        (((x / 256) as u8) as u16) * 256 + (((x % 256) as u8) as u16) == x,
        ((x / 256) as u8) * 256 + ((x % 256) as u8) == x,
{
}

pub proof fn lemma_be32_round(x: u32)
    by (bit_vector)
    ensures
        ((x / 0x1000000) as u8) * 0x1000000 + (((x / 0x10000) % 256) as u8) * 0x10000 + (((x
            / 256) % 256) as u8) * 256 + ((x % 256) as u8) == x,
{
}

/// A header survives a serialize/parse round trip: decoding the 12 encoded
/// bytes gives back the same header.
pub proof fn lemma_header_round_trip(h: Headers)
    requires
        h.wf(),
    ensures
        spec_decode_header(spec_encode_header(h)) == h,
{
    let enc = spec_encode_header(h);
    lemma_be16_round(h.packet_id);
    lemma_be16_round(h.question_count);
    lemma_be16_round(h.answer_record_count);
    lemma_be16_round(h.authority_record_count);
    lemma_be16_round(h.additional_record_count);
    lemma_flags1_round(
        if h.query_response_indicator {
            0x80u8
        } else {
            0u8
        },
        h.operation_code,
        if h.authoritative_answer {
            4u8
        } else {
            0u8
        },
        if h.truncation {
            2u8
        } else {
            0u8
        },
        if h.recursion_desired {
            1u8
        } else {
            0u8
        },
    );
    lemma_flags2_round(
        if h.recursion_available {
            0x80u8
        } else {
            0u8
        },
        h.reserved,
        h.response_code,
    );
    assert(spec_decode_header(enc) == h);
}

/// Decoding only looks at the first 12 bytes, so any buffer that begins with
/// a header's encoding decodes to that header.
pub proof fn lemma_decode_header_prefix(buf: Seq<u8>, h: Headers)
    requires
        h.wf(),
        buf.len() >= 12,
        buf.subrange(0, 12) == spec_encode_header(h),
    ensures
        spec_decode_header(buf) == h,
{
    let enc = spec_encode_header(h);
    assert forall|i: int| 0 <= i < 12 implies buf[i] == enc[i] by {
        assert(buf.subrange(0, 12)[i] == buf[i]);
    }
    lemma_header_round_trip(h);
    assert(spec_decode_header(buf) == spec_decode_header(enc));
}

} // verus!
