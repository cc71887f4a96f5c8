use vstd::prelude::*;
use vstd::slice::{slice_subrange, slice_to_vec};
use vstd::utf8::{decode_utf8, decode_utf8_encode_utf8, encode_utf8, valid_utf8};

use crate::err::DnsError;

verus! {

/// A label carries between 1 and 63 bytes of UTF-8 on the wire.
pub open spec fn label_wf(l: Seq<char>) -> bool {
    1 <= encode_utf8(l).len() <= 63
}

/// A well-formed name: every label fits its length byte.
pub open spec fn name_wf(n: Seq<Seq<char>>) -> bool {
    forall|i: int| 0 <= i < n.len() ==> label_wf(#[trigger] n[i])
}

/// The length-prefixed wire bytes of a name's labels, without the
/// terminating zero byte.
pub open spec fn spec_encode_labels(n: Seq<Seq<char>>) -> Seq<u8>
    decreases n.len(),
{
    if n.len() == 0 {
        Seq::empty()
    } else {
        seq![encode_utf8(n[0]).len() as u8] + encode_utf8(n[0]) + spec_encode_labels(n.drop_first())
    }
}

/// The wire bytes of a name: length-prefixed labels, then a zero byte.
/// The encoder writes no compression pointers.
pub open spec fn spec_encode_name(n: Seq<Seq<char>>) -> Seq<u8> {
    spec_encode_labels(n) + seq![0u8]
}

/// The name decoded from `buf` starting at `pos`, together with the offset
/// just past the name's outer encoding.
///
/// A byte with both high bits set is a compression pointer: decoding
/// continues at the 14-bit target offset while the outer cursor stays two
/// bytes past the pointer. `jumps` counts pointer dereferences; once it
/// exceeds the buffer length the chain must have revisited some position,
/// so the name is rejected as `MalformedName` instead of looping forever.
/// A length byte above 63 (which could not be re-encoded) is rejected the
/// same way, and a label that is not valid UTF-8 too.
pub open spec fn spec_decode_name(buf: Seq<u8>, pos: int, jumps: nat) -> Result<
    (Seq<Seq<char>>, int),
    DnsError,
>
    decreases buf.len() + 1 - jumps, buf.len() - pos,
{
    if pos < 0 || pos >= buf.len() {
        Err(DnsError::TruncatedBuffer)
    } else {
        let b = buf[pos];
        if b >= 0xC0 {
            if pos + 1 >= buf.len() {
                Err(DnsError::TruncatedBuffer)
            } else if jumps >= buf.len() {
                Err(DnsError::MalformedName)
            } else {
                let target = (b - 0xC0) * 256 + buf[pos + 1];
                match spec_decode_name(buf, target, jumps + 1) {
                    Ok((labels, _)) => Ok((labels, pos + 2)),
                    Err(e) => Err(e),
                }
            }
        } else if b == 0 {
            Ok((Seq::empty(), pos + 1))
        } else if b > 63 {
            Err(DnsError::MalformedName)
        } else {
            let len = b as int;
            if pos + 1 + len > buf.len() {
                Err(DnsError::TruncatedBuffer)
            } else {
                let lb = buf.subrange(pos + 1, pos + 1 + len);
                if !valid_utf8(lb) {
                    Err(DnsError::MalformedName)
                } else {
                    match spec_decode_name(buf, pos + 1 + len, jumps) {
                        Ok((labels, end)) => Ok((seq![decode_utf8(lb)] + labels, end)),
                        Err(e) => Err(e),
                    }
                }
            }
        }
    }
}

/// Relies on `String::from_utf8`: it succeeds exactly when the bytes are
/// valid UTF-8, and then the string's characters are the UTF-8 decoding of
/// those bytes.
#[verifier::external_body]
fn string_from_utf8(bytes: Vec<u8>) -> (r: Option<String>)
    ensures
        r is Some <==> valid_utf8(bytes@),
        r matches Some(s) ==> s@ == decode_utf8(bytes@),
{
    String::from_utf8(bytes).ok()
}

/// Decodes one domain name from `buf` starting at offset `pos`, following
/// compression pointers, and returns the labels together with the offset
/// just past the name. Pointer chains are bounded, so a cycle ends in
/// `MalformedName` rather than a hang or a stack overflow.
pub fn get_name(buf: &[u8], pos: usize) -> (r: Result<(Vec<String>, usize), DnsError>)
    ensures
        match r {
            Ok((name, end)) => {
                &&& spec_decode_name(buf@, pos as int, 0) == Ok::<(Seq<Seq<char>>, int), DnsError>(
                    (name.deep_view(), end as int),
                )
                &&& name_wf(name.deep_view())
                &&& pos < end <= buf@.len()
            },
            Err(e) => spec_decode_name(buf@, pos as int, 0) == Err::<
                (Seq<Seq<char>>, int),
                DnsError,
            >(e),
        },
{
    let ghost gpos: int = pos as int;
    let mut cur: usize = pos;
    let mut jumps: usize = 0;
    let mut labels: Vec<String> = Vec::new();
    let mut end: Option<usize> = None;
    proof {
        assert(labels.deep_view() =~= Seq::<Seq<char>>::empty());
        match spec_decode_name(buf@, gpos, 0) {
            Ok((l, e)) => {
                assert(labels.deep_view() + l =~= l);
            },
            Err(_) => {},
        }
    }
    loop
        invariant
            gpos == pos as int,
            jumps <= buf@.len(),
            end matches Some(e0) ==> pos < e0 <= buf@.len(),
            end is None ==> cur >= pos,
            name_wf(labels.deep_view()),
            (match spec_decode_name(buf@, cur as int, jumps as nat) {
                Ok((l, e2)) => spec_decode_name(buf@, gpos, 0) == Ok::<
                    (Seq<Seq<char>>, int),
                    DnsError,
                >(
                    (
                        labels.deep_view() + l,
                        match end {
                            Some(e0) => e0 as int,
                            None => e2,
                        },
                    ),
                ),
                Err(er) => spec_decode_name(buf@, gpos, 0) == Err::<
                    (Seq<Seq<char>>, int),
                    DnsError,
                >(er),
            }),
        decreases buf@.len() + 1 - jumps, buf@.len() - cur,
    {
        if cur >= buf.len() {
            return Err(DnsError::TruncatedBuffer);
        }
        let b = buf[cur];
        if b >= 0xC0 {
            if cur + 1 >= buf.len() {
                return Err(DnsError::TruncatedBuffer);
            }
            if jumps >= buf.len() {
                return Err(DnsError::MalformedName);
            }
            let ghost oc = cur as int;
            let target = ((b - 0xC0) as usize) * 256 + (buf[cur + 1] as usize);
            if end.is_none() {
                end = Some(cur + 2);
            }
            jumps = jumps + 1;
            cur = target;
            proof {
                let inner = spec_decode_name(buf@, cur as int, jumps as nat);
                assert(spec_decode_name(buf@, oc, (jumps - 1) as nat) == (match inner {
                    Ok((l, _)) => Ok::<(Seq<Seq<char>>, int), DnsError>((l, oc + 2)),
                    Err(e) => Err::<(Seq<Seq<char>>, int), DnsError>(e),
                }));
            }
        } else if b == 0 {
            let e = match end {
                Some(e0) => e0,
                None => cur + 1,
            };
            proof {
                assert(spec_decode_name(buf@, cur as int, jumps as nat) == Ok::<
                    (Seq<Seq<char>>, int),
                    DnsError,
                >((Seq::empty(), cur + 1)));
                assert(labels.deep_view() + Seq::<Seq<char>>::empty() =~= labels.deep_view());
            }
            return Ok((labels, e));
        } else if b > 63 {
            return Err(DnsError::MalformedName);
        } else {
            let len = b as usize;
            if len > buf.len() - cur - 1 {
                return Err(DnsError::TruncatedBuffer);
            }
            let lb = slice_subrange(buf, cur + 1, cur + 1 + len);
            let lv = slice_to_vec(lb);
            match string_from_utf8(lv) {
                None => {
                    return Err(DnsError::MalformedName);
                },
                Some(s) => {
                    let ghost olddv = labels.deep_view();
                    let ghost oc = cur as int;
                    labels.push(s);
                    cur = cur + 1 + len;
                    proof {
                        let lbs = buf@.subrange(oc + 1, oc + 1 + len as int);
                        let dl = decode_utf8(lbs);
                        assert(s@ == dl);
                        decode_utf8_encode_utf8(lbs);
                        assert(label_wf(dl));
                        assert(labels.deep_view() =~= olddv + seq![dl]);
                        assert forall|i: int| 0 <= i < labels.deep_view().len() implies label_wf(
                            #[trigger] labels.deep_view()[i],
                        ) by {
                            if i < olddv.len() {
                                assert(labels.deep_view()[i] == olddv[i]);
                            }
                        }
                        let inner = spec_decode_name(buf@, cur as int, jumps as nat);
                        assert(spec_decode_name(buf@, oc, jumps as nat) == (match inner {
                            Ok((l, e2)) => Ok::<(Seq<Seq<char>>, int), DnsError>(
                                (seq![dl] + l, e2),
                            ),
                            Err(e) => Err::<(Seq<Seq<char>>, int), DnsError>(e),
                        }));
                        match inner {
                            Ok((l, e2)) => {
                                assert(olddv + (seq![dl] + l) =~= labels.deep_view() + l);
                            },
                            Err(_) => {},
                        }
                    }
                },
            }
        }
    }
}

/// Serializes a name as length-prefixed labels followed by the terminating
/// zero byte. No compression pointers are emitted.
pub fn encode_name(name: &Vec<String>) -> (r: Vec<u8>)
    requires
        name_wf(name.deep_view()),
    ensures
        r@ == spec_encode_name(name.deep_view()),
{
    let ghost dv = name.deep_view();
    let mut out: Vec<u8> = Vec::new();
    proof {
        assert(dv.take(0) =~= Seq::<Seq<char>>::empty());
    }
    let n = name.len();
    let mut i: usize = 0;
    while i < n
        invariant
            n == name.len(),
            dv == name.deep_view(),
            name_wf(dv),
            i <= n,
            out@ == spec_encode_labels(dv.take(i as int)),
        decreases n - i,
    {
        let label: &String = &name[i];
        proof {
            assert(label@ == dv[i as int]);
        }
        let bs = label.as_str().as_bytes();
        let lb_len = bs.len();
        let ghost mid = out@ + seq![lb_len as u8];
        out.push(lb_len as u8);
        let mut j: usize = 0;
        while j < lb_len
            invariant
                j <= lb_len,
                lb_len == bs@.len(),
                out@ == mid + bs@.take(j as int),
            decreases lb_len - j,
        {
            out.push(bs[j]);
            j = j + 1;
            proof {
                assert(out@ =~= mid + bs@.take(j as int));
            }
        }
        proof {
            lemma_encode_labels_snoc(dv, i as int);
            assert(bs@.take(lb_len as int) =~= bs@);
            assert(out@ =~= spec_encode_labels(dv.take(i as int)) + seq![
                encode_utf8(dv[i as int]).len() as u8,
            ] + encode_utf8(dv[i as int]));
        }
        i = i + 1;
    }
    let ghost before = out@;
    out.push(0);
    proof {
        assert(dv.take(n as int) =~= dv);
        assert(out@ =~= before + seq![0u8]);
    }
    out
}

proof fn lemma_encode_labels_push(s: Seq<Seq<char>>, x: Seq<char>)
    ensures
        spec_encode_labels(s.push(x)) == spec_encode_labels(s) + seq![encode_utf8(x).len() as u8]
            + encode_utf8(x),
    decreases s.len(),
{
    let p = s.push(x);
    let unit = seq![encode_utf8(x).len() as u8] + encode_utf8(x);
    assert(p.len() == s.len() + 1);
    if s.len() == 0 {
        assert(p[0] == x);
        assert(p.drop_first() =~= Seq::<Seq<char>>::empty());
        assert(spec_encode_labels(p) == seq![encode_utf8(p[0]).len() as u8] + encode_utf8(p[0])
            + spec_encode_labels(p.drop_first()));
        assert(spec_encode_labels(p) =~= spec_encode_labels(s) + unit);
    } else {
        assert(p[0] == s[0]);
        assert(p.drop_first() =~= s.drop_first().push(x));
        lemma_encode_labels_push(s.drop_first(), x);
        assert(spec_encode_labels(p) == seq![encode_utf8(s[0]).len() as u8] + encode_utf8(s[0])
            + (spec_encode_labels(s.drop_first()) + seq![encode_utf8(x).len() as u8] + encode_utf8(
                x,
            )));
        assert(spec_encode_labels(s) == seq![encode_utf8(s[0]).len() as u8] + encode_utf8(s[0])
            + spec_encode_labels(s.drop_first()));
        assert(spec_encode_labels(p) =~= spec_encode_labels(s) + unit);
    }
    assert(spec_encode_labels(s) + unit =~= spec_encode_labels(s) + seq![
        encode_utf8(x).len() as u8,
    ] + encode_utf8(x));
}

proof fn lemma_encode_labels_snoc(n: Seq<Seq<char>>, i: int)
    requires
        0 <= i < n.len(),
    ensures
        spec_encode_labels(n.take(i + 1)) == spec_encode_labels(n.take(i)) + seq![
            encode_utf8(n[i]).len() as u8,
        ] + encode_utf8(n[i]),
{
    assert(n.take(i + 1) =~= n.take(i).push(n[i]));
    lemma_encode_labels_push(n.take(i), n[i]);
}

/// Decoding is local: a buffer that carries a pointer-free name encoding at
/// `pos` decodes to exactly that name, whatever surrounds it and whatever
/// the jump budget already spent.
pub proof fn lemma_decode_encoded_name(buf: Seq<u8>, pos: int, n: Seq<Seq<char>>, jumps: nat)
    requires
        name_wf(n),
        0 <= pos,
        pos + spec_encode_name(n).len() <= buf.len(),
        buf.subrange(pos, pos + spec_encode_name(n).len() as int) == spec_encode_name(n),
    ensures
        spec_decode_name(buf, pos, jumps) == Ok::<(Seq<Seq<char>>, int), DnsError>(
            (n, pos + spec_encode_name(n).len()),
        ),
    decreases n.len(),
{
    let enc = spec_encode_name(n);
    assert forall|k: int| pos <= k < pos + enc.len() implies #[trigger] buf[k] == enc[k - pos] by {
        assert(buf.subrange(pos, pos + enc.len() as int)[k - pos] == buf[k]);
    }
    if n.len() == 0 {
        assert(enc =~= seq![0u8]);
        assert(buf[pos] == enc[0]);
        assert(buf[pos] == 0);
        assert(n =~= Seq::<Seq<char>>::empty());
        assert(spec_decode_name(buf, pos, jumps) == Ok::<(Seq<Seq<char>>, int), DnsError>(
            (n, pos + enc.len()),
        ));
    } else {
        let u = encode_utf8(n[0]);
        let rest = n.drop_first();
        let renc = spec_encode_name(rest);
        assert(enc =~= seq![u.len() as u8] + u + renc);
        assert(label_wf(n[0]));
        let b = buf[pos];
        assert(b == enc[0]);
        assert(enc[0] == u.len() as u8);
        assert(b == u.len() as u8);
        assert(1 <= b <= 63);
        let len = b as int;
        assert(len == u.len());
        let lb = buf.subrange(pos + 1, pos + 1 + len);
        assert(lb =~= u) by {
            assert forall|j: int| 0 <= j < len implies lb[j] == u[j] by {
                assert(lb[j] == buf[pos + 1 + j]);
                assert(buf[pos + 1 + j] == enc[1 + j]);
                assert(enc[1 + j] == u[j]);
            }
        }
        vstd::utf8::encode_utf8_valid_utf8(n[0]);
        vstd::utf8::encode_utf8_decode_utf8(n[0]);
        assert(valid_utf8(lb));
        assert(decode_utf8(lb) == n[0]);
        let pos2 = pos + 1 + len;
        assert forall|i: int| 0 <= i < rest.len() implies label_wf(#[trigger] rest[i]) by {
            assert(rest[i] == n[i + 1]);
        }
        assert(buf.subrange(pos2, pos2 + renc.len() as int) =~= renc) by {
            assert forall|j: int| 0 <= j < renc.len() implies buf.subrange(
                pos2,
                pos2 + renc.len() as int,
            )[j] == renc[j] by {
                assert(buf.subrange(pos2, pos2 + renc.len() as int)[j] == buf[pos2 + j]);
                assert(buf[pos2 + j] == enc[pos2 + j - pos]);
                assert(enc[1 + len + j] == renc[j]);
            }
        }
        lemma_decode_encoded_name(buf, pos2, rest, jumps);
        assert(seq![n[0]] + rest =~= n);
        assert(pos2 + renc.len() == pos + enc.len());
        assert(spec_decode_name(buf, pos2, jumps) == Ok::<(Seq<Seq<char>>, int), DnsError>(
            (rest, pos2 + renc.len()),
        ));
        assert(spec_decode_name(buf, pos, jumps) == Ok::<(Seq<Seq<char>>, int), DnsError>(
            (seq![decode_utf8(lb)] + rest, pos2 + renc.len()),
        ));
        assert(seq![decode_utf8(lb)] + rest == n);
    }
}

/// A pointer-free name round-trips: decoding its own encoding from offset 0
/// gives back the same labels and consumes exactly the encoded bytes.
pub proof fn lemma_name_round_trip(n: Seq<Seq<char>>)
    requires
        name_wf(n),
    ensures
        spec_decode_name(spec_encode_name(n), 0, 0) == Ok::<(Seq<Seq<char>>, int), DnsError>(
            (n, spec_encode_name(n).len() as int),
        ),
{
    let enc = spec_encode_name(n);
    assert(enc.subrange(0, enc.len() as int) =~= enc);
    lemma_decode_encoded_name(enc, 0, n, 0);
}

/// Position `p` holds a compression pointer whose 14-bit offset is `q`.
pub open spec fn is_pointer_to(buf: Seq<u8>, p: int, q: int) -> bool {
    &&& 0 <= p
    &&& p + 1 < buf.len()
    &&& buf[p] >= 0xC0
    &&& (buf[p] - 0xC0) * 256 + buf[p + 1] == q
}

/// A cyclic pointer chain can never decode: starting anywhere on a cycle of
/// compression pointers fails with `MalformedName` (and, decoding being a
/// total function, it fails in finitely many steps rather than hanging).
pub proof fn lemma_pointer_cycle_malformed(buf: Seq<u8>, ps: Seq<int>, k: int, jumps: nat)
    requires
        ps.len() > 0,
        forall|i: int|
            0 <= i < ps.len() ==> is_pointer_to(buf, #[trigger] ps[i], ps[(i + 1) % (ps.len() as int)]),
        0 <= k < ps.len(),
    ensures
        spec_decode_name(buf, ps[k], jumps) == Err::<(Seq<Seq<char>>, int), DnsError>(
            DnsError::MalformedName,
        ),
    decreases buf.len() + 1 - jumps,
{
    let p = ps[k];
    assert(is_pointer_to(buf, p, ps[(k + 1) % (ps.len() as int)]));
    if jumps >= buf.len() {
    } else {
        let k2 = (k + 1) % (ps.len() as int);
        assert(0 <= k2 < ps.len());
        lemma_pointer_cycle_malformed(buf, ps, k2, jumps + 1);
    }
}

} // verus!
