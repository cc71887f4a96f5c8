use vstd::prelude::*;

verus! {

/// The error kinds that decoding, encoding and forwarding can report.
///
/// * `TruncatedBuffer`: fewer bytes were available than a field declared.
/// * `MalformedName`: a label was not valid UTF-8, a label length byte was
///   outside the valid range, or a compression-pointer chain exceeded the
///   bounded dereference limit (a cycle).
/// * `RdataTooLarge`: a record's data did not fit the 16-bit length field.
/// * `ForwardFailure`: an upstream round trip failed to send or receive.
#[derive(Clone, Copy, Debug, PartialEq, Eq, Structural)]
pub enum DnsError {
    TruncatedBuffer,
    MalformedName,
    RdataTooLarge,
    ForwardFailure,
}

} // verus!
