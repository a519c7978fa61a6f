//! Compression of payloads. A payload is packed in one of two forms, named
//! by the first byte: as it is, or compressed with LZ4. The compressor is
//! not trusted to be the inverse of the decompressor: what it hands back is
//! decompressed and compared, and the payload is packed as it is where the
//! two differ. So whatever is packed unpacks to the payload.

use vstd::prelude::*;
use vstd::slice::slice_subrange;
use crate::error::DecodeError;

verus! {

/// The first byte of a payload that is packed as it is.
pub const STORED: u8 = 0;

/// The first byte of a payload that is packed with LZ4.
pub const LZ4: u8 = 1;

/// The longest input, in bytes, that is handed to the decompressor.
pub const MAX_COMPRESSED: usize = 1_048_576;

/// What `lz4_compress::decompress` makes of `input`: the decompressed
/// bytes, or `None` where `input` is no LZ4 stream.
pub uninterp spec fn lz4_decompressed(input: Seq<u8>) -> Option<Seq<u8>>;

/// Calls `lz4_compress::compress`. Nothing is claimed of the bytes that
/// come back: they depend on the byte order of the machine.
#[verifier::external_body]
fn lz4_compress_bytes(input: &[u8]) -> (r: Vec<u8>)
{
    lz4_compress::compress(input)
}

/// Calls `lz4_compress::decompress`, which reads `input` block by block
/// and depends on nothing else. The contract gives its result a name, and
/// claims that it returns for an input of at most `MAX_COMPRESSED` bytes.
#[verifier::external_body]
fn lz4_decompress_bytes(input: &[u8]) -> (r: Option<Vec<u8>>)
    requires
        input@.len() <= MAX_COMPRESSED,
    ensures
        match r {
            Some(bytes) => lz4_decompressed(input@) == Some(bytes@),
            None => lz4_decompressed(input@).is_none(),
        },
{
    match lz4_compress::decompress(input) {
        Ok(bytes) => Some(bytes),
        Err(_) => None,
    }
}

/// Whether two runs of bytes are the same.
pub fn same_bytes(a: &[u8], b: &[u8]) -> (r: bool)
    ensures
        r == (a@ == b@),
{
    if a.len() != b.len() {
        return false;
    }
    let mut i: usize = 0;
    while i < a.len()
        invariant
            i <= a@.len(),
            a@.len() == b@.len(),
            forall|k: int| 0 <= k < i ==> a@[k] == b@[k],
        decreases a@.len() - i,
    {
        if a[i] != b[i] {
            return false;
        }
        i += 1;
    }
    assert(a@ =~= b@);
    true
}

/// Whether `compressed` is a compressed form of `input` that can be used:
/// it is short enough to be decompressed, and decompresses to `input`.
pub open spec fn compresses(compressed: Seq<u8>, input: Seq<u8>) -> bool {
    compressed.len() <= MAX_COMPRESSED && lz4_decompressed(compressed) == Some(input)
}

/// The packed form of `input`, where `candidate` is what the compressor
/// made of it.
pub open spec fn packed(input: Seq<u8>, candidate: Seq<u8>) -> Seq<u8> {
    if compresses(candidate, input) {
        seq![LZ4] + candidate
    } else {
        seq![STORED] + input
    }
}

/// The payload that `bytes` are the packed form of.
pub open spec fn unpacked(bytes: Seq<u8>) -> Result<Seq<u8>, DecodeError> {
    if bytes.len() == 0 {
        Err(DecodeError::Truncated)
    } else if bytes[0] == STORED {
        Ok(bytes.skip(1))
    } else if bytes[0] == LZ4 {
        if bytes.len() - 1 > MAX_COMPRESSED {
            Err(DecodeError::TooLong)
        } else {
            match lz4_decompressed(bytes.skip(1)) {
                Some(payload) => Ok(payload),
                None => Err(DecodeError::Corrupt),
            }
        }
    } else {
        Err(DecodeError::InvalidVariant)
    }
}

/// Whatever is packed unpacks to what it was made of.
pub proof fn lemma_packed_unpacks(input: Seq<u8>, candidate: Seq<u8>)
    ensures
        unpacked(packed(input, candidate)) == Ok::<Seq<u8>, DecodeError>(input),
{
    let bytes = packed(input, candidate);
    if compresses(candidate, input) {
        assert(bytes.skip(1) =~= candidate);
    } else {
        assert(bytes.skip(1) =~= input);
    }
}

/// Packs `input`, given what the compressor made of it: compressed where
/// `candidate` decompresses to `input`, else as it is.
pub fn pack_with(input: &[u8], candidate: Vec<u8>) -> (r: Vec<u8>)
    ensures
        r@ == packed(input@, candidate@),
{
    let mut bytes: Vec<u8> = Vec::new();
    let usable = candidate.len() <= MAX_COMPRESSED && match lz4_decompress_bytes(
        candidate.as_slice(),
    ) {
        Some(check) => same_bytes(check.as_slice(), input),
        None => false,
    };
    if usable {
        let mut candidate = candidate;
        bytes.push(LZ4);
        bytes.append(&mut candidate);
    } else {
        bytes.push(STORED);
        bytes.extend_from_slice(input);
    }
    assert(bytes@ =~= packed(input@, candidate@));
    bytes
}

/// Packs `input`. What comes back unpacks to `input`.
pub fn pack(input: &[u8]) -> (r: Vec<u8>)
    ensures
        unpacked(r@) == Ok::<Seq<u8>, DecodeError>(input@),
        r@ == seq![STORED] + input@ || (r@.len() > 0 && r@[0] == LZ4 && compresses(
            r@.skip(1),
            input@,
        )),
{
    let candidate = lz4_compress_bytes(input);
    proof {
        lemma_packed_unpacks(input@, candidate@);
        assert((seq![LZ4] + candidate@).skip(1) =~= candidate@);
    }
    pack_with(input, candidate)
}

/// Unpacks `bytes`.
pub fn unpack(bytes: &[u8]) -> (r: Result<Vec<u8>, DecodeError>)
    ensures
        match r {
            Ok(payload) => unpacked(bytes@) == Ok::<Seq<u8>, DecodeError>(payload@),
            Err(e) => unpacked(bytes@) == Err::<Seq<u8>, DecodeError>(e),
        },
{
    if bytes.len() == 0 {
        return Err(DecodeError::Truncated);
    }
    let body = slice_subrange(bytes, 1, bytes.len());
    proof {
        assert(body@ =~= bytes@.skip(1));
    }
    if bytes[0] == STORED {
        let mut payload: Vec<u8> = Vec::new();
        payload.extend_from_slice(body);
        assert(payload@ =~= body@);
        Ok(payload)
    } else if bytes[0] == LZ4 {
        if body.len() > MAX_COMPRESSED {
            return Err(DecodeError::TooLong);
        }
        match lz4_decompress_bytes(body) {
            Some(payload) => Ok(payload),
            None => Err(DecodeError::Corrupt),
        }
    } else {
        Err(DecodeError::InvalidVariant)
    }
}

} // verus!
