//! The chunk payload: a batch serialized with the crate's codec, then
//! compressed with LZ4 in the size-prepended variant (four little-endian
//! bytes of uncompressed length, then the LZ4 block).
//!
//! Compression is called through trusted wrappers around `lz4_flex`; what its
//! block format looks like is never stated, only that compression is a
//! deterministic, lossless function of the input bytes with a linear output
//! bound, which the crate's documentation, its own output-buffer sizing and
//! the pairing of its two functions promise. The four-byte size prefix caps
//! what a blob can declare: inputs longer than a `u32` holds are truncated
//! there, so the lossless promise is stated for inputs up to that size.

use vstd::prelude::*;
use crate::codec::{enc_batch, decode_batch, encode_batch};
use crate::flow::{FlowModel, Netflow, batch_model};

verus! {

/// The bytes `lz4_flex::compress_prepend_size` returns for a given input:
/// a function of the input bytes alone.
pub uninterp spec fn lz4_of(data: Seq<u8>) -> Seq<u8>;

/// Relies on lz4_flex::compress_prepend_size: deterministic compression of
/// the input, with the uncompressed size prepended. The output never
/// exceeds the buffer the crate itself allocates for it: four prefix bytes
/// plus `get_maximum_output_size`, which is 20 plus 110% of the input.
#[verifier::external_body]
fn lz4_compress(data: &[u8]) -> (r: Vec<u8>)
    ensures
        r@ == lz4_of(data@),
        r@.len() <= 24 + (data@.len() * 110) / 100,
{
    lz4_flex::compress_prepend_size(data)
}

/// Relies on lz4_flex::decompress_size_prepended: it inverts
/// compress_prepend_size, and compression is lossless, so a blob equal to
/// the compression of some bytes decompresses to exactly those bytes — for
/// inputs whose length the four-byte size prefix can spell. Beyond `u32`
/// the prefix is written truncated and decompression of such a blob fails,
/// so nothing is promised of it.
#[verifier::external_body]
fn lz4_decompress(data: &[u8]) -> (r: Option<Vec<u8>>)
    ensures
        r matches Some(v) ==> forall|s: Seq<u8>|
            s.len() <= u32::MAX && data@ == lz4_of(s) ==> v@ == s,
        r is None ==> forall|s: Seq<u8>| s.len() <= u32::MAX ==> data@ != lz4_of(s),
{
    match lz4_flex::decompress_size_prepended(data) {
        Ok(v) => Some(v),
        Err(_) => None,
    }
}

/// Serializes and compresses one batch: the payload of one chunk frame.
/// The payload is never more than marginally larger than the serialized
/// batch, so any batch whose encoding is comfortably under the frame
/// format's four-byte length field dispatches.
pub fn encode_chunk_payload(items: &Vec<Netflow>) -> (r: Vec<u8>)
    ensures
        r@ == lz4_of(enc_batch(batch_model(items@))),
        r@.len() <= 24 + (enc_batch(batch_model(items@)).len() * 110) / 100,
{
    let encoded = encode_batch(items);
    lz4_compress(encoded.as_slice())
}

/// Decompresses and decodes one chunk payload. Every payload produced by
/// `encode_chunk_payload` comes back as exactly the batch it was made from:
/// the serialize–compress–decompress–deserialize round trip is the identity
/// on every batch whose serialization the compressor's four-byte size
/// prefix can spell (one with over four billion bytes of records cannot
/// come back).
pub fn decode_chunk_payload(payload: &[u8]) -> (r: Option<Vec<Netflow>>)
    ensures
        forall|ms: Seq<FlowModel>|
            enc_batch(ms).len() <= u32::MAX && payload@ == lz4_of(enc_batch(ms)) ==> (
            r matches Some(v) && batch_model(v@) == ms),
{
    match lz4_decompress(payload) {
        None => None,
        Some(bytes) => decode_batch(bytes.as_slice()),
    }
}

} // verus!
