//! The zstd codec of the `ruzstd` crate.

use ruzstd::decoding::{BlockDecodingStrategy, FrameDecoder};
use ruzstd::encoding::{compress_to_vec, CompressionLevel};
use vstd::prelude::*;

verus! {

/// Why a zstd frame could not be decoded.
#[derive(Debug)]
pub enum ZstdError {
    /// The data does not start with a frame header that the decoder accepts.
    Frame,
    /// A block of the frame could not be decoded.
    Stream(std::io::Error),
}

/// What a [`ZstdError`] says, without the text of its I/O error.
pub enum ZstdFailure {
    Frame,
    Stream,
}

/// What the first zstd frame of `data` decodes to.
pub uninterp spec fn zstd_decoded(data: Seq<u8>) -> Result<Seq<u8>, ZstdFailure>;

/// The outcome of a decoding, without the text of an I/O error.
pub open spec fn decoded_view(r: Result<Vec<u8>, ZstdError>) -> Result<Seq<u8>, ZstdFailure> {
    match r {
        Ok(out) => Ok(out@),
        Err(ZstdError::Frame) => Err(ZstdFailure::Frame),
        Err(ZstdError::Stream(_)) => Err(ZstdFailure::Stream),
    }
}

/// `ruzstd::decoding::FrameDecoder`: `init` reads the frame header,
/// `decode_blocks` with the strategy `All` decodes every block of the frame into
/// memory, `collect` hands the content out. The result is that content, or which
/// of the first two calls failed. Nothing is taken out of the decoder before the
/// last block is in, so all of it depends on the bytes of `data` alone. A match
/// that reaches back behind the frame's window, which the format does not allow,
/// is then copied all the same; a decoder that is drained on the way fails at it
/// or not, depending on how much was taken out before.
#[verifier::external_body]
pub(crate) fn decode(data: &[u8]) -> (r: Result<Vec<u8>, ZstdError>)
    ensures
        decoded_view(r) == zstd_decoded(data@),
{
    let mut source = data;
    let mut decoder = FrameDecoder::new();
    if decoder.init(&mut source).is_err() {
        return Err(ZstdError::Frame);
    }
    match decoder.decode_blocks(&mut source, BlockDecodingStrategy::All) {
        Ok(_) => Ok(decoder.collect().unwrap_or_default()),
        Err(error) => Err(ZstdError::Stream(std::io::Error::other(error))),
    }
}

/// The frame that the compressor makes of `data`, or, where `compressed` does not
/// hold, the frame in which it stores `data` as it is.
pub uninterp spec fn zstd_packed(data: Seq<u8>, compressed: bool) -> Seq<u8>;

/// `ruzstd::encoding::compress_to_vec` at the level `Fastest`. The result depends
/// on the bytes of `data` alone: the compressor cuts them into blocks of 128 KiB,
/// finds matches with a fixed hash in tables of a fixed size, and every sort in
/// it is stable. That the frame decodes is not claimed: the compressor may refer
/// to a Huffman table of a block that it then stored raw, and such a frame does
/// not.
#[verifier::external_body]
fn compress(data: &[u8]) -> (r: Vec<u8>)
    ensures
        r@ == zstd_packed(data@, true),
{
    compress_to_vec(data, CompressionLevel::Fastest)
}

/// `ruzstd::encoding::compress_to_vec` at the level `Uncompressed`: a frame of
/// raw blocks of 128 KiB that holds `data` as it is, and decodes to it.
#[verifier::external_body]
fn store(data: &[u8]) -> (r: Vec<u8>)
    ensures
        r@ == zstd_packed(data@, false),
        (zstd_decoded(r@) == Ok::<Seq<u8>, ZstdFailure>(data@)),
{
    compress_to_vec(data, CompressionLevel::Uncompressed)
}

fn same_bytes(a: &[u8], b: &[u8]) -> (r: bool)
    ensures
        r == (a@ == b@),
{
    if a.len() != b.len() {
        return false;
    }
    let mut i: usize = 0;
    while i < a.len()
        invariant
            i <= a@.len(),
            a@.len() == b@.len(),
            forall|j: int| 0 <= j < i ==> a@[j] == b@[j],
        decreases a.len() - i,
    {
        if a[i] != b[i] {
            assert(a@[i as int] != b@[i as int]);
            return false;
        }
        i = i + 1;
    }
    assert(a@ =~= b@);
    true
}

/// What `data` is written as, where the compressor made `packed` of it: `packed`,
/// if it decodes to `data`, or else the frame that stores `data` as it is.
pub open spec fn kept_frame(packed: Seq<u8>, data: Seq<u8>) -> Seq<u8> {
    if zstd_decoded(packed) == Ok::<Seq<u8>, ZstdFailure>(data) {
        packed
    } else {
        zstd_packed(data, false)
    }
}

/// What `data` is written as: the compressor's frame, unless that does not decode
/// to `data`.
pub open spec fn zstd_encoded(data: Seq<u8>) -> Seq<u8> {
    kept_frame(zstd_packed(data, true), data)
}

/// The frame `packed`, if it decodes to `data`; if not, a frame that stores `data`
/// as it is.
pub fn keep_or_store(packed: Vec<u8>, data: &[u8]) -> (r: Vec<u8>)
    ensures
        r@ == kept_frame(packed@, data@),
        zstd_decoded(r@) == Ok::<Seq<u8>, ZstdFailure>(data@),
{
    match decode(packed.as_slice()) {
        Ok(out) => if same_bytes(out.as_slice(), data) {
            packed
        } else {
            store(data)
        },
        Err(_) => store(data),
    }
}

/// A zstd frame that decodes to `data`: what the compressor made of it, if that
/// does, or the data stored as it is.
pub fn encode(data: &[u8]) -> (r: Vec<u8>)
    ensures
        r@ == zstd_encoded(data@),
        zstd_decoded(r@) == Ok::<Seq<u8>, ZstdFailure>(data@),
{
    keep_or_store(compress(data), data)
}

/// The compressor's frame is what is written wherever it decodes to the data, and
/// the data stored as it is only where it does not.
pub proof fn law_data_is_compressed(data: Seq<u8>)
    ensures
        zstd_decoded(zstd_packed(data, true)) == Ok::<Seq<u8>, ZstdFailure>(data) ==> zstd_encoded(
            data,
        ) == zstd_packed(data, true),
        zstd_decoded(zstd_packed(data, true)) != Ok::<Seq<u8>, ZstdFailure>(data) ==> zstd_encoded(
            data,
        ) == zstd_packed(data, false),
{
}

/// A frame is kept if it decodes to the data, and only then.
pub proof fn law_frame_is_kept(packed: Seq<u8>, data: Seq<u8>)
    ensures
        zstd_decoded(packed) == Ok::<Seq<u8>, ZstdFailure>(data) ==> kept_frame(packed, data)
            == packed,
        zstd_decoded(packed) != Ok::<Seq<u8>, ZstdFailure>(data) ==> kept_frame(packed, data)
            == zstd_packed(data, false),
{
}

/// The outcome of a decoding is the decoded bytes, or which step failed.
pub proof fn law_decoding_outcome(r: Result<Vec<u8>, ZstdError>)
    ensures
        r matches Ok(out) ==> decoded_view(r) == Ok::<Seq<u8>, ZstdFailure>(out@),
        r matches Err(ZstdError::Frame) ==> decoded_view(r) == Err::<Seq<u8>, ZstdFailure>(
            ZstdFailure::Frame,
        ),
        r matches Err(ZstdError::Stream(_)) ==> decoded_view(r) == Err::<Seq<u8>, ZstdFailure>(
            ZstdFailure::Stream,
        ),
{
}

} // verus!
