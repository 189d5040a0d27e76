//! ZIP compression of channels, by the `flate2` crate.

use vstd::prelude::*;

verus! {

/// The zlib stream that flate2's `write::ZlibEncoder` makes of bytes at the default
/// level.
pub uninterp spec fn zlib_deflated(data: Seq<u8>) -> Seq<u8>;

/// What one call of flate2's `Decompress::decompress` makes of a stream, with a zlib
/// header or bare, where there is room for `room` bytes: whether the stream ended,
/// the bytes that came out, and how many bytes went in; nothing where the stream is
/// damaged.
pub uninterp spec fn decompressed(data: Seq<u8>, room: nat, header: bool) -> Option<
    (bool, Seq<u8>, nat),
>;

/// How many bytes flate2's `read::ZlibDecoder` gives of a stream that it reads to its
/// end; nothing where the stream is damaged or has no end.
pub uninterp spec fn zlib_length(data: Seq<u8>) -> Option<nat>;

/// How many bytes flate2's `read::DeflateDecoder` gives of a stream that it reads to
/// its end; nothing where the stream is damaged or has no end.
pub uninterp spec fn deflate_length(data: Seq<u8>) -> Option<nat>;

/// The zlib stream stands for these bytes.
pub open spec fn stands_for(stream: Seq<u8>, data: Seq<u8>) -> bool {
    &&& zlib_length(stream) == Some(data.len())
    &&& decompressed(stream, data.len(), true) matches Some(found) && found.0 && found.1 == data
}

/// Calls flate2's `write::ZlibEncoder` at the default level. The contract claims
/// that the stream depends on the input alone, that flate2's own decoder reads it to
/// its end and its decompressor gives the input back in a buffer of its size, and that
/// a stream, which has a header, is not empty.
#[verifier::external_body]
pub(crate) fn zlib_deflate(data: &[u8]) -> (stream: Vec<u8>)
    ensures
        stream@ == zlib_deflated(data@),
        stands_for(stream@, data@),
        stream@.len() > 0,
{
    let level = flate2::Compression::default();
    let mut encoder = flate2::write::ZlibEncoder::new(Vec::new(), level);
    std::io::Write::write_all(&mut encoder, data).expect("writing to a vector");
    encoder.finish().expect("writing to a vector")
}

/// Calls flate2's `Decompress::decompress` once, to its end, on a buffer of `room`
/// bytes. The contract claims that what comes out depends on the arguments alone,
/// and that it fits in the buffer.
#[verifier::external_body]
pub(crate) fn decompress(stream: &[u8], room: usize, header: bool) -> (found: Option<
    (bool, Vec<u8>, usize),
>)
    ensures
        decompressed(stream@, room as nat, header) == (match found {
            Some((ended, bytes, consumed)) => Some((ended, bytes@, consumed as nat)),
            None => None,
        }),
        found matches Some(f) ==> f.1@.len() <= room,
{
    let mut inner = flate2::Decompress::new(header);
    let mut bytes = vec![0u8; room];
    match inner.decompress(stream, &mut bytes, flate2::FlushDecompress::Finish) {
        Ok(status) => {
            bytes.truncate(inner.total_out() as usize);
            let ended = matches!(status, flate2::Status::StreamEnd);
            Some((ended, bytes, inner.total_in() as usize))
        },
        Err(_) => None,
    }
}

/// Reads a stream to its end with flate2's `read::ZlibDecoder` and drops what comes
/// out. The contract claims that how many bytes came out, or that the stream is damaged
/// or has no end, depends on the stream alone.
#[verifier::external_body]
pub(crate) fn zlib_measure(stream: &[u8]) -> (length: Option<u64>)
    ensures
        zlib_length(stream@) == (match length {
            Some(n) => Some(n as nat),
            None => None,
        }),
{
    std::io::copy(&mut flate2::read::ZlibDecoder::new(stream), &mut std::io::sink()).ok()
}

/// Reads a stream to its end with flate2's `read::DeflateDecoder` and drops what comes
/// out. The contract claims that how many bytes came out, or that the stream is damaged
/// or has no end, depends on the stream alone.
#[verifier::external_body]
pub(crate) fn deflate_measure(stream: &[u8]) -> (length: Option<u64>)
    ensures
        deflate_length(stream@) == (match length {
            Some(n) => Some(n as nat),
            None => None,
        }),
{
    std::io::copy(&mut flate2::read::DeflateDecoder::new(stream), &mut std::io::sink()).ok()
}

/// What a compressed channel of at most `room` bytes stands for: a zlib stream, or
/// failing that a bare deflate stream. A stream must be whole, though what is beyond
/// `room` bytes is left out.
pub open spec fn inflated(data: Seq<u8>, room: nat) -> Option<(bool, Seq<u8>, nat)> {
    if zlib_length(data) is Some {
        decompressed(data, room, true)
    } else if deflate_length(data) is Some {
        decompressed(data, room, false)
    } else {
        None
    }
}

/// Decompresses at most `room` bytes of a zlib stream, or failing that of a bare
/// deflate stream; says whether the stream ended and how many of its bytes went in.
/// What the rest of the stream gives is never held in memory.
pub fn inflate(stream: &[u8], room: usize) -> (found: Option<(bool, Vec<u8>, usize)>)
    ensures
        inflated(stream@, room as nat) == (match found {
            Some((ended, bytes, consumed)) => Some((ended, bytes@, consumed as nat)),
            None => None,
        }),
        found matches Some(f) ==> f.1@.len() <= room,
{
    if zlib_measure(stream).is_some() {
        decompress(stream, room, true)
    } else if deflate_measure(stream).is_some() {
        decompress(stream, room, false)
    } else {
        None
    }
}

} // verus!
