//! `FlateDecode` — the zlib/deflate codec.
//!
//! The codec is `flate2`'s. On top of it this module implements the decode
//! policies: decoding stops at the end of the deflate stream so trailing
//! bytes are ignored; a stream without a valid zlib wrapper is retried as raw
//! deflate; and the output never grows past `Limits::max_decompressed_stream`
//! (the decompression-bomb guard), which is authoritative and never retried.
//! The ceiling is tested in steps of 64 KiB of output: a stream that turns
//! out corrupt or cut short reports that, and is retried, unless it yielded
//! more than the ceiling in whole steps first.

use vstd::prelude::*;

use crate::error::{Error, LimitKind};
use crate::limits::Limits;
use super::bytes_result;

verus! {

/// Why a `flate2` read of a deflate stream failed.
#[derive(Copy, Clone, PartialEq, Eq, Debug)]
pub enum InflateFail {
    /// The stream holds invalid data (`io::ErrorKind::InvalidInput` and
    /// any other read error).
    Corrupt,
    /// The input ended before the stream did (`io::ErrorKind::UnexpectedEof`).
    Truncated,
}

/// What the deflate stream at the start of `input` inflates to with
/// `flate2` (zlib-wrapped when `zlib_header`, raw deflate otherwise): the
/// whole decoded data when the stream is valid and complete, whatever
/// bytes follow its end; `None` when it is corrupt or ends early.
pub uninterp spec fn inflated(input: Seq<u8>, zlib_header: bool) -> Option<Seq<u8>>;

/// For a stream that does not inflate: how many bytes `flate2` yields from
/// it before the corruption or the early end shows.
pub uninterp spec fn inflated_before_failure(input: Seq<u8>, zlib_header: bool) -> nat;

/// For a stream that does not inflate: how `flate2` reports it, corrupt
/// data or an early end.
pub uninterp spec fn inflate_failure(input: Seq<u8>, zlib_header: bool) -> InflateFail;

/// `flate2::bufread::ZlibDecoder::new_with_decompress(input,
/// Decompress::new(zlib_header))`, read through `Read::take(limit)` with
/// `read_to_end`. The reader stops at the end of the deflate stream (bytes
/// after it are never reported), reports `UnexpectedEof` for input that
/// ends before the stream does and `InvalidInput` for corrupt data. So: a
/// valid stream gives its data, cut at `limit` bytes; output shorter than
/// `limit` means the stream ended cleanly; a stream that does not inflate
/// still gives `limit` bytes when it yields that many before its failure
/// shows, and otherwise fails as it fails. The caller keeps `limit` within
/// what a `Vec` can hold.
#[verifier::external_body]
fn inflate_read(input: &[u8], zlib_header: bool, limit: u64) -> (r: Result<Vec<u8>, InflateFail>)
    requires
        limit <= isize::MAX,
    ensures
        inflated(input@, zlib_header) is Some && inflated(input@, zlib_header)->Some_0.len() < limit
            ==> r is Ok && r->Ok_0@ == inflated(input@, zlib_header)->Some_0,
        inflated(input@, zlib_header) is Some && inflated(input@, zlib_header)->Some_0.len() >= limit
            ==> r is Ok && r->Ok_0@ == inflated(input@, zlib_header)->Some_0.take(limit as int),
        inflated(input@, zlib_header) is None && inflated_before_failure(input@, zlib_header) >= limit
            ==> r is Ok,
        inflated(input@, zlib_header) is None && inflated_before_failure(input@, zlib_header) < limit
            ==> r is Err,
        inflated(input@, zlib_header) is None && r is Err
            ==> r->Err_0 == inflate_failure(input@, zlib_header),
        r is Ok ==> r->Ok_0@.len() <= limit,
        r is Ok && r->Ok_0@.len() < limit ==> inflated(input@, zlib_header) == Some(r->Ok_0@),
{
    let dec = flate2::bufread::ZlibDecoder::new_with_decompress(input, flate2::Decompress::new(zlib_header));
    let mut out: Vec<u8> = Vec::new();
    match std::io::Read::read_to_end(&mut std::io::Read::take(dec, limit), &mut out) {
        Ok(_) => Ok(out),
        Err(e) => match e.kind() {
            std::io::ErrorKind::UnexpectedEof => Err(InflateFail::Truncated),
            _ => Err(InflateFail::Corrupt),
        },
    }
}

/// What `flate2` compresses `input` to: a zlib stream at the default level.
pub uninterp spec fn zlib_compressed(input: Seq<u8>) -> Seq<u8>;

/// `flate2::write::ZlibEncoder` at `Compression::default()` over a `Vec`:
/// `write_all` then `finish`; on the (unreachable: writing into a `Vec`
/// does not fail) write error the result is empty. The contract names the
/// result and states that it is a complete zlib stream, never empty, that
/// inflates back to `input` whatever bytes follow it (the decoder stops at
/// the end of the stream).
#[verifier::external_body]
fn zlib_encode(input: &[u8]) -> (r: Vec<u8>)
    ensures
        r@ == zlib_compressed(input@),
        r@.len() > 0,
        forall|tail: Seq<u8>| #[trigger] inflated(r@ + tail, true) == Some(input@),
{
    let mut enc = flate2::write::ZlibEncoder::new(Vec::new(), flate2::Compression::default());
    if std::io::Write::write_all(&mut enc, input).is_err() {
        return Vec::new();
    }
    enc.finish().unwrap_or_default()
}

/// The decode error for a corrupt stream.
pub open spec fn corrupt_error() -> Error {
    Error::Decode { filter: "FlateDecode", msg: "corrupt deflate stream" }
}

/// The decode error for a stream that stops mid-symbol.
pub open spec fn truncated_error() -> Error {
    Error::Decode { filter: "FlateDecode", msg: "truncated deflate stream" }
}

/// The decode error a failed read reports.
pub open spec fn fail_error(f: InflateFail) -> Error {
    match f {
        InflateFail::Corrupt => corrupt_error(),
        InflateFail::Truncated => truncated_error(),
    }
}

/// How far the decoder is read under ceiling `cap`: to the first multiple
/// of 64 KiB past the ceiling (within what a `Vec` can hold), so that the
/// ceiling is tested in steps of 64 KiB of output.
pub open spec fn read_limit(cap: nat) -> nat {
    let l = (cap / 65536 + 1) * 65536;
    if l < isize::MAX { l } else { isize::MAX as nat }
}

/// What inflating `input` under the output ceiling `cap` gives: the data
/// when the stream is valid and fits the ceiling (and a `Vec`); the limit
/// error when it is too long, or when, corrupt or cut short, it yields more
/// than the ceiling in whole 64 KiB steps before that shows; otherwise its
/// corrupt-stream or truncated-stream error.
pub open spec fn inflate_spec(input: Seq<u8>, zlib_header: bool, cap: nat) -> Result<Seq<u8>, Error> {
    match inflated(input, zlib_header) {
        Some(full) => if full.len() <= cap && full.len() < isize::MAX {
            Ok(full)
        } else {
            Err(Error::LimitExceeded(LimitKind::DecompressedStream))
        },
        None => if inflated_before_failure(input, zlib_header) >= read_limit(cap) {
            Err(Error::LimitExceeded(LimitKind::DecompressedStream))
        } else {
            Err(fail_error(inflate_failure(input, zlib_header)))
        },
    }
}

/// Whether `e` is one of the errors a `FlateDecode` failure reports.
pub open spec fn flate_error(e: Error) -> bool {
    e == Error::LimitExceeded(LimitKind::DecompressedStream) || e == corrupt_error() || e == truncated_error()
}

/// Bounded inflate of `input` (zlib-wrapped when `zlib_header`, else raw
/// deflate): stops at the end of the deflate stream, ignoring any trailing
/// bytes, and never reads past [`read_limit`] of
/// `limits.max_decompressed_stream`.
fn inflate(input: &[u8], zlib_header: bool, limits: &Limits) -> (r: Result<Vec<u8>, Error>)
    ensures
        bytes_result(r) == inflate_spec(input@, zlib_header, limits.max_decompressed_stream as nat),
        r matches Err(e) ==> flate_error(e),
{
    let cap = limits.max_decompressed_stream;
    let most: u64 = isize::MAX as u64;
    let steps: u128 = cap as u128 / 65536 + 1;
    let l: u128 = steps * 65536;
    proof {
        assert(l == (cap as nat / 65536 + 1) * 65536);
        assert(l > cap) by (nonlinear_arith)
            requires l == (cap as nat / 65536 + 1) * 65536;
    }
    let limit: u64 = if l < most as u128 { l as u64 } else { most };
    match inflate_read(input, zlib_header, limit) {
        Ok(v) => {
            if v.len() > cap || v.len() as u64 >= limit {
                Err(Error::LimitExceeded(LimitKind::DecompressedStream))
            } else {
                Ok(v)
            }
        },
        Err(InflateFail::Corrupt) => Err(Error::decode("FlateDecode", "corrupt deflate stream")),
        Err(InflateFail::Truncated) => Err(Error::decode("FlateDecode", "truncated deflate stream")),
    }
}

/// The fallback policy: after the zlib-wrapped attempt failed with
/// `zlib_err` (never a limit error), the raw-deflate attempt `raw` decides —
/// its output or its limit error stands, and any other failure reports the
/// zlib error as it was.
pub fn raw_fallback(zlib_err: Error, raw: Result<Vec<u8>, Error>) -> (r: Result<Vec<u8>, Error>)
    ensures
        match raw {
            Ok(v) => r == Ok::<Vec<u8>, Error>(v),
            Err(Error::LimitExceeded(k)) => r == Err::<Vec<u8>, Error>(Error::LimitExceeded(k)),
            Err(_) => r == Err::<Vec<u8>, Error>(zlib_err),
        },
{
    match raw {
        Ok(out) => Ok(out),
        Err(Error::LimitExceeded(k)) => Err(Error::LimitExceeded(k)),
        Err(_) => Err(zlib_err),
    }
}

/// What `FlateDecode` gives: empty input decodes to nothing; otherwise
/// the zlib reading, unless it fails with anything but the limit error,
/// in which case the raw-deflate reading, unless that fails with anything
/// but the limit error too, in which case the zlib reading's error.
pub open spec fn flate_spec(input: Seq<u8>, cap: nat) -> Result<Seq<u8>, Error> {
    if input.len() == 0 {
        Ok(Seq::empty())
    } else {
        match inflate_spec(input, true, cap) {
            Ok(v) => Ok(v),
            Err(Error::LimitExceeded(k)) => Err(Error::LimitExceeded(k)),
            Err(zlib_err) => match inflate_spec(input, false, cap) {
                Ok(v) => Ok(v),
                Err(Error::LimitExceeded(k)) => Err(Error::LimitExceeded(k)),
                Err(_) => Err(zlib_err),
            },
        }
    }
}

/// Whether `r` is what `FlateDecode` gives for `input` under ceiling `cap`.
pub open spec fn flate_outcome(input: Seq<u8>, cap: nat, r: Result<Seq<u8>, Error>) -> bool {
    r == flate_spec(input, cap)
}

/// Decodes a `FlateDecode` stream: zlib first, then raw deflate if that
/// fails (a limit error is authoritative and never retried). Empty input
/// decodes to nothing.
pub fn decode(input: &[u8], limits: &Limits) -> (r: Result<Vec<u8>, Error>)
    ensures
        bytes_result(r) == flate_spec(input@, limits.max_decompressed_stream as nat),
        r matches Err(e) ==> flate_error(e),
{
    if input.len() == 0 {
        return Ok(Vec::new());
    }
    match inflate(input, true, limits) {
        Ok(out) => Ok(out),
        Err(Error::LimitExceeded(k)) => Err(Error::LimitExceeded(k)),
        Err(zlib_err) => raw_fallback(zlib_err, inflate(input, false, limits)),
    }
}

/// Inflating inverts encoding: whenever `enc` is what [`encode`] gave for
/// `x` (a non-empty zlib stream that inflates to `x`), followed by any
/// bytes, and `x` fits the ceiling, decoding gives `x` back.
pub proof fn law_flate_round_trip(x: Seq<u8>, enc: Seq<u8>, tail: Seq<u8>, cap: nat)
    requires
        enc.len() > 0,
        forall|t: Seq<u8>| #[trigger] inflated(enc + t, true) == Some(x),
        x.len() <= cap,
        x.len() < isize::MAX,
    ensures
        flate_spec(enc + tail, cap) == Ok::<Seq<u8>, Error>(x),
{
    assert(inflated(enc + tail, true) == Some(x));
    assert((enc + tail).len() > 0);
}

/// Encodes `input` as a zlib-wrapped deflate stream at the default level.
pub fn encode(input: &[u8]) -> (r: Vec<u8>)
    ensures
        r@ == zlib_compressed(input@),
        r@.len() > 0,
        forall|tail: Seq<u8>| #[trigger] inflated(r@ + tail, true) == Some(input@),
{
    zlib_encode(input)
}

} // verus!
