//! `LZWDecode` — Lempel–Ziv–Welch codec.
//!
//! Codes are packed MSB-first, growing from 9 to 12 bits, with reserved codes
//! 256 (`ClearTable`) and 257 (`EndOfData`). The codec itself is `weezl`'s;
//! this module decodes growing prefixes of the input afresh (the whole input
//! at once when even its worst-case expansion fits), so that the output
//! never grows far past `Limits::max_decompressed_stream` (the
//! decompression-bomb guard), and requires an `EndOfData` marker. Output
//! past the ceiling is the limit error, except for a stream that turns out
//! to hold an invalid code before its output passes the ceiling in whole
//! 16 MiB steps: that is the decode error.
//!
//! `/EarlyChange 1` (the PDF default, `early_change == true`) switches the code
//! width one code earlier than `/EarlyChange 0`; it must match the producer.

use vstd::prelude::*;

use crate::error::{Error, LimitKind};
use crate::limits::Limits;
use super::bytes_result;

verus! {

/// How a `weezl` decoding run over some bytes ended.
#[derive(Copy, Clone, PartialEq, Eq, Debug, Structural)]
pub enum LzwEnd {
    /// The end-of-data code was read (the decoder `has_ended`).
    Done,
    /// The bytes ran out before the end-of-data code.
    More,
    /// An invalid code was met (`LzwError`).
    Invalid,
}

/// What a fresh `weezl` `/EarlyChange 1` decoder (TIFF size switch,
/// MSB-first, 8-bit literals) makes of `data` in one `into_vec(..).decode`
/// call: the bytes it appended and how the run ended.
pub uninterp spec fn lzw_ran_early(data: Seq<u8>) -> (Seq<u8>, LzwEnd);

/// What a fresh `weezl` `/EarlyChange 0` decoder makes of `data` in one
/// `into_vec(..).decode` call.
pub uninterp spec fn lzw_ran_plain(data: Seq<u8>) -> (Seq<u8>, LzwEnd);

/// `weezl::decode::Decoder::with_tiff_size_switch(Msb, 8)`, then
/// `into_vec(&mut out).decode(data)` and `has_ended`. The contract names
/// the result.
#[verifier::external_body]
fn lzw_run_early(data: &[u8]) -> (r: (Vec<u8>, LzwEnd))
    ensures
        (r.0@, r.1) == lzw_ran_early(data@),
{
    let mut d = weezl::decode::Decoder::with_tiff_size_switch(weezl::BitOrder::Msb, 8);
    let mut out: Vec<u8> = Vec::new();
    let status = d.into_vec(&mut out).decode(data).status;
    let end = match status {
        Err(_) => LzwEnd::Invalid,
        Ok(_) => if d.has_ended() { LzwEnd::Done } else { LzwEnd::More },
    };
    (out, end)
}

/// `weezl::decode::Decoder::new(Msb, 8)`, then `into_vec(&mut out)
/// .decode(data)` and `has_ended`. The contract names the result.
#[verifier::external_body]
fn lzw_run_plain(data: &[u8]) -> (r: (Vec<u8>, LzwEnd))
    ensures
        (r.0@, r.1) == lzw_ran_plain(data@),
{
    let mut d = weezl::decode::Decoder::new(weezl::BitOrder::Msb, 8);
    let mut out: Vec<u8> = Vec::new();
    let status = d.into_vec(&mut out).decode(data).status;
    let end = match status {
        Err(_) => LzwEnd::Invalid,
        Ok(_) => if d.has_ended() { LzwEnd::Done } else { LzwEnd::More },
    };
    (out, end)
}

/// What `weezl` encodes `input` to with the `/EarlyChange 1` (TIFF size
/// switch) encoder, MSB-first, 8-bit literals.
pub uninterp spec fn lzw_encoded_early(input: Seq<u8>) -> Seq<u8>;

/// What `weezl` encodes `input` to with the `/EarlyChange 0` encoder.
pub uninterp spec fn lzw_encoded_plain(input: Seq<u8>) -> Seq<u8>;

/// `weezl::encode::Encoder::with_tiff_size_switch(Msb, 8)` streamed into a
/// `Vec` with `encode_all`; on the (unreachable: writing into a `Vec` does
/// not fail) write error the result is empty. The contract names the
/// result and states what the matching decoder makes of it: the whole
/// stream (never empty: it holds at least the end-of-data code) decodes to
/// `input` and ends with the end-of-data code, which lies in its last
/// byte, so every proper prefix runs out before it, having decoded a
/// prefix of `input`.
#[verifier::external_body]
fn lzw_encode_early(input: &[u8]) -> (r: Vec<u8>)
    ensures
        r@ == lzw_encoded_early(input@),
        r@.len() > 0,
        lzw_ran_early(r@) == (input@, LzwEnd::Done),
        forall|k: int| 0 <= k < r@.len() ==> (#[trigger] lzw_ran_early(r@.take(k))).1 == LzwEnd::More
            && lzw_ran_early(r@.take(k)).0.is_prefix_of(input@),
{
    let mut enc = weezl::encode::Encoder::with_tiff_size_switch(weezl::BitOrder::Msb, 8);
    let mut out: Vec<u8> = Vec::new();
    if enc.into_stream(&mut out).encode_all(input).status.is_err() {
        return Vec::new();
    }
    out
}

/// `weezl::encode::Encoder::new(Msb, 8)` streamed into a `Vec` with
/// `encode_all`; on the (unreachable) write error the result is empty. The
/// contract names the result and states what the matching decoder makes of
/// it, as for the `/EarlyChange 1` encoder.
#[verifier::external_body]
fn lzw_encode_plain(input: &[u8]) -> (r: Vec<u8>)
    ensures
        r@ == lzw_encoded_plain(input@),
        r@.len() > 0,
        lzw_ran_plain(r@) == (input@, LzwEnd::Done),
        forall|k: int| 0 <= k < r@.len() ==> (#[trigger] lzw_ran_plain(r@.take(k))).1 == LzwEnd::More
            && lzw_ran_plain(r@.take(k)).0.is_prefix_of(input@),
{
    let mut enc = weezl::encode::Encoder::new(weezl::BitOrder::Msb, 8);
    let mut out: Vec<u8> = Vec::new();
    if enc.into_stream(&mut out).encode_all(input).status.is_err() {
        return Vec::new();
    }
    out
}

/// What a fresh decoder of the `early_change` variant makes of `data`.
pub open spec fn lzw_ran(data: Seq<u8>, early_change: bool) -> (Seq<u8>, LzwEnd) {
    if early_change { lzw_ran_early(data) } else { lzw_ran_plain(data) }
}

/// One decoding run of the `early_change` variant over `data`.
fn lzw_run(data: &[u8], early_change: bool) -> (r: (Vec<u8>, LzwEnd))
    ensures
        (r.0@, r.1) == lzw_ran(data@, early_change),
{
    if early_change { lzw_run_early(data) } else { lzw_run_plain(data) }
}

/// The decode error for an invalid or unterminated stream.
pub open spec fn lzw_error() -> Error {
    Error::Decode { filter: "LZWDecode", msg: "corrupt or truncated LZW stream" }
}

/// How many bytes an LZW stream of `len` bytes can decode to at most: at
/// most one code per 9 bits (plus one), each standing for at most 4096
/// bytes.
pub open spec fn worst_case(len: nat) -> nat {
    (len * 8 / 9 + 1) * 4096
}

/// How long a prefix of an input of `len` bytes decoding starts with: the
/// whole input when even its worst case fits the ceiling `cap`, else 64
/// bytes (or the whole input if shorter).
pub open spec fn first_prefix(len: nat, cap: nat) -> nat {
    if worst_case(len) <= cap || len <= 64 { len } else { 64 }
}

/// The prefix length after `n`: twice as long plus 64 bytes, at most `len`.
pub open spec fn next_prefix(n: nat, len: nat) -> nat {
    if n * 2 + 64 < len { n * 2 + 64 } else { len }
}

/// The output step the ceiling is tested in for a stream that turns out
/// invalid: 16 MiB.
pub open spec fn lzw_step() -> nat {
    16777216
}

/// The first multiple of the step past the ceiling `cap`.
pub open spec fn lzw_bound(cap: nat) -> nat {
    (cap / lzw_step() + 1) * lzw_step()
}

/// What a run that produced `out` before an invalid code gives: the limit
/// error when its whole steps already pass the ceiling, else the decode
/// error.
pub open spec fn invalid_outcome(out: Seq<u8>, cap: nat) -> Result<Seq<u8>, Error> {
    if (out.len() / lzw_step()) * lzw_step() > cap {
        Err(Error::LimitExceeded(LimitKind::DecompressedStream))
    } else {
        Err(lzw_error())
    }
}

/// Decoding from the prefix of `n` bytes on. A run over the prefix that
/// reaches the end code gives its output, or the limit error when that
/// passes the ceiling `cap`; one that meets an invalid code gives
/// [`invalid_outcome`]; one that ran out with output reaching
/// [`lzw_bound`] is the limit error (whatever follows, the stream gives at
/// least that much); when the whole input ran out the stream is
/// unterminated: the limit error past the ceiling, else the decode error;
/// otherwise the next, longer prefix is decoded afresh.
pub open spec fn lzw_from(input: Seq<u8>, early_change: bool, cap: nat, n: nat) -> Result<Seq<u8>, Error>
    decreases input.len() - n,
{
    let run = lzw_ran(input.take(n as int), early_change);
    if run.1 == LzwEnd::Done {
        if run.0.len() > cap { Err(Error::LimitExceeded(LimitKind::DecompressedStream)) } else { Ok(run.0) }
    } else if run.1 == LzwEnd::Invalid {
        invalid_outcome(run.0, cap)
    } else if run.0.len() >= lzw_bound(cap) {
        Err(Error::LimitExceeded(LimitKind::DecompressedStream))
    } else if n >= input.len() {
        if run.0.len() > cap { Err(Error::LimitExceeded(LimitKind::DecompressedStream)) } else { Err(lzw_error()) }
    } else {
        lzw_from(input, early_change, cap, next_prefix(n, input.len()))
    }
}

proof fn lemma_bound(cap: nat)
    ensures
        lzw_bound(cap) > cap,
{
    assert((cap / 16777216 + 1) * 16777216 > cap) by (nonlinear_arith);
}

/// What decoding `input` under the ceiling `cap` gives.
pub open spec fn lzw_decode_spec(input: Seq<u8>, early_change: bool, cap: nat) -> Result<Seq<u8>, Error> {
    if input.len() == 0 {
        Ok(Seq::empty())
    } else {
        lzw_from(input, early_change, cap, first_prefix(input.len(), cap))
    }
}

/// What an `LZWDecode` result is (see [`lzw_decode_spec`]); every failure
/// is the limit error or the corrupt-stream error.
pub open spec fn lzw_outcome(input: Seq<u8>, early_change: bool, cap: nat, r: Result<Seq<u8>, Error>) -> bool {
    &&& r == lzw_decode_spec(input, early_change, cap)
    &&& r matches Err(e) ==> e == Error::LimitExceeded(LimitKind::DecompressedStream) || e == lzw_error()
}

/// Every failure of decoding from a prefix on is one of the two errors.
proof fn lemma_lzw_errors(input: Seq<u8>, early_change: bool, cap: nat, n: nat)
    ensures
        lzw_from(input, early_change, cap, n) matches Err(e)
            ==> e == Error::LimitExceeded(LimitKind::DecompressedStream) || e == lzw_error(),
    decreases input.len() - n,
{
    if n < input.len() {
        lemma_lzw_errors(input, early_change, cap, next_prefix(n, input.len()));
    }
}

/// Decodes an `LZWDecode` stream. `early_change` selects `/EarlyChange 1`
/// (`true`, the default) or `/EarlyChange 0`. Empty input decodes to
/// nothing. Otherwise growing prefixes of the input are decoded afresh (the
/// whole input at once when its worst case fits the ceiling), so the
/// output never grows far past `limits.max_decompressed_stream` (see
/// [`lzw_from`]): an invalid code or a stream without an end marker is a
/// decode error, output past the ceiling a limit error, and a stream whose
/// output passes the ceiling before an invalid code is the limit error only
/// when it does so in whole 16 MiB steps.
pub fn decode(input: &[u8], early_change: bool, limits: &Limits) -> (r: Result<Vec<u8>, Error>)
    ensures
        lzw_outcome(input@, early_change, limits.max_decompressed_stream as nat, bytes_result(r)),
{
    let ghost capn = limits.max_decompressed_stream as nat;
    proof {
        lemma_lzw_errors(input@, early_change, capn, first_prefix(input@.len(), capn));
    }
    if input.len() == 0 {
        return Ok(Vec::new());
    }
    let cap = limits.max_decompressed_stream;
    let len = input.len();
    let worst: u128 = ((len as u128) * 8 / 9 + 1) * 4096;
    let mut n: usize = if worst <= cap as u128 || len <= 64 { len } else { 64 };
    let bound: u128 = (cap as u128 / 16777216 + 1) * 16777216;
    loop
        invariant
            bound == lzw_bound(capn),
            len == input@.len(),
            0 < n <= len,
            cap == limits.max_decompressed_stream,
            capn == cap as nat,
            lzw_decode_spec(input@, early_change, capn) == lzw_from(input@, early_change, capn, n as nat),
        decreases len - n,
    {
        let prefix = vstd::slice::slice_subrange(input, 0, n);
        proof {
            assert(prefix@ =~= input@.take(n as int));
            lemma_lzw_errors(input@, early_change, capn, n as nat);
        }
        let (out, end) = lzw_run(prefix, early_change);
        match end {
            LzwEnd::Done => {
                if out.len() > cap {
                    return Err(Error::LimitExceeded(LimitKind::DecompressedStream));
                }
                return Ok(out);
            },
            LzwEnd::Invalid => {
                let whole: u128 = (out.len() as u128 / 16777216) * 16777216;
                if whole > cap as u128 {
                    return Err(Error::LimitExceeded(LimitKind::DecompressedStream));
                }
                return Err(Error::decode("LZWDecode", "corrupt or truncated LZW stream"));
            },
            LzwEnd::More => {},
        }
        if out.len() as u128 >= bound {
            return Err(Error::LimitExceeded(LimitKind::DecompressedStream));
        }
        if n >= len {
            if out.len() > cap {
                return Err(Error::LimitExceeded(LimitKind::DecompressedStream));
            }
            return Err(Error::decode("LZWDecode", "corrupt or truncated LZW stream"));
        }
        n = if len >= 65 && n <= (len - 65) / 2 { n * 2 + 64 } else { len };
    }
}

/// The `weezl` encoding of `input` for the `/EarlyChange` variant.
pub open spec fn lzw_encode_spec(input: Seq<u8>, early_change: bool) -> Seq<u8> {
    if early_change { lzw_encoded_early(input) } else { lzw_encoded_plain(input) }
}

/// Encodes `input` as an `LZWDecode` stream for the matching `early_change`
/// variant (`true` for `/EarlyChange 1`).
pub fn encode(input: &[u8], early_change: bool) -> (r: Vec<u8>)
    ensures
        r@ == lzw_encode_spec(input@, early_change),
        is_lzw_encoding(r@, input@, early_change),
{
    if early_change {
        lzw_encode_early(input)
    } else {
        lzw_encode_plain(input)
    }
}

/// What the matching decoder makes of an encoding `enc` of `x`: it is not
/// empty, decodes to `x` ending with the end-of-data code, and every proper
/// prefix runs out having decoded a prefix of `x`.
pub open spec fn is_lzw_encoding(enc: Seq<u8>, x: Seq<u8>, early_change: bool) -> bool {
    &&& enc.len() > 0
    &&& lzw_ran(enc, early_change) == (x, LzwEnd::Done)
    &&& forall|k: int| 0 <= k < enc.len() ==> (#[trigger] lzw_ran(enc.take(k), early_change)).1 == LzwEnd::More
        && lzw_ran(enc.take(k), early_change).0.is_prefix_of(x)
}

/// Decoding an encoding from any prefix on gives the encoded data, or the
/// limit error when it does not fit the ceiling.
proof fn lemma_lzw_from_encoding(enc: Seq<u8>, x: Seq<u8>, early_change: bool, cap: nat, n: nat)
    requires
        is_lzw_encoding(enc, x, early_change),
        0 < n <= enc.len(),
    ensures
        lzw_from(enc, early_change, cap, n) == (if x.len() <= cap {
            Ok::<Seq<u8>, Error>(x)
        } else {
            Err::<Seq<u8>, Error>(Error::LimitExceeded(LimitKind::DecompressedStream))
        }),
    decreases enc.len() - n,
{
    lemma_bound(cap);
    if n < enc.len() {
        let run = lzw_ran(enc.take(n as int), early_change);
        assert(run.1 == LzwEnd::More && run.0.is_prefix_of(x));
        assert(run.0.len() <= x.len());
        lemma_lzw_from_encoding(enc, x, early_change, cap, next_prefix(n, enc.len()));
    } else {
        assert(enc.take(n as int) =~= enc);
    }
}

/// Decoding a proper prefix of an encoding, from any of its prefixes on,
/// fails.
proof fn lemma_lzw_from_truncated(enc: Seq<u8>, x: Seq<u8>, early_change: bool, cap: nat, k: nat, n: nat)
    requires
        is_lzw_encoding(enc, x, early_change),
        0 < n <= k < enc.len(),
    ensures
        lzw_from(enc.take(k as int), early_change, cap, n) is Err,
    decreases k - n,
{
    let t = enc.take(k as int);
    assert(t.take(n as int) =~= enc.take(n as int));
    assert(lzw_ran(enc.take(n as int), early_change).1 == LzwEnd::More);
    if n < k {
        lemma_lzw_from_truncated(enc, x, early_change, cap, k, next_prefix(n, t.len()));
    }
}

/// LZW decoding inverts encoding: whenever `enc` is what [`encode`] gave
/// for `x` with the same `/EarlyChange` variant, decoding `enc` gives `x`
/// back when `x` fits the ceiling, and the limit error when it does not.
pub proof fn law_lzw_round_trip(x: Seq<u8>, enc: Seq<u8>, early_change: bool, cap: nat)
    requires
        is_lzw_encoding(enc, x, early_change),
    ensures
        x.len() <= cap ==> lzw_decode_spec(enc, early_change, cap) == Ok::<Seq<u8>, Error>(x),
        x.len() > cap ==> lzw_decode_spec(enc, early_change, cap)
            == Err::<Seq<u8>, Error>(Error::LimitExceeded(LimitKind::DecompressedStream)),
{
    lemma_lzw_from_encoding(enc, x, early_change, cap, first_prefix(enc.len(), cap));
}

/// A truncated encoding is an error: decoding any non-empty proper prefix
/// of what [`encode`] gave never succeeds.
pub proof fn law_lzw_truncated_fails(x: Seq<u8>, enc: Seq<u8>, early_change: bool, cap: nat, k: nat)
    requires
        is_lzw_encoding(enc, x, early_change),
        0 < k < enc.len(),
    ensures
        lzw_decode_spec(enc.take(k as int), early_change, cap) is Err,
{
    lemma_lzw_from_truncated(enc, x, early_change, cap, k, first_prefix(k, cap));
}

} // verus!
