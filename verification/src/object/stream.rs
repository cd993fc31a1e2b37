//! PDF stream objects.
//!
//! A stream is a dictionary followed by raw bytes between the `stream` and
//! `endstream` keywords. The payload is held out-of-line in `bytes::Bytes`,
//! so cloning a stream does not copy its bytes.

use vstd::prelude::*;

use super::{Dict, PayloadView};
use crate::error::Error;
use crate::filters::{decode_stream, decode_stream_spec, outcome_result, DecodeOutcome, OutcomeView};
use crate::limits::Limits;

verus! {

/// Declares `bytes::Bytes`, the shared immutable byte buffer.
#[verifier::external_type_specification]
#[verifier::external_body]
pub struct ExBytes(bytes::Bytes);

/// The bytes a `bytes::Bytes` holds.
pub uninterp spec fn bytes_contents(b: bytes::Bytes) -> Seq<u8>;

/// `bytes::Bytes::from(Vec<u8>)`: takes over the vector's bytes.
#[verifier::external_body]
pub(crate) fn bytes_from_vec(v: Vec<u8>) -> (r: bytes::Bytes)
    ensures
        bytes_contents(r) == v@,
{
    bytes::Bytes::from(v)
}

/// `bytes::Bytes::copy_from_slice`: a buffer holding a copy of `s`.
#[verifier::external_body]
pub(crate) fn bytes_copy_from_slice(s: &[u8]) -> (r: bytes::Bytes)
    ensures
        bytes_contents(r) == s@,
{
    bytes::Bytes::copy_from_slice(s)
}

/// `<bytes::Bytes as AsRef<[u8]>>::as_ref`: the held bytes as a slice.
#[verifier::external_body]
pub(crate) fn bytes_as_slice(b: &bytes::Bytes) -> (r: &[u8])
    ensures
        r@ == bytes_contents(*b),
{
    b.as_ref()
}

/// `<bytes::Bytes as Clone>::clone`: another handle on the same bytes.
#[verifier::external_body]
pub(crate) fn bytes_clone(b: &bytes::Bytes) -> (r: bytes::Bytes)
    ensures
        bytes_contents(r) == bytes_contents(*b),
{
    b.clone()
}

/// The payload of a [`StreamObj`].
#[derive(Debug, PartialEq)]
pub enum StreamData {
    /// Still-filter-encoded bytes (verbatim from the file).
    Encoded(bytes::Bytes),
    /// Bytes after the stream's filters have been applied.
    Decoded(bytes::Bytes),
}

impl StreamData {
    /// The payload's value.
    pub open spec fn payload(self) -> PayloadView {
        match self {
            StreamData::Encoded(b) => PayloadView { decoded: false, bytes: bytes_contents(b) },
            StreamData::Decoded(b) => PayloadView { decoded: true, bytes: bytes_contents(b) },
        }
    }
}

/// A PDF stream object: a [`Dict`] plus its out-of-line [`StreamData`].
#[derive(Debug, PartialEq)]
pub struct StreamObj {
    /// The stream dictionary (`/Length`, `/Filter`, …).
    pub dict: Dict,
    /// The stream payload.
    pub data: StreamData,
}

impl StreamData {
    /// The underlying bytes regardless of variant.
    pub fn bytes(&self) -> (r: &bytes::Bytes)
        ensures
            bytes_contents(*r) == self.payload().bytes,
    {
        match self {
            StreamData::Encoded(b) => b,
            StreamData::Decoded(b) => b,
        }
    }

    /// Length in bytes of the payload.
    pub fn len(&self) -> (r: usize)
        ensures
            r == self.payload().bytes.len(),
    {
        bytes_as_slice(self.bytes()).len()
    }

    /// `true` when the payload is empty.
    pub fn is_empty(&self) -> (r: bool)
        ensures
            r == (self.payload().bytes.len() == 0),
    {
        self.len() == 0
    }

    /// Another handle on the same payload.
    pub fn copy(&self) -> (r: StreamData)
        ensures
            r.payload() == self.payload(),
    {
        match self {
            StreamData::Encoded(b) => StreamData::Encoded(bytes_clone(b)),
            StreamData::Decoded(b) => StreamData::Decoded(bytes_clone(b)),
        }
    }
}

impl StreamObj {
    /// Builds a stream from a dictionary and still-encoded bytes.
    pub fn new_encoded(dict: Dict, data: Vec<u8>) -> (r: StreamObj)
        ensures
            r.dict == dict,
            r.data.payload() == (PayloadView { decoded: false, bytes: data@ }),
    {
        StreamObj { dict, data: StreamData::Encoded(bytes_from_vec(data)) }
    }

    /// The raw payload bytes.
    pub fn raw_bytes(&self) -> (r: &bytes::Bytes)
        ensures
            bytes_contents(*r) == self.data.payload().bytes,
    {
        self.data.bytes()
    }

    /// A copy of this stream: the same dictionary map and payload.
    pub fn copy(&self) -> (r: StreamObj)
        ensures
            r.dict.map() == self.dict.map(),
            r.data.payload() == self.data.payload(),
        decreases self,
    {
        StreamObj { dict: self.dict.copy(), data: self.data.copy() }
    }
}

impl StreamObj {
    /// Decodes the payload through the dictionary's `/Filter` chain. A
    /// payload already decoded is returned as it is; the stream itself is
    /// left unchanged.
    pub fn decode(&self, limits: &Limits) -> (r: Result<DecodeOutcome, Error>)
        ensures
            self.data.payload().decoded ==> (r matches Ok(o) && o@ == OutcomeView::Decoded(self.data.payload().bytes)),
            !self.data.payload().decoded ==> decode_stream_spec(
                self.dict.map(),
                self.data.payload().bytes,
                limits.max_decompressed_stream as nat,
                outcome_result(r),
            ),
    {
        match &self.data {
            StreamData::Decoded(b) => Ok(DecodeOutcome::Decoded(vstd::slice::slice_to_vec(bytes_as_slice(b)))),
            StreamData::Encoded(b) => decode_stream(&self.dict, bytes_as_slice(b), limits),
        }
    }

    /// `r` is what [`StreamObj::decoded`] makes of the decode outcome `res`.
    pub open spec fn decoded_as(self, res: Result<OutcomeView, Error>, r: Result<StreamObj, Error>) -> bool {
        match res {
            Ok(OutcomeView::Decoded(b)) => r matches Ok(s) && s.dict.map() == self.dict.map()
                && s.data.payload() == (PayloadView { decoded: true, bytes: b }),
            Ok(OutcomeView::ImageEncoded(_, _)) => r matches Ok(s) && s.dict.map() == self.dict.map()
                && s.data.payload() == self.data.payload(),
            Err(e) => r == Err::<StreamObj, Error>(e),
        }
    }

    /// A copy of this stream whose payload is replaced by its decoded bytes;
    /// when the chain stops at an image-only filter, an unchanged copy.
    pub fn decoded(&self, limits: &Limits) -> (r: Result<StreamObj, Error>)
        ensures
            self.data.payload().decoded ==> self.decoded_as(Ok(OutcomeView::Decoded(self.data.payload().bytes)), r),
            !self.data.payload().decoded ==> exists|res: Result<OutcomeView, Error>|
                decode_stream_spec(self.dict.map(), self.data.payload().bytes, limits.max_decompressed_stream as nat, res)
                && #[trigger] self.decoded_as(res, r),
    {
        let out = self.decode(limits);
        let ghost o = outcome_result(out);
        let r = match out {
            Ok(DecodeOutcome::Decoded(bytes)) => Ok(StreamObj { dict: self.dict.copy(), data: StreamData::Decoded(bytes_from_vec(bytes)) }),
            Ok(DecodeOutcome::ImageEncoded { .. }) => Ok(self.copy()),
            Err(e) => Err(e),
        };
        proof {
            assert(self.decoded_as(o, r));
        }
        r
    }
}

} // verus!
