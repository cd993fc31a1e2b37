//! Object-stream (`/Type /ObjStm`) decoding
//!
//! An object stream packs several indirect objects into one compressed
//! container. Its dictionary carries `/N` (the number of contained objects)
//! and `/First` (the byte offset, within the decoded body, where the first
//! object's bytes begin). The body is
//!
//! ```text
//! n1 off1  n2 off2  …  nN offN      % the header: N (number, offset) pairs
//! <object 1><object 2>…<object N>   % each object's value, no `obj`/`endobj`
//! ```
//!
//! Decoding enforces [`Limits::max_objstm_objects`]; malformed headers and
//! offsets are typed errors, never panics.

use vstd::prelude::*;
use vstd::string::StringSliceAdditionalSpecFns;

use crate::error::{Error, LimitKind};
use crate::filters::{decode_stream, decode_stream_spec, outcome_result, OutcomeView};
use crate::lexer::Lexer;
use crate::limits::Limits;
use crate::object::parse::{p_object, Parser};
use crate::object::stream::bytes_as_slice;
use crate::object::{Name, Object, PdfValue, StreamObj};

verus! {

/// A decoded object stream: the (number, offset) directory plus the decoded
/// body, ready for per-object extraction.
#[derive(Clone, Debug)]
pub struct ObjStm {
    entries: Vec<(u32, usize)>,
    first: usize,
    body: Vec<u8>,
}

/// The value of an [`ObjStm`].
pub struct ObjStmView {
    /// `(object number, offset within the object data)` per member, in order.
    pub entries: Seq<(u32, usize)>,
    /// `/First`: where the object data begins in the body.
    pub first: usize,
    /// The decoded body.
    pub body: Seq<u8>,
}

impl View for ObjStm {
    type V = ObjStmView;

    closed spec fn view(&self) -> ObjStmView {
        ObjStmView { entries: self.entries@, first: self.first, body: self.body@ }
    }
}

/// The xref error with offset 0 and message `msg`.
pub open spec fn xref0(msg: &'static str) -> Error {
    Error::Xref { offset: 0, msg }
}

/// `/N` and `/First` of an object-stream dictionary, in that order: `/N`
/// must be a non-negative integer within `max_objstm_objects`, `/First` a
/// non-negative integer.
pub open spec fn objstm_params(m: Map<Seq<u8>, PdfValue>, max_objects: u64) -> Result<(usize, usize), Error> {
    let kn = "N".spec_bytes();
    let kf = "First".spec_bytes();
    if !(m.dom().contains(kn) && m[kn] is Integer && m[kn]->Integer_0 >= 0) {
        Err(xref0("object stream missing /N"))
    } else if m[kn]->Integer_0 > max_objects {
        Err(Error::LimitExceeded(LimitKind::ObjstmObjects))
    } else if m[kn]->Integer_0 > usize::MAX {
        Err(xref0("/N out of range"))
    } else if !(m.dom().contains(kf) && m[kf] is Integer && 0 <= m[kf]->Integer_0 <= usize::MAX) {
        Err(xref0("object stream missing /First"))
    } else {
        Ok((m[kn]->Integer_0 as usize, m[kf]->Integer_0 as usize))
    }
}

/// One (number, offset) pair of the header at `p`, and the position after
/// it: two non-negative integers, the first fitting in `u32`.
pub open spec fn header_pair(hdr: Seq<u8>, p: int) -> Result<((u32, usize), int), Error> {
    match p_object(hdr, p, None) {
        Ok(pn) => if pn.value is Integer && pn.value->Integer_0 >= 0 {
            if pn.value->Integer_0 > u32::MAX {
                Err(xref0("objstm object number out of range"))
            } else {
                match p_object(hdr, pn.end, None) {
                    Ok(po) => if po.value is Integer && po.value->Integer_0 >= 0 {
                        if po.value->Integer_0 > usize::MAX {
                            Err(xref0("objstm offset out of range"))
                        } else {
                            Ok(((pn.value->Integer_0 as u32, po.value->Integer_0 as usize), po.end))
                        }
                    } else {
                        Err(xref0("objstm header: expected offset"))
                    },
                    Err(_) => Err(xref0("objstm header: expected offset")),
                }
            }
        } else {
            Err(xref0("objstm header: expected object number"))
        },
        Err(_) => Err(xref0("objstm header: expected object number")),
    }
}

/// The header of `hdr` from position `p`, reading `k` more pairs after the
/// pairs `acc` already read.
pub open spec fn header_pairs(hdr: Seq<u8>, p: int, k: nat, acc: Seq<(u32, usize)>) -> Result<Seq<(u32, usize)>, Error>
    decreases k,
{
    if k == 0 {
        Ok(acc)
    } else {
        match header_pair(hdr, p) {
            Err(e) => Err(e),
            Ok((pr, q)) => header_pairs(hdr, q, (k - 1) as nat, acc.push(pr)),
        }
    }
}

/// Reads one header pair.
fn read_pair(parser: &mut Parser) -> (r: Result<(u32, usize), Error>)
    ensures
        final(parser).input() == old(parser).input(),
        match header_pair(old(parser).input(), old(parser).pos()) {
            Ok((pr, q)) => r == Ok::<(u32, usize), Error>(pr) && final(parser).pos() == q,
            Err(e) => r == Err::<(u32, usize), Error>(e),
        },
{
    let num: u32 = match parser.parse_object() {
        Ok(Object::Integer(v)) => {
            if v >= 0 {
                if v > 0xffff_ffff {
                    return Err(Error::xref(0, "objstm object number out of range"));
                }
                v as u32
            } else {
                return Err(Error::xref(0, "objstm header: expected object number"));
            }
        },
        _ => {
            return Err(Error::xref(0, "objstm header: expected object number"));
        },
    };
    let off: usize = match parser.parse_object() {
        Ok(Object::Integer(v)) => {
            if v >= 0 {
                if (v as u64) > (usize::MAX as u64) {
                    return Err(Error::xref(0, "objstm offset out of range"));
                }
                v as usize
            } else {
                return Err(Error::xref(0, "objstm header: expected offset"));
            }
        },
        _ => {
            return Err(Error::xref(0, "objstm header: expected offset"));
        },
    };
    Ok((num, off))
}

/// The object stream a decoded `body` with `n` members and `/First` offset
/// `first` makes: the header is the body's first `first` bytes (all of it
/// when shorter).
#[verifier::opaque]
pub open spec fn from_body_spec(n: usize, first: usize, body: Seq<u8>) -> Result<ObjStmView, Error> {
    let hdr = body.take(if first <= body.len() { first as int } else { body.len() as int });
    match header_pairs(hdr, 0, n as nat, Seq::empty()) {
        Ok(entries) => Ok(ObjStmView { entries, first, body }),
        Err(e) => Err(e),
    }
}

/// An object-stream result, by its view.
pub open spec fn objstm_result(r: Result<ObjStm, Error>) -> Result<ObjStmView, Error> {
    match r {
        Ok(o) => Ok(o@),
        Err(e) => Err(e),
    }
}

/// `r` is what [`ObjStm::decode`] makes of the container's decode outcome
/// `res` for `n` members at `/First` offset `first`.
pub open spec fn objstm_from_outcome(n: usize, first: usize, res: Result<OutcomeView, Error>, r: Result<ObjStm, Error>) -> bool {
    match res {
        Err(e) => r == Err::<ObjStm, Error>(e),
        Ok(OutcomeView::ImageEncoded(f, _)) => r == Err::<ObjStm, Error>(Error::Unsupported(f)),
        Ok(OutcomeView::Decoded(body)) => objstm_result(r) == from_body_spec(n, first, body),
    }
}

impl ObjStm {
    /// Builds the object stream from its decoded `body`: reads the `n`
    /// (number, offset) pairs of the header, which spans the first `first`
    /// bytes of the body.
    #[verifier::rlimit(60)]
    pub fn from_body(n: usize, first: usize, body: Vec<u8>) -> (r: Result<ObjStm, Error>)
        ensures
            objstm_result(r) == from_body_spec(n, first, body@),
    {
        proof {
            reveal(from_body_spec);
        }
        let cut = if first <= body.len() { first } else { body.len() };
        let ghost hdr = body@.take(cut as int);
        let mut entries: Vec<(u32, usize)> = Vec::new();
        {
            let header = vstd::slice::slice_subrange(body.as_slice(), 0, cut);
            assert(header@ == hdr);
            let mut parser = Parser::from_lexer(Lexer::new(header));
            let mut k: usize = 0;
            while k < n
                invariant
                    k <= n,
                    parser.input() == hdr,
                    hdr == body@.take(if first <= body@.len() { first as int } else { body@.len() as int }),
                    header_pairs(hdr, 0, n as nat, Seq::empty())
                        == header_pairs(hdr, parser.pos(), (n - k) as nat, entries@),
                decreases n - k,
            {
                proof {
                    reveal(from_body_spec);
                }
                let pr = match read_pair(&mut parser) {
                    Ok(pr) => pr,
                    Err(e) => {
                        return Err(e);
                    },
                };
                entries.push(pr);
                k = k + 1;
            }
        }
        Ok(ObjStm { entries, first, body })
    }

    /// Decodes an object-stream [`StreamObj`]: `/N` and `/First` as
    /// [`objstm_params`] reads them, then the container body through its
    /// filter chain, then the header as [`ObjStm::from_body`] reads it.
    #[verifier::rlimit(60)]
    pub fn decode(stream: &StreamObj, limits: &Limits) -> (r: Result<ObjStm, Error>)
        ensures
            match objstm_params(stream.dict.map(), limits.max_objstm_objects) {
                Err(e) => r == Err::<ObjStm, Error>(e),
                Ok((n, first)) => exists|res: Result<OutcomeView, Error>|
                    decode_stream_spec(stream.dict.map(), stream.data.payload().bytes, limits.max_decompressed_stream as nat, res)
                    && #[trigger] objstm_from_outcome(n, first, res, r),
            },
    {
        let dict = &stream.dict;
        let nv: i64 = match dict.get(&Name::new("N")) {
            Some(Object::Integer(v)) => {
                if *v >= 0 {
                    *v
                } else {
                    return Err(Error::xref(0, "object stream missing /N"));
                }
            },
            _ => {
                return Err(Error::xref(0, "object stream missing /N"));
            },
        };
        if (nv as u64) > limits.max_objstm_objects {
            return Err(Error::LimitExceeded(LimitKind::ObjstmObjects));
        }
        if (nv as u64) > (usize::MAX as u64) {
            return Err(Error::xref(0, "/N out of range"));
        }
        let n = nv as usize;
        let first: usize = match dict.get(&Name::new("First")) {
            Some(Object::Integer(v)) => {
                if *v >= 0 && (*v as u64) <= (usize::MAX as u64) {
                    *v as usize
                } else {
                    return Err(Error::xref(0, "object stream missing /First"));
                }
            },
            _ => {
                return Err(Error::xref(0, "object stream missing /First"));
            },
        };
        proof {
            assert(objstm_params(stream.dict.map(), limits.max_objstm_objects) == Ok::<(usize, usize), Error>((n, first)));
        }
        let raw = bytes_as_slice(stream.raw_bytes());
        let out = decode_stream(dict, raw, limits);
        let ghost o = outcome_result(out);
        let r = match out {
            Err(e) => Err(e),
            Ok(outcome) => match outcome.into_decoded() {
                Err(e) => Err(e),
                Ok(body) => ObjStm::from_body(n, first, body),
            },
        };
        proof {
            assert(decode_stream_spec(stream.dict.map(), stream.data.payload().bytes, limits.max_decompressed_stream as nat, o));
            assert(objstm_from_outcome(n, first, o, r));
            let pr = objstm_params(stream.dict.map(), limits.max_objstm_objects);
            assert(pr->Ok_0.0 == n && pr->Ok_0.1 == first);
            assert(objstm_from_outcome(pr->Ok_0.0, pr->Ok_0.1, o, r));
        }
        r
    }

    /// The number of contained objects.
    pub fn len(&self) -> (r: usize)
        ensures
            r == self@.entries.len(),
    {
        self.entries.len()
    }

    /// `true` when the stream contains no objects.
    pub fn is_empty(&self) -> (r: bool)
        ensures
            r == (self@.entries.len() == 0),
    {
        self.entries.len() == 0
    }

    /// The object number at directory `index`, if in range.
    pub fn object_number_at(&self, index: usize) -> (r: Option<u32>)
        ensures
            r == (if index < self@.entries.len() { Some(self@.entries[index as int].0) } else { None }),
    {
        if index < self.entries.len() {
            Some(self.entries[index].0)
        } else {
            None
        }
    }

    /// The contained object numbers in directory order.
    pub fn member_nums(&self) -> (r: Vec<u32>)
        ensures
            r@ == Seq::new(self@.entries.len(), |i: int| self@.entries[i].0),
    {
        let mut out: Vec<u32> = Vec::new();
        let mut i: usize = 0;
        while i < self.entries.len()
            invariant
                i <= self.entries@.len(),
                out@ == Seq::new(i as nat, |j: int| self.entries@[j].0),
            decreases self.entries@.len() - i,
        {
            out.push(self.entries[i].0);
            i = i + 1;
        }
        out
    }

    /// The byte range of the member at `index` within the body: from
    /// `first + off` to the next member's start (or the end of the body),
    /// clamped into the body.
    pub open spec fn member_range(v: ObjStmView, index: int) -> Result<(int, int), Error> {
        if !(0 <= index < v.entries.len()) {
            Err(xref0("objstm index out of range"))
        } else if v.first + v.entries[index].1 > usize::MAX {
            Err(xref0("objstm offset overflow"))
        } else if v.first + v.entries[index].1 > v.body.len() {
            Err(xref0("objstm object slice out of range"))
        } else {
            let start = v.first + v.entries[index].1;
            let next = if index + 1 < v.entries.len() {
                if v.first + v.entries[index + 1].1 > usize::MAX { usize::MAX as int } else { v.first + v.entries[index + 1].1 }
            } else {
                v.body.len() as int
            };
            let end = if next < start { start } else if next > v.body.len() { v.body.len() as int } else { next };
            Ok((start, end))
        }
    }

    /// Parses the object at directory `index`: its bytes are
    /// [`ObjStm::member_range`] of the body; a parse failure there is an
    /// xref error.
    pub fn object_at(&self, index: usize) -> (r: Result<Object, Error>)
        ensures
            match ObjStm::member_range(self@, index as int) {
                Err(e) => r == Err::<Object, Error>(e),
                Ok((s, e)) => match p_object(self@.body.subrange(s, e), 0, None) {
                    Ok(pd) => r matches Ok(o) && o.value() == pd.value,
                    Err(_) => r == Err::<Object, Error>(xref0("malformed object inside object stream")),
                },
            },
    {
        if index >= self.entries.len() {
            return Err(Error::xref(0, "objstm index out of range"));
        }
        let off = self.entries[index].1;
        let abs_start = match self.first.checked_add(off) {
            Some(v) => v,
            None => {
                return Err(Error::xref(0, "objstm offset overflow"));
            },
        };
        if abs_start > self.body.len() {
            return Err(Error::xref(0, "objstm object slice out of range"));
        }
        let next_end: usize = if index + 1 < self.entries.len() {
            self.first.saturating_add(self.entries[index + 1].1)
        } else {
            self.body.len()
        };
        let abs_end = if next_end < abs_start {
            abs_start
        } else if next_end > self.body.len() {
            self.body.len()
        } else {
            next_end
        };
        let slice = vstd::slice::slice_subrange(self.body.as_slice(), abs_start, abs_end);
        let mut parser = Parser::from_lexer(Lexer::new(slice));
        match parser.parse_object() {
            Ok(o) => Ok(o),
            Err(_) => Err(Error::xref(0, "malformed object inside object stream")),
        }
    }
}

} // verus!
