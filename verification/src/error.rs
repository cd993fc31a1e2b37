//! The core error type: a stable machine-greppable `kind` plus English prose.

use vstd::prelude::*;

verus! {

/// Declares `std::io::Error` so that the `Io` variant can carry it.
#[verifier::external_type_specification]
#[verifier::external_body]
pub struct ExIoError(std::io::Error);

/// Which resource ceiling was tripped.
#[derive(Copy, Clone, PartialEq, Eq, Debug)]
pub enum LimitKind {
    /// A single stream's decoded size exceeded `Limits::max_decompressed_stream`.
    DecompressedStream,
    /// The incremental decode ratio exceeded `Limits::max_decode_ratio`.
    DecodeRatio,
    /// An object stream declared more members than `Limits::max_objstm_objects`.
    ObjstmObjects,
    /// A reference chain or nesting went deeper than `Limits::max_recursion_depth`.
    RecursionDepth,
}

impl LimitKind {
    /// The stable discriminant string of a limit kind.
    pub open spec fn kind_text(self) -> &'static str {
        match self {
            LimitKind::DecompressedStream => "decompressed-stream",
            LimitKind::DecodeRatio => "decode-ratio",
            LimitKind::ObjstmObjects => "objstm-objects",
            LimitKind::RecursionDepth => "recursion-depth",
        }
    }

    /// A short, stable discriminant string (never localized).
    pub fn as_str(self) -> (r: &'static str)
        ensures
            r == self.kind_text(),
    {
        match self {
            LimitKind::DecompressedStream => "decompressed-stream",
            LimitKind::DecodeRatio => "decode-ratio",
            LimitKind::ObjstmObjects => "objstm-objects",
            LimitKind::RecursionDepth => "recursion-depth",
        }
    }
}

/// The core error type.
#[derive(Debug)]
pub enum Error {
    /// An underlying I/O failure.
    Io(std::io::Error),
    /// A lexical or grammatical violation at a known byte offset.
    Syntax {
        /// Absolute byte offset of the fault.
        offset: usize,
        /// Stable English description.
        msg: &'static str,
    },
    /// Input ended while a token or object was still being assembled.
    UnexpectedEof {
        /// Byte offset at which the input ran out.
        offset: usize,
    },
    /// A malformed cross-reference structure (object streams included).
    Xref {
        /// Byte offset of the fault (0 when unknown).
        offset: usize,
        /// Stable English description.
        msg: &'static str,
    },
    /// A malformed `/Filter` chain or parameter set.
    Filter {
        /// The filter being applied.
        filter: &'static str,
        /// Stable English description.
        msg: &'static str,
    },
    /// A codec failed to decode its input.
    Decode {
        /// The codec that failed.
        filter: &'static str,
        /// Stable English description.
        msg: &'static str,
    },
    /// A reference names an object that has no usable entry.
    MissingObject {
        /// The object number.
        num: u32,
        /// The generation number.
        gen: u16,
    },
    /// A chain of references leads back to an object already on it.
    ReferenceCycle {
        /// The object number where the chain closed.
        num: u32,
        /// Its generation number.
        gen: u16,
    },
    /// A resource ceiling was exceeded.
    LimitExceeded(LimitKind),
    /// A caller-supplied argument is out of range or of the wrong kind.
    InvalidArgument(&'static str),
    /// A construct that is valid PDF but not implemented.
    Unsupported(&'static str),
}

impl Error {
    /// Builds an [`Error::Syntax`] at `offset`.
    pub fn syntax(offset: usize, msg: &'static str) -> (r: Self)
        ensures
            r == (Error::Syntax { offset, msg }),
    {
        Error::Syntax { offset, msg }
    }

    /// Builds an [`Error::UnexpectedEof`] at `offset`.
    pub fn eof(offset: usize) -> (r: Self)
        ensures
            r == (Error::UnexpectedEof { offset }),
    {
        Error::UnexpectedEof { offset }
    }

    /// Builds an [`Error::Xref`] at `offset`.
    pub fn xref(offset: usize, msg: &'static str) -> (r: Self)
        ensures
            r == (Error::Xref { offset, msg }),
    {
        Error::Xref { offset, msg }
    }

    /// Builds an [`Error::Filter`] for `filter`.
    pub fn filter(filter: &'static str, msg: &'static str) -> (r: Self)
        ensures
            r == (Error::Filter { filter, msg }),
    {
        Error::Filter { filter, msg }
    }

    /// Builds an [`Error::Decode`] for `filter`.
    pub fn decode(filter: &'static str, msg: &'static str) -> (r: Self)
        ensures
            r == (Error::Decode { filter, msg }),
    {
        Error::Decode { filter, msg }
    }

    /// The stable discriminant string of an error.
    pub open spec fn kind_text(&self) -> &'static str {
        match self {
            Error::Io(_) => "io",
            Error::Syntax { .. } => "syntax",
            Error::UnexpectedEof { .. } => "unexpected-eof",
            Error::Xref { .. } => "xref",
            Error::Filter { .. } => "filter",
            Error::Decode { .. } => "decode",
            Error::MissingObject { .. } => "missing-object",
            Error::ReferenceCycle { .. } => "reference-cycle",
            Error::LimitExceeded(_) => "limit-exceeded",
            Error::InvalidArgument(_) => "invalid-argument",
            Error::Unsupported(_) => "unsupported",
        }
    }

    /// A short, stable discriminant string (never localized).
    pub fn kind(&self) -> (r: &'static str)
        ensures
            r == self.kind_text(),
    {
        match self {
            Error::Io(_) => "io",
            Error::Syntax { .. } => "syntax",
            Error::UnexpectedEof { .. } => "unexpected-eof",
            Error::Xref { .. } => "xref",
            Error::Filter { .. } => "filter",
            Error::Decode { .. } => "decode",
            Error::MissingObject { .. } => "missing-object",
            Error::ReferenceCycle { .. } => "reference-cycle",
            Error::LimitExceeded(_) => "limit-exceeded",
            Error::InvalidArgument(_) => "invalid-argument",
            Error::Unsupported(_) => "unsupported",
        }
    }
}

} // verus!
