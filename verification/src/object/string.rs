//! PDF string objects.
//!
//! A PDF string is a raw byte sequence. The syntactic form it was written in
//! (literal `( … )` or hexadecimal `< … >`) is kept, but the value is always
//! the decoded bytes.

use vstd::prelude::*;

verus! {

/// Which syntactic form a [`PdfString`] was written in.
#[derive(Copy, Clone, Debug, PartialEq, Eq)]
pub enum StringKind {
    /// Literal form `( … )` with escapes.
    Literal,
    /// Hexadecimal form `< … >`.
    Hex,
}

/// A PDF string: decoded raw bytes plus the form it was parsed from.
#[derive(Clone, Debug, PartialEq, Eq)]
pub struct PdfString {
    /// Decoded raw bytes.
    pub bytes: Vec<u8>,
    /// The syntactic form.
    pub kind: StringKind,
}

impl PdfString {
    /// A literal-form string from decoded bytes.
    pub fn literal(bytes: Vec<u8>) -> (r: PdfString)
        ensures
            r.bytes@ == bytes@,
            r.kind == StringKind::Literal,
    {
        PdfString { bytes, kind: StringKind::Literal }
    }

    /// A hex-form string from decoded bytes.
    pub fn hex(bytes: Vec<u8>) -> (r: PdfString)
        ensures
            r.bytes@ == bytes@,
            r.kind == StringKind::Hex,
    {
        PdfString { bytes, kind: StringKind::Hex }
    }

    /// The decoded bytes.
    pub fn as_bytes(&self) -> (r: &[u8])
        ensures
            r@ == self.bytes@,
    {
        self.bytes.as_slice()
    }
}

impl PdfString {
    /// A copy of this string.
    pub fn copy(&self) -> (r: PdfString)
        ensures
            r.bytes@ == self.bytes@,
            r.kind == self.kind,
    {
        PdfString { bytes: vstd::slice::slice_to_vec(self.bytes.as_slice()), kind: self.kind }
    }
}

} // verus!
