//! Byte-oriented PDF tokenizer.
//!
//! The lexer is total: on arbitrary or truncated input every call terminates
//! and either yields a [`Token`] (including [`Token::Eof`]) or a typed
//! [`Error`] (`Syntax` / `UnexpectedEof`). String and name payloads come out
//! already decoded (escapes and `#XX` resolved).
//!
//! What a call yields is stated by [`lex`], a function of the input bytes and
//! the position: the token and the position after it.

use vstd::prelude::*;
use vstd::string::StringSliceAdditionalSpecFns;

use crate::error::Error;
use crate::filters::ascii_hex::{flush_pending, hex_val, spec_hex_val};
use crate::object::name::{bytes_equal, utf8_str};

verus! {

/// The six PDF whitespace bytes: NUL, TAB, LF, FF, CR, SP.
pub open spec fn spec_is_whitespace(b: u8) -> bool {
    b == 0 || b == 9 || b == 10 || b == 12 || b == 13 || b == 32
}

/// The PDF delimiter bytes `( ) < > [ ] { } / %`.
pub open spec fn spec_is_delimiter(b: u8) -> bool {
    b == 40 || b == 41 || b == 60 || b == 62 || b == 91 || b == 93 || b == 123 || b == 125
        || b == 47 || b == 37
}

/// A regular byte is neither whitespace nor a delimiter.
pub open spec fn spec_is_regular(b: u8) -> bool {
    !spec_is_whitespace(b) && !spec_is_delimiter(b)
}

/// Returns `true` for the six PDF whitespace bytes.
pub fn is_whitespace(b: u8) -> (r: bool)
    ensures
        r == spec_is_whitespace(b),
{
    b == 0x00 || b == 0x09 || b == 0x0A || b == 0x0C || b == 0x0D || b == 0x20
}

/// Returns `true` for the PDF delimiter bytes.
pub fn is_delimiter(b: u8) -> (r: bool)
    ensures
        r == spec_is_delimiter(b),
{
    b == 40 || b == 41 || b == 60 || b == 62 || b == 91 || b == 93 || b == 123
        || b == 125 || b == 47 || b == 37
}

/// A regular character is anything that is neither whitespace nor a delimiter.
pub fn is_regular(b: u8) -> (r: bool)
    ensures
        r == spec_is_regular(b),
{
    !is_whitespace(b) && !is_delimiter(b)
}

// --- the token grammar, as functions of (input, position) ------------------

/// The end of a `%` comment body starting at `p`: the next CR or LF, or the
/// end of input.
pub open spec fn comment_end(b: Seq<u8>, p: int) -> int
    decreases b.len() - p,
{
    if p < 0 || p >= b.len() {
        p
    } else if b[p] == 10 || b[p] == 13 {
        p
    } else {
        comment_end(b, p + 1)
    }
}

/// A comment ends at or after where it starts, and within the input.
pub proof fn lemma_comment_end(b: Seq<u8>, p: int)
    requires
        0 <= p <= b.len(),
    ensures
        p <= comment_end(b, p) <= b.len(),
    decreases b.len() - p,
{
    if p < b.len() && !(b[p] == 10 || b[p] == 13) {
        lemma_comment_end(b, p + 1);
    }
}

/// The position after the whitespace and comments that start at `p`.
pub open spec fn skip_ws(b: Seq<u8>, p: int) -> int
    decreases b.len() - p,
{
    if p < 0 || p >= b.len() {
        p
    } else if spec_is_whitespace(b[p]) {
        skip_ws(b, p + 1)
    } else if b[p] == 37 {
        proof {
            lemma_comment_end(b, p + 1);
        }
        skip_ws(b, comment_end(b, p + 1))
    } else {
        p
    }
}

/// Skipping stays within the input and never moves backwards.
pub proof fn lemma_skip_ws(b: Seq<u8>, p: int)
    requires
        0 <= p <= b.len(),
    ensures
        p <= skip_ws(b, p) <= b.len(),
        skip_ws(b, p) < b.len() ==> !spec_is_whitespace(b[skip_ws(b, p)]) && b[skip_ws(b, p)] != 37,
    decreases b.len() - p,
{
    if p < b.len() {
        if spec_is_whitespace(b[p]) {
            lemma_skip_ws(b, p + 1);
        } else if b[p] == 37 {
            lemma_comment_end(b, p + 1);
            lemma_skip_ws(b, comment_end(b, p + 1));
        }
    }
}

/// The end of the run of regular bytes starting at `p`.
pub open spec fn reg_end(b: Seq<u8>, p: int) -> int
    decreases b.len() - p,
{
    if p < 0 || p >= b.len() {
        p
    } else if spec_is_regular(b[p]) {
        reg_end(b, p + 1)
    } else {
        p
    }
}

/// A regular run ends at or after its start, within the input.
pub proof fn lemma_reg_end(b: Seq<u8>, p: int)
    requires
        0 <= p <= b.len(),
    ensures
        p <= reg_end(b, p) <= b.len(),
        forall|i: int| p <= i < reg_end(b, p) ==> spec_is_regular(#[trigger] b[i]),
        reg_end(b, p) < b.len() ==> !spec_is_regular(b[reg_end(b, p)]),
    decreases b.len() - p,
{
    if p < b.len() && spec_is_regular(b[p]) {
        lemma_reg_end(b, p + 1);
    }
}

/// An octal digit byte `0`..`7`.
pub open spec fn is_octal(c: u8) -> bool {
    48 <= c <= 55
}

/// How many octal digits (at most two) follow at `q`.
pub open spec fn octal_run(b: Seq<u8>, q: int) -> int {
    if 0 <= q < b.len() && is_octal(b[q]) {
        if q + 1 < b.len() && is_octal(b[q + 1]) {
            2
        } else {
            1
        }
    } else {
        0
    }
}

/// The value of the `k` octal digits at `i`.
pub open spec fn octal_value(b: Seq<u8>, i: int, k: int) -> int
    decreases k,
{
    if k <= 0 {
        0
    } else {
        octal_value(b, i, k - 1) * 8 + (b[i + k - 1] - 48)
    }
}

/// The byte an escape `\c` (for `c` not an octal digit, CR or LF) stands for.
pub open spec fn escaped_byte(e: u8) -> u8 {
    if e == 110 {
        10
    } else if e == 114 {
        13
    } else if e == 116 {
        9
    } else if e == 98 {
        8
    } else if e == 102 {
        12
    } else {
        e
    }
}

/// Scans a literal string body from `p` at parenthesis nesting `depth`,
/// having decoded `out` so far; the string opened at `start`. Yields the
/// decoded bytes and the position after the closing `)`.
pub open spec fn lit_scan(b: Seq<u8>, p: int, depth: nat, out: Seq<u8>, start: int) -> Result<(Seq<u8>, int), Error>
    decreases b.len() - p,
{
    if p < 0 || p >= b.len() {
        Err(Error::UnexpectedEof { offset: start as usize })
    } else {
        let c = b[p];
        if c == 92 {
            if p + 1 >= b.len() {
                Err(Error::UnexpectedEof { offset: (p + 1) as usize })
            } else {
                let e = b[p + 1];
                let q = p + 2;
                if e == 13 {
                    if q < b.len() && b[q] == 10 {
                        lit_scan(b, q + 1, depth, out, start)
                    } else {
                        lit_scan(b, q, depth, out, start)
                    }
                } else if e == 10 {
                    lit_scan(b, q, depth, out, start)
                } else if is_octal(e) {
                    let n = octal_run(b, q);
                    lit_scan(b, q + n, depth, out.push((octal_value(b, p + 1, n + 1) % 256) as u8), start)
                } else {
                    lit_scan(b, q, depth, out.push(escaped_byte(e)), start)
                }
            }
        } else if c == 40 {
            lit_scan(b, p + 1, depth + 1, out.push(40), start)
        } else if c == 41 {
            if depth <= 1 {
                Ok((out, p + 1))
            } else {
                lit_scan(b, p + 1, (depth - 1) as nat, out.push(41), start)
            }
        } else {
            lit_scan(b, p + 1, depth, out.push(c), start)
        }
    }
}

/// Scans a hex string body from `p` with pending high nibble `hi`, having
/// decoded `out` so far; the string opened at `start`.
pub open spec fn hex_scan(b: Seq<u8>, p: int, hi: Option<u8>, out: Seq<u8>, start: int) -> Result<(Seq<u8>, int), Error>
    decreases b.len() - p,
{
    if p < 0 || p >= b.len() {
        Err(Error::UnexpectedEof { offset: start as usize })
    } else {
        let c = b[p];
        if c == 62 {
            Ok((flush_pending(out, hi), p + 1))
        } else if spec_is_whitespace(c) {
            hex_scan(b, p + 1, hi, out, start)
        } else {
            match spec_hex_val(c) {
                None => Err(Error::Syntax { offset: p as usize, msg: "invalid hex digit in <…> string" }),
                Some(v) => match hi {
                    None => hex_scan(b, p + 1, Some(v), out, start),
                    Some(h) => hex_scan(b, p + 1, None, out.push((h * 16 + v) as u8), start),
                },
            }
        }
    }
}

/// Scans a name body from `p`, having decoded `out` so far. Yields the
/// decoded bytes and the position of the first byte after the name.
pub open spec fn name_scan(b: Seq<u8>, p: int, out: Seq<u8>) -> Result<(Seq<u8>, int), Error>
    decreases b.len() - p,
{
    if p < 0 || p >= b.len() || !spec_is_regular(b[p]) {
        Ok((out, p))
    } else if b[p] == 35 {
        if p + 1 >= b.len() {
            Err(Error::UnexpectedEof { offset: (p + 1) as usize })
        } else {
            match spec_hex_val(b[p + 1]) {
                None => Err(Error::Syntax { offset: (p + 1) as usize, msg: "invalid hex digit in name #XX escape" }),
                Some(h) => if p + 2 >= b.len() {
                    Err(Error::UnexpectedEof { offset: (p + 2) as usize })
                } else {
                    match spec_hex_val(b[p + 2]) {
                        None => Err(Error::Syntax { offset: (p + 2) as usize, msg: "invalid hex digit in name #XX escape" }),
                        Some(l) => name_scan(b, p + 3, out.push((h * 16 + l) as u8)),
                    }
                },
            }
        }
    } else {
        name_scan(b, p + 1, out.push(b[p]))
    }
}

// --- executable scanners over (buffer, position) ---------------------------

/// The position after the whitespace and comments starting at `pos`.
fn skip_from(buf: &[u8], pos: usize) -> (r: usize)
    requires
        pos <= buf@.len(),
    ensures
        r == skip_ws(buf@, pos as int),
        pos <= r <= buf@.len(),
{
    let mut p = pos;
    while p < buf.len()
        invariant
            pos <= p <= buf@.len(),
            skip_ws(buf@, p as int) == skip_ws(buf@, pos as int),
        decreases buf@.len() - p,
    {
        let c = buf[p];
        if is_whitespace(c) {
            p = p + 1;
        } else if c == 37 {
            let p0 = p;
            p = p + 1;
            while p < buf.len() && buf[p] != 10 && buf[p] != 13
                invariant
                    pos <= p0 < p <= buf@.len(),
                    comment_end(buf@, p as int) == comment_end(buf@, p0 + 1),
                    skip_ws(buf@, p0 as int) == skip_ws(buf@, pos as int),
                    buf@[p0 as int] == 37,
                    !spec_is_whitespace(buf@[p0 as int]),
                decreases buf@.len() - p,
            {
                p = p + 1;
            }
        } else {
            return p;
        }
    }
    p
}

/// The end of the regular run starting at `pos`.
fn reg_end_from(buf: &[u8], pos: usize) -> (r: usize)
    requires
        pos <= buf@.len(),
    ensures
        r == reg_end(buf@, pos as int),
{
    let mut p = pos;
    while p < buf.len() && is_regular(buf[p])
        invariant
            pos <= p <= buf@.len(),
            reg_end(buf@, p as int) == reg_end(buf@, pos as int),
        decreases buf@.len() - p,
    {
        p = p + 1;
    }
    p
}

/// Scans the literal string that opens at `start`.
fn scan_literal(buf: &[u8], start: usize) -> (r: Result<(Vec<u8>, usize), Error>)
    requires
        start < buf@.len(),
    ensures
        r matches Ok((_, q)) ==> start < q <= buf@.len(),
        match lit_scan(buf@, start + 1, 1, Seq::empty(), start as int) {
            Ok((s, q)) => r matches Ok((v, q2)) && v@ == s && q2 == q,
            Err(e) => r == Err::<(Vec<u8>, usize), Error>(e),
        },
{
    let len = buf.len();
    let mut p: usize = start + 1;
    let mut out: Vec<u8> = Vec::new();
    let mut depth: usize = 1;
    loop
        invariant
            start < p <= buf@.len(),
            1 <= depth <= p,
            lit_scan(buf@, start + 1, 1, Seq::empty(), start as int)
                == lit_scan(buf@, p as int, depth as nat, out@, start as int),
        decreases buf@.len() - p,
    {
        if p >= buf.len() {
            return Err(Error::eof(start));
        }
        let c = buf[p];
        if c == 92 {
            if p + 1 >= buf.len() {
                return Err(Error::eof(p + 1));
            }
            let e = buf[p + 1];
            let q = p + 2;
            if e == 13 {
                if q < buf.len() && buf[q] == 10 {
                    p = q + 1;
                } else {
                    p = q;
                }
            } else if e == 10 {
                p = q;
            } else if 48 <= e && e <= 55 {
                let mut val: u16 = (e - 48) as u16;
                let mut k: usize = q;
                if k < buf.len() && 48 <= buf[k] && buf[k] <= 55 {
                    val = val * 8 + (buf[k] - 48) as u16;
                    k = k + 1;
                    if k < buf.len() && 48 <= buf[k] && buf[k] <= 55 {
                        val = val * 8 + (buf[k] - 48) as u16;
                        k = k + 1;
                    }
                }
                proof {
                    let n = octal_run(buf@, q as int);
                    assert(k == q + n);
                    assert(octal_value(buf@, p + 1, 0) == 0);
                    assert(octal_value(buf@, p + 1, 1) == e - 48);
                    if n >= 1 {
                        assert(octal_value(buf@, p + 1, 2) == (e - 48) * 8 + (buf@[q as int] - 48));
                    }
                    if n == 2 {
                        assert(octal_value(buf@, p + 1, 3) == ((e - 48) * 8 + (buf@[q as int] - 48)) * 8 + (buf@[q + 1] - 48));
                    }
                    assert(val == octal_value(buf@, p + 1, n + 1));
                }
                out.push((val % 256) as u8);
                p = k;
            } else {
                let d: u8 = if e == 110 {
                    10
                } else if e == 114 {
                    13
                } else if e == 116 {
                    9
                } else if e == 98 {
                    8
                } else if e == 102 {
                    12
                } else {
                    e
                };
                out.push(d);
                p = q;
            }
        } else if c == 40 {
            depth = depth + 1;
            out.push(40);
            p = p + 1;
        } else if c == 41 {
            if depth <= 1 {
                return Ok((out, p + 1));
            }
            depth = depth - 1;
            out.push(41);
            p = p + 1;
        } else {
            out.push(c);
            p = p + 1;
        }
    }
}

/// Scans the hex string that opens at `start`.
fn scan_hex(buf: &[u8], start: usize) -> (r: Result<(Vec<u8>, usize), Error>)
    requires
        start < buf@.len(),
    ensures
        r matches Ok((_, q)) ==> start < q <= buf@.len(),
        match hex_scan(buf@, start + 1, None, Seq::empty(), start as int) {
            Ok((s, q)) => r matches Ok((v, q2)) && v@ == s && q2 == q,
            Err(e) => r == Err::<(Vec<u8>, usize), Error>(e),
        },
{
    let len = buf.len();
    let mut p: usize = start + 1;
    let mut out: Vec<u8> = Vec::new();
    let mut hi: Option<u8> = None;
    loop
        invariant
            start < p <= buf@.len(),
            hi matches Some(h) ==> h < 16,
            hex_scan(buf@, start + 1, None, Seq::empty(), start as int)
                == hex_scan(buf@, p as int, hi, out@, start as int),
        decreases buf@.len() - p,
    {
        if p >= buf.len() {
            return Err(Error::eof(start));
        }
        let c = buf[p];
        if c == 62 {
            match hi {
                Some(h) => out.push(h * 16),
                None => {},
            }
            return Ok((out, p + 1));
        } else if is_whitespace(c) {
            p = p + 1;
        } else {
            match hex_val(c) {
                None => {
                    return Err(Error::syntax(p, "invalid hex digit in <…> string"));
                },
                Some(v) => {
                    match hi {
                        None => {
                            hi = Some(v);
                        },
                        Some(h) => {
                            out.push(h * 16 + v);
                            hi = None;
                        },
                    }
                    p = p + 1;
                },
            }
        }
    }
}

/// Scans the name body starting at `pos` (after the `/`).
fn scan_name(buf: &[u8], pos: usize) -> (r: Result<(Vec<u8>, usize), Error>)
    requires
        pos <= buf@.len(),
    ensures
        r matches Ok((_, q)) ==> pos <= q <= buf@.len(),
        match name_scan(buf@, pos as int, Seq::empty()) {
            Ok((s, q)) => r matches Ok((v, q2)) && v@ == s && q2 == q,
            Err(e) => r == Err::<(Vec<u8>, usize), Error>(e),
        },
{
    let mut p: usize = pos;
    let mut out: Vec<u8> = Vec::new();
    while p < buf.len() && is_regular(buf[p])
        invariant
            pos <= p <= buf@.len(),
            name_scan(buf@, pos as int, Seq::empty()) == name_scan(buf@, p as int, out@),
        decreases buf@.len() - p,
    {
        let c = buf[p];
        if c == 35 {
            if p + 1 >= buf.len() {
                return Err(Error::eof(p + 1));
            }
            let h = match hex_val(buf[p + 1]) {
                Some(h) => h,
                None => {
                    return Err(Error::syntax(p + 1, "invalid hex digit in name #XX escape"));
                },
            };
            if p + 2 >= buf.len() {
                return Err(Error::eof(p + 2));
            }
            let l = match hex_val(buf[p + 2]) {
                Some(l) => l,
                None => {
                    return Err(Error::syntax(p + 2, "invalid hex digit in name #XX escape"));
                },
            };
            out.push(h * 16 + l);
            p = p + 3;
        } else {
            out.push(c);
            p = p + 1;
        }
    }
    Ok((out, p))
}

// --- tokens ----------------------------------------------------------------

/// The reserved keywords and the structure keywords. Any other
/// regular-character run becomes [`Keyword::Other`] so the parser can
/// decide (e.g. operators in content streams).
#[derive(Clone, Debug, PartialEq, Eq)]
pub enum Keyword {
    /// `obj`
    Obj,
    /// `endobj`
    EndObj,
    /// `stream`
    Stream,
    /// `endstream`
    EndStream,
    /// `R` (indirect reference).
    R,
    /// `true`
    True,
    /// `false`
    False,
    /// `null`
    Null,
    /// `xref`
    Xref,
    /// `trailer`
    Trailer,
    /// `startxref`
    StartXref,
    /// Any other regular-character run.
    Other(Vec<u8>),
}

/// The value of a [`Keyword`].
pub enum KeywordView {
    Obj,
    EndObj,
    Stream,
    EndStream,
    R,
    True,
    False,
    Null,
    Xref,
    Trailer,
    StartXref,
    Other(Seq<u8>),
}

impl View for Keyword {
    type V = KeywordView;

    open spec fn view(&self) -> KeywordView {
        match self {
            Keyword::Obj => KeywordView::Obj,
            Keyword::EndObj => KeywordView::EndObj,
            Keyword::Stream => KeywordView::Stream,
            Keyword::EndStream => KeywordView::EndStream,
            Keyword::R => KeywordView::R,
            Keyword::True => KeywordView::True,
            Keyword::False => KeywordView::False,
            Keyword::Null => KeywordView::Null,
            Keyword::Xref => KeywordView::Xref,
            Keyword::Trailer => KeywordView::Trailer,
            Keyword::StartXref => KeywordView::StartXref,
            Keyword::Other(v) => KeywordView::Other(v@),
        }
    }
}

/// A lexical token. String and name payloads are already decoded.
#[derive(Clone, Debug, PartialEq)]
pub enum Token {
    /// Integer literal.
    Integer(i64),
    /// Real literal, as its decimal text.
    Real(Vec<u8>),
    /// Literal string `( … )`: decoded bytes.
    LiteralString(Vec<u8>),
    /// Hex string `< … >`: decoded bytes.
    HexString(Vec<u8>),
    /// Name `/Name`: decoded bytes (without the `/`).
    Name(Vec<u8>),
    /// `<<` dictionary open.
    DictOpen,
    /// `>>` dictionary close.
    DictClose,
    /// `[` array open.
    ArrayOpen,
    /// `]` array close.
    ArrayClose,
    /// A bare keyword (`obj`, `endobj`, `stream`, `R`, `true`, …).
    Keyword(Keyword),
    /// End of input.
    Eof,
}

/// The value of a [`Token`].
pub enum TokenView {
    Integer(i64),
    Real(Seq<u8>),
    LiteralString(Seq<u8>),
    HexString(Seq<u8>),
    Name(Seq<u8>),
    DictOpen,
    DictClose,
    ArrayOpen,
    ArrayClose,
    Keyword(KeywordView),
    Eof,
}

impl View for Token {
    type V = TokenView;

    open spec fn view(&self) -> TokenView {
        match self {
            Token::Integer(i) => TokenView::Integer(*i),
            Token::Real(t) => TokenView::Real(t@),
            Token::LiteralString(v) => TokenView::LiteralString(v@),
            Token::HexString(v) => TokenView::HexString(v@),
            Token::Name(v) => TokenView::Name(v@),
            Token::DictOpen => TokenView::DictOpen,
            Token::DictClose => TokenView::DictClose,
            Token::ArrayOpen => TokenView::ArrayOpen,
            Token::ArrayClose => TokenView::ArrayClose,
            Token::Keyword(k) => TokenView::Keyword(k@),
            Token::Eof => TokenView::Eof,
        }
    }
}

/// The keyword a regular-character run spells.
pub open spec fn classify_spec(raw: Seq<u8>) -> KeywordView {
    if raw == "obj".spec_bytes() {
        KeywordView::Obj
    } else if raw == "endobj".spec_bytes() {
        KeywordView::EndObj
    } else if raw == "stream".spec_bytes() {
        KeywordView::Stream
    } else if raw == "endstream".spec_bytes() {
        KeywordView::EndStream
    } else if raw == "R".spec_bytes() {
        KeywordView::R
    } else if raw == "true".spec_bytes() {
        KeywordView::True
    } else if raw == "false".spec_bytes() {
        KeywordView::False
    } else if raw == "null".spec_bytes() {
        KeywordView::Null
    } else if raw == "xref".spec_bytes() {
        KeywordView::Xref
    } else if raw == "trailer".spec_bytes() {
        KeywordView::Trailer
    } else if raw == "startxref".spec_bytes() {
        KeywordView::StartXref
    } else {
        KeywordView::Other(raw)
    }
}

/// Classifies a regular-character run into a [`Keyword`].
fn classify_keyword(raw: &[u8]) -> (r: Keyword)
    ensures
        r@ == classify_spec(raw@),
{
    if bytes_equal(raw, "obj".as_bytes()) {
        Keyword::Obj
    } else if bytes_equal(raw, "endobj".as_bytes()) {
        Keyword::EndObj
    } else if bytes_equal(raw, "stream".as_bytes()) {
        Keyword::Stream
    } else if bytes_equal(raw, "endstream".as_bytes()) {
        Keyword::EndStream
    } else if bytes_equal(raw, "R".as_bytes()) {
        Keyword::R
    } else if bytes_equal(raw, "true".as_bytes()) {
        Keyword::True
    } else if bytes_equal(raw, "false".as_bytes()) {
        Keyword::False
    } else if bytes_equal(raw, "null".as_bytes()) {
        Keyword::Null
    } else if bytes_equal(raw, "xref".as_bytes()) {
        Keyword::Xref
    } else if bytes_equal(raw, "trailer".as_bytes()) {
        Keyword::Trailer
    } else if bytes_equal(raw, "startxref".as_bytes()) {
        Keyword::StartXref
    } else {
        Keyword::Other(vstd::slice::slice_to_vec(raw))
    }
}

// --- numbers ---------------------------------------------------------------

/// An ASCII decimal digit.
pub open spec fn is_digit(c: u8) -> bool {
    48 <= c <= 57
}

/// The end of the run of digits starting at `i`.
pub open spec fn digits_end(s: Seq<u8>, i: int) -> int
    decreases s.len() - i,
{
    if i < 0 || i >= s.len() || !is_digit(s[i]) {
        i
    } else {
        digits_end(s, i + 1)
    }
}

/// A digit run ends at or after its start, within the sequence.
pub proof fn lemma_digits_end(s: Seq<u8>, i: int)
    requires
        0 <= i <= s.len(),
    ensures
        i <= digits_end(s, i) <= s.len(),
        forall|k: int| i <= k < digits_end(s, i) ==> is_digit(#[trigger] s[k]),
        digits_end(s, i) < s.len() ==> !is_digit(s[digits_end(s, i)]),
    decreases s.len() - i,
{
    if i < s.len() && is_digit(s[i]) {
        lemma_digits_end(s, i + 1);
    }
}

/// The decimal value of a digit sequence.
pub open spec fn digits_value(s: Seq<u8>) -> int
    decreases s.len(),
{
    if s.len() == 0 {
        0
    } else {
        digits_value(s.drop_last()) * 10 + (s.last() - 48)
    }
}

/// `v` clamped into the `i64` range.
pub open spec fn clamp_i64(v: int) -> i64 {
    if v < i64::MIN {
        i64::MIN
    } else if v > i64::MAX {
        i64::MAX
    } else {
        v as i64
    }
}

/// Whether a run holds `.`, `e` or `E`, and so reads as a real.
pub open spec fn looks_real(s: Seq<u8>) -> bool {
    exists|i: int| 0 <= i < s.len() && (s[i] == 46 || s[i] == 101 || s[i] == 69)
}

/// An optional sign followed by at least one digit: the integer, clamped
/// into the `i64` range when it overflows.
pub open spec fn int_token(raw: Seq<u8>) -> Option<i64> {
    let skip: int = if raw.len() > 0 && (raw[0] == 45 || raw[0] == 43) { 1 } else { 0 };
    let d = raw.subrange(skip, raw.len() as int);
    if d.len() > 0 && digits_end(d, 0) == d.len() {
        let v = digits_value(d);
        Some(clamp_i64(if raw[0] == 45 { -v } else { v }))
    } else {
        None
    }
}

/// The decimal grammar of real numbers: an optional sign, digits with at
/// most one `.` (at least one digit in all), and an optional exponent
/// `e`/`E`, optional sign, digits.
pub open spec fn f64_lexeme(s: Seq<u8>) -> bool {
    let i0: int = if s.len() > 0 && (s[0] == 43 || s[0] == 45) { 1 } else { 0 };
    let i1 = digits_end(s, i0);
    let has_dot = i1 < s.len() && s[i1] == 46;
    let i2 = if has_dot { digits_end(s, i1 + 1) } else { i1 };
    let mant = (i1 - i0) + (if has_dot { i2 - i1 - 1 } else { 0 });
    mant > 0 && (i2 == s.len() || (
        (s[i2] == 101 || s[i2] == 69) && {
            let j0 = if i2 + 1 < s.len() && (s[i2 + 1] == 43 || s[i2 + 1] == 45) { i2 + 2 } else { i2 + 1 };
            let j1 = digits_end(s, j0);
            j1 > j0 && j1 == s.len()
        }
    ))
}

/// The tolerant recovery of a malformed real: the longest prefix made of an
/// optional sign, digits and at most one `.`; none when it holds no digit.
pub open spec fn tolerant_real(s: Seq<u8>) -> Option<Seq<u8>> {
    let i0: int = if s.len() > 0 && (s[0] == 43 || s[0] == 45) { 1 } else { 0 };
    let i1 = digits_end(s, i0);
    let has_dot = i1 < s.len() && s[i1] == 46;
    let i2 = if has_dot { digits_end(s, i1 + 1) } else { i1 };
    let mant = (i1 - i0) + (if has_dot { i2 - i1 - 1 } else { 0 });
    if mant > 0 {
        Some(s.subrange(0, i2))
    } else {
        None
    }
}

/// The text of a real token: the run without one leading `+` when that is a
/// well-formed real, else its tolerant recovery.
pub open spec fn real_token(raw: Seq<u8>) -> Option<Seq<u8>> {
    let s = if raw.len() > 0 && raw[0] == 43 { raw.subrange(1, raw.len() as int) } else { raw };
    if f64_lexeme(s) {
        Some(s)
    } else {
        tolerant_real(s)
    }
}

/// The numeric token a regular run starting like a number reads as, if any.
pub open spec fn parse_number_spec(raw: Seq<u8>) -> Option<TokenView> {
    if raw.len() == 0 || !vstd::utf8::valid_utf8(raw) {
        None
    } else if !looks_real(raw) {
        match int_token(raw) {
            Some(i) => Some(TokenView::Integer(i)),
            None => None,
        }
    } else {
        match real_token(raw) {
            Some(t) => Some(TokenView::Real(t)),
            None => None,
        }
    }
}

/// The end of the digit run of `s` starting at `i`.
fn digits_end_from(s: &[u8], i: usize) -> (r: usize)
    requires
        i <= s@.len(),
    ensures
        r == digits_end(s@, i as int),
{
    let mut k = i;
    while k < s.len() && 48 <= s[k] && s[k] <= 57
        invariant
            i <= k <= s@.len(),
            digits_end(s@, k as int) == digits_end(s@, i as int),
        decreases s@.len() - k,
    {
        k = k + 1;
    }
    k
}

/// Whether `s` holds `.`, `e` or `E`.
fn has_real_marker(s: &[u8]) -> (r: bool)
    ensures
        r == looks_real(s@),
{
    let mut i: usize = 0;
    while i < s.len()
        invariant
            i <= s@.len(),
            forall|k: int| 0 <= k < i ==> !(s@[k] == 46 || s@[k] == 101 || s@[k] == 69),
        decreases s@.len() - i,
    {
        if s[i] == 46 || s[i] == 101 || s[i] == 69 {
            return true;
        }
        i = i + 1;
    }
    false
}

/// The decimal value of `d` (all digits), saturated at 2^63 + 1.
fn saturated_value(d: &[u8]) -> (r: u128)
    requires
        forall|k: int| 0 <= k < d@.len() ==> is_digit(#[trigger] d@[k]),
    ensures
        r == (if digits_value(d@) < 0x8000_0000_0000_0001 { digits_value(d@) } else { 0x8000_0000_0000_0001 }),
{
    let mut acc: u128 = 0;
    let mut i: usize = 0;
    while i < d.len()
        invariant
            i <= d@.len(),
            forall|k: int| 0 <= k < d@.len() ==> is_digit(#[trigger] d@[k]),
            acc == (if digits_value(d@.take(i as int)) < 0x8000_0000_0000_0001 {
                digits_value(d@.take(i as int))
            } else {
                0x8000_0000_0000_0001
            }),
        decreases d@.len() - i,
    {
        proof {
            assert(d@.take(i + 1).drop_last() == d@.take(i as int));
            lemma_digits_value_nonneg(d@.take(i as int));
        }
        let c = (d[i] - 48) as u128;
        let next = acc * 10 + c;
        acc = if next < 0x8000_0000_0000_0001 { next } else { 0x8000_0000_0000_0001 };
        i = i + 1;
    }
    proof {
        assert(d@.take(d@.len() as int) == d@);
    }
    acc
}

/// The value of a digit sequence is never negative.
pub proof fn lemma_digits_value_nonneg(s: Seq<u8>)
    requires
        forall|k: int| 0 <= k < s.len() ==> is_digit(#[trigger] s[k]),
    ensures
        digits_value(s) >= 0,
    decreases s.len(),
{
    if s.len() > 0 {
        lemma_digits_value_nonneg(s.drop_last());
    }
}

/// Whether `s` is a well-formed real.
fn is_f64_lexeme(s: &[u8]) -> (r: bool)
    ensures
        r == f64_lexeme(s@),
{
    let i0: usize = if s.len() > 0 && (s[0] == 43 || s[0] == 45) { 1 } else { 0 };
    let i1 = digits_end_from(s, i0);
    let has_dot = i1 < s.len() && s[i1] == 46;
    let i2 = if has_dot { digits_end_from(s, i1 + 1) } else { i1 };
    proof {
        lemma_digits_end(s@, i0 as int);
        if has_dot {
            lemma_digits_end(s@, i1 + 1);
        }
    }
    let mant_pos = i1 > i0 || (has_dot && i2 > i1 + 1);
    if !mant_pos {
        return false;
    }
    if i2 == s.len() {
        return true;
    }
    if !(s[i2] == 101 || s[i2] == 69) {
        return false;
    }
    let j0 = if i2 + 1 < s.len() && (s[i2 + 1] == 43 || s[i2 + 1] == 45) { i2 + 2 } else { i2 + 1 };
    let j1 = digits_end_from(s, j0);
    j1 > j0 && j1 == s.len()
}

/// The real text a run reads as, if any.
fn real_text(raw: &[u8]) -> (r: Option<Vec<u8>>)
    requires
        raw@.len() > 0,
    ensures
        match real_token(raw@) {
            Some(t) => r matches Some(v) && v@ == t,
            None => r is None,
        },
{
    let s: &[u8] = if raw[0] == 43 { vstd::slice::slice_subrange(raw, 1, raw.len()) } else { raw };
    if is_f64_lexeme(s) {
        return Some(vstd::slice::slice_to_vec(s));
    }
    let i0: usize = if s.len() > 0 && (s[0] == 43 || s[0] == 45) { 1 } else { 0 };
    let i1 = digits_end_from(s, i0);
    let has_dot = i1 < s.len() && s[i1] == 46;
    let i2 = if has_dot { digits_end_from(s, i1 + 1) } else { i1 };
    proof {
        lemma_digits_end(s@, i0 as int);
        if has_dot {
            lemma_digits_end(s@, i1 + 1);
        }
    }
    if i1 > i0 || (has_dot && i2 > i1 + 1) {
        Some(vstd::slice::slice_to_vec(vstd::slice::slice_subrange(s, 0, i2)))
    } else {
        None
    }
}

/// The numeric token a regular run reads as, if any.
fn parse_number(raw: &[u8]) -> (r: Option<Token>)
    ensures
        match parse_number_spec(raw@) {
            Some(t) => r matches Some(tok) && tok@ == t,
            None => r is None,
        },
{
    if raw.len() == 0 {
        return None;
    }
    if utf8_str(raw).is_none() {
        return None;
    }
    if !has_real_marker(raw) {
        let skip: usize = if raw[0] == 45 || raw[0] == 43 { 1 } else { 0 };
        let d = vstd::slice::slice_subrange(raw, skip, raw.len());
        if d.len() == 0 || digits_end_from(d, 0) != d.len() {
            return None;
        }
        proof {
            lemma_digits_end(d@, 0);
        }
        let acc = saturated_value(d);
        proof {
            lemma_digits_value_nonneg(d@);
        }
        let v: i64 = if raw[0] == 45 {
            if acc >= 0x8000_0000_0000_0000 {
                i64::MIN
            } else {
                -(acc as i64)
            }
        } else {
            if acc >= 0x8000_0000_0000_0000 {
                i64::MAX
            } else {
                acc as i64
            }
        };
        return Some(Token::Integer(v));
    }
    match real_text(raw) {
        Some(t) => Some(Token::Real(t)),
        None => None,
    }
}

// --- the token at a position ----------------------------------------------

/// Wraps a scanned payload into a token.
pub open spec fn scanned(r: Result<(Seq<u8>, int), Error>, kind: int) -> Result<(TokenView, int), Error> {
    match r {
        Ok((v, q)) => Ok((
            if kind == 0 {
                TokenView::LiteralString(v)
            } else if kind == 1 {
                TokenView::HexString(v)
            } else {
                TokenView::Name(v)
            },
            q,
        )),
        Err(e) => Err(e),
    }
}

/// The token that starts at or after `p0` (past whitespace and comments) and
/// the position just after it; or the error the bytes there hold.
#[verifier::opaque]
pub open spec fn lex(b: Seq<u8>, p0: int) -> Result<(TokenView, int), Error> {
    let p = skip_ws(b, p0);
    if p < 0 || p >= b.len() {
        Ok((TokenView::Eof, p))
    } else {
        let c = b[p];
        if c == 40 {
            scanned(lit_scan(b, p + 1, 1, Seq::empty(), p), 0)
        } else if c == 60 {
            if p + 1 < b.len() && b[p + 1] == 60 {
                Ok((TokenView::DictOpen, p + 2))
            } else {
                scanned(hex_scan(b, p + 1, None, Seq::empty(), p), 1)
            }
        } else if c == 62 {
            if p + 1 < b.len() && b[p + 1] == 62 {
                Ok((TokenView::DictClose, p + 2))
            } else {
                Err(Error::Syntax { offset: p as usize, msg: "unexpected '>'" })
            }
        } else if c == 91 {
            Ok((TokenView::ArrayOpen, p + 1))
        } else if c == 93 {
            Ok((TokenView::ArrayClose, p + 1))
        } else if c == 47 {
            scanned(name_scan(b, p + 1, Seq::empty()), 2)
        } else if c == 41 {
            Err(Error::Syntax { offset: p as usize, msg: "unexpected ')'" })
        } else if c == 123 || c == 125 {
            Ok((TokenView::Keyword(KeywordView::Other(seq![c])), p + 1))
        } else if c == 43 || c == 45 || c == 46 || is_digit(c) {
            let e = reg_end(b, p);
            let raw = b.subrange(p, e);
            match parse_number_spec(raw) {
                Some(t) => Ok((t, e)),
                None => Ok((TokenView::Keyword(KeywordView::Other(raw)), e)),
            }
        } else {
            let e = reg_end(b, p);
            if e == p {
                Ok((TokenView::Keyword(KeywordView::Other(seq![c])), p + 1))
            } else {
                Ok((TokenView::Keyword(classify_spec(b.subrange(p, e))), e))
            }
        }
    }
}

/// The byte-oriented PDF lexer over a borrowed buffer.
pub struct Lexer<'a> {
    buf: &'a [u8],
    pos: usize,
}

impl<'a> Lexer<'a> {
    /// The bytes being tokenized.
    pub closed spec fn input(self) -> Seq<u8> {
        self.buf@
    }

    /// The current byte offset.
    pub closed spec fn pos(self) -> int {
        self.pos as int
    }

    #[verifier::type_invariant]
    closed spec fn inv(self) -> bool {
        self.pos <= self.buf@.len()
    }

    /// Creates a lexer positioned at the start of `buf`.
    pub fn new(buf: &'a [u8]) -> (r: Self)
        ensures
            r.input() == buf@,
            r.pos() == 0,
    {
        Lexer { buf, pos: 0 }
    }

    /// The current byte offset.
    pub fn offset(&self) -> (r: usize)
        ensures
            r == self.pos(),
            r <= self.input().len(),
    {
        proof {
            use_type_invariant(self);
        }
        self.pos
    }

    /// Repositions the cursor, clamped into the buffer.
    pub fn seek(&mut self, pos: usize)
        ensures
            final(self).input() == old(self).input(),
            final(self).pos() == (if pos <= old(self).input().len() { pos as int } else { old(self).input().len() as int }),
    {
        let n = self.buf.len();
        self.pos = if pos <= n { pos } else { n };
    }

    /// The full backing buffer.
    pub fn buffer(&self) -> (r: &'a [u8])
        ensures
            r@ == self.input(),
    {
        self.buf
    }

    /// Skips whitespace and `%` comments.
    pub fn skip_whitespace_and_comments(&mut self)
        ensures
            final(self).input() == old(self).input(),
            final(self).pos() == skip_ws(old(self).input(), old(self).pos()),
    {
        proof {
            use_type_invariant(&*self);
        }
        self.pos = skip_from(self.buf, self.pos);
        proof {
            lemma_skip_ws(self.buf@, self.pos as int);
        }
    }

    /// Reads the next token, skipping leading whitespace and comments: the
    /// token [`lex`] states, with the cursor moved just past it. At end of
    /// input the result is [`Token::Eof`], again and again.
    pub fn next_token(&mut self) -> (r: Result<Token, Error>)
        ensures
            final(self).input() == old(self).input(),
            match r {
                Ok(t) => lex(old(self).input(), old(self).pos()) == Ok::<(TokenView, int), Error>((t@, final(self).pos())),
                Err(e) => lex(old(self).input(), old(self).pos()) == Err::<(TokenView, int), Error>(e),
            },
    {
        proof {
            use_type_invariant(&*self);
            lemma_skip_ws(self.buf@, self.pos as int);
            reveal(lex);
        }
        let buf = self.buf;
        let p = skip_from(buf, self.pos);
        self.pos = p;
        if p >= buf.len() {
            return Ok(Token::Eof);
        }
        let c = buf[p];
        if c == 40 {
            match scan_literal(buf, p) {
                Ok((v, q)) => {
                    self.pos = q;
                    Ok(Token::LiteralString(v))
                },
                Err(e) => Err(e),
            }
        } else if c == 60 {
            if p + 1 < buf.len() && buf[p + 1] == 60 {
                self.pos = p + 2;
                Ok(Token::DictOpen)
            } else {
                match scan_hex(buf, p) {
                    Ok((v, q)) => {
                        self.pos = q;
                        Ok(Token::HexString(v))
                    },
                    Err(e) => Err(e),
                }
            }
        } else if c == 62 {
            if p + 1 < buf.len() && buf[p + 1] == 62 {
                self.pos = p + 2;
                Ok(Token::DictClose)
            } else {
                Err(Error::syntax(p, "unexpected '>'"))
            }
        } else if c == 91 {
            self.pos = p + 1;
            Ok(Token::ArrayOpen)
        } else if c == 93 {
            self.pos = p + 1;
            Ok(Token::ArrayClose)
        } else if c == 47 {
            match scan_name(buf, p + 1) {
                Ok((v, q)) => {
                    self.pos = q;
                    Ok(Token::Name(v))
                },
                Err(e) => Err(e),
            }
        } else if c == 41 {
            Err(Error::syntax(p, "unexpected ')'"))
        } else if c == 123 || c == 125 {
            self.pos = p + 1;
            let mut v: Vec<u8> = Vec::new();
            v.push(c);
            proof {
                assert(v@ == seq![c]);
            }
            Ok(Token::Keyword(Keyword::Other(v)))
        } else if c == 43 || c == 45 || c == 46 || (48 <= c && c <= 57) {
            let e = reg_end_from(buf, p);
            proof {
                lemma_reg_end(buf@, p as int);
            }
            let raw = vstd::slice::slice_subrange(buf, p, e);
            self.pos = e;
            match parse_number(raw) {
                Some(t) => Ok(t),
                None => Ok(Token::Keyword(Keyword::Other(vstd::slice::slice_to_vec(raw)))),
            }
        } else {
            let e = reg_end_from(buf, p);
            proof {
                lemma_reg_end(buf@, p as int);
            }
            if e == p {
                self.pos = p + 1;
                let mut v: Vec<u8> = Vec::new();
                v.push(c);
                proof {
                    assert(v@ == seq![c]);
                }
                Ok(Token::Keyword(Keyword::Other(v)))
            } else {
                self.pos = e;
                Ok(Token::Keyword(classify_keyword(vstd::slice::slice_subrange(buf, p, e))))
            }
        }
    }
}

// --- what every token read does to the position ---------------------------

proof fn lemma_lit_scan_pos(b: Seq<u8>, p: int, depth: nat, out: Seq<u8>, start: int)
    requires
        0 <= p,
    ensures
        lit_scan(b, p, depth, out, start) matches Ok((_, q)) ==> p < q <= b.len(),
    decreases b.len() - p,
{
    if 0 <= p < b.len() {
        let c = b[p];
        if c == 92 {
            if p + 1 < b.len() {
                let e = b[p + 1];
                let q = p + 2;
                if e == 13 {
                    if q < b.len() && b[q] == 10 {
                        lemma_lit_scan_pos(b, q + 1, depth, out, start);
                    } else {
                        lemma_lit_scan_pos(b, q, depth, out, start);
                    }
                } else if e == 10 {
                    lemma_lit_scan_pos(b, q, depth, out, start);
                } else if is_octal(e) {
                    let n = octal_run(b, q);
                    lemma_lit_scan_pos(b, q + n, depth, out.push((octal_value(b, p + 1, n + 1) % 256) as u8), start);
                } else {
                    lemma_lit_scan_pos(b, q, depth, out.push(escaped_byte(e)), start);
                }
            }
        } else if c == 40 {
            lemma_lit_scan_pos(b, p + 1, depth + 1, out.push(40), start);
        } else if c == 41 {
            if depth > 1 {
                lemma_lit_scan_pos(b, p + 1, (depth - 1) as nat, out.push(41), start);
            }
        } else {
            lemma_lit_scan_pos(b, p + 1, depth, out.push(c), start);
        }
    }
}

proof fn lemma_hex_scan_pos(b: Seq<u8>, p: int, hi: Option<u8>, out: Seq<u8>, start: int)
    requires
        0 <= p,
    ensures
        hex_scan(b, p, hi, out, start) matches Ok((_, q)) ==> p < q <= b.len(),
    decreases b.len() - p,
{
    if 0 <= p < b.len() {
        let c = b[p];
        if c != 62 {
            if spec_is_whitespace(c) {
                lemma_hex_scan_pos(b, p + 1, hi, out, start);
            } else {
                match spec_hex_val(c) {
                    None => {},
                    Some(v) => match hi {
                        None => lemma_hex_scan_pos(b, p + 1, Some(v), out, start),
                        Some(h) => lemma_hex_scan_pos(b, p + 1, None, out.push((h * 16 + v) as u8), start),
                    },
                }
            }
        }
    }
}

proof fn lemma_name_scan_pos(b: Seq<u8>, p: int, out: Seq<u8>)
    requires
        0 <= p <= b.len(),
    ensures
        name_scan(b, p, out) matches Ok((_, q)) ==> p <= q <= b.len(),
    decreases b.len() - p,
{
    if p < b.len() && spec_is_regular(b[p]) {
        if b[p] == 35 {
            if p + 2 < b.len() {
                match (spec_hex_val(b[p + 1]), spec_hex_val(b[p + 2])) {
                    (Some(h), Some(l)) => lemma_name_scan_pos(b, p + 3, out.push((h * 16 + l) as u8)),
                    _ => {},
                }
            }
        } else {
            lemma_name_scan_pos(b, p + 1, out.push(b[p]));
        }
    }
}

/// Every token read moves the cursor forward within the input, strictly
/// unless it is the end of input; the end of input is read at the end of the
/// buffer.
pub proof fn law_lex_progress(b: Seq<u8>, p: int)
    requires
        0 <= p <= b.len(),
    ensures
        lex(b, p) matches Ok((t, q)) ==> p <= q <= b.len() && (t is Eof <==> q == b.len() && skip_ws(b, p) == b.len()),
        lex(b, p) matches Ok((t, q)) ==> (!(t is Eof) ==> p < q),
{
    reveal(lex);
    lemma_skip_ws(b, p);
    let s = skip_ws(b, p);
    if s < b.len() {
        lemma_lit_scan_pos(b, s + 1, 1, Seq::empty(), s);
        lemma_hex_scan_pos(b, s + 1, None, Seq::empty(), s);
        lemma_name_scan_pos(b, s + 1, Seq::empty());
        lemma_reg_end(b, s);
    }
}

/// Once the end of input is reached, every further read is the end of input
/// again, at the same position.
pub proof fn law_eof_idempotent(b: Seq<u8>, p: int)
    requires
        0 <= p <= b.len(),
        lex(b, p) matches Ok((t, _)) && t is Eof,
    ensures
        lex(b, b.len() as int) == Ok::<(TokenView, int), Error>((TokenView::Eof, b.len() as int)),
        lex(b, p) == Ok::<(TokenView, int), Error>((TokenView::Eof, b.len() as int)),
{
    reveal(lex);
    law_lex_progress(b, p);
}

/// Whether `x` can stand in a literal string as it is: no backslash and
/// no parenthesis.
pub open spec fn plain_literal(x: Seq<u8>) -> bool {
    forall|i: int| 0 <= i < x.len() ==> #[trigger] x[i] != 92 && x[i] != 40 && x[i] != 41
}

/// The literal string `(x\ey)`: `x`, the escape `\e`, then `y`.
pub open spec fn escaped_literal(x: Seq<u8>, e: u8, y: Seq<u8>) -> Seq<u8> {
    seq![40u8] + x + seq![92u8, e] + y + seq![41u8]
}

/// Plain bytes of a literal string body are copied as they are.
proof fn lemma_lit_plain(b: Seq<u8>, p: int, k: int, depth: nat, out: Seq<u8>, start: int)
    requires
        0 <= p,
        0 <= k,
        p + k <= b.len(),
        forall|i: int| p <= i < p + k ==> #[trigger] b[i] != 92 && b[i] != 40 && b[i] != 41,
    ensures
        lit_scan(b, p, depth, out, start) == lit_scan(b, p + k, depth, out + b.subrange(p, p + k), start),
    decreases k,
{
    if k > 0 {
        lemma_lit_plain(b, p + 1, k - 1, depth, out.push(b[p]), start);
        assert(out.push(b[p]) + b.subrange(p + 1, p + k) =~= out + b.subrange(p, p + k));
    } else {
        assert(out + b.subrange(p, p) =~= out);
    }
}

/// What lexing `(x\ey)` gives, `x` and `y` plain: the string `x`, then the
/// escape's contribution `mid`, then `y`.
proof fn lemma_escaped_literal(x: Seq<u8>, e: u8, y: Seq<u8>)
    requires
        plain_literal(x),
        plain_literal(y),
        e != 13,
        !is_octal(e),
    ensures
        lex(escaped_literal(x, e, y), 0) == Ok::<(TokenView, int), Error>((
            TokenView::LiteralString(x + (if e == 10 { Seq::<u8>::empty() } else { seq![escaped_byte(e)] }) + y),
            (x.len() + y.len() + 4) as int,
        )),
{
    reveal(lex);
    let b = escaped_literal(x, e, y);
    let n = x.len() as int;
    assert(b[0] == 40u8);
    assert(skip_ws(b, 0) == 0);
    assert forall|i: int| 1 <= i < 1 + n implies #[trigger] b[i] != 92 && b[i] != 40 && b[i] != 41 by {
        assert(b[i] == x[i - 1]);
    }
    lemma_lit_plain(b, 1, n, 1, Seq::empty(), 0);
    assert(b.subrange(1, 1 + n) =~= x);
    assert(b[1 + n] == 92u8 && b[2 + n] == e);
    let mid: Seq<u8> = if e == 10 { Seq::empty() } else { seq![escaped_byte(e)] };
    let out = x + mid;
    assert(lit_scan(b, 1 + n, 1, x, 0) == lit_scan(b, 3 + n, 1, out, 0)) by {
        if e != 10 {
            assert(x.push(escaped_byte(e)) =~= out);
        } else {
            assert(x =~= out);
        }
    }
    let m = y.len() as int;
    assert forall|i: int| 3 + n <= i < 3 + n + m implies #[trigger] b[i] != 92 && b[i] != 40 && b[i] != 41 by {
        assert(b[i] == y[i - 3 - n]);
    }
    lemma_lit_plain(b, 3 + n, m, 1, out, 0);
    assert(b.subrange(3 + n, 3 + n + m) =~= y);
    assert(b[3 + n + m] == 41u8);
    assert(b.len() == 4 + n + m);
}

/// The escapes of a literal string: for plain `x` and `y`, lexing
/// `(x\ey)` gives `x`, then the byte the escape stands for, then `y` —
/// `\n` a line feed (10), `\r` a carriage return (13), `\t` a tab (9), `\b`
/// a backspace (8), `\f` a form feed (12), `\(`, `\)` and `\\` the byte
/// itself, and any other byte that is not an octal digit or an end of line
/// the byte itself; a backslash before a line feed stands for nothing.
pub proof fn law_literal_escapes(x: Seq<u8>, e: u8, y: Seq<u8>)
    requires
        plain_literal(x),
        plain_literal(y),
    ensures
        ({
            let lexed = |v: u8| Ok::<(TokenView, int), Error>((TokenView::LiteralString(x + seq![v] + y), (x.len() + y.len() + 4) as int));
            &&& e == 110 ==> lex(escaped_literal(x, e, y), 0) == lexed(10)
            &&& e == 114 ==> lex(escaped_literal(x, e, y), 0) == lexed(13)
            &&& e == 116 ==> lex(escaped_literal(x, e, y), 0) == lexed(9)
            &&& e == 98 ==> lex(escaped_literal(x, e, y), 0) == lexed(8)
            &&& e == 102 ==> lex(escaped_literal(x, e, y), 0) == lexed(12)
            &&& (e == 40 || e == 41 || e == 92) ==> lex(escaped_literal(x, e, y), 0) == lexed(e)
            &&& (e != 110 && e != 114 && e != 116 && e != 98 && e != 102 && e != 10 && e != 13 && !(48 <= e <= 55))
                ==> lex(escaped_literal(x, e, y), 0) == lexed(e)
        }),
        e == 10 ==> lex(escaped_literal(x, e, y), 0) == Ok::<(TokenView, int), Error>((TokenView::LiteralString(x + y), (x.len() + y.len() + 4) as int)),
{
    if e != 13 && !is_octal(e) {
        lemma_escaped_literal(x, e, y);
        if e == 10 {
            assert(x + Seq::<u8>::empty() + y =~= x + y);
        }
    }
}

/// The value of octal digits `ds`, most significant first.
pub open spec fn octal_digits_value(ds: Seq<u8>) -> int
    decreases ds.len(),
{
    if ds.len() == 0 {
        0
    } else {
        octal_digits_value(ds.drop_last()) * 8 + (ds.last() - 48)
    }
}

proof fn lemma_octal_value(b: Seq<u8>, i: int, ds: Seq<u8>, k: int)
    requires
        0 <= i,
        0 <= k <= ds.len(),
        i + ds.len() <= b.len(),
        forall|j: int| 0 <= j < ds.len() ==> b[i + j] == ds[j],
    ensures
        octal_value(b, i, k) == octal_digits_value(ds.take(k)),
    decreases k,
{
    if k > 0 {
        lemma_octal_value(b, i, ds, k - 1);
        assert(ds.take(k).drop_last() =~= ds.take(k - 1));
    }
}

/// Octal escapes: for plain `x` and `y`, lexing `(x\dy)`, where `d` is one
/// to three octal digits and `y` does not go on with an octal digit when
/// there are fewer than three, gives `x`, the byte the digits stand for
/// (their value modulo 256), then `y`.
pub proof fn law_literal_octal_escape(x: Seq<u8>, ds: Seq<u8>, y: Seq<u8>)
    requires
        plain_literal(x),
        plain_literal(y),
        1 <= ds.len() <= 3,
        forall|j: int| 0 <= j < ds.len() ==> 48 <= #[trigger] ds[j] <= 55,
        ds.len() < 3 && y.len() > 0 ==> !(48 <= y[0] <= 55),
    ensures
        lex(seq![40u8] + x + seq![92u8] + ds + y + seq![41u8], 0) == Ok::<(TokenView, int), Error>((
            TokenView::LiteralString(x + seq![(octal_digits_value(ds) % 256) as u8] + y),
            (x.len() + ds.len() + y.len() + 3) as int,
        )),
{
    reveal(lex);
    let b = seq![40u8] + x + seq![92u8] + ds + y + seq![41u8];
    let n = x.len() as int;
    let k = ds.len() as int;
    let m = y.len() as int;
    assert(b.len() == n + k + m + 3);
    assert(b[0] == 40u8);
    assert(skip_ws(b, 0) == 0);
    assert forall|i: int| 1 <= i < 1 + n implies #[trigger] b[i] != 92 && b[i] != 40 && b[i] != 41 by {
        assert(b[i] == x[i - 1]);
    }
    lemma_lit_plain(b, 1, n, 1, Seq::empty(), 0);
    assert(b.subrange(1, 1 + n) =~= x);
    assert(b[1 + n] == 92u8);
    assert forall|j: int| 0 <= j < k implies b[2 + n + j] == ds[j] by {}
    let e = b[2 + n];
    assert(e == ds[0] && is_octal(e));
    let q = 3 + n;
    assert(octal_run(b, q) == k - 1) by {
        if k >= 2 {
            assert(b[q] == ds[1]);
        }
        if k == 3 {
            assert(b[q + 1] == ds[2]);
        } else if k == 2 {
            if m > 0 {
                assert(b[q + 1] == y[0]);
            } else {
                assert(b[q + 1] == 41u8);
            }
        } else {
            if m > 0 {
                assert(b[q] == y[0]);
            } else {
                assert(b[q] == 41u8);
            }
        }
    }
    lemma_octal_value(b, 2 + n, ds, k);
    assert(ds.take(k) =~= ds);
    let out = x.push((octal_digits_value(ds) % 256) as u8);
    assert(lit_scan(b, 1 + n, 1, x, 0) == lit_scan(b, 2 + n + k, 1, out, 0));
    assert forall|i: int| 2 + n + k <= i < 2 + n + k + m implies #[trigger] b[i] != 92 && b[i] != 40 && b[i] != 41 by {
        assert(b[i] == y[i - 2 - n - k]);
    }
    lemma_lit_plain(b, 2 + n + k, m, 1, out, 0);
    assert(b.subrange(2 + n + k, 2 + n + k + m) =~= y);
    assert(b[2 + n + k + m] == 41u8);
    assert(out + y =~= x + seq![(octal_digits_value(ds) % 256) as u8] + y);
}

/// Balanced parentheses stand for themselves: for plain `x`, `y` and `z`,
/// lexing `(x(y)z)` gives `x(y)z`.
pub proof fn law_literal_nested_parens(x: Seq<u8>, y: Seq<u8>, z: Seq<u8>)
    requires
        plain_literal(x),
        plain_literal(y),
        plain_literal(z),
    ensures
        lex(seq![40u8] + x + seq![40u8] + y + seq![41u8] + z + seq![41u8], 0) == Ok::<(TokenView, int), Error>((
            TokenView::LiteralString(x + seq![40u8] + y + seq![41u8] + z),
            (x.len() + y.len() + z.len() + 4) as int,
        )),
{
    reveal(lex);
    let b = seq![40u8] + x + seq![40u8] + y + seq![41u8] + z + seq![41u8];
    let n = x.len() as int;
    let k = y.len() as int;
    let m = z.len() as int;
    assert(b.len() == n + k + m + 4);
    assert(b[0] == 40u8);
    assert(skip_ws(b, 0) == 0);
    assert forall|i: int| 1 <= i < 1 + n implies #[trigger] b[i] != 92 && b[i] != 40 && b[i] != 41 by {
        assert(b[i] == x[i - 1]);
    }
    lemma_lit_plain(b, 1, n, 1, Seq::empty(), 0);
    assert(b.subrange(1, 1 + n) =~= x);
    assert(b[1 + n] == 40u8);
    let o1 = x.push(40u8);
    assert forall|i: int| 2 + n <= i < 2 + n + k implies #[trigger] b[i] != 92 && b[i] != 40 && b[i] != 41 by {
        assert(b[i] == y[i - 2 - n]);
    }
    lemma_lit_plain(b, 2 + n, k, 2, o1, 0);
    assert(b.subrange(2 + n, 2 + n + k) =~= y);
    assert(b[2 + n + k] == 41u8);
    let o2 = (o1 + y).push(41u8);
    assert forall|i: int| 3 + n + k <= i < 3 + n + k + m implies #[trigger] b[i] != 92 && b[i] != 40 && b[i] != 41 by {
        assert(b[i] == z[i - 3 - n - k]);
    }
    lemma_lit_plain(b, 3 + n + k, m, 1, o2, 0);
    assert(b.subrange(3 + n + k, 3 + n + k + m) =~= z);
    assert(b[3 + n + k + m] == 41u8);
    assert(o2 + z =~= x + seq![40u8] + y + seq![41u8] + z);
}

} // verus!
