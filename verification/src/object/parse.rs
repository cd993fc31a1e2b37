//! Object parsing — single objects and indirect objects.
//!
//! A recursive-descent parser over the [`Lexer`]. Like the lexer it never
//! panics on malformed input: it returns a typed [`Error`]. What a parse
//! yields is stated by [`p_object`] and [`p_indirect_object`], functions of
//! the input bytes and the position, in terms of [`lex`].

use vstd::prelude::*;
use vstd::string::StringSliceAdditionalSpecFns;

use crate::error::Error;
use crate::lexer::{is_whitespace, law_lex_progress, lex, spec_is_whitespace, Keyword, KeywordView, Lexer, Token, TokenView};
use crate::object::name::bytes_equal;
use crate::object::stream::{bytes_copy_from_slice, StreamData};
use crate::object::{Dict, Name, ObjRef, Object, PayloadView, PdfString, PdfValue, StreamObj, StringKind};

verus! {

/// The outcome of parsing one object: its value, the position after it, and
/// the body extent `(start, len)` of the last stream parsed so far.
pub struct Parsed {
    /// The object's value.
    pub value: PdfValue,
    /// The position just after the object.
    pub end: int,
    /// The last stream body seen, as `(start, len)`.
    pub body: Option<(int, int)>,
}

/// The error a parse step that made no progress would yield. No parse
/// reaches it: every object read moves the cursor forward.
pub open spec fn stalled() -> Error {
    Error::Syntax { offset: 0, msg: "parser made no progress" }
}

/// An object at `p`.
pub open spec fn p_object(b: Seq<u8>, p: int, lb: Option<(int, int)>) -> Result<Parsed, Error>
    decreases b.len() - p, 3int,
{
    if p < 0 || p > b.len() {
        Err(stalled())
    } else {
        proof {
            law_lex_progress(b, p);
        }
        match lex(b, p) {
            Err(e) => Err(e),
            Ok((t, q)) => p_from(b, t, q, lb),
        }
    }
}

/// An object whose first token `t` has been read, the cursor now at `q`.
pub open spec fn p_from(b: Seq<u8>, t: TokenView, q: int, lb: Option<(int, int)>) -> Result<Parsed, Error>
    decreases b.len() - q, 2int,
{
    if q < 0 || q > b.len() {
        Err(stalled())
    } else {
        match t {
            TokenView::Integer(i) => p_after_int(b, i, q, lb),
            TokenView::Real(r) => Ok(Parsed { value: PdfValue::Real(r), end: q, body: lb }),
            TokenView::LiteralString(s) => Ok(Parsed { value: PdfValue::Str(s, StringKind::Literal), end: q, body: lb }),
            TokenView::HexString(s) => Ok(Parsed { value: PdfValue::Str(s, StringKind::Hex), end: q, body: lb }),
            TokenView::Name(n) => Ok(Parsed { value: PdfValue::Name(n), end: q, body: lb }),
            TokenView::ArrayOpen => p_array(b, q, Seq::empty(), lb),
            TokenView::DictOpen => p_dict_or_stream(b, q, lb),
            TokenView::Keyword(KeywordView::True) => Ok(Parsed { value: PdfValue::Boolean(true), end: q, body: lb }),
            TokenView::Keyword(KeywordView::False) => Ok(Parsed { value: PdfValue::Boolean(false), end: q, body: lb }),
            TokenView::Keyword(KeywordView::Null) => Ok(Parsed { value: PdfValue::Null, end: q, body: lb }),
            TokenView::Eof => Err(Error::UnexpectedEof { offset: q as usize }),
            TokenView::DictClose => Err(Error::Syntax { offset: q as usize, msg: "unexpected closing delimiter" }),
            TokenView::ArrayClose => Err(Error::Syntax { offset: q as usize, msg: "unexpected closing delimiter" }),
            TokenView::Keyword(_) => Err(Error::Syntax { offset: q as usize, msg: "unexpected keyword where object expected" }),
        }
    }
}

/// After an integer `first` (cursor at `q`): `first gen R` is a reference,
/// `first gen obj … endobj` an indirect object, anything else leaves the
/// integer standing alone with the cursor back at `q`.
pub open spec fn p_after_int(b: Seq<u8>, first: i64, q: int, lb: Option<(int, int)>) -> Result<Parsed, Error>
    decreases b.len() - q, 1int,
{
    if q < 0 || q > b.len() {
        Err(stalled())
    } else {
        proof {
            law_lex_progress(b, q);
        }
        let alone = Ok(Parsed { value: PdfValue::Integer(first), end: q, body: lb });
        match lex(b, q) {
            Err(e) => Err(e),
            Ok((t2, q2)) => match t2 {
                TokenView::Integer(gen) => if first >= 0 && 0 <= gen <= 65535 {
                    proof {
                        law_lex_progress(b, q2);
                    }
                    match lex(b, q2) {
                        Err(e) => Err(e),
                        Ok((t3, q3)) => match t3 {
                            TokenView::Keyword(KeywordView::R) => Ok(Parsed {
                                value: PdfValue::Reference(ObjRef { num: first as u32, gen: gen as u16 }),
                                end: q3,
                                body: lb,
                            }),
                            TokenView::Keyword(KeywordView::Obj) => p_indirect_body(b, q3, lb),
                            _ => alone,
                        },
                    }
                } else {
                    alone
                },
                _ => alone,
            },
        }
    }
}

/// The body of an indirect object: an object, then an optional `endobj`.
pub open spec fn p_indirect_body(b: Seq<u8>, p: int, lb: Option<(int, int)>) -> Result<Parsed, Error>
    decreases b.len() - p, 4int,
{
    if p < 0 || p > b.len() {
        Err(stalled())
    } else {
        match p_object(b, p, lb) {
            Err(e) => Err(e),
            Ok(po) => match lex(b, po.end) {
                Err(e) => Err(e),
                Ok((t, q)) => match t {
                    TokenView::Keyword(KeywordView::EndObj) => Ok(Parsed { end: q, ..po }),
                    TokenView::Eof => Ok(Parsed { end: q, ..po }),
                    _ => Ok(po),
                },
            },
        }
    }
}

/// The rest of an array whose items so far are `acc`.
pub open spec fn p_array(b: Seq<u8>, p: int, acc: Seq<PdfValue>, lb: Option<(int, int)>) -> Result<Parsed, Error>
    decreases b.len() - p, 1int,
{
    if p < 0 || p > b.len() {
        Err(stalled())
    } else {
        proof {
            law_lex_progress(b, p);
        }
        match lex(b, p) {
            Err(e) => Err(e),
            Ok((t, q)) => match t {
                TokenView::ArrayClose => Ok(Parsed { value: PdfValue::Array(acc), end: q, body: lb }),
                TokenView::Eof => Err(Error::UnexpectedEof { offset: q as usize }),
                _ => match p_from(b, t, q, lb) {
                    Err(e) => Err(e),
                    Ok(po) => if p < po.end <= b.len() {
                        p_array(b, po.end, acc.push(po.value), po.body)
                    } else {
                        Err(stalled())
                    },
                },
            },
        }
    }
}

/// The rest of a dictionary whose entries so far are `acc`, up to and
/// including `>>`: the map, the position after `>>`, the last stream body.
pub open spec fn p_dict_body(b: Seq<u8>, p: int, acc: Map<Seq<u8>, PdfValue>, lb: Option<(int, int)>)
    -> Result<(Map<Seq<u8>, PdfValue>, int, Option<(int, int)>), Error>
    decreases b.len() - p, 0int,
{
    if p < 0 || p > b.len() {
        Err(stalled())
    } else {
        proof {
            law_lex_progress(b, p);
        }
        match lex(b, p) {
            Err(e) => Err(e),
            Ok((kt, q)) => match kt {
                TokenView::DictClose => Ok((acc, q, lb)),
                TokenView::Name(k) => {
                    proof {
                        law_lex_progress(b, q);
                    }
                    match lex(b, q) {
                        Err(e) => Err(e),
                        Ok((vt, q2)) => match vt {
                            TokenView::DictClose => Err(Error::Syntax {
                                offset: q2 as usize,
                                msg: "dictionary key without value (odd token count)",
                            }),
                            TokenView::Eof => Err(Error::UnexpectedEof { offset: q2 as usize }),
                            _ => match p_from(b, vt, q2, lb) {
                                Err(e) => Err(e),
                                Ok(po) => if p < po.end <= b.len() {
                                    p_dict_body(b, po.end, acc.insert(k, po.value), po.body)
                                } else {
                                    Err(stalled())
                                },
                            },
                        },
                    }
                },
                TokenView::Eof => Err(Error::UnexpectedEof { offset: q as usize }),
                _ => Err(Error::Syntax { offset: q as usize, msg: "dictionary key is not a name" }),
            },
        }
    }
}

/// A dictionary (the `<<` read, cursor at `p`), and, when `stream` follows,
/// the stream whose dictionary it is.
pub open spec fn p_dict_or_stream(b: Seq<u8>, p: int, lb: Option<(int, int)>) -> Result<Parsed, Error>
    decreases b.len() - p, 1int,
{
    if p < 0 || p > b.len() {
        Err(stalled())
    } else {
        match p_dict_body(b, p, Map::empty(), lb) {
            Err(e) => Err(e),
            Ok((d, q, lb2)) => match lex(b, q) {
                Err(e) => Err(e),
                Ok((t, q2)) => match t {
                    TokenView::Keyword(KeywordView::Stream) => p_stream(b, d, q2),
                    _ => Ok(Parsed { value: PdfValue::Dictionary(d), end: q, body: lb2 }),
                },
            },
        }
    }
}

// --- stream bodies -----------------------------------------------------------

/// The end of the spaces and tabs starting at `p`.
pub open spec fn blanks_end(b: Seq<u8>, p: int) -> int
    decreases b.len() - p,
{
    if p < 0 || p >= b.len() || !(b[p] == 32 || b[p] == 9) {
        p
    } else {
        blanks_end(b, p + 1)
    }
}

/// Where a stream body starts, `p` being just after `stream`: past blanks
/// and one EOL (CRLF, LF or a lone CR), if there is one.
pub open spec fn body_start(b: Seq<u8>, p: int) -> int {
    let s = blanks_end(b, p);
    if 0 <= s < b.len() && b[s] == 13 {
        if s + 1 < b.len() && b[s + 1] == 10 {
            s + 2
        } else {
            s + 1
        }
    } else if 0 <= s < b.len() && b[s] == 10 {
        s + 1
    } else {
        s
    }
}

/// The end of the whitespace starting at `p`.
pub open spec fn ws_end(b: Seq<u8>, p: int) -> int
    decreases b.len() - p,
{
    if p < 0 || p >= b.len() || !spec_is_whitespace(b[p]) {
        p
    } else {
        ws_end(b, p + 1)
    }
}

/// The keyword `endstream` is spelled at `i`.
pub open spec fn endstream_at(b: Seq<u8>, i: int) -> bool {
    0 <= i && i + 9 <= b.len() && b.subrange(i, i + 9) == "endstream".spec_bytes()
}

/// The first position at or after `i` where `endstream` is spelled, or `-1`.
pub open spec fn find_endstream(b: Seq<u8>, i: int) -> int
    decreases b.len() - i,
{
    if i < 0 || i + 9 > b.len() {
        -1
    } else if endstream_at(b, i) {
        i
    } else {
        find_endstream(b, i + 1)
    }
}

/// The body end when `endstream` is found at `j`: one EOL before it (CRLF,
/// LF or CR) is not part of the body.
pub open spec fn trim_eol(b: Seq<u8>, start: int, j: int) -> int {
    if j > start && b[j - 1] == 10 {
        if j - 1 > start && b[j - 2] == 13 {
            j - 2
        } else {
            j - 1
        }
    } else if j > start && b[j - 1] == 13 {
        j - 1
    } else {
        j
    }
}

/// The body end and resume position found by scanning for `endstream`.
pub open spec fn scan_end(b: Seq<u8>, start: int) -> Result<(int, int), Error> {
    let j = find_endstream(b, start);
    if j < 0 {
        Err(Error::UnexpectedEof { offset: b.len() as usize })
    } else {
        Ok((trim_eol(b, start, j), j))
    }
}

/// The body end and resume position of a stream body starting at `start`:
/// a non-negative integer `/Length` that fits is believed when `endstream`
/// follows it; otherwise the body runs to the `endstream` keyword.
pub open spec fn body_extent(b: Seq<u8>, d: Map<Seq<u8>, PdfValue>, start: int) -> Result<(int, int), Error> {
    let key = "Length".spec_bytes();
    if d.dom().contains(key) && d[key] is Integer && d[key]->Integer_0 >= 0
        && start + d[key]->Integer_0 <= b.len() && endstream_at(b, ws_end(b, start + d[key]->Integer_0)) {
        Ok((start + d[key]->Integer_0, start + d[key]->Integer_0))
    } else {
        scan_end(b, start)
    }
}

/// A stream with dictionary `d`, `p` being just after the `stream` keyword.
pub open spec fn p_stream(b: Seq<u8>, d: Map<Seq<u8>, PdfValue>, p: int) -> Result<Parsed, Error> {
    let start = body_start(b, p);
    match body_extent(b, d, start) {
        Err(e) => Err(e),
        Ok((end, after)) => match lex(b, after) {
            Err(e) => Err(e),
            Ok((t, q)) => Ok(Parsed {
                value: PdfValue::Stream(d, PayloadView { decoded: false, bytes: b.subrange(start, end) }),
                end: if t == TokenView::Keyword(KeywordView::EndStream) { q } else { after },
                body: Some((start, end - start)),
            }),
        },
    }
}

/// A complete indirect object `N G obj … endobj` at `p`: its reference and
/// the outcome of its body.
pub open spec fn p_indirect_object(b: Seq<u8>, p: int) -> Result<(ObjRef, Parsed), Error> {
    match lex(b, p) {
        Err(e) => Err(e),
        Ok((t1, q1)) => match t1 {
            TokenView::Integer(n) => if n >= 0 {
                match lex(b, q1) {
                    Err(e) => Err(e),
                    Ok((t2, q2)) => match t2 {
                        TokenView::Integer(g) => if 0 <= g <= 65535 {
                            match lex(b, q2) {
                                Err(e) => Err(e),
                                Ok((t3, q3)) => match t3 {
                                    TokenView::Keyword(KeywordView::Obj) => match p_indirect_body(b, q3, None) {
                                        Err(e) => Err(e),
                                        Ok(po) => Ok((ObjRef { num: n as u32, gen: g as u16 }, po)),
                                    },
                                    _ => Err(Error::Syntax { offset: q3 as usize, msg: "expected 'obj' keyword" }),
                                },
                            }
                        } else {
                            Err(Error::Syntax { offset: q2 as usize, msg: "expected generation number" })
                        },
                        _ => Err(Error::Syntax { offset: q2 as usize, msg: "expected generation number" }),
                    },
                }
            } else {
                Err(Error::Syntax { offset: q1 as usize, msg: "expected object number" })
            },
            TokenView::Eof => Err(Error::UnexpectedEof { offset: q1 as usize }),
            _ => Err(Error::Syntax { offset: q1 as usize, msg: "expected object number" }),
        },
    }
}

// --- the executable parser --------------------------------------------------

/// A recorded body extent, as integers.
pub open spec fn body_view(o: Option<(usize, usize)>) -> Option<(int, int)> {
    match o {
        Some((s, n)) => Some((s as int, n as int)),
        None => None,
    }
}

/// `r` is what the outcome `s` states, the cursor ending at `end` and the
/// recorded stream body being `body`.
pub open spec fn parsed_as(r: Result<Object, Error>, s: Result<Parsed, Error>, end: int, body: Option<(usize, usize)>) -> bool {
    match s {
        Ok(pd) => r matches Ok(o) && o.value() == pd.value && pd.end == end && pd.body == body_view(body),
        Err(e) => r == Err::<Object, Error>(e),
    }
}

/// The end of the spaces and tabs from `p`.
fn blanks_end_from(buf: &[u8], p: usize) -> (r: usize)
    requires
        p <= buf@.len(),
    ensures
        r == blanks_end(buf@, p as int),
        p <= r <= buf@.len(),
{
    let mut i = p;
    while i < buf.len() && (buf[i] == 32 || buf[i] == 9)
        invariant
            p <= i <= buf@.len(),
            blanks_end(buf@, i as int) == blanks_end(buf@, p as int),
        decreases buf@.len() - i,
    {
        i = i + 1;
    }
    i
}

/// The end of the whitespace from `p`.
fn ws_end_from(buf: &[u8], p: usize) -> (r: usize)
    requires
        p <= buf@.len(),
    ensures
        r == ws_end(buf@, p as int),
        p <= r <= buf@.len(),
{
    let mut i = p;
    while i < buf.len() && is_whitespace(buf[i])
        invariant
            p <= i <= buf@.len(),
            ws_end(buf@, i as int) == ws_end(buf@, p as int),
        decreases buf@.len() - i,
    {
        i = i + 1;
    }
    i
}

/// Whether `endstream` is spelled at `i`.
fn endstream_at_exec(buf: &[u8], i: usize) -> (r: bool)
    ensures
        r == endstream_at(buf@, i as int),
{
    if i > buf.len() || buf.len() - i < 9 {
        return false;
    }
    bytes_equal(vstd::slice::slice_subrange(buf, i, i + 9), "endstream".as_bytes())
}

/// Whether `endstream` follows `pos` after whitespace.
fn endstream_follows(buf: &[u8], pos: usize) -> (r: bool)
    requires
        pos <= buf@.len(),
    ensures
        r == endstream_at(buf@, ws_end(buf@, pos as int)),
{
    let w = ws_end_from(buf, pos);
    endstream_at_exec(buf, w)
}

/// Scans from `start` for `endstream`: the body end (one EOL before the
/// keyword trimmed) and the keyword's position.
fn scan_to_endstream(buf: &[u8], start: usize) -> (r: Result<(usize, usize), Error>)
    requires
        start <= buf@.len(),
    ensures
        match scan_end(buf@, start as int) {
            Ok((e, a)) => r == Ok::<(usize, usize), Error>((e as usize, a as usize)) && start <= e <= a <= buf@.len(),
            Err(err) => r == Err::<(usize, usize), Error>(err),
        },
{
    let mut i = start;
    while i <= buf.len() && buf.len() - i >= 9
        invariant
            start <= i,
            i <= buf@.len() + 1,
            find_endstream(buf@, start as int) == find_endstream(buf@, i as int),
        decreases buf@.len() + 1 - i,
    {
        if endstream_at_exec(buf, i) {
            let mut end = i;
            if end > start && buf[end - 1] == 10 {
                end = end - 1;
                if end > start && buf[end - 1] == 13 {
                    end = end - 1;
                }
            } else if end > start && buf[end - 1] == 13 {
                end = end - 1;
            }
            return Ok((end, i));
        }
        i = i + 1;
    }
    Err(Error::eof(buf.len()))
}

/// A recursive-descent object parser over a [`Lexer`].
pub struct Parser<'a> {
    lexer: Lexer<'a>,
    last_stream_body: Option<(usize, usize)>,
}

impl<'a> Parser<'a> {
    /// The bytes being parsed.
    pub closed spec fn input(self) -> Seq<u8> {
        self.lexer.input()
    }

    /// The cursor position.
    pub closed spec fn pos(self) -> int {
        self.lexer.pos()
    }

    /// The recorded body extent of the last stream parsed.
    pub closed spec fn body(self) -> Option<(usize, usize)> {
        self.last_stream_body
    }

    /// Creates a parser over `buf`.
    pub fn new(buf: &'a [u8]) -> (r: Self)
        ensures
            r.input() == buf@,
            r.pos() == 0,
            r.body() is None,
    {
        Parser { lexer: Lexer::new(buf), last_stream_body: None }
    }

    /// Creates a parser from an existing lexer, starting at its position.
    pub fn from_lexer(lexer: Lexer<'a>) -> (r: Self)
        ensures
            r.input() == lexer.input(),
            r.pos() == lexer.pos(),
            r.body() is None,
    {
        Parser { lexer, last_stream_body: None }
    }

    /// The `(start, len)` byte range, within the parse buffer, of the body
    /// of the last stream that the latest parse read; `None` if it read no
    /// stream.
    pub fn last_stream_body(&self) -> (r: Option<(usize, usize)>)
        ensures
            r == self.body(),
    {
        self.last_stream_body
    }

    /// The current byte offset.
    pub fn offset(&self) -> (r: usize)
        ensures
            r == self.pos(),
            r <= self.input().len(),
    {
        self.lexer.offset()
    }

    /// Parses a single object value at the current position: the outcome
    /// [`p_object`] states. A bare integer followed by `int R` or `int obj`
    /// is folded into a reference or indirect object.
    pub fn parse_object(&mut self) -> (r: Result<Object, Error>)
        ensures
            final(self).input() == old(self).input(),
            parsed_as(r, p_object(old(self).input(), old(self).pos(), None), final(self).pos(), final(self).body()),
    {
        self.last_stream_body = None;
        self.object()
    }

    /// An object at the cursor, the recorded stream body carried over.
    fn object(&mut self) -> (r: Result<Object, Error>)
        ensures
            final(self).input() == old(self).input(),
            parsed_as(r, p_object(old(self).input(), old(self).pos(), body_view(old(self).body())), final(self).pos(), final(self).body()),
            r is Ok ==> old(self).pos() <= final(self).pos() <= final(self).input().len(),
        decreases old(self).input().len() - old(self).pos(), 3int,
    {
        let p0 = self.lexer.offset();
        proof {
            law_lex_progress(self.lexer.input(), p0 as int);
        }
        match self.lexer.next_token() {
            Err(e) => Err(e),
            Ok(tok) => {
                let q = self.lexer.offset();
                self.object_from(tok)
            },
        }
    }

    /// An object whose first token `tok` has already been read.
    fn object_from(&mut self, tok: Token) -> (r: Result<Object, Error>)
        ensures
            final(self).input() == old(self).input(),
            parsed_as(r, p_from(old(self).input(), tok@, old(self).pos(), body_view(old(self).body())), final(self).pos(), final(self).body()),
            r is Ok ==> old(self).pos() <= final(self).pos() <= final(self).input().len(),
        decreases old(self).input().len() - old(self).pos(), 2int,
    {
        let q = self.lexer.offset();
        match tok {
            Token::Integer(i) => self.after_integer(i),
            Token::Real(t) => Ok(Object::Real(t)),
            Token::LiteralString(v) => Ok(Object::String(PdfString::literal(v))),
            Token::HexString(v) => Ok(Object::String(PdfString::hex(v))),
            Token::Name(v) => Ok(Object::Name(Name::from_decoded(v))),
            Token::ArrayOpen => self.array(),
            Token::DictOpen => self.dict_or_stream(),
            Token::Keyword(Keyword::True) => Ok(Object::Boolean(true)),
            Token::Keyword(Keyword::False) => Ok(Object::Boolean(false)),
            Token::Keyword(Keyword::Null) => Ok(Object::Null),
            Token::Eof => Err(Error::eof(q)),
            Token::DictClose => Err(Error::syntax(q, "unexpected closing delimiter")),
            Token::ArrayClose => Err(Error::syntax(q, "unexpected closing delimiter")),
            Token::Keyword(_) => Err(Error::syntax(q, "unexpected keyword where object expected")),
        }
    }

    /// After an integer: a reference, an indirect object, or the integer.
    fn after_integer(&mut self, first: i64) -> (r: Result<Object, Error>)
        ensures
            final(self).input() == old(self).input(),
            parsed_as(r, p_after_int(old(self).input(), first, old(self).pos(), body_view(old(self).body())), final(self).pos(), final(self).body()),
            r is Ok ==> old(self).pos() <= final(self).pos() <= final(self).input().len(),
        decreases old(self).input().len() - old(self).pos(), 1int,
    {
        let after_first = self.lexer.offset();
        proof {
            law_lex_progress(self.lexer.input(), after_first as int);
        }
        let lookahead = match self.lexer.next_token() {
            Err(e) => {
                return Err(e);
            },
            Ok(t) => t,
        };
        match lookahead {
            Token::Integer(gen) => {
                if first >= 0 && 0 <= gen && gen <= 65535 {
                    let q2 = self.lexer.offset();
                    proof {
                        law_lex_progress(self.lexer.input(), q2 as int);
                    }
                    let third = match self.lexer.next_token() {
                        Err(e) => {
                            return Err(e);
                        },
                        Ok(t) => t,
                    };
                    match third {
                        Token::Keyword(Keyword::R) => {
                            Ok(Object::Reference(ObjRef::new(first as u32, gen as u16)))
                        },
                        Token::Keyword(Keyword::Obj) => self.indirect_body(),
                        _ => {
                            self.lexer.seek(after_first);
                            Ok(Object::Integer(first))
                        },
                    }
                } else {
                    self.lexer.seek(after_first);
                    Ok(Object::Integer(first))
                }
            },
            _ => {
                self.lexer.seek(after_first);
                Ok(Object::Integer(first))
            },
        }
    }

    /// An indirect object's body: an object and an optional `endobj`.
    fn indirect_body(&mut self) -> (r: Result<Object, Error>)
        ensures
            final(self).input() == old(self).input(),
            parsed_as(r, p_indirect_body(old(self).input(), old(self).pos(), body_view(old(self).body())), final(self).pos(), final(self).body()),
            r is Ok ==> old(self).pos() <= final(self).pos() <= final(self).input().len(),
        decreases old(self).input().len() - old(self).pos(), 4int,
    {
        let _p0 = self.lexer.offset();
        let obj = match self.object() {
            Err(e) => {
                return Err(e);
            },
            Ok(o) => o,
        };
        let before = self.lexer.offset();
        proof {
            law_lex_progress(self.lexer.input(), before as int);
        }
        match self.lexer.next_token() {
            Err(e) => Err(e),
            Ok(Token::Keyword(Keyword::EndObj)) => Ok(obj),
            Ok(Token::Eof) => Ok(obj),
            Ok(_) => {
                self.lexer.seek(before);
                Ok(obj)
            },
        }
    }

    /// An array, the `[` already read.
    #[verifier::rlimit(30)]
    fn array(&mut self) -> (r: Result<Object, Error>)
        ensures
            final(self).input() == old(self).input(),
            parsed_as(r, p_array(old(self).input(), old(self).pos(), Seq::empty(), body_view(old(self).body())), final(self).pos(), final(self).body()),
            r is Ok ==> old(self).pos() <= final(self).pos() <= final(self).input().len(),
        decreases old(self).input().len() - old(self).pos(), 1int,
    {
        let ghost b = self.lexer.input();
        let ghost p0 = self.lexer.pos();
        let ghost lb0 = body_view(self.last_stream_body);
        let _start = self.lexer.offset();
        let mut items: Vec<Object> = Vec::new();
        loop
            invariant
                self.lexer.input() == b,
                b == old(self).input(),
                p0 <= self.lexer.pos() <= b.len(),
                p0 == old(self).pos(),
                lb0 == body_view(old(self).body()),
                b.len() - p0 == old(self).input().len() - old(self).pos(),
                p_array(b, p0, Seq::empty(), lb0) == p_array(b, self.lexer.pos(), Object::array_values(items@, items@.len() as int), body_view(self.last_stream_body)),
            decreases b.len() - self.lexer.pos(),
        {
            let p = self.lexer.offset();
            proof {
                law_lex_progress(b, p as int);
            }
            let tok = match self.lexer.next_token() {
                Err(e) => {
                    return Err(e);
                },
                Ok(t) => t,
            };
            match tok {
                Token::ArrayClose => {
                    return Ok(Object::Array(items));
                },
                Token::Eof => {
                    return Err(Error::eof(self.lexer.offset()));
                },
                other => {
                    let o = match self.object_from(other) {
                        Err(e) => {
                            return Err(e);
                        },
                        Ok(o) => o,
                    };
                    proof {
                        Object::lemma_array_values_push(items@, o);
                    }
                    items.push(o);
                },
            }
        }
    }

    /// Dictionary entries up to and including `>>`.
    #[verifier::rlimit(30)]
    fn dict_body(&mut self) -> (r: Result<Dict, Error>)
        ensures
            final(self).input() == old(self).input(),
            match p_dict_body(old(self).input(), old(self).pos(), Map::empty(), body_view(old(self).body())) {
                Ok((m, q, lb)) => r matches Ok(d) && d.map() == m && q == final(self).pos() && lb == body_view(final(self).body()),
                Err(e) => r == Err::<Dict, Error>(e),
            },
            r is Ok ==> old(self).pos() <= final(self).pos() <= final(self).input().len(),
        decreases old(self).input().len() - old(self).pos(), 0int,
    {
        let ghost b = self.lexer.input();
        let ghost p0 = self.lexer.pos();
        let ghost lb0 = body_view(self.last_stream_body);
        let _start = self.lexer.offset();
        let mut dict = Dict::new();
        loop
            invariant
                self.lexer.input() == b,
                b == old(self).input(),
                p0 <= self.lexer.pos() <= b.len(),
                p0 == old(self).pos(),
                lb0 == body_view(old(self).body()),
                b.len() - p0 == old(self).input().len() - old(self).pos(),
                p_dict_body(b, p0, Map::empty(), lb0) == p_dict_body(b, self.lexer.pos(), dict.map(), body_view(self.last_stream_body)),
            decreases b.len() - self.lexer.pos(),
        {
            let p = self.lexer.offset();
            proof {
                law_lex_progress(b, p as int);
            }
            let key_tok = match self.lexer.next_token() {
                Err(e) => {
                    return Err(e);
                },
                Ok(t) => t,
            };
            let key = match key_tok {
                Token::DictClose => {
                    return Ok(dict);
                },
                Token::Name(v) => Name::from_decoded(v),
                Token::Eof => {
                    return Err(Error::eof(self.lexer.offset()));
                },
                _ => {
                    return Err(Error::syntax(self.lexer.offset(), "dictionary key is not a name"));
                },
            };
            let q = self.lexer.offset();
            proof {
                law_lex_progress(b, q as int);
            }
            let val_tok = match self.lexer.next_token() {
                Err(e) => {
                    return Err(e);
                },
                Ok(t) => t,
            };
            match val_tok {
                Token::DictClose => {
                    return Err(Error::syntax(self.lexer.offset(), "dictionary key without value (odd token count)"));
                },
                Token::Eof => {
                    return Err(Error::eof(self.lexer.offset()));
                },
                other => {
                    let value = match self.object_from(other) {
                        Err(e) => {
                            return Err(e);
                        },
                        Ok(v) => v,
                    };
                    dict.insert(key, value);
                },
            }
        }
    }

    /// A dictionary, the `<<` already read, and the stream it heads when
    /// `stream` follows.
    fn dict_or_stream(&mut self) -> (r: Result<Object, Error>)
        ensures
            final(self).input() == old(self).input(),
            parsed_as(r, p_dict_or_stream(old(self).input(), old(self).pos(), body_view(old(self).body())), final(self).pos(), final(self).body()),
            r is Ok ==> old(self).pos() <= final(self).pos() <= final(self).input().len(),
        decreases old(self).input().len() - old(self).pos(), 1int,
    {
        let dict = match self.dict_body() {
            Err(e) => {
                return Err(e);
            },
            Ok(d) => d,
        };
        let before = self.lexer.offset();
        proof {
            law_lex_progress(self.lexer.input(), before as int);
        }
        match self.lexer.next_token() {
            Err(e) => Err(e),
            Ok(Token::Keyword(Keyword::Stream)) => {
                match self.stream_body(dict) {
                    Err(e) => Err(e),
                    Ok(s) => Ok(Object::Stream(s)),
                }
            },
            Ok(_) => {
                self.lexer.seek(before);
                Ok(Object::Dictionary(dict))
            },
        }
    }

    /// A stream body after the `stream` keyword, with dictionary `dict`.
    fn stream_body(&mut self, dict: Dict) -> (r: Result<StreamObj, Error>)
        ensures
            final(self).input() == old(self).input(),
            match p_stream(old(self).input(), dict.map(), old(self).pos()) {
                Ok(pd) => r matches Ok(s) && Object::Stream(s).value() == pd.value
                    && pd.end == final(self).pos() && pd.body == body_view(final(self).body()),
                Err(e) => r == Err::<StreamObj, Error>(e),
            },
            r is Ok ==> old(self).pos() <= final(self).pos() <= final(self).input().len(),
    {
        let buf = self.lexer.buffer();
        let p = self.lexer.offset();
        let s = blanks_end_from(buf, p);
        let start: usize = if s < buf.len() && buf[s] == 13 {
            if s + 1 < buf.len() && buf[s + 1] == 10 {
                s + 2
            } else {
                s + 1
            }
        } else if s < buf.len() && buf[s] == 10 {
            s + 1
        } else {
            s
        };
        let declared: Option<i64> = match dict.get(&Name::new("Length")) {
            Some(o) => o.as_i64(),
            None => None,
        };
        let ghost key = "Length".spec_bytes();
        let extent: Result<(usize, usize), Error> = match declared {
            Some(n) => {
                if n >= 0 && (n as u64) <= ((buf.len() - start) as u64) {
                    let end = start + (n as usize);
                    if endstream_follows(buf, end) {
                        Ok((end, end))
                    } else {
                        scan_to_endstream(buf, start)
                    }
                } else {
                    scan_to_endstream(buf, start)
                }
            },
            None => scan_to_endstream(buf, start),
        };
        let (end, after) = match extent {
            Err(e) => {
                return Err(e);
            },
            Ok(x) => x,
        };
        let data = bytes_copy_from_slice(vstd::slice::slice_subrange(buf, start, end));
        self.last_stream_body = Some((start, end - start));
        self.lexer.seek(after);
        proof {
            law_lex_progress(self.lexer.input(), after as int);
        }
        match self.lexer.next_token() {
            Err(e) => {
                return Err(e);
            },
            Ok(Token::Keyword(Keyword::EndStream)) => {},
            Ok(_) => {
                self.lexer.seek(after);
            },
        }
        Ok(StreamObj { dict, data: StreamData::Encoded(data) })
    }

    /// Parses a complete indirect object `N G obj … endobj` from the current
    /// position: the outcome [`p_indirect_object`] states.
    pub fn parse_indirect_object(&mut self) -> (r: Result<(ObjRef, Object), Error>)
        ensures
            final(self).input() == old(self).input(),
            match p_indirect_object(old(self).input(), old(self).pos()) {
                Ok((x, pd)) => r matches Ok((y, o)) && y == x && o.value() == pd.value
                    && pd.end == final(self).pos() && pd.body == body_view(final(self).body()),
                Err(e) => r == Err::<(ObjRef, Object), Error>(e),
            },
    {
        self.last_stream_body = None;
        let n: u32 = match self.lexer.next_token() {
            Err(e) => {
                return Err(e);
            },
            Ok(Token::Integer(n)) => {
                if n >= 0 {
                    n as u32
                } else {
                    return Err(Error::syntax(self.lexer.offset(), "expected object number"));
                }
            },
            Ok(Token::Eof) => {
                return Err(Error::eof(self.lexer.offset()));
            },
            Ok(_) => {
                return Err(Error::syntax(self.lexer.offset(), "expected object number"));
            },
        };
        let g: u16 = match self.lexer.next_token() {
            Err(e) => {
                return Err(e);
            },
            Ok(Token::Integer(g)) => {
                if 0 <= g && g <= 65535 {
                    g as u16
                } else {
                    return Err(Error::syntax(self.lexer.offset(), "expected generation number"));
                }
            },
            Ok(_) => {
                return Err(Error::syntax(self.lexer.offset(), "expected generation number"));
            },
        };
        match self.lexer.next_token() {
            Err(e) => {
                return Err(e);
            },
            Ok(Token::Keyword(Keyword::Obj)) => {},
            Ok(_) => {
                return Err(Error::syntax(self.lexer.offset(), "expected 'obj' keyword"));
            },
        }
        let r = ObjRef::new(n, g);
        match self.indirect_body() {
            Err(e) => Err(e),
            Ok(o) => Ok((r, o)),
        }
    }
}

} // verus!
