//! The façade's value types: its flattened error with a stable `kind`, the
//! document metadata record, the annotation / font / image inventory rows,
//! and the text-string decoding of `/Info` entries.

use vstd::prelude::*;
use vstd::string::StringSliceAdditionalSpecFns;

use crate::document::Version;
use crate::error::Error as CoreError;
use crate::filters::entry;
use crate::limits::Limits;
use crate::encrypt::dict_of;
use crate::object::{Dict, Name, Object, PdfValue};
use crate::store::{effective_ref, resolve_spec, same_outcome, ObjectStore, StoreView};
use crate::text::{be_units, latin1, latin1_string, string_from_utf16_lossy, string_from_utf8_lossy, string_push, units_be, utf16_lossy, utf8_lossy};

verus! {

/// The façade's unified error: the core error flattened into the cases the
/// document surface reports, each with its message.
#[derive(Debug)]
#[non_exhaustive]
pub enum Error {
    /// A file-system failure opening the document path.
    Io(std::io::Error),
    /// A lexical / grammatical / xref / structural violation.
    Syntax(String),
    /// The document needs a password, or a supplied password was wrong.
    Password(String),
    /// A valid-PDF construct not yet implemented, or a deferred surface.
    Unsupported(String),
    /// A filter / codec failed to decode.
    Decode(String),
    /// A resource ceiling was exceeded.
    Limit(String),
    /// A redaction could not be applied safely.
    Redaction(String),
}

impl Error {
    /// The stable discriminant string of an error.
    pub open spec fn kind_text(&self) -> &'static str {
        match self {
            Error::Io(_) => "io",
            Error::Syntax(_) => "syntax",
            Error::Password(_) => "password",
            Error::Unsupported(_) => "unsupported",
            Error::Decode(_) => "decode",
            Error::Limit(_) => "limit-exceeded",
            Error::Redaction(_) => "redaction",
        }
    }

    /// A short, stable discriminant string (machine-greppable, never
    /// localized).
    pub fn kind(&self) -> (r: &'static str)
        ensures
            r == self.kind_text(),
    {
        match self {
            Error::Io(_) => "io",
            Error::Syntax(_) => "syntax",
            Error::Password(_) => "password",
            Error::Unsupported(_) => "unsupported",
            Error::Decode(_) => "decode",
            Error::Limit(_) => "limit-exceeded",
            Error::Redaction(_) => "redaction",
        }
    }
}

impl Error {
    /// The façade error for a core error `e` whose display text is
    /// `message`: I/O stays I/O; decode and filter faults become
    /// [`Error::Decode`] and limit faults [`Error::Limit`], both carrying the
    /// text; an unsupported construct keeps its own description; every
    /// other fault (lexical, structural, cross-reference, object) surfaces as
    /// [`Error::Syntax`] with the text.
    pub fn from_core(e: CoreError, message: String) -> (r: Error)
        ensures
            match e {
                CoreError::Io(io) => r == Error::Io(io),
                CoreError::Decode { .. } | CoreError::Filter { .. } => r == Error::Decode(message),
                CoreError::LimitExceeded(_) => r == Error::Limit(message),
                CoreError::Unsupported(m) => r matches Error::Unsupported(t) && t@ == m@,
                _ => r == Error::Syntax(message),
            },
            (e is Io || e is Syntax || e is Decode || e is Unsupported || e is LimitExceeded)
                ==> r.kind_text() == e.kind_text(),
    {
        match e {
            CoreError::Io(io) => Error::Io(io),
            CoreError::Decode { .. } | CoreError::Filter { .. } => Error::Decode(message),
            CoreError::LimitExceeded(_) => Error::Limit(message),
            CoreError::Unsupported(m) => Error::Unsupported(String::from_str(m)),
            _ => Error::Syntax(message),
        }
    }
}

/// The `Limits` used when reopening untrusted image inputs (the hard-safe
/// default).
pub fn default_limits() -> (r: Limits)
    ensures
        r == Limits::spec_default(),
{
    Limits::default()
}

/// What a PDF text string reads as: UTF-16BE after the `FE FF` byte order
/// mark, UTF-8 after the `EF BB BF` one, otherwise one character per byte.
pub open spec fn pdf_text_spec(b: Seq<u8>) -> Seq<char> {
    if b.len() >= 2 && b[0] == 0xfe && b[1] == 0xff {
        utf16_lossy(be_units(b.subrange(2, b.len() as int)))
    } else if b.len() >= 3 && b[0] == 0xef && b[1] == 0xbb && b[2] == 0xbf {
        utf8_lossy(b.subrange(3, b.len() as int))
    } else {
        latin1(b)
    }
}

/// Decodes a PDF text string (see [`pdf_text_spec`]).
pub fn decode_pdf_text(bytes: &[u8]) -> (r: String)
    ensures
        r@ == pdf_text_spec(bytes@),
{
    if bytes.len() >= 2 && bytes[0] == 0xfe && bytes[1] == 0xff {
        let units = units_be(vstd::slice::slice_subrange(bytes, 2, bytes.len()));
        string_from_utf16_lossy(units.as_slice())
    } else if bytes.len() >= 3 && bytes[0] == 0xef && bytes[1] == 0xbb && bytes[2] == 0xbf {
        string_from_utf8_lossy(vstd::slice::slice_subrange(bytes, 3, bytes.len()))
    } else {
        latin1_string(bytes)
    }
}

/// The decoded text of a string entry `key` of `m`, `None` when the entry is
/// absent or not a string.
pub open spec fn info_text(m: Map<Seq<u8>, PdfValue>, key: Seq<u8>) -> Option<Seq<char>> {
    match entry(m, key) {
        Some(PdfValue::Str(b, _)) => Some(pdf_text_spec(b)),
        _ => None,
    }
}

/// The view of an optional string.
pub open spec fn opt_view(o: Option<String>) -> Option<Seq<char>> {
    match o {
        Some(s) => Some(s@),
        None => None,
    }
}

/// Reads `/Info` key `key` as decoded text, or `None` if absent or not a
/// string.
pub fn info_string(info: &Dict, key: &str) -> (r: Option<String>)
    ensures
        opt_view(r) == info_text(info.map(), key.spec_bytes()),
{
    match info.get(&Name::new(key)) {
        Some(o) => match o.as_string() {
            Some(s) => Some(decode_pdf_text(s.as_bytes())),
            None => None,
        },
        None => None,
    }
}

/// The decimal digit character of `d` (for `d < 10`).
pub open spec fn digit_char(d: int) -> char {
    ((d + 48) as u8) as char
}

/// The decimal representation of `n`.
pub open spec fn decimal(n: u8) -> Seq<char> {
    if n < 10 {
        seq![digit_char(n as int)]
    } else if n < 100 {
        seq![digit_char((n / 10) as int), digit_char((n % 10) as int)]
    } else {
        seq![digit_char((n / 100) as int), digit_char(((n / 10) % 10) as int), digit_char((n % 10) as int)]
    }
}

/// `"PDF M.N"`.
pub open spec fn format_spec(v: Version) -> Seq<char> {
    seq!['P', 'D', 'F', ' '] + decimal(v.major) + seq!['.'] + decimal(v.minor)
}

/// Appends the decimal digits of `n` to `s`.
fn push_decimal(s: &mut String, n: u8)
    ensures
        final(s)@ == old(s)@ + decimal(n),
{
    if n >= 100 {
        string_push(s, (48 + n / 100) as char);
    }
    if n >= 10 {
        string_push(s, (48 + (n / 10) % 10) as char);
    }
    string_push(s, (48 + n % 10) as char);
    proof {
        assert(final(s)@ =~= old(s)@ + decimal(n));
    }
}

/// The format descriptor `"PDF M.N"` of a version.
pub fn format_version(v: Version) -> (r: String)
    ensures
        r@ == format_spec(v),
{
    let mut s = String::new();
    string_push(&mut s, 'P');
    string_push(&mut s, 'D');
    string_push(&mut s, 'F');
    string_push(&mut s, ' ');
    push_decimal(&mut s, v.major);
    string_push(&mut s, '.');
    push_decimal(&mut s, v.minor);
    proof {
        assert(s@ =~= format_spec(v));
    }
    s
}

/// Document metadata. All textual fields are empty when absent in the
/// key/value listing.
#[derive(Clone, Debug, PartialEq, Eq)]
pub struct Metadata {
    /// `"PDF M.N"`.
    pub format: String,
    /// The encryption descriptor, or empty if unencrypted.
    pub encryption: String,
    /// `/Info /Title`.
    pub title: Option<String>,
    /// `/Info /Author`.
    pub author: Option<String>,
    /// `/Info /Subject`.
    pub subject: Option<String>,
    /// `/Info /Keywords`.
    pub keywords: Option<String>,
    /// `/Info /Creator`.
    pub creator: Option<String>,
    /// `/Info /Producer`.
    pub producer: Option<String>,
    /// `/Info /CreationDate` (`D:YYYYMMDDHHmmSS±HH'mm'`, verbatim).
    pub creation_date: Option<String>,
    /// `/Info /ModDate`.
    pub mod_date: Option<String>,
    /// `/Info /Trapped`.
    pub trapped: Option<String>,
}

/// The text of an optional string, empty when absent.
pub open spec fn text_or_empty(o: Option<String>) -> Seq<char> {
    match o {
        Some(s) => s@,
        None => Seq::empty(),
    }
}

/// A copy of an optional string, empty when absent.
fn or_empty(o: &Option<String>) -> (r: String)
    ensures
        r@ == text_or_empty(*o),
{
    match o {
        Some(s) => s.clone(),
        None => String::new(),
    }
}

impl Default for Metadata {
    fn default() -> (r: Self)
        ensures
            r.format@ == Seq::<char>::empty(),
            r.encryption@ == Seq::<char>::empty(),
            r.title is None && r.author is None && r.subject is None && r.keywords is None,
            r.creator is None && r.producer is None && r.creation_date is None,
            r.mod_date is None && r.trapped is None,
    {
        Metadata {
            format: String::new(),
            encryption: String::new(),
            title: None,
            author: None,
            subject: None,
            keywords: None,
            creator: None,
            producer: None,
            creation_date: None,
            mod_date: None,
            trapped: None,
        }
    }
}

impl Metadata {
    /// The metadata of a document of version `version` with encryption
    /// descriptor `encryption` and `/Info` dictionary `info`: each text
    /// field is the decoded string entry of the same name, `None` when it is
    /// absent or not a string, or when there is no `/Info`.
    pub fn from_info(version: Version, encryption: String, info: Option<&Dict>) -> (r: Metadata)
        ensures
            r.format@ == format_spec(version),
            r.encryption == encryption,
            opt_view(r.title) == (match info { Some(d) => info_text(d.map(), "Title".spec_bytes()), None => None }),
            opt_view(r.author) == (match info { Some(d) => info_text(d.map(), "Author".spec_bytes()), None => None }),
            opt_view(r.subject) == (match info { Some(d) => info_text(d.map(), "Subject".spec_bytes()), None => None }),
            opt_view(r.keywords) == (match info { Some(d) => info_text(d.map(), "Keywords".spec_bytes()), None => None }),
            opt_view(r.creator) == (match info { Some(d) => info_text(d.map(), "Creator".spec_bytes()), None => None }),
            opt_view(r.producer) == (match info { Some(d) => info_text(d.map(), "Producer".spec_bytes()), None => None }),
            opt_view(r.creation_date) == (match info { Some(d) => info_text(d.map(), "CreationDate".spec_bytes()), None => None }),
            opt_view(r.mod_date) == (match info { Some(d) => info_text(d.map(), "ModDate".spec_bytes()), None => None }),
            opt_view(r.trapped) == (match info { Some(d) => info_text(d.map(), "Trapped".spec_bytes()), None => None }),
    {
        let mut md = Metadata::default();
        md.format = format_version(version);
        md.encryption = encryption;
        match info {
            Some(d) => {
                md.title = info_string(d, "Title");
                md.author = info_string(d, "Author");
                md.subject = info_string(d, "Subject");
                md.keywords = info_string(d, "Keywords");
                md.creator = info_string(d, "Creator");
                md.producer = info_string(d, "Producer");
                md.creation_date = info_string(d, "CreationDate");
                md.mod_date = info_string(d, "ModDate");
                md.trapped = info_string(d, "Trapped");
            },
            None => {},
        }
        md
    }

    /// The metadata as ordered `(key, value)` pairs. Absent text fields are
    /// the empty string.
    pub fn as_pairs(&self) -> (r: Vec<(&'static str, String)>)
        ensures
            r@.len() == 11,
            r@[0].0 == "format" && r@[0].1@ == self.format@,
            r@[1].0 == "title" && r@[1].1@ == text_or_empty(self.title),
            r@[2].0 == "author" && r@[2].1@ == text_or_empty(self.author),
            r@[3].0 == "subject" && r@[3].1@ == text_or_empty(self.subject),
            r@[4].0 == "keywords" && r@[4].1@ == text_or_empty(self.keywords),
            r@[5].0 == "creator" && r@[5].1@ == text_or_empty(self.creator),
            r@[6].0 == "producer" && r@[6].1@ == text_or_empty(self.producer),
            r@[7].0 == "creationDate" && r@[7].1@ == text_or_empty(self.creation_date),
            r@[8].0 == "modDate" && r@[8].1@ == text_or_empty(self.mod_date),
            r@[9].0 == "trapped" && r@[9].1@ == text_or_empty(self.trapped),
            r@[10].0 == "encryption" && r@[10].1@ == self.encryption@,
    {
        let mut v: Vec<(&'static str, String)> = Vec::new();
        v.push(("format", self.format.clone()));
        v.push(("title", or_empty(&self.title)));
        v.push(("author", or_empty(&self.author)));
        v.push(("subject", or_empty(&self.subject)));
        v.push(("keywords", or_empty(&self.keywords)));
        v.push(("creator", or_empty(&self.creator)));
        v.push(("producer", or_empty(&self.producer)));
        v.push(("creationDate", or_empty(&self.creation_date)));
        v.push(("modDate", or_empty(&self.mod_date)));
        v.push(("trapped", or_empty(&self.trapped)));
        v.push(("encryption", self.encryption.clone()));
        v
    }
}

/// The dictionary a trailer value stands for: a reference resolved, a
/// direct dictionary (or stream dictionary) as it is.
pub open spec fn value_dict(v: StoreView, val: PdfValue) -> Option<Map<Seq<u8>, PdfValue>> {
    match val {
        PdfValue::Reference(r) => match resolve_spec(v, r) {
            Ok(o) => dict_of(o),
            Err(_) => None,
        },
        other => dict_of(other),
    }
}

/// The `/Info` dictionary: the effective trailer reference resolved; when
/// there is none, the `/Info` entry of the trailer as read.
pub open spec fn info_dict_spec(v: StoreView) -> Option<Map<Seq<u8>, PdfValue>> {
    match effective_ref(v, "Info".spec_bytes()) {
        Some(r) => value_dict(v, PdfValue::Reference(r)),
        None => match entry(v.trailer, "Info".spec_bytes()) {
            Some(val) => value_dict(v, val),
            None => None,
        },
    }
}

/// The `/Encrypt` dictionary of the trailer as read.
pub open spec fn encrypt_dict_spec(v: StoreView) -> Option<Map<Seq<u8>, PdfValue>> {
    match entry(v.trailer, "Encrypt".spec_bytes()) {
        Some(val) => value_dict(v, val),
        None => None,
    }
}

/// The view of an optional dictionary.
pub open spec fn opt_map(d: Option<Dict>) -> Option<Map<Seq<u8>, PdfValue>> {
    match d {
        Some(d) => Some(d.map()),
        None => None,
    }
}

/// The dictionary of a resolved object, copied.
fn dict_copy_of(r: Result<Object, CoreError>) -> (d: Option<Dict>)
    ensures
        opt_map(d) == (match r {
            Ok(o) => dict_of(o.value()),
            Err(_) => None,
        }),
{
    match r {
        Ok(o) => match o.as_dict() {
            Some(d) => Some(d.copy()),
            None => None,
        },
        Err(_) => None,
    }
}

/// The dictionary a trailer value stands for (see [`value_dict`]).
fn trailer_value_dict(store: &ObjectStore, val: &Object) -> (d: Option<Dict>)
    ensures
        opt_map(d) == value_dict(store@, val.value()),
{
    match val {
        Object::Reference(r) => dict_copy_of(store.resolve(*r)),
        direct => match direct.as_dict() {
            Some(d) => Some(d.copy()),
            None => None,
        },
    }
}

/// The document's `/Info` dictionary, resolved (an edit-time override of
/// the trailer's `/Info` reference is honoured).
pub fn info_dict(store: &ObjectStore) -> (d: Option<Dict>)
    ensures
        opt_map(d) == info_dict_spec(store@),
{
    match store.effective_trailer_ref("Info") {
        Some(r) => {
            return dict_copy_of(store.resolve(r));
        },
        None => {},
    }
    match store.trailer().get(&Name::new("Info")) {
        Some(val) => trailer_value_dict(store, val),
        None => None,
    }
}

/// The trailer's `/Encrypt` dictionary, resolved.
pub fn encrypt_dict(store: &ObjectStore) -> (d: Option<Dict>)
    ensures
        opt_map(d) == encrypt_dict_spec(store@),
{
    match store.trailer().get(&Name::new("Encrypt")) {
        Some(val) => trailer_value_dict(store, val),
        None => None,
    }
}

/// The decimal digits of `n`.
pub open spec fn nat_text(n: nat) -> Seq<char>
    decreases n,
{
    if n < 10 {
        seq![digit_char(n as int)]
    } else {
        nat_text(n / 10) + seq![digit_char((n % 10) as int)]
    }
}

/// The decimal representation of `n`, with a leading `-` when negative.
pub open spec fn int_text(n: int) -> Seq<char> {
    if n < 0 {
        seq!['-'] + nat_text((-n) as nat)
    } else {
        nat_text(n as nat)
    }
}

/// Appends the decimal digits of `n` to `s`.
fn push_nat(s: &mut String, n: u64)
    ensures
        final(s)@ == old(s)@ + nat_text(n as nat),
    decreases n,
{
    if n >= 10 {
        push_nat(s, n / 10);
    }
    let d: u8 = (n % 10) as u8;
    string_push(s, (48 + d) as char);
    proof {
        assert(final(s)@ =~= old(s)@ + nat_text(n as nat));
    }
}

/// Appends the decimal representation of `n` to `s`.
fn push_int(s: &mut String, n: i64)
    ensures
        final(s)@ == old(s)@ + int_text(n as int),
{
    if n < 0 {
        string_push(s, '-');
        let m: u64 = ((-(n + 1)) as u64) + 1;
        push_nat(s, m);
    } else {
        push_nat(s, n as u64);
    }
    proof {
        assert(final(s)@ =~= old(s)@ + int_text(n as int));
    }
}

/// An integer entry of `m`, or `default` when absent or not an integer.
pub open spec fn int_or(m: Map<Seq<u8>, PdfValue>, key: Seq<u8>, default: i64) -> i64 {
    match entry(m, key) {
        Some(PdfValue::Integer(i)) => i,
        _ => default,
    }
}

/// The encryption descriptor: empty for an unencrypted document;
/// `"Standard V<v> R<r> <len>-bit"` from the `/Encrypt` dictionary (`/V`
/// and `/R` default to 0, `/Length` to 40); just `"Standard"` when the
/// dictionary cannot be read.
pub open spec fn encryption_spec(v: StoreView, encrypted: bool) -> Seq<char> {
    if !encrypted {
        Seq::empty()
    } else {
        match encrypt_dict_spec(v) {
            Some(m) => seq!['S', 't', 'a', 'n', 'd', 'a', 'r', 'd', ' ', 'V'] + int_text(int_or(m, "V".spec_bytes(), 0) as int)
                + seq![' ', 'R'] + int_text(int_or(m, "R".spec_bytes(), 0) as int)
                + seq![' '] + int_text(int_or(m, "Length".spec_bytes(), 40) as int)
                + seq!['-', 'b', 'i', 't'],
            None => seq!['S', 't', 'a', 'n', 'd', 'a', 'r', 'd'],
        }
    }
}

/// An integer entry of `d`, or `default`.
fn int_entry(d: &Dict, key: &str, default: i64) -> (r: i64)
    ensures
        r == int_or(d.map(), key.spec_bytes(), default),
{
    match d.get(&Name::new(key)) {
        Some(o) => match o.as_i64() {
            Some(i) => i,
            None => default,
        },
        None => default,
    }
}

/// Appends the characters of `t` to `s`.
fn push_all(s: &mut String, t: &str)
    ensures
        final(s)@ == old(s)@ + t@,
{
    let n = t.unicode_len();
    let mut i: usize = 0;
    while i < n
        invariant
            n == t@.len(),
            i <= n,
            s@ == old(s)@ + t@.take(i as int),
        decreases n - i,
    {
        string_push(s, t.get_char(i));
        proof {
            assert(t@.take(i + 1) =~= t@.take(i as int).push(t@[i as int]));
        }
        i = i + 1;
    }
    proof {
        assert(t@.take(n as int) =~= t@);
    }
}

/// The encryption descriptor of a document whose security handler is
/// `encrypted` (see [`encryption_spec`]).
pub fn encryption_name(store: &ObjectStore, encrypted: bool) -> (r: String)
    ensures
        r@ == encryption_spec(store@, encrypted),
{
    let mut s = String::new();
    if !encrypted {
        return s;
    }
    proof {
        reveal_strlit("Standard");
        reveal_strlit(" V");
        reveal_strlit(" R");
        reveal_strlit(" ");
        reveal_strlit("-bit");
    }
    push_all(&mut s, "Standard");
    match encrypt_dict(store) {
        Some(enc) => {
            let v = int_entry(&enc, "V", 0);
            let r = int_entry(&enc, "R", 0);
            let len = int_entry(&enc, "Length", 40);
            push_all(&mut s, " V");
            push_int(&mut s, v);
            push_all(&mut s, " R");
            push_int(&mut s, r);
            push_all(&mut s, " ");
            push_int(&mut s, len);
            push_all(&mut s, "-bit");
            proof {
                assert(s@ =~= encryption_spec(store@, encrypted));
            }
        },
        None => {
            proof {
                assert(s@ =~= encryption_spec(store@, encrypted));
            }
        },
    }
    s
}

/// The metadata of a document: its format from `version`, its encryption
/// descriptor (see [`encryption_name`]) and the string entries of its
/// `/Info` dictionary (see [`info_dict`]).
pub fn metadata(store: &ObjectStore, version: Version, encrypted: bool) -> (r: Metadata)
    ensures
        r.format@ == format_spec(version),
        r.encryption@ == encryption_spec(store@, encrypted),
        opt_view(r.title) == (match info_dict_spec(store@) { Some(m) => info_text(m, "Title".spec_bytes()), None => None }),
        opt_view(r.author) == (match info_dict_spec(store@) { Some(m) => info_text(m, "Author".spec_bytes()), None => None }),
        opt_view(r.subject) == (match info_dict_spec(store@) { Some(m) => info_text(m, "Subject".spec_bytes()), None => None }),
        opt_view(r.keywords) == (match info_dict_spec(store@) { Some(m) => info_text(m, "Keywords".spec_bytes()), None => None }),
        opt_view(r.creator) == (match info_dict_spec(store@) { Some(m) => info_text(m, "Creator".spec_bytes()), None => None }),
        opt_view(r.producer) == (match info_dict_spec(store@) { Some(m) => info_text(m, "Producer".spec_bytes()), None => None }),
        opt_view(r.creation_date) == (match info_dict_spec(store@) { Some(m) => info_text(m, "CreationDate".spec_bytes()), None => None }),
        opt_view(r.mod_date) == (match info_dict_spec(store@) { Some(m) => info_text(m, "ModDate".spec_bytes()), None => None }),
        opt_view(r.trapped) == (match info_dict_spec(store@) { Some(m) => info_text(m, "Trapped".spec_bytes()), None => None }),
{
    let info = info_dict(store);
    Metadata::from_info(version, encryption_name(store, encrypted), info.as_ref())
}

/// An annotation's info fields (`content` `/Contents`, `name` `/NM`,
/// `title` `/T`).
#[derive(Clone, Debug, PartialEq, Eq)]
pub struct AnnotInfo {
    /// `/Contents` text.
    pub content: String,
    /// `/NM` annotation name.
    pub name: String,
    /// `/T` title (author).
    pub title: String,
}

impl Default for AnnotInfo {
    fn default() -> (r: Self)
        ensures
            r.content@ == Seq::<char>::empty(),
            r.name@ == Seq::<char>::empty(),
            r.title@ == Seq::<char>::empty(),
    {
        AnnotInfo { content: String::new(), name: String::new(), title: String::new() }
    }
}

/// One font inventory entry, in the order
/// `(xref, ext, type, basefont, name, encoding, referencer)`.
#[derive(Clone, Debug, PartialEq, Eq)]
pub struct FontInfo {
    /// The font object's number, or `0` if the font dictionary is direct.
    pub xref: i32,
    /// Embedded-font format hint: `"ttf"`, `"cff"`/`"otf"`, `"pfb"`, else
    /// `"n/a"`.
    pub ext: String,
    /// The font `/Subtype`.
    pub type_: String,
    /// The `/BaseFont` name, subset tag retained.
    pub basefont: String,
    /// The resource name the font is referenced under.
    pub name: String,
    /// The `/Encoding`: a name verbatim, or a dictionary's `/BaseEncoding`,
    /// else empty.
    pub encoding: String,
    /// The number of the object that references the font.
    pub referencer: i32,
}

/// One image inventory entry, in the order `(xref, smask, width, height,
/// bpc, colorspace, alt_colorspace, name, filter, referencer)`.
#[derive(Clone, Debug, PartialEq, Eq)]
pub struct ImageInfo {
    /// The image XObject's number, or `0` if direct.
    pub xref: i32,
    /// The `/SMask` number if present, else `0`.
    pub smask: i32,
    /// `/Width`.
    pub width: i32,
    /// `/Height`.
    pub height: i32,
    /// `/BitsPerComponent` (`0` if absent).
    pub bpc: i32,
    /// The colorspace name, or the first array element's name, else empty.
    pub colorspace: String,
    /// The ICCBased alternate colorspace if trivially available, else empty.
    pub alt_colorspace: String,
    /// The resource name the image is referenced under.
    pub name: String,
    /// The `/Filter` name (or the first of an array; empty if none).
    pub filter: String,
    /// The number of the referencing object.
    pub referencer: i32,
}

} // verus!
