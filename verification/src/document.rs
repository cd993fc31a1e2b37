//! Document-level header facts: the `%PDF-m.n` version header and the
//! catalog `/Version` override; and the decisions of opening a document:
//! whether the cross-reference parse is used, reconstructed, or the open
//! fails.

use vstd::prelude::*;
use vstd::string::StringSliceAdditionalSpecFns;

use crate::encrypt::dict_of;
use crate::error::Error;
use crate::filters::entry;
use crate::object::{Dict, Name, Object, PdfValue};
use crate::store::{dict_key_spec, resolve_spec, ObjectStore, StoreView};

verus! {

/// The PDF version `(major, minor)` from the header / catalog `/Version`.
#[derive(Copy, Clone, PartialEq, Eq, Debug)]
pub struct Version {
    /// Major version (always 1 or 2 for real PDFs).
    pub major: u8,
    /// Minor version.
    pub minor: u8,
}

/// How far into the file the header is looked for.
pub const HEADER_WINDOW: usize = 1024;

/// Whether `b` is an ASCII decimal digit.
pub open spec fn is_digit(b: u8) -> bool {
    48 <= b <= 57
}

/// `M.N` with single ASCII digits at the start of `b` (bytes past the third
/// are ignored).
pub open spec fn version_name_spec(b: Seq<u8>) -> Option<Version> {
    if b.len() >= 3 && is_digit(b[0]) && b[1] == 46 && is_digit(b[2]) {
        Some(Version { major: (b[0] - 48) as u8, minor: (b[2] - 48) as u8 })
    } else {
        None
    }
}

/// Whether `%PDF-` starts at `p` in `b`.
pub open spec fn header_at(b: Seq<u8>, p: int) -> bool {
    0 <= p && p + 5 <= b.len() && b[p] == 37 && b[p + 1] == 80 && b[p + 2] == 68 && b[p + 3] == 70
        && b[p + 4] == 45
}

/// The first `p >= from` with `p + 5 <= w` where `%PDF-` starts.
pub open spec fn first_header(b: Seq<u8>, w: int, from: int) -> Option<int>
    decreases w - from,
{
    if from < 0 || from + 5 > w {
        None
    } else if header_at(b, from) {
        Some(from)
    } else {
        first_header(b, w, from + 1)
    }
}

/// The three bytes after the header marker at `p`, or nothing when the file
/// ends before them.
pub open spec fn version_bytes(b: Seq<u8>, after: int) -> Seq<u8> {
    if after + 3 <= b.len() {
        b.subrange(after, after + 3)
    } else {
        Seq::empty()
    }
}

/// What the header parse gives: the version and the offset of `%PDF-`
/// within the first 1024 bytes.
pub open spec fn parse_header_spec(b: Seq<u8>) -> Result<(Version, usize), Error> {
    let w = if b.len() < HEADER_WINDOW { b.len() as int } else { HEADER_WINDOW as int };
    match first_header(b, w, 0) {
        None => Err(Error::Unsupported("missing %PDF- header")),
        Some(p) => match version_name_spec(version_bytes(b, p + 5)) {
            None => Err(Error::Unsupported("malformed %PDF- version")),
            Some(v) => Ok((v, p as usize)),
        },
    }
}

/// Parses `b"1.7"` / `b"2.0"` (or a name like `1.5`) into a [`Version`].
pub fn parse_version_name(bytes: &[u8]) -> (r: Option<Version>)
    ensures
        r == version_name_spec(bytes@),
{
    if bytes.len() < 3 {
        return None;
    }
    if bytes[0] < 48 || bytes[0] > 57 || bytes[1] != 46 || bytes[2] < 48 || bytes[2] > 57 {
        return None;
    }
    Some(Version { major: bytes[0] - 48, minor: bytes[2] - 48 })
}

/// Locates the `%PDF-m.n` header within the first 1024 bytes (junk before it
/// is tolerated) and returns the version plus the header's byte offset.
pub fn parse_header(buf: &[u8]) -> (r: Result<(Version, usize), Error>)
    ensures
        r == parse_header_spec(buf@),
{
    let w: usize = if buf.len() < HEADER_WINDOW { buf.len() } else { HEADER_WINDOW };
    let ghost wi: int = w as int;
    let mut p: usize = 0;
    while p + 5 <= w
        invariant
            w <= buf@.len(),
            wi == w,
            wi == (if buf@.len() < HEADER_WINDOW { buf@.len() as int } else { HEADER_WINDOW as int }),
            w <= HEADER_WINDOW,
            p <= w,
            first_header(buf@, wi, 0) == first_header(buf@, wi, p as int),
        decreases w - p,
    {
        if buf[p] == 37 && buf[p + 1] == 80 && buf[p + 2] == 68 && buf[p + 3] == 70 && buf[p + 4] == 45 {
            let after = p + 5;
            let version = if after + 3 <= buf.len() {
                parse_version_name(vstd::slice::slice_subrange(buf, after, after + 3))
            } else {
                None
            };
            proof {
                assert(header_at(buf@, p as int));
                assert(first_header(buf@, wi, p as int) == Some(p as int));
            }
            return match version {
                Some(v) => Ok((v, p)),
                None => Err(Error::Unsupported("malformed %PDF- version")),
            };
        }
        p = p + 1;
    }
    Err(Error::Unsupported("missing %PDF- header"))
}

/// The version a document reports: the catalog's `/Version` name when it
/// parses, otherwise the header's.
pub fn catalog_version(catalog: &Dict, header: Version) -> (r: Version)
    ensures
        r == (match entry(catalog.map(), "Version".spec_bytes()) {
            Some(PdfValue::Name(n)) => match version_name_spec(n) {
                Some(v) => v,
                None => header,
            },
            _ => header,
        }),
{
    match catalog.get(&Name::new("Version")) {
        Some(Object::Name(n)) => match parse_version_name(n.as_bytes()) {
            Some(v) => v,
            None => header,
        },
        _ => header,
    }
}

/// How far past the header the linearization dictionary is looked for.
pub const LINEARIZED_WINDOW: usize = 4096;

/// The bytes of `/Linearized`.
pub open spec fn linearized_marker() -> Seq<u8> {
    seq![47u8, 76, 105, 110, 101, 97, 114, 105, 122, 101, 100]
}

/// Whether the bytes `/Linearized` start at `p` in `b`.
pub open spec fn linearized_at(b: Seq<u8>, p: int) -> bool {
    0 <= p && p + 11 <= b.len() && b.subrange(p, p + 11) == linearized_marker()
}

/// Whether a linearized file is announced: `/Linearized` occurs within the
/// 4096 bytes after the header (both ends clamped to the file).
pub open spec fn linearized_spec(b: Seq<u8>, header_offset: usize) -> bool {
    let start: int = if header_offset < b.len() { header_offset as int } else { b.len() as int };
    let end: int = if start + LINEARIZED_WINDOW < b.len() { start + LINEARIZED_WINDOW } else { b.len() as int };
    exists|p: int| start <= p && p + 11 <= end && #[trigger] linearized_at(b, p)
}

/// Whether the file is linearized: the linearization parameter dictionary
/// is the first object after the header, so its `/Linearized` key lies in
/// the leading window.
pub fn is_linearized(bytes: &[u8], header_offset: usize) -> (r: bool)
    ensures
        r == linearized_spec(bytes@, header_offset),
{
    let marker: [u8; 11] = [47, 76, 105, 110, 101, 97, 114, 105, 122, 101, 100];
    proof {
        assert(marker@ =~= linearized_marker());
    }
    let start: usize = if header_offset < bytes.len() { header_offset } else { bytes.len() };
    let end: usize = if LINEARIZED_WINDOW < bytes.len() - start { start + LINEARIZED_WINDOW } else { bytes.len() };
    let mut p: usize = start;
    while end >= 11 && p <= end - 11
        invariant
            marker@ == linearized_marker(),
            marker@.len() == 11,
            start <= p,
            end <= bytes@.len(),
            start == (if header_offset < bytes@.len() { header_offset as int } else { bytes@.len() as int }),
            end == (if start + LINEARIZED_WINDOW < bytes@.len() { start + LINEARIZED_WINDOW } else { bytes@.len() as int }),
            forall|q: int| start <= q < p ==> !#[trigger] linearized_at(bytes@, q),
        decreases end - p,
    {
        let mut k: usize = 0;
        let mut same = true;
        proof {
            assert(bytes@.subrange(p as int, p as int) =~= marker@.take(0));
        }
        while k < 11
            invariant
                p + 11 <= end,
                end <= bytes@.len(),
                marker@ == linearized_marker(),
                marker@.len() == 11,
                k <= 11,
                same == (bytes@.subrange(p as int, p + k) == marker@.take(k as int)),
            decreases 11 - k,
        {
            let eq = bytes[p + k] == marker[k];
            proof {
                let a = bytes@.subrange(p as int, p + k);
                let b = marker@.take(k as int);
                assert(bytes@.subrange(p as int, p + k + 1) =~= a.push(bytes@[p + k]));
                assert(marker@.take(k + 1) =~= b.push(marker@[k as int]));
                if a.push(bytes@[p + k]) == b.push(marker@[k as int]) {
                    assert(a =~= a.push(bytes@[p + k]).drop_last());
                    assert(b =~= b.push(marker@[k as int]).drop_last());
                    assert(bytes@[p + k] == a.push(bytes@[p + k]).last());
                }
            }
            if !eq {
                same = false;
            }
            k = k + 1;
        }
        proof {
            assert(marker@.take(11) =~= marker@);
        }
        if same {
            proof {
                assert(linearized_at(bytes@, p as int));
            }
            return true;
        }
        p = p + 1;
    }
    false
}

/// What opening does once the cross-reference chain has been parsed and,
/// if it parsed, checked for a usable catalog and page tree.
pub enum OpenStep {
    /// Use the parsed table.
    UseParsed,
    /// Reject the document with this error.
    Fail(Error),
    /// Reconstruct the table by scanning the file. `fallback`: whether a
    /// parse that failed only the catalog check is kept to fall back on.
    Reconstruct { fallback: bool },
}

/// What opening does once a reconstruction has been attempted.
pub enum OpenChoice {
    /// Use the table as parsed (the fallback).
    UseParsed,
    /// Use the reconstructed table. `validated`: whether it passed the catalog check
    /// (only then is the catalog `/Version` adopted).
    UseReconstructed { validated: bool },
    /// Reject the document with this error.
    Fail(Error),
}

/// The step after parsing: `parsed` is the parse outcome, and inside it the
/// outcome of the catalog check. In strict mode the first failure is the error; in lenient
/// mode a parse that fails the catalog check, or no parse at all, leads to a
/// reconstruction.
pub open spec fn after_parse_spec(lenient: bool, parsed: Result<Result<(), Error>, Error>) -> OpenStep {
    match parsed {
        Ok(Ok(())) => OpenStep::UseParsed,
        Ok(Err(g)) => if lenient { OpenStep::Reconstruct { fallback: true } } else { OpenStep::Fail(g) },
        Err(e) => if lenient { OpenStep::Reconstruct { fallback: false } } else { OpenStep::Fail(e) },
    }
}

/// The choice after a reconstruction: a reconstruction that passes the catalog check wins;
/// otherwise the kept parse if there is one; otherwise the reconstruction
/// as it is, or the reconstruction's error when it found nothing.
pub open spec fn after_reconstruct_spec(fallback: bool, rebuilt: Result<Result<(), Error>, Error>) -> OpenChoice {
    match rebuilt {
        Ok(Ok(())) => OpenChoice::UseReconstructed { validated: true },
        Ok(Err(_)) => if fallback { OpenChoice::UseParsed } else { OpenChoice::UseReconstructed { validated: false } },
        Err(e) => if fallback { OpenChoice::UseParsed } else { OpenChoice::Fail(e) },
    }
}

/// Decides what follows the cross-reference parse (see
/// [`after_parse_spec`]).
pub fn open_after_parse(lenient: bool, parsed: Result<Result<(), Error>, Error>) -> (r: OpenStep)
    ensures
        r == after_parse_spec(lenient, parsed),
{
    match parsed {
        Ok(Ok(())) => OpenStep::UseParsed,
        Ok(Err(g)) => if lenient { OpenStep::Reconstruct { fallback: true } } else { OpenStep::Fail(g) },
        Err(e) => if lenient { OpenStep::Reconstruct { fallback: false } } else { OpenStep::Fail(e) },
    }
}

/// Decides which table an open uses after a reconstruction (see
/// [`after_reconstruct_spec`]).
pub fn open_after_reconstruct(fallback: bool, rebuilt: Result<Result<(), Error>, Error>) -> (r: OpenChoice)
    ensures
        r == after_reconstruct_spec(fallback, rebuilt),
{
    match rebuilt {
        Ok(Ok(())) => OpenChoice::UseReconstructed { validated: true },
        Ok(Err(_)) => if fallback { OpenChoice::UseParsed } else { OpenChoice::UseReconstructed { validated: false } },
        Err(e) => if fallback { OpenChoice::UseParsed } else { OpenChoice::Fail(e) },
    }
}

/// In lenient mode the catalog check never fails an open: a document whose
/// cross-reference chain parses is opened whatever the catalog check and the
/// reconstruction give, and one that does not parse fails only when the
/// reconstruction finds nothing, with the reconstruction's error.
pub proof fn law_lenient_open_tolerates(parsed: Result<Result<(), Error>, Error>, rebuilt: Result<Result<(), Error>, Error>)
    ensures
        !(after_parse_spec(true, parsed) is Fail),
        after_parse_spec(true, parsed) matches OpenStep::Reconstruct { fallback } ==> (
            (after_reconstruct_spec(fallback, rebuilt) is Fail) <==> (parsed is Err && rebuilt is Err)
        ),
        rebuilt matches Err(e) ==> after_reconstruct_spec(false, rebuilt) == OpenChoice::Fail(e),
{
}

/// In strict mode nothing is reconstructed: the parse is used when it parses
/// and passes the catalog check, and otherwise its first failure is the error.
pub proof fn law_strict_open_never_reconstructs(parsed: Result<Result<(), Error>, Error>)
    ensures
        !(after_parse_spec(false, parsed) is Reconstruct),
        (after_parse_spec(false, parsed) is UseParsed) <==> (parsed matches Ok(Ok(_))),
{
}

/// What the catalog check gives for the store as read: the trailer's
/// `/Root` must be a reference to a dictionary of `/Type /Catalog` whose
/// `/Pages` resolves to a dictionary; the first violation is an
/// [`Error::Xref`] at offset 0.
pub open spec fn catalog_check_spec(s: StoreView) -> Result<(), Error> {
    match entry(s.trailer, "Root".spec_bytes()) {
        Some(PdfValue::Reference(root)) => match resolve_spec(s, root) {
            Err(_) => Err(Error::Xref { offset: 0, msg: "/Root does not resolve" }),
            Ok(cat) => match dict_of(cat) {
                None => Err(Error::Xref { offset: 0, msg: "/Root is not a dictionary" }),
                Some(m) => if entry(m, "Type".spec_bytes()) != Some(PdfValue::Name("Catalog".spec_bytes())) {
                    Err(Error::Xref { offset: 0, msg: "/Root is not /Type /Catalog" })
                } else {
                    match dict_key_spec(s, m, "Pages".spec_bytes()) {
                        Err(_) => Err(Error::Xref { offset: 0, msg: "/Pages does not resolve" }),
                        Ok(None) => Err(Error::Xref { offset: 0, msg: "catalog has no /Pages" }),
                        Ok(Some(p)) => if dict_of(p) is Some {
                            Ok(())
                        } else {
                            Err(Error::Xref { offset: 0, msg: "/Pages is not a page-tree node" })
                        },
                    }
                },
            },
        },
        _ => Err(Error::Xref { offset: 0, msg: "trailer has no /Root" }),
    }
}

/// The catalog check an open makes of a parsed table (see
/// [`catalog_check_spec`]): `/Root` reaches a catalog whose `/Pages` is a
/// page-tree node.
pub fn validate_catalog(store: &ObjectStore) -> (r: Result<(), Error>)
    ensures
        r == catalog_check_spec(store@),
{
    let root = match store.root() {
        Some(x) => x,
        None => return Err(Error::xref(0, "trailer has no /Root")),
    };
    let catalog = match store.resolve(root) {
        Ok(o) => o,
        Err(_) => return Err(Error::xref(0, "/Root does not resolve")),
    };
    let cat = match catalog.as_dict() {
        Some(d) => d,
        None => return Err(Error::xref(0, "/Root is not a dictionary")),
    };
    let is_catalog = match cat.get(&Name::new("Type")) {
        Some(Object::Name(n)) => name_is(n, "Catalog"),
        _ => false,
    };
    if !is_catalog {
        return Err(Error::xref(0, "/Root is not /Type /Catalog"));
    }
    match store.resolve_dict_key(cat, &Name::new("Pages")) {
        Err(_) => Err(Error::xref(0, "/Pages does not resolve")),
        Ok(None) => Err(Error::xref(0, "catalog has no /Pages")),
        Ok(Some(p)) => if p.as_dict().is_some() {
            Ok(())
        } else {
            Err(Error::xref(0, "/Pages is not a page-tree node"))
        },
    }
}

/// Whether name `n` is `s`.
fn name_is(n: &Name, s: &str) -> (r: bool)
    ensures
        r == (n@ == s.spec_bytes()),
{
    crate::object::name::bytes_equal(n.as_bytes(), s.as_bytes())
}

} // verus!
