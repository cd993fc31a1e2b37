//! `/Encrypt`-dictionary parsing.
//!
//! Turns the parsed `/Encrypt` dictionary plus the trailer's `/ID[0]` into an
//! [`EncryptConfig`] for a standard security handler, and decides which
//! objects and streams are exempt from decryption: the `/Encrypt` dictionary
//! itself, cross-reference streams, and the `/Metadata` stream when metadata
//! is left in the clear.

use vstd::prelude::*;
use vstd::string::StringSliceAdditionalSpecFns;

use crate::error::Error;
use crate::filters::entry;
use crate::object::name::bytes_equal;
use crate::object::{bytes_views, replace_strings_value, Dict, Name, Object, PdfValue};

verus! {

/// The cipher a crypt filter names.
#[derive(Copy, Clone, Debug, PartialEq, Eq, Structural)]
pub enum CryptMethod {
    /// No encryption (`/Identity`).
    Identity,
    /// RC4 (`/V2`).
    Rc4,
    /// AES-128 (`/AESV2`).
    AesV2,
    /// AES-256 (`/AESV3`).
    AesV3,
}

/// The parameters of a standard security handler.
#[derive(Debug)]
pub struct EncryptConfig {
    /// `/V`, the algorithm version.
    pub v: u8,
    /// `/R`, the handler revision.
    pub r: u8,
    /// `/O`, the owner hash.
    pub o: Vec<u8>,
    /// `/U`, the user hash.
    pub u: Vec<u8>,
    /// `/OE` (revision 6).
    pub oe: Vec<u8>,
    /// `/UE` (revision 6).
    pub ue: Vec<u8>,
    /// `/P`, the permission flags.
    pub p: i32,
    /// The file key length in bytes.
    pub key_len: usize,
    /// `/EncryptMetadata`.
    pub encrypt_metadata: bool,
    /// The first file identifier.
    pub id0: Vec<u8>,
    /// The stream cipher.
    pub stm_method: CryptMethod,
    /// The string cipher.
    pub str_method: CryptMethod,
}

/// The dictionary of a dictionary or stream value.
pub open spec fn dict_of(v: PdfValue) -> Option<Map<Seq<u8>, PdfValue>> {
    match v {
        PdfValue::Dictionary(m) => Some(m),
        PdfValue::Stream(m, _) => Some(m),
        _ => None,
    }
}

/// The first file identifier: the bytes of the first string of the
/// trailer's `/ID` array, empty when absent.
pub open spec fn id0_spec(t: Map<Seq<u8>, PdfValue>) -> Seq<u8> {
    match entry(t, "ID".spec_bytes()) {
        Some(PdfValue::Array(a)) => if a.len() > 0 && a[0] is Str { a[0]->Str_0 } else { Seq::empty() },
        _ => Seq::empty(),
    }
}

/// Reads `/ID[0]` from the trailer; empty when `/ID` is absent or its first
/// entry is not a string.
pub fn id0_from_trailer(trailer: &Dict) -> (r: Vec<u8>)
    ensures
        r@ == id0_spec(trailer.map()),
{
    match trailer.get(&Name::new("ID")) {
        Some(Object::Array(a)) => {
            proof {
                Object::lemma_array_values_index(a@, a@.len() as int);
            }
            if a.len() > 0 {
                match &a[0] {
                    Object::String(s) => vstd::slice::slice_to_vec(s.as_bytes()),
                    _ => Vec::new(),
                }
            } else {
                Vec::new()
            }
        },
        _ => Vec::new(),
    }
}

/// The cipher a `/CFM` name selects.
pub open spec fn cfm_spec(n: Seq<u8>) -> Option<CryptMethod> {
    if n == "V2".spec_bytes() {
        Some(CryptMethod::Rc4)
    } else if n == "AESV2".spec_bytes() {
        Some(CryptMethod::AesV2)
    } else if n == "AESV3".spec_bytes() {
        Some(CryptMethod::AesV3)
    } else if n == "Identity".spec_bytes() {
        Some(CryptMethod::Identity)
    } else {
        None
    }
}

/// Maps a crypt-filter `/CFM` name to its cipher.
fn cfm_to_method(name: &[u8]) -> (r: Option<CryptMethod>)
    ensures
        r == cfm_spec(name@),
{
    if bytes_equal(name, "V2".as_bytes()) {
        Some(CryptMethod::Rc4)
    } else if bytes_equal(name, "AESV2".as_bytes()) {
        Some(CryptMethod::AesV2)
    } else if bytes_equal(name, "AESV3".as_bytes()) {
        Some(CryptMethod::AesV3)
    } else if bytes_equal(name, "Identity".as_bytes()) {
        Some(CryptMethod::Identity)
    } else {
        None
    }
}

/// The cipher a `/StmF` or `/StrF` filter name resolves to through `/CF`:
/// `/Identity` needs no entry; any other name needs a `/CF` dictionary with
/// an entry for it whose `/CFM` names a known cipher.
pub open spec fn resolve_filter_spec(cf: Option<Map<Seq<u8>, PdfValue>>, name: Seq<u8>) -> Result<CryptMethod, Error> {
    if name == "Identity".spec_bytes() {
        Ok(CryptMethod::Identity)
    } else {
        match cf {
            None => Err(Error::Unsupported("crypt filter named but no /CF dictionary")),
            Some(cfm) => match entry(cfm, name) {
                Some(v) => match dict_of(v) {
                    Some(e) => match entry(e, "CFM".spec_bytes()) {
                        Some(PdfValue::Name(m)) => match cfm_spec(m) {
                            Some(c) => Ok(c),
                            None => Err(Error::Unsupported("unsupported /CFM crypt method")),
                        },
                        _ => Err(Error::Unsupported("crypt filter has no /CFM")),
                    },
                    None => Err(Error::Unsupported("named crypt filter not found in /CF")),
                },
                None => Err(Error::Unsupported("named crypt filter not found in /CF")),
            },
        }
    }
}

/// Resolves a crypt-filter name through the `/CF` dictionary.
fn resolve_filter(cf: Option<&Dict>, filter_name: &[u8]) -> (r: Result<CryptMethod, Error>)
    ensures
        r == resolve_filter_spec(
            match cf {
                Some(d) => Some(d.map()),
                None => None,
            },
            filter_name@,
        ),
{
    if bytes_equal(filter_name, "Identity".as_bytes()) {
        return Ok(CryptMethod::Identity);
    }
    let cf = match cf {
        Some(d) => d,
        None => {
            return Err(Error::Unsupported("crypt filter named but no /CF dictionary"));
        },
    };
    let entry = match cf.get(&Name::from_decoded(vstd::slice::slice_to_vec(filter_name))) {
        Some(o) => match o.as_dict() {
            Some(d) => d,
            None => {
                return Err(Error::Unsupported("named crypt filter not found in /CF"));
            },
        },
        None => {
            return Err(Error::Unsupported("named crypt filter not found in /CF"));
        },
    };
    let cfm = match entry.get(&Name::new("CFM")) {
        Some(o) => match o.as_name() {
            Some(n) => n,
            None => {
                return Err(Error::Unsupported("crypt filter has no /CFM"));
            },
        },
        None => {
            return Err(Error::Unsupported("crypt filter has no /CFM"));
        },
    };
    match cfm_to_method(cfm.as_bytes()) {
        Some(c) => Ok(c),
        None => Err(Error::Unsupported("unsupported /CFM crypt method")),
    }
}

/// The integer under `k`, if any.
pub open spec fn int_of(m: Map<Seq<u8>, PdfValue>, k: Seq<u8>) -> Option<i64> {
    match entry(m, k) {
        Some(PdfValue::Integer(i)) => Some(i),
        _ => None,
    }
}

/// The string bytes under `k`, empty when absent or not a string.
pub open spec fn str_of(m: Map<Seq<u8>, PdfValue>, k: Seq<u8>) -> Seq<u8> {
    match entry(m, k) {
        Some(PdfValue::Str(s, _)) => s,
        _ => Seq::empty(),
    }
}

/// Whether `k` holds a string.
pub open spec fn has_str(m: Map<Seq<u8>, PdfValue>, k: Seq<u8>) -> bool {
    entry(m, k) matches Some(PdfValue::Str(_, _))
}

/// The name bytes under `k`, `default` when absent or not a name.
pub open spec fn name_or(m: Map<Seq<u8>, PdfValue>, k: Seq<u8>, default: Seq<u8>) -> Seq<u8> {
    match entry(m, k) {
        Some(PdfValue::Name(n)) => n,
        _ => default,
    }
}

/// The file key length in bytes: 32 for `/V` or `/R` at least 5, 5 for
/// revision 2, otherwise `/Length` (bits, default 40) over 8, held to 5..=16.
pub open spec fn key_len_spec(v: u8, r: u8, length_bits: i64) -> usize {
    if v >= 5 || r >= 5 {
        32
    } else if r == 2 {
        5
    } else if length_bits >= 128 {
        16
    } else if length_bits < 40 {
        5
    } else {
        (length_bits / 8) as usize
    }
}

/// The value of an [`EncryptConfig`], field by field.
pub struct EncryptView {
    pub v: u8,
    pub r: u8,
    pub o: Seq<u8>,
    pub u: Seq<u8>,
    pub oe: Seq<u8>,
    pub ue: Seq<u8>,
    pub p: i32,
    pub key_len: usize,
    pub encrypt_metadata: bool,
    pub id0: Seq<u8>,
    pub stm_method: CryptMethod,
    pub str_method: CryptMethod,
}

impl View for EncryptConfig {
    type V = EncryptView;

    open spec fn view(&self) -> EncryptView {
        EncryptView {
            v: self.v,
            r: self.r,
            o: self.o@,
            u: self.u@,
            oe: self.oe@,
            ue: self.ue@,
            p: self.p,
            key_len: self.key_len,
            encrypt_metadata: self.encrypt_metadata,
            id0: self.id0@,
            stm_method: self.stm_method,
            str_method: self.str_method,
        }
    }
}

/// What parsing the `/Encrypt` dictionary `m` with file identifier `id0`
/// yields. Only the `/Standard` handler is supported; `/V`, `/R`, `/O`,
/// `/U` and `/P` are required; `/V`, `/R` and `/P` are truncated to their field
/// widths; from `/V` 4 on, `/StmF` and `/StrF` (default `/Identity`)
/// resolve through `/CF`, before that both ciphers are RC4.
pub open spec fn parse_encrypt_spec(m: Map<Seq<u8>, PdfValue>, id0: Seq<u8>) -> Result<EncryptView, Error> {
    match entry(m, "Filter".spec_bytes()) {
        Some(PdfValue::Name(f)) => if f != "Standard".spec_bytes() {
            Err(Error::Unsupported("non-Standard security handler"))
        } else {
            match int_of(m, "V".spec_bytes()) {
                None => Err(Error::Xref { offset: 0, msg: "/Encrypt has no /V" }),
                Some(vi) => {
            let v: u8 = vi as u8;
            match int_of(m, "R".spec_bytes()) {
                None => Err(Error::Xref { offset: 0, msg: "/Encrypt has no /R" }),
                Some(ri) => if !has_str(m, "O".spec_bytes()) {
                    Err(Error::Xref { offset: 0, msg: "/Encrypt has no /O" })
                } else if !has_str(m, "U".spec_bytes()) {
                    Err(Error::Xref { offset: 0, msg: "/Encrypt has no /U" })
                } else { match int_of(m, "P".spec_bytes()) {
                    None => Err(Error::Xref { offset: 0, msg: "/Encrypt has no /P" }),
                    Some(pi) => {
                        let r = ri as u8;
                        let length_bits = match int_of(m, "Length".spec_bytes()) {
                            Some(l) => l,
                            None => 40,
                        };
                        let encrypt_metadata = match entry(m, "EncryptMetadata".spec_bytes()) {
                            Some(PdfValue::Boolean(b)) => b,
                            _ => true,
                        };
                        let methods: Result<(CryptMethod, CryptMethod), Error> = if v >= 4 {
                            let cf = match entry(m, "CF".spec_bytes()) {
                                Some(x) => dict_of(x),
                                None => None,
                            };
                            match resolve_filter_spec(cf, name_or(m, "StmF".spec_bytes(), "Identity".spec_bytes())) {
                                Err(e) => Err(e),
                                Ok(s1) => match resolve_filter_spec(cf, name_or(m, "StrF".spec_bytes(), "Identity".spec_bytes())) {
                                    Err(e) => Err(e),
                                    Ok(s2) => Ok((s1, s2)),
                                },
                            }
                        } else {
                            Ok((CryptMethod::Rc4, CryptMethod::Rc4))
                        };
                        match methods {
                            Err(e) => Err(e),
                            Ok((stm, str)) => Ok(EncryptView {
                                v,
                                r,
                                o: str_of(m, "O".spec_bytes()),
                                u: str_of(m, "U".spec_bytes()),
                                oe: str_of(m, "OE".spec_bytes()),
                                ue: str_of(m, "UE".spec_bytes()),
                                p: pi as i32,
                                key_len: key_len_spec(v, r, length_bits),
                                encrypt_metadata,
                                id0,
                                stm_method: stm,
                                str_method: str,
                            }),
                        }
                    },
                } },
            }
                },
            }
        },
        _ => Err(Error::Xref { offset: 0, msg: "/Encrypt has no /Filter" }),
    }
}

/// The integer under `key` in `d`, if any.
fn get_int(d: &Dict, key: &str) -> (r: Option<i64>)
    ensures
        r == int_of(d.map(), key.spec_bytes()),
{
    match d.get(&Name::new(key)) {
        Some(Object::Integer(i)) => Some(*i),
        _ => None,
    }
}

/// The string bytes under `key` in `d`, empty when absent.
fn get_str(d: &Dict, key: &str) -> (r: Vec<u8>)
    ensures
        r@ == str_of(d.map(), key.spec_bytes()),
{
    match d.get(&Name::new(key)) {
        Some(Object::String(s)) => vstd::slice::slice_to_vec(s.as_bytes()),
        _ => Vec::new(),
    }
}

/// Whether `key` in `d` holds a string.
fn has_string(d: &Dict, key: &str) -> (r: bool)
    ensures
        r == has_str(d.map(), key.spec_bytes()),
{
    match d.get(&Name::new(key)) {
        Some(Object::String(_)) => true,
        _ => false,
    }
}

/// The name bytes under `key` in `d`, `/Identity` when absent.
fn get_filter_name(d: &Dict, key: &str) -> (r: Vec<u8>)
    ensures
        r@ == name_or(d.map(), key.spec_bytes(), "Identity".spec_bytes()),
{
    match d.get(&Name::new(key)) {
        Some(Object::Name(n)) => vstd::slice::slice_to_vec(n.as_bytes()),
        _ => vstd::slice::slice_to_vec("Identity".as_bytes()),
    }
}

/// Parses the `/Encrypt` dictionary (plus trailer `/ID[0]`) into an
/// [`EncryptConfig`]: the configuration [`parse_encrypt_spec`] states, or its
/// error — [`Error::Unsupported`] for a non-standard handler or unknown
/// cipher, [`Error::Xref`] for a missing `/Filter`, `/V`, `/R`, `/O`, `/U`
/// or `/P`.
pub fn parse_encrypt_dict(enc: &Dict, id0: Vec<u8>) -> (r: Result<EncryptConfig, Error>)
    ensures
        match parse_encrypt_spec(enc.map(), id0@) {
            Ok(cfg) => r matches Ok(c) && c@ == cfg,
            Err(e) => r matches Err(x) && x == e,
        },
{
    match enc.get(&Name::new("Filter")) {
        Some(Object::Name(f)) => {
            if !f.is("Standard") {
                return Err(Error::Unsupported("non-Standard security handler"));
            }
        },
        _ => {
            return Err(Error::xref(0, "/Encrypt has no /Filter"));
        },
    }
    let v: u8 = match get_int(enc, "V") {
        Some(i) => i as u8,
        None => {
            return Err(Error::xref(0, "/Encrypt has no /V"));
        },
    };
    let r: u8 = match get_int(enc, "R") {
        Some(i) => i as u8,
        None => {
            return Err(Error::xref(0, "/Encrypt has no /R"));
        },
    };
    if !has_string(enc, "O") {
        return Err(Error::xref(0, "/Encrypt has no /O"));
    }
    if !has_string(enc, "U") {
        return Err(Error::xref(0, "/Encrypt has no /U"));
    }
    let o = get_str(enc, "O");
    let u = get_str(enc, "U");
    let oe = get_str(enc, "OE");
    let ue = get_str(enc, "UE");
    let p: i32 = match get_int(enc, "P") {
        Some(i) => i as i32,
        None => {
            return Err(Error::xref(0, "/Encrypt has no /P"));
        },
    };
    let length_bits: i64 = match get_int(enc, "Length") {
        Some(l) => l,
        None => 40,
    };
    let key_len: usize = if v >= 5 || r >= 5 {
        32
    } else if r == 2 {
        5
    } else if length_bits >= 128 {
        16
    } else if length_bits < 40 {
        5
    } else {
        (length_bits / 8) as usize
    };
    let encrypt_metadata = match enc.get(&Name::new("EncryptMetadata")) {
        Some(Object::Boolean(b)) => *b,
        _ => true,
    };
    let (stm_method, str_method) = if v >= 4 {
        let cf: Option<&Dict> = match enc.get(&Name::new("CF")) {
            Some(o) => o.as_dict(),
            None => None,
        };
        let stmf = get_filter_name(enc, "StmF");
        let strf = get_filter_name(enc, "StrF");
        let s1 = match resolve_filter(cf, stmf.as_slice()) {
            Ok(m) => m,
            Err(e) => {
                return Err(e);
            },
        };
        let s2 = match resolve_filter(cf, strf.as_slice()) {
            Ok(m) => m,
            Err(e) => {
                return Err(e);
            },
        };
        (s1, s2)
    } else {
        (CryptMethod::Rc4, CryptMethod::Rc4)
    };
    Ok(EncryptConfig { v, r, o, u, oe, ue, p, key_len, encrypt_metadata, id0, stm_method, str_method })
}

/// The bytes of every string inside `obj`, in order of appearance: what
/// the security handler decrypts for [`decrypt_strings_in_place`].
pub fn string_leaves(obj: &Object) -> (r: Vec<Vec<u8>>)
    ensures
        bytes_views(r@) == obj.strings(),
{
    let mut out: Vec<Vec<u8>> = Vec::new();
    proof {
        assert(bytes_views(out@) =~= Seq::<Seq<u8>>::empty());
    }
    obj.collect_strings(&mut out);
    proof {
        assert(bytes_views(out@) =~= obj.strings());
    }
    out
}

/// Decrypts every string inside `obj` (array items, dictionary values and
/// stream dictionary values, at any depth) from `table`: pairs of a
/// string's encrypted bytes and the plaintext that the security handler
/// gave for them under this object's number and generation. A string with
/// no plaintext in the table (its decryption failed) is left as it is;
/// names, numbers, references and stream bodies are never touched.
pub fn decrypt_strings_in_place(obj: &mut Object, table: &[(Vec<u8>, Vec<u8>)])
    ensures
        final(obj).value() == replace_strings_value(old(obj).value(), table@),
{
    let r = obj.replace_strings(table);
    *obj = r;
}

/// Whether object `num` is the `/Encrypt` dictionary's own object, which is
/// never decrypted.
pub fn is_encrypt_object(num: u32, encrypt_ref_num: Option<u32>) -> (r: bool)
    ensures
        r == (encrypt_ref_num == Some(num)),
{
    match encrypt_ref_num {
        Some(n) => n == num,
        None => false,
    }
}

/// Whether a stream dictionary denotes a body that is never decrypted: a
/// cross-reference stream (`/Type /XRef`), or the `/Metadata` stream when
/// metadata is not encrypted.
pub fn is_exempt_stream(dict: &Dict, encrypt_metadata: bool) -> (r: bool)
    ensures
        r == (match entry(dict.map(), "Type".spec_bytes()) {
            Some(PdfValue::Name(t)) => t == "XRef".spec_bytes() || (!encrypt_metadata && t == "Metadata".spec_bytes()),
            _ => false,
        }),
{
    match dict.get(&Name::new("Type")) {
        Some(Object::Name(t)) => t.is("XRef") || (!encrypt_metadata && t.is("Metadata")),
        _ => false,
    }
}

} // verus!
