//! Colour spaces: resolution of a `/ColorSpace` object through the object
//! store into the shape of the space (its family, base or alternate space,
//! palette size and palette, tint function object), and integer sample
//! access for sampled functions and images (MSB-first bit fields packed in a
//! byte string).
//!
//! The tint functions, colour conversions and function evaluation work in
//! floating point and are not part of this library: a resolved space holds
//! its tint function as the object that defines it.

use vstd::prelude::*;
use vstd::string::StringSliceAdditionalSpecFns;
use vstd::utf8::valid_utf8;

use crate::encrypt::dict_of;
use crate::error::Error;
use crate::filters::{decode_stream_spec, entry, outcome_result, OutcomeView};
use crate::object::name::bytes_equal;
use crate::object::{Dict, Name, Object, PayloadView, PdfValue};
use crate::store::{resolve_spec, ObjectStore, StoreView};

verus! {

/// Bit `b` of `data`, counting from the most significant bit of the first
/// byte; bits past the end read as 0.
pub open spec fn bit_at(data: Seq<u8>, b: int) -> u32 {
    if 0 <= b && b / 8 < data.len() {
        ((data[b / 8] >> ((7 - b % 8) as u8)) & 1u8) as u32
    } else {
        0
    }
}

/// The unsigned number whose binary digits, most significant first, are the
/// `count` bits of `data` starting at bit `bit`.
pub open spec fn bits_value(data: Seq<u8>, bit: int, count: nat) -> int
    decreases count,
{
    if count == 0 {
        0
    } else {
        2 * bits_value(data, bit, (count - 1) as nat) + bit_at(data, bit + count - 1)
    }
}

proof fn lemma_bits_value_bound(data: Seq<u8>, bit: int, count: nat)
    ensures
        0 <= bits_value(data, bit, count) < vstd::arithmetic::power2::pow2(count),
    decreases count,
{
    if count > 0 {
        lemma_bits_value_bound(data, bit, (count - 1) as nat);
        vstd::arithmetic::power2::lemma_pow2_unfold(count);
        let byte = if 0 <= bit + count - 1 && (bit + count - 1) / 8 < data.len() { data[(bit + count - 1) / 8] } else { 0u8 };
        let s: u8 = if 0 <= bit + count - 1 { ((7 - (bit + count - 1) % 8) as u8) } else { 0u8 };
        assert((byte >> s) & 1u8 <= 1u8) by (bit_vector);
    } else {
        vstd::arithmetic::power2::lemma2_to64();
    }
}

/// Reads `count` MSB-first bits at bit offset `bit` from `data`; bits past
/// the end of `data` read as 0.
pub fn read_bits(data: &[u8], bit: usize, count: usize) -> (r: u32)
    requires
        count <= 32,
        bit + count <= usize::MAX,
    ensures
        r == bits_value(data@, bit as int, count as nat),
{
    let mut v: u32 = 0;
    let mut i: usize = 0;
    while i < count
        invariant
            i <= count <= 32,
            bit + count <= usize::MAX,
            v == bits_value(data@, bit as int, i as nat),
        decreases count - i,
    {
        let b = bit + i;
        let byte: u8 = if b / 8 < data.len() { data[b / 8] } else { 0 };
        let shift: u8 = (7 - (b % 8)) as u8;
        let x: u8 = (byte >> shift) & 1;
        proof {
            lemma_bits_value_bound(data@, bit as int, i as nat);
            vstd::arithmetic::power2::lemma_pow2_strictly_increases(i as nat, 32);
            vstd::arithmetic::power2::lemma2_to64();
            assert(x <= 1u8) by (bit_vector)
                requires
                    x == (byte >> shift) & 1u8,
            ;
            assert(v < 0x8000_0000u32);
            assert((v << 1u32) | (x as u32) == 2 * v + x) by (bit_vector)
                requires
                    v < 0x8000_0000u32,
                    x <= 1u8,
            ;
            assert(b as int == bit + i);
            assert(shift == (7 - (b as int) % 8) as u8);
            if b / 8 < data.len() {
                assert(byte == data@[(b as int) / 8]);
            } else {
                assert(x == 0u8) by (bit_vector)
                    requires
                        byte == 0u8,
                        x == (byte >> shift) & 1u8,
                ;
            }
            assert(bit_at(data@, b as int) == x as u32);
        }
        v = (v << 1u32) | (x as u32);
        i = i + 1;
    }
    v
}

/// The shape of a resolved colour space.
pub enum CsView {
    DeviceGray,
    DeviceRgb,
    DeviceCmyk,
    Lab,
    /// Base space, largest palette index, palette object (a string or a
    /// stream).
    Indexed(Box<CsView>, u64, PdfValue),
    /// Alternate space, tint function object.
    Separation(Box<CsView>, PdfValue),
    /// Number of colorants, alternate space, tint function object.
    DeviceN(u64, Box<CsView>, PdfValue),
}

/// A resolved colour space. Calibrated and ICC-based spaces resolve to the
/// device space with their number of components.
pub enum CsShape {
    DeviceGray,
    DeviceRgb,
    DeviceCmyk,
    Lab,
    /// A palette: `hival + 1` entries of `base` components, read from
    /// `lookup` (a string, or a stream to decode; see [`read_lookup`]).
    Indexed { base: Box<CsShape>, hival: u64, lookup: Object },
    /// One tint mapped through the function object `tint` into `alt`.
    Separation { alt: Box<CsShape>, tint: Object },
    /// `n` tints mapped through the function object `tint` into `alt`.
    DeviceN { n: u64, alt: Box<CsShape>, tint: Object },
}

impl CsShape {
    /// The shape of this space, its objects taken by value.
    pub open spec fn shape(self) -> CsView
        decreases self,
    {
        match self {
            CsShape::DeviceGray => CsView::DeviceGray,
            CsShape::DeviceRgb => CsView::DeviceRgb,
            CsShape::DeviceCmyk => CsView::DeviceCmyk,
            CsShape::Lab => CsView::Lab,
            CsShape::Indexed { base, hival, lookup } => CsView::Indexed(Box::new(base.shape()), hival, lookup.value()),
            CsShape::Separation { alt, tint } => CsView::Separation(Box::new(alt.shape()), tint.value()),
            CsShape::DeviceN { n, alt, tint } => CsView::DeviceN(n, Box::new(alt.shape()), tint.value()),
        }
    }
}

/// The shape of an optional space.
pub open spec fn shape_of(r: Option<CsShape>) -> Option<CsView> {
    match r {
        Some(c) => Some(c.shape()),
        None => None,
    }
}

/// `v` with a reference resolved through the store; `None` when the
/// reference does not resolve.
pub open spec fn resolved(s: StoreView, v: PdfValue) -> Option<PdfValue> {
    match v {
        PdfValue::Reference(x) => match resolve_spec(s, x) {
            Ok(w) => Some(w),
            Err(_) => None,
        },
        _ => Some(v),
    }
}

/// The device space a colour-space family name stands for, with its
/// abbreviations and the calibrated families.
pub open spec fn device_space(n: Seq<u8>) -> Option<CsView> {
    if n == "DeviceGray".spec_bytes() || n == "G".spec_bytes() || n == "CalGray".spec_bytes() {
        Some(CsView::DeviceGray)
    } else if n == "DeviceRGB".spec_bytes() || n == "RGB".spec_bytes() || n == "CalRGB".spec_bytes() {
        Some(CsView::DeviceRgb)
    } else if n == "DeviceCMYK".spec_bytes() || n == "CMYK".spec_bytes() {
        Some(CsView::DeviceCmyk)
    } else if n == "Lab".spec_bytes() {
        Some(CsView::Lab)
    } else {
        None
    }
}

/// Entry `name` of the `/ColorSpace` dictionary of resources `res` (a
/// reference to that dictionary resolved), not itself resolved.
pub open spec fn cs_resource(s: StoreView, res: Map<Seq<u8>, PdfValue>, name: Seq<u8>) -> Option<PdfValue> {
    match entry(res, "ColorSpace".spec_bytes()) {
        None => None,
        Some(c) => match dict_of(c) {
            Some(d) => entry(d, name),
            None => match resolved(s, c) {
                Some(w) => match dict_of(w) {
                    Some(d) => entry(d, name),
                    None => None,
                },
                None => None,
            },
        },
    }
}

/// The space of an `/ICCBased` array: by the `/N` of its profile stream,
/// gray for 1, CMYK for 4, RGB otherwise.
pub open spec fn icc_space(s: StoreView, a: Seq<PdfValue>) -> CsView {
    let n = if a.len() >= 2 {
        match resolved(s, a[1]) {
            Some(PdfValue::Stream(m, _)) => match entry(m, "N".spec_bytes()) {
                Some(PdfValue::Integer(k)) => Some(k),
                _ => None,
            },
            _ => None,
        }
    } else {
        None
    };
    if n == Some(1i64) {
        CsView::DeviceGray
    } else if n == Some(4i64) {
        CsView::DeviceCmyk
    } else {
        CsView::DeviceRgb
    }
}

/// What resolving colour-space object `v` gives at nesting `depth` (a name
/// looked up in the `/ColorSpace` resources of `res`, an array by its
/// family name); `None` for what cannot be resolved or is not supported
/// (such as `/Pattern`), and past eight levels of nesting.
pub open spec fn cs_spec(s: StoreView, v: PdfValue, res: Option<Map<Seq<u8>, PdfValue>>, depth: nat) -> Option<CsView>
    decreases 9 - depth,
{
    if depth > 8 {
        None
    } else {
        match resolved(s, v) {
            Some(PdfValue::Name(n)) => if !valid_utf8(n) {
                None
            } else {
                match device_space(n) {
                    Some(d) => Some(d),
                    None => match res {
                        None => None,
                        Some(rm) => match cs_resource(s, rm, n) {
                            None => None,
                            Some(e) => cs_spec(s, e, res, depth + 1),
                        },
                    },
                }
            },
            Some(PdfValue::Array(a)) => if a.len() == 0 {
                None
            } else {
                match a[0] {
                    PdfValue::Name(h) => if !valid_utf8(h) {
                        None
                    } else if h == "ICCBased".spec_bytes() {
                        Some(icc_space(s, a))
                    } else if h == "CalGray".spec_bytes() {
                        Some(CsView::DeviceGray)
                    } else if h == "CalRGB".spec_bytes() || h == "ICC".spec_bytes() {
                        Some(CsView::DeviceRgb)
                    } else if h == "Lab".spec_bytes() {
                        Some(CsView::Lab)
                    } else if h == "Indexed".spec_bytes() || h == "I".spec_bytes() {
                        if a.len() < 4 {
                            None
                        } else {
                            match (cs_spec(s, a[1], res, depth + 1), a[2], resolved(s, a[3])) {
                                (Some(base), PdfValue::Integer(i), Some(l)) => match l {
                                    PdfValue::Str(_, _) | PdfValue::Stream(_, _) => Some(
                                        CsView::Indexed(Box::new(base), if i < 0 { 0u64 } else { i as u64 }, l),
                                    ),
                                    _ => None,
                                },
                                _ => None,
                            }
                        }
                    } else if h == "Separation".spec_bytes() {
                        if a.len() < 4 {
                            None
                        } else {
                            match cs_spec(s, a[2], res, depth + 1) {
                                Some(alt) => Some(CsView::Separation(Box::new(alt), a[3])),
                                None => None,
                            }
                        }
                    } else if h == "DeviceN".spec_bytes() {
                        if a.len() < 4 {
                            None
                        } else {
                            match (a[1], cs_spec(s, a[2], res, depth + 1)) {
                                (PdfValue::Array(names), Some(alt)) => Some(
                                    CsView::DeviceN(if names.len() == 0 { 1 } else { names.len() as u64 }, Box::new(alt), a[3]),
                                ),
                                _ => None,
                            }
                        }
                    } else {
                        device_space(h)
                    },
                    _ => None,
                }
            },
            _ => None,
        }
    }
}

/// The map of optional resources.
pub open spec fn res_map(res: Option<&Dict>) -> Option<Map<Seq<u8>, PdfValue>> {
    match res {
        Some(d) => Some(d.map()),
        None => None,
    }
}

/// `obj` with a reference resolved through the store.
fn resolve_value(store: &ObjectStore, obj: &Object) -> (r: Option<Object>)
    ensures
        match r {
            Some(o) => resolved(store@, obj.value()) == Some(o.value()),
            None => resolved(store@, obj.value()) is None,
        },
{
    match obj {
        Object::Reference(x) => match store.resolve(*x) {
            Ok(o) => Some(o),
            Err(_) => None,
        },
        _ => Some(obj.copy()),
    }
}

/// Whether `n` holds the bytes of `s`.
fn is_name(n: &[u8], s: &str) -> (r: bool)
    ensures
        r == (n@ == s.spec_bytes()),
{
    bytes_equal(n, s.as_bytes())
}

/// The device space of a family name.
fn device_by_name(n: &[u8]) -> (r: Option<CsShape>)
    ensures
        shape_of(r) == device_space(n@),
{
    if is_name(n, "DeviceGray") || is_name(n, "G") || is_name(n, "CalGray") {
        Some(CsShape::DeviceGray)
    } else if is_name(n, "DeviceRGB") || is_name(n, "RGB") || is_name(n, "CalRGB") {
        Some(CsShape::DeviceRgb)
    } else if is_name(n, "DeviceCMYK") || is_name(n, "CMYK") {
        Some(CsShape::DeviceCmyk)
    } else if is_name(n, "Lab") {
        Some(CsShape::Lab)
    } else {
        None
    }
}

/// The bytes an outcome gives when it is fully decoded.
pub open spec fn decoded_bytes(res: Result<OutcomeView, Error>) -> Option<Seq<u8>> {
    match res {
        Ok(OutcomeView::Decoded(b)) => Some(b),
        _ => None,
    }
}

/// Whether `out` is what decoding `raw` through the filters of stream
/// dictionary `m` under ceiling `cap` gives, when it decodes fully.
pub open spec fn stream_reads(m: Map<Seq<u8>, PdfValue>, raw: Seq<u8>, cap: nat, out: Option<Seq<u8>>) -> bool {
    exists|res: Result<OutcomeView, Error>| #[trigger] decode_stream_spec(m, raw, cap, res) && out == decoded_bytes(res)
}

/// Whether `out` is what reading palette object `v` gives: a string's
/// bytes, a stream's body decoded through its filters under the store's
/// ceiling (as it is when held decoded), `None` for anything else, for an
/// unresolvable reference, or for a stream that does not decode fully.
pub open spec fn lookup_reads(s: StoreView, v: PdfValue, out: Option<Seq<u8>>) -> bool {
    match resolved(s, v) {
        Some(PdfValue::Str(b, _)) => out == Some(b),
        Some(PdfValue::Stream(m, p)) => if p.decoded {
            out == Some(p.bytes)
        } else {
            stream_reads(m, p.bytes, s.max_stream as nat, out)
        },
        _ => out is None,
    }
}

proof fn lemma_lookup_decoded(s: StoreView, v: PdfValue, m: Map<Seq<u8>, PdfValue>, p: PayloadView, res: Result<OutcomeView, Error>, out: Option<Seq<u8>>)
    requires
        resolved(s, v) == Some(PdfValue::Stream(m, p)),
        !p.decoded,
        decode_stream_spec(m, p.bytes, s.max_stream as nat, res),
        out == decoded_bytes(res),
    ensures
        lookup_reads(s, v, out),
{
    assert(stream_reads(m, p.bytes, s.max_stream as nat, out));
}

/// The bytes of an optional buffer.
pub open spec fn bytes_of(r: Option<Vec<u8>>) -> Option<Seq<u8>> {
    match r {
        Some(v) => Some(v@),
        None => None,
    }
}

/// Entry `name` of the `/ColorSpace` resources of `res`.
fn cs_resource_entry(store: &ObjectStore, res: &Dict, name: &Name) -> (r: Option<Object>)
    ensures
        match r {
            Some(o) => cs_resource(store@, res.map(), name@) == Some(o.value()),
            None => cs_resource(store@, res.map(), name@) is None,
        },
{
    let c = match res.get(&Name::new("ColorSpace")) {
        Some(c) => c,
        None => return None,
    };
    match c.as_dict() {
        Some(d) => match d.get(name) {
            Some(o) => Some(o.copy()),
            None => None,
        },
        None => match resolve_value(store, c) {
            Some(w) => match w.as_dict() {
                Some(d) => match d.get(name) {
                    Some(o) => Some(o.copy()),
                    None => None,
                },
                None => None,
            },
            None => None,
        },
    }
}

/// The space of an `/ICCBased` array.
fn icc_shape(store: &ObjectStore, a: &[Object]) -> (r: CsShape)
    ensures
        r.shape() == icc_space(store@, Object::array_values(a@, a@.len() as int)),
{
    proof {
        Object::lemma_array_values_index(a@, a@.len() as int);
    }
    let mut n: Option<i64> = None;
    if a.len() >= 2 {
        match resolve_value(store, &a[1]) {
            Some(Object::Stream(st)) => match st.dict.get(&Name::new("N")) {
                Some(o) => {
                    n = o.as_i64();
                },
                None => {},
            },
            _ => {},
        }
    }
    match n {
        Some(1) => CsShape::DeviceGray,
        Some(4) => CsShape::DeviceCmyk,
        _ => CsShape::DeviceRgb,
    }
}

/// Resolves a `/ColorSpace` object: a family name (or its abbreviation), a
/// name defined in the `/ColorSpace` entry of `resources`, or an array led
/// by its family name, references resolved on the way. `None` for what
/// cannot be resolved or is not supported (such as `/Pattern`), and past
/// eight levels of nesting.
pub fn resolve_colorspace(store: &ObjectStore, obj: &Object, resources: Option<&Dict>) -> (r: Option<CsShape>)
    ensures
        shape_of(r) == cs_spec(store@, obj.value(), res_map(resources), 0),
{
    resolve_cs(store, obj, resources, 0)
}

fn resolve_cs(store: &ObjectStore, obj: &Object, resources: Option<&Dict>, depth: u32) -> (r: Option<CsShape>)
    requires
        depth <= 9,
    ensures
        shape_of(r) == cs_spec(store@, obj.value(), res_map(resources), depth as nat),
    decreases 9 - depth, 1int,
{
    if depth > 8 {
        return None;
    }
    let o = match resolve_value(store, obj) {
        Some(o) => o,
        None => return None,
    };
    match &o {
        Object::Name(n) => {
            if n.as_str().is_none() {
                return None;
            }
            match device_by_name(n.as_bytes()) {
                Some(d) => Some(d),
                None => match resources {
                    None => None,
                    Some(res) => match cs_resource_entry(store, res, n) {
                        None => None,
                        Some(e) => resolve_cs(store, &e, resources, depth + 1),
                    },
                },
            }
        },
        Object::Array(a) => resolve_cs_array(store, a.as_slice(), resources, depth),
        _ => None,
    }
}

fn resolve_cs_array(store: &ObjectStore, a: &[Object], resources: Option<&Dict>, depth: u32) -> (r: Option<CsShape>)
    requires
        depth <= 8,
    ensures
        shape_of(r) == cs_spec(
            store@,
            PdfValue::Array(Object::array_values(a@, a@.len() as int)),
            res_map(resources),
            depth as nat,
        ),
    decreases 9 - depth, 0int,
{
    proof {
        Object::lemma_array_values_index(a@, a@.len() as int);
    }
    if a.len() == 0 {
        return None;
    }
    let h = match &a[0] {
        Object::Name(h) => h,
        _ => return None,
    };
    if h.as_str().is_none() {
        return None;
    }
    let hb = h.as_bytes();
    if is_name(hb, "ICCBased") {
        Some(icc_shape(store, a))
    } else if is_name(hb, "CalGray") {
        Some(CsShape::DeviceGray)
    } else if is_name(hb, "CalRGB") || is_name(hb, "ICC") {
        Some(CsShape::DeviceRgb)
    } else if is_name(hb, "Lab") {
        Some(CsShape::Lab)
    } else if is_name(hb, "Indexed") || is_name(hb, "I") {
        if a.len() < 4 {
            return None;
        }
        let base = match resolve_cs(store, &a[1], resources, depth + 1) {
            Some(b) => b,
            None => return None,
        };
        let hival: u64 = match a[2].as_i64() {
            Some(i) => if i < 0 { 0 } else { i as u64 },
            None => return None,
        };
        let lookup = match resolve_value(store, &a[3]) {
            Some(l) => l,
            None => return None,
        };
        match &lookup {
            Object::String(_) | Object::Stream(_) => {},
            _ => return None,
        }
        Some(CsShape::Indexed { base: Box::new(base), hival, lookup })
    } else if is_name(hb, "Separation") {
        if a.len() < 4 {
            return None;
        }
        match resolve_cs(store, &a[2], resources, depth + 1) {
            Some(alt) => Some(CsShape::Separation { alt: Box::new(alt), tint: a[3].copy() }),
            None => None,
        }
    } else if is_name(hb, "DeviceN") {
        if a.len() < 4 {
            return None;
        }
        let n: u64 = match &a[1] {
            Object::Array(names) => {
                proof {
                    Object::lemma_array_values_index(names@, names@.len() as int);
                }
                if names.len() == 0 { 1 } else { names.len() as u64 }
            },
            _ => return None,
        };
        match resolve_cs(store, &a[2], resources, depth + 1) {
            Some(alt) => Some(CsShape::DeviceN { n, alt: Box::new(alt), tint: a[3].copy() }),
            None => None,
        }
    } else {
        device_by_name(hb)
    }
}

/// Reads the palette of an `/Indexed` space from its lookup object: a
/// string's bytes, or a stream's body decoded under the store's limits.
/// `None` for anything else, or when the stream does not decode fully.
pub fn read_lookup(store: &ObjectStore, lookup: &Object) -> (r: Option<Vec<u8>>)
    ensures
        lookup_reads(store@, lookup.value(), bytes_of(r)),
{
    let o = match resolve_value(store, lookup) {
        Some(o) => o,
        None => return None,
    };
    match &o {
        Object::String(st) => {
            Some(vstd::slice::slice_to_vec(st.as_bytes()))
        },
        Object::Stream(st) => {
            let d = store.decode_stream(st);
            let r = match d {
                Ok(out) => match out.into_decoded() {
                    Ok(b) => Some(b),
                    Err(_) => None,
                },
                Err(_) => None,
            };
            proof {
                if !st.data.payload().decoded {
                    lemma_lookup_decoded(store@, lookup.value(), st.dict.map(), st.data.payload(), outcome_result(d), bytes_of(r));
                }
            }
            r
        },
        _ => None,
    }
}

} // verus!
