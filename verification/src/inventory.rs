//! Page inventory: the image and font resources a page declares, one row
//! per resource, read from the object store.

use std::collections::BTreeSet;

use vstd::prelude::*;
use vstd::string::StringSliceAdditionalSpecFns;
use vstd::utf8::{decode_utf8, valid_utf8};

use crate::api::{FontInfo, ImageInfo};
use crate::encrypt::dict_of;
use crate::error::Error;
use crate::filters::{decode_stream_spec, entry, outcome_result, OutcomeView};
use crate::object::{Dict, Name, ObjRef, Object, PayloadView, PdfValue};
use crate::ocg::dict_read;
use crate::store::{dict_key_spec, resolve_spec, ObjectStore, StoreView};

verus! {

/// The text of a name: its bytes decoded as UTF-8, empty when they are not
/// valid UTF-8.
pub open spec fn name_str(n: Seq<u8>) -> Seq<char> {
    if valid_utf8(n) { decode_utf8(n) } else { Seq::empty() }
}

/// The text of name entry `key` of `m`, when it is a name that is valid
/// UTF-8.
pub open spec fn dict_name_spec(m: Map<Seq<u8>, PdfValue>, key: Seq<u8>) -> Option<Seq<char>> {
    match entry(m, key) {
        Some(PdfValue::Name(n)) => if valid_utf8(n) { Some(decode_utf8(n)) } else { None },
        _ => None,
    }
}

/// Integer entry `key` of `m` when it fits `i32`, else 0.
pub open spec fn dict_int_spec(m: Map<Seq<u8>, PdfValue>, key: Seq<u8>) -> i32 {
    match entry(m, key) {
        Some(PdfValue::Integer(i)) => if i32::MIN <= i <= i32::MAX { i as i32 } else { 0 },
        _ => 0,
    }
}

/// The dictionary of a page: the page object resolved.
pub open spec fn page_dict_spec(v: StoreView, page: ObjRef) -> Option<Map<Seq<u8>, PdfValue>> {
    match resolve_spec(v, page) {
        Ok(val) => dict_of(val),
        Err(_) => None,
    }
}

/// Sub-dictionary `sub` of the page's own `/Resources`.
pub open spec fn resource_subdict_spec(v: StoreView, page: ObjRef, sub: Seq<u8>) -> Option<Map<Seq<u8>, PdfValue>> {
    match page_dict_spec(v, page) {
        Some(pd) => match dict_read(dict_key_spec(v, pd, "Resources".spec_bytes())) {
            Some(res) => dict_read(dict_key_spec(v, res, sub)),
            None => None,
        },
        None => None,
    }
}

/// The key bytes and values of dictionary entries.
pub open spec fn kv_of(es: Seq<(Name, Object)>) -> Seq<(Seq<u8>, PdfValue)> {
    es.map_values(|e: (Name, Object)| (e.0@, e.1.value()))
}

/// Whether `es` lists the entries of `m` in increasing key order.
pub open spec fn lists_entries(es: Seq<(Name, Object)>, m: Map<Seq<u8>, PdfValue>) -> bool {
    Dict::sorted(es) && Dict::entries_map(es, es.len() as int) == m
}

/// The object number of a reference value as `i32`, 0 for a direct value.
pub open spec fn ref_xref(val: PdfValue) -> i32 {
    match val {
        PdfValue::Reference(r) => r.num as i32,
        _ => 0,
    }
}

/// A value with a reference resolved; `None` when resolution fails.
pub open spec fn resolved_value(v: StoreView, val: PdfValue) -> Option<PdfValue> {
    match val {
        PdfValue::Reference(r) => match resolve_spec(v, r) {
            Ok(o) => Some(o),
            Err(_) => None,
        },
        other => Some(other),
    }
}

/// The image rows of resource entries `kv` from index `i` on, given the
/// object numbers already reported: for each entry (in order) whose value
/// resolves to a dictionary with `/Subtype /Image` and whose name is valid
/// UTF-8, not yet reported under another name, its dictionary, object
/// number and name.
pub open spec fn image_rows(v: StoreView, kv: Seq<(Seq<u8>, PdfValue)>, i: nat, seen: Set<i32>)
    -> Seq<(Map<Seq<u8>, PdfValue>, i32, Seq<u8>)>
    decreases kv.len() - i,
{
    if i >= kv.len() {
        Seq::empty()
    } else {
        let n = kv[i as int].0;
        let val = kv[i as int].1;
        let xref = ref_xref(val);
        if xref != 0 && seen.contains(xref) {
            image_rows(v, kv, i + 1, seen)
        } else {
            match resolved_value(v, val) {
                None => image_rows(v, kv, i + 1, seen),
                Some(o) => match dict_of(o) {
                    None => image_rows(v, kv, i + 1, seen),
                    Some(d) => if entry(d, "Subtype".spec_bytes()) != Some(PdfValue::Name("Image".spec_bytes())) || !valid_utf8(n) {
                        image_rows(v, kv, i + 1, seen)
                    } else {
                        seq![(d, xref, n)] + image_rows(v, kv, i + 1, if xref != 0 { seen.insert(xref) } else { seen })
                    },
                },
            }
        }
    }
}

/// Rows of images never repeat an object number, nor report one already
/// reported.
proof fn lemma_image_rows_distinct(v: StoreView, kv: Seq<(Seq<u8>, PdfValue)>, i: nat, seen: Set<i32>)
    ensures
        forall|a: int| 0 <= a < image_rows(v, kv, i, seen).len() && (#[trigger] image_rows(v, kv, i, seen)[a]).1 != 0
            ==> !seen.contains(image_rows(v, kv, i, seen)[a].1),
        forall|a: int, b: int| 0 <= a < b < image_rows(v, kv, i, seen).len()
            && (#[trigger] image_rows(v, kv, i, seen)[a]).1 != 0
            ==> image_rows(v, kv, i, seen)[a].1 != (#[trigger] image_rows(v, kv, i, seen)[b]).1,
    decreases kv.len() - i,
{
    if i < kv.len() {
        let xref = ref_xref(kv[i as int].1);
        let seen2 = if xref != 0 { seen.insert(xref) } else { seen };
        lemma_image_rows_distinct(v, kv, i + 1, seen);
        lemma_image_rows_distinct(v, kv, i + 1, seen2);
        let rows = image_rows(v, kv, i, seen);
        let rest = image_rows(v, kv, i + 1, seen2);
        if rows != image_rows(v, kv, i + 1, seen) {
            let n = kv[i as int].0;
            let d = dict_of(resolved_value(v, kv[i as int].1)->Some_0)->Some_0;
            assert(rows == seq![(d, xref, n)] + rest);
            assert forall|a: int| 0 <= a < rows.len() && (#[trigger] rows[a]).1 != 0 implies !seen.contains(rows[a].1) by {
                if a > 0 {
                    assert(rows[a] == rest[a - 1]);
                }
            }
            assert forall|a: int, b: int| 0 <= a < b < rows.len() && (#[trigger] rows[a]).1 != 0
                implies rows[a].1 != (#[trigger] rows[b]).1 by {
                assert(rows[b] == rest[b - 1]);
                if a > 0 {
                    assert(rows[a] == rest[a - 1]);
                } else {
                    assert(rows[a].1 == xref);
                    if rest[b - 1].1 == xref {
                        assert(seen2.contains(xref));
                    }
                }
            }
        }
    }
}

/// A page's image rows are deduplicated by object number: no two rows
/// share a non-zero object number (the first resource name wins).
pub proof fn law_images_deduplicated(v: StoreView, kv: Seq<(Seq<u8>, PdfValue)>)
    ensures
        forall|a: int, b: int| 0 <= a < b < image_rows(v, kv, 0, Set::empty()).len()
            && (#[trigger] image_rows(v, kv, 0, Set::empty())[a]).1 != 0
            ==> image_rows(v, kv, 0, Set::empty())[a].1 != (#[trigger] image_rows(v, kv, 0, Set::empty())[b]).1,
{
    lemma_image_rows_distinct(v, kv, 0, Set::empty());
}

/// The leading name of a `/ColorSpace` or `/Filter` entry: the name
/// itself, or an array's first element when it is a name; empty otherwise.
pub open spec fn leading_name(m: Map<Seq<u8>, PdfValue>, key: Seq<u8>) -> Seq<char> {
    match entry(m, key) {
        Some(PdfValue::Name(n)) => name_str(n),
        Some(PdfValue::Array(a)) => if a.len() > 0 && a[0] is Name { name_str(a[0]->Name_0) } else { Seq::empty() },
        _ => Seq::empty(),
    }
}

/// Whether `info` is the image row for image dictionary `d`, object number
/// `xref`, resource name `n` and referencing page `referencer`.
pub open spec fn image_info_ok(info: ImageInfo, d: Map<Seq<u8>, PdfValue>, xref: i32, n: Seq<u8>, referencer: i32) -> bool {
    &&& info.xref == xref
    &&& info.smask == ref_xref(match entry(d, "SMask".spec_bytes()) { Some(x) => x, None => PdfValue::Null })
    &&& info.width == dict_int_spec(d, "Width".spec_bytes())
    &&& info.height == dict_int_spec(d, "Height".spec_bytes())
    &&& info.bpc == dict_int_spec(d, "BitsPerComponent".spec_bytes())
    &&& info.colorspace@ == leading_name(d, "ColorSpace".spec_bytes())
    &&& info.alt_colorspace@ == Seq::<char>::empty()
    &&& info.name@ == name_str(n)
    &&& info.filter@ == leading_name(d, "Filter".spec_bytes())
    &&& info.referencer == referencer
}

/// The text of name `n`, empty when it is not valid UTF-8.
fn name_text(n: &Name) -> (r: String)
    ensures
        r@ == name_str(n@),
{
    match n.as_str() {
        Some(s) => {
            proof {
                vstd::utf8::encode_utf8_decode_utf8(s@);
            }
            String::from_str(s)
        },
        None => String::new(),
    }
}

/// Integer entry `key` of `d` when it fits `i32`, else 0.
fn dict_int(d: &Dict, key: &str) -> (r: i32)
    ensures
        r == dict_int_spec(d.map(), key.spec_bytes()),
{
    match d.get(&Name::new(key)) {
        Some(Object::Integer(i)) => if -0x8000_0000 <= *i && *i <= 0x7fff_ffff { *i as i32 } else { 0 },
        _ => 0,
    }
}

/// The leading name of entry `key` of `d`.
fn leading_name_of(d: &Dict, key: &str) -> (r: String)
    ensures
        r@ == leading_name(d.map(), key.spec_bytes()),
{
    match d.get(&Name::new(key)) {
        Some(Object::Name(n)) => name_text(n),
        Some(Object::Array(a)) => {
            proof {
                Object::lemma_array_values_index(a@, a@.len() as int);
            }
            if a.len() > 0 {
                match &a[0] {
                    Object::Name(n) => name_text(n),
                    _ => String::new(),
                }
            } else {
                String::new()
            }
        },
        _ => String::new(),
    }
}

/// The object number of a reference object as `i32`, 0 otherwise.
fn ref_num_i32(o: Option<&Object>) -> (r: i32)
    ensures
        r == ref_xref(match o { Some(x) => x.value(), None => PdfValue::Null }),
{
    match o {
        Some(Object::Reference(x)) => #[verifier::truncate] (x.num as i32),
        _ => 0,
    }
}

/// A value with a reference resolved; `None` when resolution fails.
fn resolve_value(store: &ObjectStore, value: &Object) -> (r: Option<Object>)
    ensures
        match r {
            Some(o) => resolved_value(store@, value.value()) == Some(o.value()),
            None => resolved_value(store@, value.value()) is None,
        },
{
    match value {
        Object::Reference(x) => match store.resolve(*x) {
            Ok(o) => Some(o),
            Err(_) => None,
        },
        other => Some(other.copy()),
    }
}

/// Sub-dictionary `sub` of the page's own `/Resources`, copied.
fn resource_subdict(store: &ObjectStore, page: ObjRef, sub: &str) -> (r: Option<Dict>)
    ensures
        match r {
            Some(d) => resource_subdict_spec(store@, page, sub.spec_bytes()) == Some(d.map()),
            None => resource_subdict_spec(store@, page, sub.spec_bytes()) is None,
        },
{
    let page_obj = match store.resolve(page) {
        Ok(o) => o,
        Err(_) => {
            return None;
        },
    };
    let pd = match page_obj.as_dict() {
        Some(d) => d,
        None => {
            return None;
        },
    };
    let res_obj = match store.resolve_dict_key(pd, &Name::new("Resources")) {
        Ok(Some(o)) => o,
        _ => {
            return None;
        },
    };
    let res = match res_obj.as_dict() {
        Some(d) => d,
        None => {
            return None;
        },
    };
    match store.resolve_dict_key(res, &Name::new(sub)) {
        Ok(Some(o)) => match o.as_dict() {
            Some(d) => Some(d.copy()),
            None => None,
        },
        _ => None,
    }
}

/// The image row for image dictionary `d`.
fn build_image_info(d: &Dict, xref: i32, name: &Name, referencer: i32) -> (r: ImageInfo)
    ensures
        image_info_ok(r, d.map(), xref, name@, referencer),
{
    let got = d.get(&Name::new("SMask"));
    ImageInfo {
        xref,
        smask: ref_num_i32(got),
        width: dict_int(d, "Width"),
        height: dict_int(d, "Height"),
        bpc: dict_int(d, "BitsPerComponent"),
        colorspace: leading_name_of(d, "ColorSpace"),
        alt_colorspace: String::new(),
        name: name_text(name),
        filter: leading_name_of(d, "Filter"),
        referencer,
    }
}

/// The page's images: one row per `/Resources /XObject` entry (in
/// resource-name order) that is an image, deduplicated by object number
/// (the first name wins); empty when the page declares no XObjects.
pub fn get_images(store: &ObjectStore, page: ObjRef) -> (r: Vec<ImageInfo>)
    ensures
        match resource_subdict_spec(store@, page, "XObject".spec_bytes()) {
            None => r@.len() == 0,
            Some(m) => exists|es: Seq<(Name, Object)>| #[trigger] lists_entries(es, m) && {
                let rows = image_rows(store@, kv_of(es), 0, Set::empty());
                &&& r@.len() == rows.len()
                &&& forall|i: int| 0 <= i < rows.len() ==> image_info_ok(#[trigger] r@[i], rows[i].0, rows[i].1, rows[i].2, page.num as i32)
            },
        },
        forall|a: int, b: int| 0 <= a < b < r@.len() && (#[trigger] r@[a]).xref != 0 ==> r@[a].xref != (#[trigger] r@[b]).xref,
{
    let referencer: i32 = #[verifier::truncate] (page.num as i32);
    let mut out: Vec<ImageInfo> = Vec::new();
    let xobjs = match resource_subdict(store, page, "XObject") {
        Some(d) => d,
        None => {
            return out;
        },
    };
    let es = xobjs.entries();
    let ghost kv = kv_of(es@);
    let mut seen: BTreeSet<i32> = BTreeSet::new();
    let ghost mut done: Seq<(Map<Seq<u8>, PdfValue>, i32, Seq<u8>)> = Seq::empty();
    let mut i: usize = 0;
    while i < es.len()
        invariant
            i <= es@.len(),
            kv == kv_of(es@),
            kv.len() == es@.len(),
            referencer == page.num as i32,
            done + image_rows(store@, kv, i as nat, seen@) == image_rows(store@, kv, 0, Set::empty()),
            out@.len() == done.len(),
            forall|k: int| 0 <= k < done.len() ==> image_info_ok(#[trigger] out@[k], done[k].0, done[k].1, done[k].2, referencer),
        decreases es@.len() - i,
    {
        let name = &es[i].0;
        let value = &es[i].1;
        let ghost seen0 = seen@;
        let ghost rest = image_rows(store@, kv, (i + 1) as nat, seen0);
        proof {
            assert(kv[i as int] == (name@, value.value()));
        }
        let xref = ref_num_i32(Some(value));
        let mut take = true;
        if xref != 0 && seen.contains(&xref) {
            take = false;
        }
        let mut row: Option<ImageInfo> = None;
        if take {
            match resolve_value(store, value) {
                Some(obj) => match obj.as_dict() {
                    Some(d) => {
                        let is_image = match d.get(&Name::new("Subtype")) {
                            Some(Object::Name(n)) => crate::object::name::bytes_equal(n.as_bytes(), "Image".as_bytes()),
                            _ => false,
                        };
                        if is_image && name.as_str().is_some() {
                            if xref != 0 {
                                seen.insert(xref);
                            }
                            let info = build_image_info(d, xref, name, referencer);
                            proof {
                                assert(image_rows(store@, kv, i as nat, seen0)
                                    == seq![(d.map(), xref, name@)] + image_rows(store@, kv, (i + 1) as nat, seen@));
                            }
                            row = Some(info);
                        }
                    },
                    None => {},
                },
                None => {},
            }
        }
        proof {
            if row is None {
                assert(image_rows(store@, kv, i as nat, seen0) == image_rows(store@, kv, (i + 1) as nat, seen@));
            }
        }
        match row {
            Some(info) => {
                let ghost d_map = info;
                proof {
                    let here = image_rows(store@, kv, i as nat, seen0)[0];
                    assert(done + image_rows(store@, kv, i as nat, seen0)
                        =~= done.push(here) + image_rows(store@, kv, (i + 1) as nat, seen@));
                    done = done.push(here);
                }
                out.push(info);
            },
            None => {},
        }
        i = i + 1;
    }
    proof {
        let rows = image_rows(store@, kv, 0, Set::empty());
        assert(done =~= rows);
        assert(forall|k: int| 0 <= k < rows.len() ==> image_info_ok(#[trigger] out@[k], rows[k].0, rows[k].1, rows[k].2, page.num as i32));
        assert(lists_entries(es@, resource_subdict_spec(store@, page, "XObject".spec_bytes())->Some_0));
        lemma_image_rows_distinct(store@, kv, 0, Set::empty());
        assert forall|a: int, b: int| 0 <= a < b < out@.len() && (#[trigger] out@[a]).xref != 0
            implies out@[a].xref != (#[trigger] out@[b]).xref by {
            assert(image_info_ok(out@[a], rows[a].0, rows[a].1, rows[a].2, page.num as i32));
            assert(image_info_ok(out@[b], rows[b].0, rows[b].1, rows[b].2, page.num as i32));
        }
    }
    out
}


/// One XObject inventory entry. The `/BBox` and `/Matrix` numbers are
/// handed over as written; their conversion to floating point is the
/// caller's.
#[derive(Debug, PartialEq)]
pub struct XObjectInfo {
    /// The XObject's number, or `0` if direct.
    pub xref: i32,
    /// The resource name the XObject is referenced under.
    pub name: String,
    /// The `/Subtype` name (`"Form"`, `"Image"`, ...), empty if absent.
    pub kind: String,
    /// The `/BBox` array when present (the unit square stands for it
    /// otherwise).
    pub bbox: Option<Vec<Object>>,
    /// The `/Matrix` array when it has at least six entries (the identity
    /// stands for it otherwise).
    pub matrix: Option<Vec<Object>>,
    /// The number of the referencing object.
    pub referencer: i32,
}

/// The XObject rows of resource entries `kv` from index `i` on, given the
/// object numbers already reported: for each entry (in order) whose value
/// resolves to a dictionary or stream and whose name is valid UTF-8, not
/// yet reported under another name, its dictionary, object number and name.
pub open spec fn xobject_rows(v: StoreView, kv: Seq<(Seq<u8>, PdfValue)>, i: nat, seen: Set<i32>)
    -> Seq<(Map<Seq<u8>, PdfValue>, i32, Seq<u8>)>
    decreases kv.len() - i,
{
    if i >= kv.len() {
        Seq::empty()
    } else {
        let n = kv[i as int].0;
        let val = kv[i as int].1;
        let xref = ref_xref(val);
        if xref != 0 && seen.contains(xref) {
            xobject_rows(v, kv, i + 1, seen)
        } else {
            match resolved_value(v, val) {
                None => xobject_rows(v, kv, i + 1, seen),
                Some(o) => match dict_of(o) {
                    None => xobject_rows(v, kv, i + 1, seen),
                    Some(d) => if !valid_utf8(n) {
                        xobject_rows(v, kv, i + 1, seen)
                    } else {
                        seq![(d, xref, n)] + xobject_rows(v, kv, i + 1, if xref != 0 { seen.insert(xref) } else { seen })
                    },
                },
            }
        }
    }
}

/// XObject rows never repeat an object number, nor report one already
/// reported.
proof fn lemma_xobject_rows_distinct(v: StoreView, kv: Seq<(Seq<u8>, PdfValue)>, i: nat, seen: Set<i32>)
    ensures
        forall|a: int| 0 <= a < xobject_rows(v, kv, i, seen).len() && (#[trigger] xobject_rows(v, kv, i, seen)[a]).1 != 0
            ==> !seen.contains(xobject_rows(v, kv, i, seen)[a].1),
        forall|a: int, b: int| 0 <= a < b < xobject_rows(v, kv, i, seen).len()
            && (#[trigger] xobject_rows(v, kv, i, seen)[a]).1 != 0
            ==> xobject_rows(v, kv, i, seen)[a].1 != (#[trigger] xobject_rows(v, kv, i, seen)[b]).1,
    decreases kv.len() - i,
{
    if i < kv.len() {
        let xref = ref_xref(kv[i as int].1);
        let seen2 = if xref != 0 { seen.insert(xref) } else { seen };
        lemma_xobject_rows_distinct(v, kv, i + 1, seen);
        lemma_xobject_rows_distinct(v, kv, i + 1, seen2);
        let rows = xobject_rows(v, kv, i, seen);
        let rest = xobject_rows(v, kv, i + 1, seen2);
        if rows != xobject_rows(v, kv, i + 1, seen) {
            let n = kv[i as int].0;
            let d = dict_of(resolved_value(v, kv[i as int].1)->Some_0)->Some_0;
            assert(rows == seq![(d, xref, n)] + rest);
            assert forall|a: int| 0 <= a < rows.len() && (#[trigger] rows[a]).1 != 0 implies !seen.contains(rows[a].1) by {
                if a > 0 {
                    assert(rows[a] == rest[a - 1]);
                }
            }
            assert forall|a: int, b: int| 0 <= a < b < rows.len() && (#[trigger] rows[a]).1 != 0
                implies rows[a].1 != (#[trigger] rows[b]).1 by {
                assert(rows[b] == rest[b - 1]);
                if a > 0 {
                    assert(rows[a] == rest[a - 1]);
                } else {
                    assert(rows[a].1 == xref);
                    if rest[b - 1].1 == xref {
                        assert(seen2.contains(xref));
                    }
                }
            }
        }
    }
}

/// A page's XObject rows are deduplicated by object number: no two rows
/// share a non-zero object number (the first resource name wins).
pub proof fn law_xobjects_deduplicated(v: StoreView, kv: Seq<(Seq<u8>, PdfValue)>)
    ensures
        forall|a: int, b: int| 0 <= a < b < xobject_rows(v, kv, 0, Set::empty()).len()
            && (#[trigger] xobject_rows(v, kv, 0, Set::empty())[a]).1 != 0
            ==> xobject_rows(v, kv, 0, Set::empty())[a].1 != (#[trigger] xobject_rows(v, kv, 0, Set::empty())[b]).1,
{
    lemma_xobject_rows_distinct(v, kv, 0, Set::empty());
}

/// The items of array entry `key` of `m`, when it is an array.
pub open spec fn array_entry(m: Map<Seq<u8>, PdfValue>, key: Seq<u8>) -> Option<Seq<PdfValue>> {
    match entry(m, key) {
        Some(PdfValue::Array(a)) => Some(a),
        _ => None,
    }
}

/// The values of an optional list of objects.
pub open spec fn opt_values(o: Option<Vec<Object>>) -> Option<Seq<PdfValue>> {
    match o {
        Some(v) => Some(Object::array_values(v@, v@.len() as int)),
        None => None,
    }
}

/// Whether `info` is the XObject row for dictionary `d`, object number
/// `xref`, resource name `n` and referencing page `referencer`.
pub open spec fn xobject_info_ok(info: XObjectInfo, d: Map<Seq<u8>, PdfValue>, xref: i32, n: Seq<u8>, referencer: i32) -> bool {
    &&& info.xref == xref
    &&& info.name@ == name_str(n)
    &&& info.kind@ == or_empty_text(dict_name_spec(d, "Subtype".spec_bytes()))
    &&& opt_values(info.bbox) == array_entry(d, "BBox".spec_bytes())
    &&& opt_values(info.matrix) == (match array_entry(d, "Matrix".spec_bytes()) {
        Some(a) => if a.len() >= 6 { Some(a) } else { None },
        None => None,
    })
    &&& info.referencer == referencer
}

/// A copy of the items of array entry `key` of `d`, when it is an array
/// with at least `min` items.
fn array_items(d: &Dict, key: &str, min: usize) -> (r: Option<Vec<Object>>)
    ensures
        opt_values(r) == (match array_entry(d.map(), key.spec_bytes()) {
            Some(a) => if a.len() >= min { Some(a) } else { None },
            None => None,
        }),
{
    match d.get(&Name::new(key)) {
        Some(o) => {
            let c = o.copy();
            match c {
                Object::Array(v) => {
                    proof {
                        Object::lemma_array_values_index(v@, v@.len() as int);
                    }
                    if v.len() >= min {
                        Some(v)
                    } else {
                        None
                    }
                },
                _ => None,
            }
        },
        None => None,
    }
}

/// The text of name entry `key` of `d`, empty when absent, not a name or
/// not valid UTF-8.
fn name_entry_text(d: &Dict, key: &str) -> (r: String)
    ensures
        r@ == or_empty_text(dict_name_spec(d.map(), key.spec_bytes())),
{
    match d.get(&Name::new(key)) {
        Some(Object::Name(n)) => name_text(n),
        _ => String::new(),
    }
}

/// The XObject row for dictionary `d`.
fn build_xobject_info(d: &Dict, xref: i32, name: &Name, referencer: i32) -> (r: XObjectInfo)
    ensures
        xobject_info_ok(r, d.map(), xref, name@, referencer),
{
    XObjectInfo {
        xref,
        name: name_text(name),
        kind: name_entry_text(d, "Subtype"),
        bbox: array_items(d, "BBox", 0),
        matrix: array_items(d, "Matrix", 6),
        referencer,
    }
}

/// The page's XObjects, forms and images alike: one row per
/// `/Resources /XObject` entry (in resource-name order) that resolves to a
/// dictionary or stream, deduplicated by object number (the first name
/// wins); empty when the page declares no XObjects.
pub fn get_xobjects(store: &ObjectStore, page: ObjRef) -> (r: Vec<XObjectInfo>)
    ensures
        match resource_subdict_spec(store@, page, "XObject".spec_bytes()) {
            None => r@.len() == 0,
            Some(m) => exists|es: Seq<(Name, Object)>| #[trigger] lists_entries(es, m) && {
                let rows = xobject_rows(store@, kv_of(es), 0, Set::empty());
                &&& r@.len() == rows.len()
                &&& forall|i: int| 0 <= i < rows.len() ==> xobject_info_ok(#[trigger] r@[i], rows[i].0, rows[i].1, rows[i].2, page.num as i32)
            },
        },
{
    let referencer: i32 = #[verifier::truncate] (page.num as i32);
    let mut out: Vec<XObjectInfo> = Vec::new();
    let xobjs = match resource_subdict(store, page, "XObject") {
        Some(d) => d,
        None => {
            return out;
        },
    };
    let es = xobjs.entries();
    let ghost kv = kv_of(es@);
    let mut seen: BTreeSet<i32> = BTreeSet::new();
    let ghost mut done: Seq<(Map<Seq<u8>, PdfValue>, i32, Seq<u8>)> = Seq::empty();
    let mut i: usize = 0;
    while i < es.len()
        invariant
            i <= es@.len(),
            kv == kv_of(es@),
            kv.len() == es@.len(),
            referencer == page.num as i32,
            done + xobject_rows(store@, kv, i as nat, seen@) == xobject_rows(store@, kv, 0, Set::empty()),
            out@.len() == done.len(),
            forall|k: int| 0 <= k < done.len() ==> xobject_info_ok(#[trigger] out@[k], done[k].0, done[k].1, done[k].2, referencer),
        decreases es@.len() - i,
    {
        let name = &es[i].0;
        let value = &es[i].1;
        let ghost seen0 = seen@;
        proof {
            assert(kv[i as int] == (name@, value.value()));
        }
        let xref = ref_num_i32(Some(value));
        let mut take = true;
        if xref != 0 && seen.contains(&xref) {
            take = false;
        }
        let mut row: Option<XObjectInfo> = None;
        if take {
            match resolve_value(store, value) {
                Some(obj) => match obj.as_dict() {
                    Some(d) => {
                        if name.as_str().is_some() {
                            if xref != 0 {
                                seen.insert(xref);
                            }
                            let info = build_xobject_info(d, xref, name, referencer);
                            proof {
                                assert(xobject_rows(store@, kv, i as nat, seen0)
                                    == seq![(d.map(), xref, name@)] + xobject_rows(store@, kv, (i + 1) as nat, seen@));
                            }
                            row = Some(info);
                        }
                    },
                    None => {},
                },
                None => {},
            }
        }
        proof {
            if row is None {
                assert(xobject_rows(store@, kv, i as nat, seen0) == xobject_rows(store@, kv, (i + 1) as nat, seen@));
            }
        }
        match row {
            Some(info) => {
                proof {
                    let here = xobject_rows(store@, kv, i as nat, seen0)[0];
                    assert(done + xobject_rows(store@, kv, i as nat, seen0)
                        =~= done.push(here) + xobject_rows(store@, kv, (i + 1) as nat, seen@));
                    done = done.push(here);
                }
                out.push(info);
            },
            None => {},
        }
        i = i + 1;
    }
    proof {
        let rows = xobject_rows(store@, kv, 0, Set::empty());
        assert(done =~= rows);
        assert(lists_entries(es@, xobjs.map()));
        assert(forall|k: int| 0 <= k < rows.len() ==> xobject_info_ok(#[trigger] out@[k], rows[k].0, rows[k].1, rows[k].2, page.num as i32));
        assert(lists_entries(es@, resource_subdict_spec(store@, page, "XObject".spec_bytes())->Some_0));
    }
    out
}

/// The text of an optional name, empty when absent.
pub open spec fn or_empty_text(o: Option<Seq<char>>) -> Seq<char> {
    match o {
        Some(t) => t,
        None => Seq::empty(),
    }
}

/// The font rows of resource entries `kv` from index `i` on, given the
/// object numbers already seen: an entry whose reference number was seen
/// is skipped (the number counts as seen as soon as an entry names it);
/// otherwise each entry whose value resolves to a dictionary and whose
/// name is valid UTF-8 gives its dictionary, object number and name.
pub open spec fn font_rows(v: StoreView, kv: Seq<(Seq<u8>, PdfValue)>, i: nat, seen: Set<i32>)
    -> Seq<(Map<Seq<u8>, PdfValue>, i32, Seq<u8>)>
    decreases kv.len() - i,
{
    if i >= kv.len() {
        Seq::empty()
    } else {
        let n = kv[i as int].0;
        let val = kv[i as int].1;
        let xref = ref_xref(val);
        if xref != 0 && seen.contains(xref) {
            font_rows(v, kv, i + 1, seen)
        } else {
            let seen2 = if xref != 0 { seen.insert(xref) } else { seen };
            match resolved_value(v, val) {
                None => font_rows(v, kv, i + 1, seen2),
                Some(o) => match dict_of(o) {
                    None => font_rows(v, kv, i + 1, seen2),
                    Some(f) => if !valid_utf8(n) {
                        font_rows(v, kv, i + 1, seen2)
                    } else {
                        seq![(f, xref, n)] + font_rows(v, kv, i + 1, seen2)
                    },
                },
            }
        }
    }
}

/// Font rows never repeat an object number, nor report one already
/// reported.
proof fn lemma_font_rows_distinct(v: StoreView, kv: Seq<(Seq<u8>, PdfValue)>, i: nat, seen: Set<i32>)
    ensures
        forall|a: int| 0 <= a < font_rows(v, kv, i, seen).len() && (#[trigger] font_rows(v, kv, i, seen)[a]).1 != 0
            ==> !seen.contains(font_rows(v, kv, i, seen)[a].1),
        forall|a: int, b: int| 0 <= a < b < font_rows(v, kv, i, seen).len()
            && (#[trigger] font_rows(v, kv, i, seen)[a]).1 != 0
            ==> font_rows(v, kv, i, seen)[a].1 != (#[trigger] font_rows(v, kv, i, seen)[b]).1,
    decreases kv.len() - i,
{
    if i < kv.len() {
        let xref = ref_xref(kv[i as int].1);
        let seen2 = if xref != 0 { seen.insert(xref) } else { seen };
        lemma_font_rows_distinct(v, kv, i + 1, seen);
        lemma_font_rows_distinct(v, kv, i + 1, seen2);
        let rows = font_rows(v, kv, i, seen);
        let rest = font_rows(v, kv, i + 1, seen2);
        if xref != 0 && seen.contains(xref) {
            assert(rows == font_rows(v, kv, i + 1, seen));
        } else if rows == rest {
            assert forall|a: int| 0 <= a < rows.len() && (#[trigger] rows[a]).1 != 0 implies !seen.contains(rows[a].1) by {
                assert(rows[a] == rest[a]);
                assert(!seen2.contains(rest[a].1));
            }
            assert forall|a: int, b: int| 0 <= a < b < rows.len() && (#[trigger] rows[a]).1 != 0
                implies rows[a].1 != (#[trigger] rows[b]).1 by {
                assert(rows[a] == rest[a] && rows[b] == rest[b]);
            }
        } else {
            let n = kv[i as int].0;
            let d = dict_of(resolved_value(v, kv[i as int].1)->Some_0)->Some_0;
            assert(rows == seq![(d, xref, n)] + rest);
            assert forall|a: int| 0 <= a < rows.len() && (#[trigger] rows[a]).1 != 0 implies !seen.contains(rows[a].1) by {
                if a > 0 {
                    assert(rows[a] == rest[a - 1]);
                }
            }
            assert forall|a: int, b: int| 0 <= a < b < rows.len() && (#[trigger] rows[a]).1 != 0
                implies rows[a].1 != (#[trigger] rows[b]).1 by {
                assert(rows[b] == rest[b - 1]);
                if a > 0 {
                    assert(rows[a] == rest[a - 1]);
                } else {
                    assert(rows[a].1 == xref);
                    if rest[b - 1].1 == xref {
                        assert(seen2.contains(xref));
                    }
                }
            }
        }
    }
}

/// A page's font rows are deduplicated by object number: no two rows
/// share a non-zero object number (the first resource name wins).
pub proof fn law_fonts_deduplicated(v: StoreView, kv: Seq<(Seq<u8>, PdfValue)>)
    ensures
        forall|a: int, b: int| 0 <= a < b < font_rows(v, kv, 0, Set::empty()).len()
            && (#[trigger] font_rows(v, kv, 0, Set::empty())[a]).1 != 0
            ==> font_rows(v, kv, 0, Set::empty())[a].1 != (#[trigger] font_rows(v, kv, 0, Set::empty())[b]).1,
{
    lemma_font_rows_distinct(v, kv, 0, Set::empty());
}

/// The `/Encoding` of font `f`: a name verbatim, a dictionary's
/// `/BaseEncoding`, else empty.
pub open spec fn encoding_spec(v: StoreView, f: Map<Seq<u8>, PdfValue>) -> Seq<char> {
    match dict_key_spec(v, f, "Encoding".spec_bytes()) {
        Ok(Some(PdfValue::Name(n))) => name_str(n),
        Ok(Some(PdfValue::Dictionary(d))) => or_empty_text(dict_name_spec(d, "BaseEncoding".spec_bytes())),
        _ => Seq::empty(),
    }
}

/// The font descriptor of font `f`: its own `/FontDescriptor`, else, for a
/// `/Type0` font, that of its first descendant font.
pub open spec fn descriptor_spec(v: StoreView, f: Map<Seq<u8>, PdfValue>) -> Option<Map<Seq<u8>, PdfValue>> {
    match dict_read(dict_key_spec(v, f, "FontDescriptor".spec_bytes())) {
        Some(d) => Some(d),
        None => if entry(f, "Subtype".spec_bytes()) == Some(PdfValue::Name("Type0".spec_bytes())) {
            match crate::ocg::array_of(dict_key_spec(v, f, "DescendantFonts".spec_bytes())) {
                Some(a) => if a.len() > 0 {
                    match resolved_value(v, a[0]) {
                        Some(c) => match dict_of(c) {
                            Some(cd) => dict_read(dict_key_spec(v, cd, "FontDescriptor".spec_bytes())),
                            None => None,
                        },
                        None => None,
                    }
                } else {
                    None
                },
                None => None,
            }
        } else {
            None
        },
    }
}

/// The embedded-font format of descriptor `d`: `"pfb"` for `/FontFile`,
/// `"ttf"` for `/FontFile2`, `"otf"` or `"cff"` for `/FontFile3` (by the
/// program's `/Subtype`), else `"n/a"`.
pub open spec fn ext_spec(v: StoreView, d: Map<Seq<u8>, PdfValue>) -> Seq<char> {
    if d.dom().contains("FontFile".spec_bytes()) {
        "pfb"@
    } else if d.dom().contains("FontFile2".spec_bytes()) {
        "ttf"@
    } else if d.dom().contains("FontFile3".spec_bytes()) {
        match dict_read(dict_key_spec(v, d, "FontFile3".spec_bytes())) {
            Some(s) => if entry(s, "Subtype".spec_bytes()) == Some(PdfValue::Name("OpenType".spec_bytes())) { "otf"@ } else { "cff"@ },
            None => "cff"@,
        }
    } else {
        "n/a"@
    }
}

/// Whether `info` is the font row for font dictionary `f`, object number
/// `xref`, resource name `n` and referencing page `referencer`.
pub open spec fn font_info_ok(v: StoreView, info: FontInfo, f: Map<Seq<u8>, PdfValue>, xref: i32, n: Seq<u8>, referencer: i32) -> bool {
    &&& info.xref == xref
    &&& info.type_@ == or_empty_text(dict_name_spec(f, "Subtype".spec_bytes()))
    &&& info.basefont@ == or_empty_text(dict_name_spec(f, "BaseFont".spec_bytes()))
    &&& info.name@ == name_str(n)
    &&& info.encoding@ == encoding_spec(v, f)
    &&& info.ext@ == (match descriptor_spec(v, f) {
        Some(d) => ext_spec(v, d),
        None => "n/a"@,
    })
    &&& info.referencer == referencer
}

/// The text of name entry `key` of `d`, empty when absent, not a name, or
/// not valid UTF-8.
fn dict_name_or_empty(d: &Dict, key: &str) -> (r: String)
    ensures
        r@ == or_empty_text(dict_name_spec(d.map(), key.spec_bytes())),
{
    match d.get(&Name::new(key)) {
        Some(Object::Name(n)) => name_text(n),
        _ => String::new(),
    }
}

/// Whether name entry `key` of `d` is exactly `want`.
fn name_entry_is(d: &Dict, key: &str, want: &str) -> (r: bool)
    ensures
        r == (entry(d.map(), key.spec_bytes()) == Some(PdfValue::Name(want.spec_bytes()))),
{
    match d.get(&Name::new(key)) {
        Some(Object::Name(n)) => crate::object::name::bytes_equal(n.as_bytes(), want.as_bytes()),
        _ => false,
    }
}

/// The dictionary a read of key `key` of `d` gives, copied.
fn read_dict_key(store: &ObjectStore, d: &Dict, key: &str) -> (r: Option<Dict>)
    ensures
        match r {
            Some(x) => dict_read(dict_key_spec(store@, d.map(), key.spec_bytes())) == Some(x.map()),
            None => dict_read(dict_key_spec(store@, d.map(), key.spec_bytes())) is None,
        },
{
    match store.resolve_dict_key(d, &Name::new(key)) {
        Ok(Some(o)) => match o.as_dict() {
            Some(x) => Some(x.copy()),
            None => None,
        },
        _ => None,
    }
}

/// The `/Encoding` of a font.
fn encoding_name(store: &ObjectStore, font: &Dict) -> (r: String)
    ensures
        r@ == encoding_spec(store@, font.map()),
{
    match store.resolve_dict_key(font, &Name::new("Encoding")) {
        Ok(Some(o)) => match &o {
            Object::Name(n) => name_text(n),
            Object::Dictionary(d) => dict_name_or_empty(d, "BaseEncoding"),
            _ => String::new(),
        },
        _ => String::new(),
    }
}

/// The font descriptor of a font (following a `/Type0` font's first
/// descendant when the font has none).
fn font_descriptor(store: &ObjectStore, font: &Dict) -> (r: Option<Dict>)
    ensures
        match r {
            Some(x) => descriptor_spec(store@, font.map()) == Some(x.map()),
            None => descriptor_spec(store@, font.map()) is None,
        },
{
    match read_dict_key(store, font, "FontDescriptor") {
        Some(d) => {
            return Some(d);
        },
        None => {},
    }
    if !name_entry_is(font, "Subtype", "Type0") {
        return None;
    }
    let got = store.resolve_dict_key(font, &Name::new("DescendantFonts"));
    let items = match got {
        Ok(Some(Object::Array(items))) => items,
        _ => {
            return None;
        },
    };
    proof {
        Object::lemma_array_values_index(items@, items@.len() as int);
    }
    if items.len() == 0 {
        return None;
    }
    let cid = match resolve_value(store, &items[0]) {
        Some(o) => o,
        None => {
            return None;
        },
    };
    match cid.as_dict() {
        Some(cd) => read_dict_key(store, cd, "FontDescriptor"),
        None => None,
    }
}

/// The embedded-font format hint of a font descriptor.
fn font_ext(store: &ObjectStore, descriptor: &Dict) -> (r: String)
    ensures
        r@ == ext_spec(store@, descriptor.map()),
{
    if descriptor.contains_key(&Name::new("FontFile")) {
        return String::from_str("pfb");
    }
    if descriptor.contains_key(&Name::new("FontFile2")) {
        return String::from_str("ttf");
    }
    if descriptor.contains_key(&Name::new("FontFile3")) {
        return match read_dict_key(store, descriptor, "FontFile3") {
            Some(s) => if name_entry_is(&s, "Subtype", "OpenType") {
                String::from_str("otf")
            } else {
                String::from_str("cff")
            },
            None => String::from_str("cff"),
        };
    }
    String::from_str("n/a")
}

/// The font row for font dictionary `font`.
fn build_font_info(store: &ObjectStore, font: &Dict, xref: i32, name: &Name, referencer: i32) -> (r: FontInfo)
    ensures
        font_info_ok(store@, r, font.map(), xref, name@, referencer),
{
    let type_ = dict_name_or_empty(font, "Subtype");
    let basefont = dict_name_or_empty(font, "BaseFont");
    let encoding = encoding_name(store, font);
    let ext = match font_descriptor(store, font) {
        Some(d) => font_ext(store, &d),
        None => String::from_str("n/a"),
    };
    FontInfo { xref, ext, type_, basefont, name: name_text(name), encoding, referencer }
}

/// The page's fonts: one row per `/Resources /Font` entry (in
/// resource-name order) that resolves to a dictionary, deduplicated by
/// object number (the first name wins); empty when the page declares no
/// fonts.
pub fn get_fonts(store: &ObjectStore, page: ObjRef) -> (r: Vec<FontInfo>)
    ensures
        match resource_subdict_spec(store@, page, "Font".spec_bytes()) {
            None => r@.len() == 0,
            Some(m) => exists|es: Seq<(Name, Object)>| #[trigger] lists_entries(es, m) && {
                let rows = font_rows(store@, kv_of(es), 0, Set::empty());
                &&& r@.len() == rows.len()
                &&& forall|i: int| 0 <= i < rows.len() ==> font_info_ok(store@, #[trigger] r@[i], rows[i].0, rows[i].1, rows[i].2, page.num as i32)
            },
        },
{
    let referencer: i32 = #[verifier::truncate] (page.num as i32);
    let mut out: Vec<FontInfo> = Vec::new();
    let fonts = match resource_subdict(store, page, "Font") {
        Some(d) => d,
        None => {
            return out;
        },
    };
    let es = fonts.entries();
    let ghost kv = kv_of(es@);
    let mut seen: BTreeSet<i32> = BTreeSet::new();
    let ghost mut done: Seq<(Map<Seq<u8>, PdfValue>, i32, Seq<u8>)> = Seq::empty();
    let mut i: usize = 0;
    while i < es.len()
        invariant
            i <= es@.len(),
            kv == kv_of(es@),
            kv.len() == es@.len(),
            referencer == page.num as i32,
            done + font_rows(store@, kv, i as nat, seen@) == font_rows(store@, kv, 0, Set::empty()),
            out@.len() == done.len(),
            forall|k: int| 0 <= k < done.len() ==> font_info_ok(store@, #[trigger] out@[k], done[k].0, done[k].1, done[k].2, referencer),
        decreases es@.len() - i,
    {
        let name = &es[i].0;
        let value = &es[i].1;
        let ghost seen0 = seen@;
        proof {
            assert(kv[i as int] == (name@, value.value()));
        }
        let xref = ref_num_i32(Some(value));
        let mut row: Option<FontInfo> = None;
        let fresh = if xref != 0 { seen.insert(xref) } else { true };
        if fresh {
            match resolve_value(store, value) {
                Some(obj) => match obj.as_dict() {
                    Some(f) => {
                        if name.as_str().is_some() {
                            let info = build_font_info(store, f, xref, name, referencer);
                            proof {
                                assert(font_rows(store@, kv, i as nat, seen0)
                                    == seq![(f.map(), xref, name@)] + font_rows(store@, kv, (i + 1) as nat, seen@));
                            }
                            row = Some(info);
                        }
                    },
                    None => {},
                },
                None => {},
            }
        }
        proof {
            if !fresh {
                assert(seen@ =~= seen0);
            }
            if row is None {
                assert(font_rows(store@, kv, i as nat, seen0) == font_rows(store@, kv, (i + 1) as nat, seen@));
            }
        }
        match row {
            Some(info) => {
                proof {
                    let here = font_rows(store@, kv, i as nat, seen0)[0];
                    assert(done + font_rows(store@, kv, i as nat, seen0)
                        =~= done.push(here) + font_rows(store@, kv, (i + 1) as nat, seen@));
                    done = done.push(here);
                }
                out.push(info);
            },
            None => {},
        }
        i = i + 1;
    }
    proof {
        let rows = font_rows(store@, kv, 0, Set::empty());
        assert(done =~= rows);
        assert(lists_entries(es@, fonts.map()));
        assert(forall|k: int| 0 <= k < rows.len() ==> font_info_ok(store@, #[trigger] out@[k], rows[k].0, rows[k].1, rows[k].2, page.num as i32));
        assert(lists_entries(es@, resource_subdict_spec(store@, page, "Font".spec_bytes())->Some_0));
    }
    out
}

/// `m` with entry `full` added, holding the value of `short`, when `short`
/// is present and `full` is not; otherwise `m` unchanged.
pub open spec fn with_long_key(m: Map<Seq<u8>, PdfValue>, short: Seq<u8>, full: Seq<u8>) -> Map<Seq<u8>, PdfValue> {
    if m.dom().contains(short) && !m.dom().contains(full) {
        m.insert(full, m[short])
    } else {
        m
    }
}

/// The dictionary of an image placement ready to be resolved on its own:
/// an inline image's abbreviated `/CS`, `/F` and `/DP` keys are copied to
/// their full names where those are absent, and a colour space taken from
/// the drawing context replaces `/ColorSpace`.
pub open spec fn inline_image_dict_spec(m: Map<Seq<u8>, PdfValue>, inline: bool, cs: Option<PdfValue>) -> Map<Seq<u8>, PdfValue> {
    let n = if inline {
        with_long_key(
            with_long_key(
                with_long_key(m, "CS".spec_bytes(), "ColorSpace".spec_bytes()),
                "F".spec_bytes(),
                "Filter".spec_bytes(),
            ),
            "DP".spec_bytes(),
            "DecodeParms".spec_bytes(),
        )
    } else {
        m
    };
    match cs {
        Some(v) => n.insert("ColorSpace".spec_bytes(), v),
        None => n,
    }
}

fn add_long_key(d: &mut Dict, short: &str, full: &str)
    ensures
        final(d).map() == with_long_key(old(d).map(), short.spec_bytes(), full.spec_bytes()),
{
    let short_name = Name::new(short);
    let full_name = Name::new(full);
    let value = match d.get(&short_name) {
        Some(o) => o.copy(),
        None => return,
    };
    if d.contains_key(&full_name) {
        return;
    }
    d.insert(full_name, value);
}

/// Normalises an image dictionary before the image is resolved outside its
/// content stream: for an inline image (`inline`), `/CS`, `/F` and `/DP` are
/// copied to `/ColorSpace`, `/Filter` and `/DecodeParms` unless those are
/// already present; then `color_space`, when given, is stored as
/// `/ColorSpace`. `dict` itself is left as it is.
pub fn inline_image_dict(dict: &Dict, inline: bool, color_space: Option<&Object>) -> (r: Dict)
    ensures
        r.map() == inline_image_dict_spec(
            dict.map(),
            inline,
            match color_space {
                Some(o) => Some(o.value()),
                None => None,
            },
        ),
{
    let mut d = dict.copy();
    if inline {
        add_long_key(&mut d, "CS", "ColorSpace");
        add_long_key(&mut d, "F", "Filter");
        add_long_key(&mut d, "DP", "DecodeParms");
    }
    match color_space {
        Some(cs) => {
            d.insert(Name::new("ColorSpace"), cs.copy());
        },
        None => {},
    }
    d
}

/// The structural error of a font that names a program the wrong way.
pub open spec fn font_error(msg: &'static str) -> Error {
    Error::Syntax { offset: 0, msg }
}

/// What a reference-resolved value is, a reference read through the store.
pub open spec fn value_resolved(s: StoreView, v: PdfValue) -> Result<PdfValue, Error> {
    match v {
        PdfValue::Reference(x) => resolve_spec(s, x),
        _ => Ok(v),
    }
}

/// The font dictionary whose descriptor describes font `f`: for a
/// composite font, its first `/DescendantFonts` entry.
pub open spec fn program_font(s: StoreView, f: Map<Seq<u8>, PdfValue>) -> Result<Map<Seq<u8>, PdfValue>, Error> {
    match dict_key_spec(s, f, "DescendantFonts".spec_bytes()) {
        Err(e) => Err(e),
        Ok(None) => Ok(f),
        Ok(Some(PdfValue::Array(a))) => if a.len() == 0 {
            Err(font_error("invalid DescendantFonts"))
        } else {
            match value_resolved(s, a[0]) {
                Err(e) => Err(e),
                Ok(d) => match dict_of(d) {
                    Some(m) => Ok(m),
                    None => Err(font_error("invalid descendant font")),
                },
            }
        },
        Ok(Some(_)) => Err(font_error("invalid DescendantFonts")),
    }
}

/// The descriptor key of the `k`-th kind of embedded program, and the
/// format a program of that kind has when its stream names none.
pub open spec fn font_file_key(k: nat) -> (Seq<u8>, Seq<char>) {
    if k == 0 {
        ("FontFile".spec_bytes(), "Type1"@)
    } else if k == 1 {
        ("FontFile2".spec_bytes(), "TrueType"@)
    } else {
        ("FontFile3".spec_bytes(), "FontFile3"@)
    }
}

/// The format of a program stream with dictionary `m`: its `/Subtype`
/// name when that is valid UTF-8, else `default`.
pub open spec fn program_format(m: Map<Seq<u8>, PdfValue>, default: Seq<char>) -> Seq<char> {
    match entry(m, "Subtype".spec_bytes()) {
        Some(PdfValue::Name(n)) => if valid_utf8(n) { decode_utf8(n) } else { default },
        _ => default,
    }
}

/// What taking the decoded body of outcome `res` gives, with format `fmt`.
pub open spec fn program_body(res: Result<OutcomeView, Error>, fmt: Seq<char>) -> Result<Option<(Seq<char>, Seq<u8>)>, Error> {
    match res {
        Err(e) => Err(e),
        Ok(OutcomeView::Decoded(b)) => Ok(Some((fmt, b))),
        Ok(OutcomeView::ImageEncoded(f, _)) => Err(Error::Unsupported(f)),
    }
}

/// Whether `r` is what reading a program stream (dictionary `m`, payload
/// `p`) of format `fmt` gives: its body, decoded through its filters under
/// ceiling `cap` unless it is held decoded.
pub open spec fn program_reads(m: Map<Seq<u8>, PdfValue>, p: PayloadView, cap: nat, fmt: Seq<char>, r: Result<Option<(Seq<char>, Seq<u8>)>, Error>) -> bool {
    if p.decoded {
        r == Ok::<Option<(Seq<char>, Seq<u8>)>, Error>(Some((fmt, p.bytes)))
    } else {
        exists|res: Result<OutcomeView, Error>| #[trigger] decode_stream_spec(m, p.bytes, cap, res) && r == program_body(res, fmt)
    }
}

/// Whether `r` is what reading the embedded program of descriptor `d` from
/// the `k`-th kind on gives: the first of `/FontFile`, `/FontFile2`,
/// `/FontFile3` present decides, as a stream; none present is `None`.
pub open spec fn font_file_outcome(s: StoreView, d: Map<Seq<u8>, PdfValue>, k: nat, r: Result<Option<(Seq<char>, Seq<u8>)>, Error>) -> bool
    decreases 3 - k,
{
    if k >= 3 {
        r == Ok::<Option<(Seq<char>, Seq<u8>)>, Error>(None)
    } else {
        match dict_key_spec(s, d, font_file_key(k).0) {
            Err(e) => r == Err::<Option<(Seq<char>, Seq<u8>)>, Error>(e),
            Ok(None) => font_file_outcome(s, d, k + 1, r),
            Ok(Some(PdfValue::Stream(m, p))) => program_reads(m, p, s.max_stream as nat, program_format(m, font_file_key(k).1), r),
            Ok(Some(_)) => r == Err::<Option<(Seq<char>, Seq<u8>)>, Error>(font_error("invalid embedded font stream")),
        }
    }
}

/// Whether `r` is what reading the embedded program of font `f` gives:
/// through the first descendant of a composite font to its
/// `/FontDescriptor` (none is `None`) and the first program stream the
/// descriptor names.
pub open spec fn font_program_outcome(s: StoreView, f: Map<Seq<u8>, PdfValue>, r: Result<Option<(Seq<char>, Seq<u8>)>, Error>) -> bool {
    match program_font(s, f) {
        Err(e) => r == Err::<Option<(Seq<char>, Seq<u8>)>, Error>(e),
        Ok(g) => match dict_key_spec(s, g, "FontDescriptor".spec_bytes()) {
            Err(e) => r == Err::<Option<(Seq<char>, Seq<u8>)>, Error>(e),
            Ok(None) => r == Ok::<Option<(Seq<char>, Seq<u8>)>, Error>(None),
            Ok(Some(dv)) => match dict_of(dv) {
                None => r == Err::<Option<(Seq<char>, Seq<u8>)>, Error>(font_error("invalid FontDescriptor")),
                Some(dm) => font_file_outcome(s, dm, 0, r),
            },
        },
    }
}

/// The view of a program result.
pub open spec fn program_view(r: Result<Option<(String, Vec<u8>)>, Error>) -> Result<Option<(Seq<char>, Seq<u8>)>, Error> {
    match r {
        Ok(Some((f, b))) => Ok(Some((f@, b@))),
        Ok(None) => Ok(None),
        Err(e) => Err(e),
    }
}

proof fn lemma_program_decoded(m: Map<Seq<u8>, PdfValue>, p: PayloadView, cap: nat, fmt: Seq<char>, res: Result<OutcomeView, Error>, r: Result<Option<(Seq<char>, Seq<u8>)>, Error>)
    requires
        !p.decoded,
        decode_stream_spec(m, p.bytes, cap, res),
        r == program_body(res, fmt),
    ensures
        program_reads(m, p, cap, fmt, r),
{
}

/// The format of program stream dictionary `d`.
fn format_of(d: &Dict, default: &str) -> (r: String)
    ensures
        r@ == program_format(d.map(), default@),
{
    match d.get(&Name::new("Subtype")) {
        Some(Object::Name(n)) => match n.as_str() {
            Some(t) => {
                proof {
                    vstd::utf8::encode_utf8_decode_utf8(t@);
                }
                String::from_str(t)
            },
            None => String::from_str(default),
        },
        _ => String::from_str(default),
    }
}

/// The embedded program of the `k`-th kind on, in descriptor `d`.
fn font_file_from(store: &ObjectStore, d: &Dict, k: usize) -> (r: Result<Option<(String, Vec<u8>)>, Error>)
    requires
        k <= 3,
    ensures
        font_file_outcome(store@, d.map(), k as nat, program_view(r)),
    decreases 3 - k,
{
    if k >= 3 {
        return Ok(None);
    }
    let (key, default) = if k == 0 {
        ("FontFile", "Type1")
    } else if k == 1 {
        ("FontFile2", "TrueType")
    } else {
        ("FontFile3", "FontFile3")
    };
    assert(key.spec_bytes() == font_file_key(k as nat).0 && default@ == font_file_key(k as nat).1);
    match store.resolve_dict_key(d, &Name::new(key)) {
        Err(e) => Err(e),
        Ok(None) => font_file_from(store, d, k + 1),
        Ok(Some(Object::Stream(st))) => {
            let fmt = format_of(&st.dict, default);
            let out = store.decode_stream(&st);
            let r = match out {
                Ok(o) => match o.into_decoded() {
                    Ok(b) => Ok(Some((fmt, b))),
                    Err(e) => Err(e),
                },
                Err(e) => Err(e),
            };
            proof {
                if !st.data.payload().decoded {
                    lemma_program_decoded(st.dict.map(), st.data.payload(), store@.max_stream as nat, fmt@, outcome_result(out), program_view(r));
                }
            }
            r
        },
        Ok(Some(_)) => Err(Error::syntax(0, "invalid embedded font stream")),
    }
}

/// The embedded font program of font dictionary `font`, with its format:
/// for a composite font the first `/DescendantFonts` entry is read; its
/// `/FontDescriptor` names the program in `/FontFile` (format `Type1`),
/// `/FontFile2` (`TrueType`) or `/FontFile3` (`FontFile3`), the first one
/// present deciding, and a `/Subtype` of the program stream overriding the
/// format. The program comes out decoded through its filters. `None` when
/// the font has no descriptor or the descriptor no program; references
/// that do not resolve, filters that fail, and entries of the wrong kind
/// are errors.
pub fn embedded_font_program(store: &ObjectStore, font: &Dict) -> (r: Result<Option<(String, Vec<u8>)>, Error>)
    ensures
        font_program_outcome(store@, font.map(), program_view(r)),
{
    let descendant: Option<Dict> = match store.resolve_dict_key(font, &Name::new("DescendantFonts")) {
        Err(e) => return Err(e),
        Ok(None) => None,
        Ok(Some(Object::Array(a))) => {
            proof {
                Object::lemma_array_values_index(a@, a@.len() as int);
            }
            if a.len() == 0 {
                return Err(Error::syntax(0, "invalid DescendantFonts"));
            }
            let first = match &a[0] {
                Object::Reference(x) => match store.resolve(*x) {
                    Ok(o) => o,
                    Err(e) => return Err(e),
                },
                o => o.copy(),
            };
            match first.as_dict() {
                Some(d) => Some(d.copy()),
                None => return Err(Error::syntax(0, "invalid descendant font")),
            }
        },
        Ok(Some(_)) => return Err(Error::syntax(0, "invalid DescendantFonts")),
    };
    let f: &Dict = match &descendant {
        Some(d) => d,
        None => font,
    };
    assert(program_font(store@, font.map()) == Ok::<Map<Seq<u8>, PdfValue>, Error>(f.map()));
    let descriptor = match store.resolve_dict_key(f, &Name::new("FontDescriptor")) {
        Err(e) => return Err(e),
        Ok(None) => return Ok(None),
        Ok(Some(o)) => o,
    };
    match descriptor.as_dict() {
        Some(d) => font_file_from(store, d, 0),
        None => Err(Error::syntax(0, "invalid FontDescriptor")),
    }
}

} // verus!
