use std::collections::BTreeMap;

use pdf_core::colorspace::{read_lookup, resolve_colorspace, CsShape};
use pdf_core::document::validate_catalog;
use pdf_core::error::Error;
use pdf_core::inventory::{embedded_font_program, get_fonts, get_images, get_xobjects, inline_image_dict};
use pdf_core::limits::Limits;
use pdf_core::object::{Dict, Name, ObjRef, Object, StreamObj};
use pdf_core::store::ObjectStore;

fn dict(pairs: &[(&str, Object)]) -> Dict {
    let mut d = Dict::new();
    for (k, v) in pairs {
        d.insert(Name::new(k), v.copy());
    }
    d
}

fn name_obj(s: &str) -> Object {
    Object::Name(Name::new(s))
}

fn rref(num: u32, gen: u16) -> Object {
    Object::Reference(ObjRef::new(num, gen))
}

fn int_array(vals: &[i64]) -> Object {
    Object::Array(vals.iter().copied().map(Object::Integer).collect())
}

fn raw_stream(extra: &[(&str, Object)], body: &[u8]) -> Object {
    let mut d = dict(extra);
    d.insert(Name::new("Length"), Object::Integer(body.len() as i64));
    Object::Stream(StreamObj::new_encoded(d, body.to_vec()))
}

/// Catalog (obj 1) + Pages (obj 2) + a single Page (obj 3) whose
/// `/Resources` is the supplied dict, plus the extra objects.
fn one_page_with_resources(resources: Object, extra: &[(u32, Object)]) -> ObjectStore {
    let catalog = Object::Dictionary(dict(&[("Type", name_obj("Catalog")), ("Pages", rref(2, 0))]));
    let pages = Object::Dictionary(dict(&[
        ("Type", name_obj("Pages")),
        ("Count", Object::Integer(1)),
        ("Kids", Object::Array(vec![rref(3, 0)])),
        ("MediaBox", int_array(&[0, 0, 200, 200])),
    ]));
    let page = Object::Dictionary(dict(&[("Type", name_obj("Page")), ("Parent", rref(2, 0)), ("Resources", resources)]));
    let mut objects = BTreeMap::new();
    objects.insert(1u32, catalog);
    objects.insert(2u32, pages);
    objects.insert(3u32, page);
    let mut max_num = 3u32;
    for (num, obj) in extra {
        objects.insert(*num, obj.copy());
        max_num = max_num.max(*num);
    }
    let trailer = dict(&[("Size", Object::Integer(i64::from(max_num + 1))), ("Root", rref(1, 0))]);
    ObjectStore::new(objects, trailer, &Limits::default(), true)
}

fn page_ref() -> ObjRef {
    ObjRef::new(3, 0)
}

#[test]
fn fonts_inv_001_one_font_one_tuple() {
    let font = Object::Dictionary(dict(&[
        ("Type", name_obj("Font")),
        ("Subtype", name_obj("Type1")),
        ("BaseFont", name_obj("Helvetica")),
        ("Encoding", name_obj("WinAnsiEncoding")),
    ]));
    let resources = Object::Dictionary(dict(&[("Font", Object::Dictionary(dict(&[("F1", rref(4, 0))])))]));
    let doc = one_page_with_resources(resources, &[(4, font)]);
    let fonts = get_fonts(&doc, page_ref());
    assert_eq!(fonts.len(), 1);
}

#[test]
fn fonts_inv_002_tuple_shape_and_values() {
    let descriptor = Object::Dictionary(dict(&[
        ("Type", name_obj("FontDescriptor")),
        ("FontName", name_obj("Arial")),
        ("FontFile2", rref(6, 0)),
    ]));
    let fontfile = raw_stream(&[("Length1", Object::Integer(4))], b"ttf!");
    let font = Object::Dictionary(dict(&[
        ("Type", name_obj("Font")),
        ("Subtype", name_obj("TrueType")),
        ("BaseFont", name_obj("Arial")),
        ("Encoding", name_obj("WinAnsiEncoding")),
        ("FontDescriptor", rref(5, 0)),
    ]));
    let resources = Object::Dictionary(dict(&[("Font", Object::Dictionary(dict(&[("F1", rref(4, 0))])))]));
    let doc = one_page_with_resources(resources, &[(4, font), (5, descriptor), (6, fontfile)]);
    let fonts = get_fonts(&doc, page_ref());
    assert_eq!(fonts.len(), 1);
    let f = &fonts[0];
    assert_eq!(f.xref, 4);
    assert_eq!(f.ext, "ttf");
    assert_eq!(f.type_, "TrueType");
    assert_eq!(f.basefont, "Arial");
    assert_eq!(f.name, "F1");
    assert_eq!(f.encoding, "WinAnsiEncoding");
    assert_eq!(f.referencer, page_ref().num as i32);
}

#[test]
fn fonts_inv_003_subset_tag_retained() {
    let font = Object::Dictionary(dict(&[
        ("Type", name_obj("Font")),
        ("Subtype", name_obj("Type1")),
        ("BaseFont", name_obj("ABCDEF+Helvetica")),
        ("Encoding", name_obj("WinAnsiEncoding")),
    ]));
    let resources = Object::Dictionary(dict(&[("Font", Object::Dictionary(dict(&[("F1", rref(4, 0))])))]));
    let doc = one_page_with_resources(resources, &[(4, font)]);
    let fonts = get_fonts(&doc, page_ref());
    assert_eq!(fonts[0].basefont, "ABCDEF+Helvetica");
    assert_eq!(fonts[0].ext, "n/a");
}

#[test]
fn fonts_inv_004_type0_descendant() {
    let descriptor = Object::Dictionary(dict(&[
        ("Type", name_obj("FontDescriptor")),
        ("FontName", name_obj("MingLiU")),
        ("FontFile2", rref(7, 0)),
    ]));
    let cidfont = Object::Dictionary(dict(&[
        ("Type", name_obj("Font")),
        ("Subtype", name_obj("CIDFontType2")),
        ("BaseFont", name_obj("MingLiU")),
        ("FontDescriptor", rref(6, 0)),
    ]));
    let fontfile = raw_stream(&[("Length1", Object::Integer(4))], b"ttf!");
    let font = Object::Dictionary(dict(&[
        ("Type", name_obj("Font")),
        ("Subtype", name_obj("Type0")),
        ("BaseFont", name_obj("MingLiU")),
        ("Encoding", name_obj("Identity-H")),
        ("DescendantFonts", Object::Array(vec![rref(5, 0)])),
    ]));
    let resources = Object::Dictionary(dict(&[("Font", Object::Dictionary(dict(&[("F0", rref(4, 0))])))]));
    let doc = one_page_with_resources(resources, &[(4, font), (5, cidfont), (6, descriptor), (7, fontfile)]);
    let fonts = get_fonts(&doc, page_ref());
    assert_eq!(fonts.len(), 1);
    let f = &fonts[0];
    assert_eq!(f.type_, "Type0");
    assert_eq!(f.encoding, "Identity-H");
    assert_eq!(f.basefont, "MingLiU");
    assert_eq!(f.ext, "ttf");
    assert_eq!(f.name, "F0");
}

#[test]
fn fonts_inv_005_no_fonts_empty() {
    let resources = Object::Dictionary(dict(&[]));
    let doc = one_page_with_resources(resources, &[]);
    assert!(get_fonts(&doc, page_ref()).is_empty());
}

#[test]
fn fonts_inv_006_two_fonts_deduped_by_xref() {
    let font_a = Object::Dictionary(dict(&[
        ("Type", name_obj("Font")),
        ("Subtype", name_obj("Type1")),
        ("BaseFont", name_obj("Helvetica")),
        ("Encoding", name_obj("WinAnsiEncoding")),
    ]));
    let font_b = Object::Dictionary(dict(&[
        ("Type", name_obj("Font")),
        ("Subtype", name_obj("Type1")),
        ("BaseFont", name_obj("Times-Roman")),
        ("Encoding", name_obj("WinAnsiEncoding")),
    ]));
    let resources = Object::Dictionary(dict(&[(
        "Font",
        Object::Dictionary(dict(&[("F1", rref(4, 0)), ("F2", rref(5, 0)), ("F3", rref(4, 0))])),
    )]));
    let doc = one_page_with_resources(resources, &[(4, font_a), (5, font_b)]);
    let fonts = get_fonts(&doc, page_ref());
    assert_eq!(fonts.len(), 2, "F1/F3 share xref 4 → deduped");
    let xrefs: Vec<i32> = fonts.iter().map(|f| f.xref).collect();
    assert!(xrefs.contains(&4));
    assert!(xrefs.contains(&5));
}

#[test]
fn images_inv_001_one_image_one_tuple() {
    let image = raw_stream(
        &[
            ("Type", name_obj("XObject")),
            ("Subtype", name_obj("Image")),
            ("Width", Object::Integer(8)),
            ("Height", Object::Integer(8)),
            ("BitsPerComponent", Object::Integer(8)),
            ("ColorSpace", name_obj("DeviceRGB")),
        ],
        b"imgbytes",
    );
    let resources = Object::Dictionary(dict(&[("XObject", Object::Dictionary(dict(&[("Im0", rref(4, 0))])))]));
    let doc = one_page_with_resources(resources, &[(4, image)]);
    let images = get_images(&doc, page_ref());
    assert_eq!(images.len(), 1);
}

#[test]
fn images_inv_002_tuple_shape_and_values() {
    let image = raw_stream(
        &[
            ("Type", name_obj("XObject")),
            ("Subtype", name_obj("Image")),
            ("Width", Object::Integer(16)),
            ("Height", Object::Integer(32)),
            ("BitsPerComponent", Object::Integer(8)),
            ("ColorSpace", name_obj("DeviceGray")),
            ("Filter", name_obj("FlateDecode")),
        ],
        b"imgbytes",
    );
    let resources = Object::Dictionary(dict(&[("XObject", Object::Dictionary(dict(&[("Im0", rref(4, 0))])))]));
    let doc = one_page_with_resources(resources, &[(4, image)]);
    let images = get_images(&doc, page_ref());
    assert_eq!(images.len(), 1);
    let im = &images[0];
    assert_eq!(im.xref, 4);
    assert_eq!(im.smask, 0);
    assert_eq!(im.width, 16);
    assert_eq!(im.height, 32);
    assert_eq!(im.bpc, 8);
    assert_eq!(im.colorspace, "DeviceGray");
    assert_eq!(im.alt_colorspace, "");
    assert_eq!(im.name, "Im0");
    assert_eq!(im.filter, "FlateDecode");
    assert_eq!(im.referencer, page_ref().num as i32);
}

#[test]
fn images_inv_003_form_xobject_excluded() {
    let form = raw_stream(
        &[("Type", name_obj("XObject")), ("Subtype", name_obj("Form")), ("BBox", int_array(&[0, 0, 10, 10]))],
        b"q Q",
    );
    let image = raw_stream(
        &[
            ("Type", name_obj("XObject")),
            ("Subtype", name_obj("Image")),
            ("Width", Object::Integer(4)),
            ("Height", Object::Integer(4)),
            ("BitsPerComponent", Object::Integer(8)),
            ("ColorSpace", name_obj("DeviceRGB")),
        ],
        b"img!",
    );
    let resources = Object::Dictionary(dict(&[(
        "XObject",
        Object::Dictionary(dict(&[("Fm0", rref(4, 0)), ("Im0", rref(5, 0))])),
    )]));
    let doc = one_page_with_resources(resources, &[(4, form), (5, image)]);
    let images = get_images(&doc, page_ref());
    assert_eq!(images.len(), 1, "only the image XObject is reported");
    assert_eq!(images[0].xref, 5);
}

#[test]
fn images_inv_004_no_images_empty() {
    let resources = Object::Dictionary(dict(&[]));
    let doc = one_page_with_resources(resources, &[]);
    assert!(get_images(&doc, page_ref()).is_empty());
}

#[test]
fn images_inv_005_smask_xref_reported() {
    let smask = raw_stream(
        &[
            ("Type", name_obj("XObject")),
            ("Subtype", name_obj("Image")),
            ("Width", Object::Integer(4)),
            ("Height", Object::Integer(4)),
            ("BitsPerComponent", Object::Integer(8)),
            ("ColorSpace", name_obj("DeviceGray")),
        ],
        b"mask",
    );
    let image = raw_stream(
        &[
            ("Type", name_obj("XObject")),
            ("Subtype", name_obj("Image")),
            ("Width", Object::Integer(4)),
            ("Height", Object::Integer(4)),
            ("BitsPerComponent", Object::Integer(8)),
            ("ColorSpace", name_obj("DeviceRGB")),
            ("SMask", rref(5, 0)),
        ],
        b"img!",
    );
    let resources = Object::Dictionary(dict(&[("XObject", Object::Dictionary(dict(&[("Im0", rref(4, 0))])))]));
    let doc = one_page_with_resources(resources, &[(4, image), (5, smask)]);
    let images = get_images(&doc, page_ref());
    assert_eq!(images.len(), 1);
    assert_eq!(images[0].xref, 4);
    assert_eq!(images[0].smask, 5);
}

#[test]
fn images_array_colorspace_and_filter_use_leading_name() {
    let image = raw_stream(
        &[
            ("Subtype", name_obj("Image")),
            ("ColorSpace", Object::Array(vec![name_obj("ICCBased"), rref(9, 0)])),
            ("Filter", Object::Array(vec![name_obj("ASCII85Decode"), name_obj("FlateDecode")])),
        ],
        b"x",
    );
    let resources = Object::Dictionary(dict(&[("XObject", Object::Dictionary(dict(&[("Im1", image)])))]));
    let doc = one_page_with_resources(resources, &[]);
    let images = get_images(&doc, page_ref());
    assert_eq!(images.len(), 1);
    assert_eq!(images[0].xref, 0);
    assert_eq!(images[0].colorspace, "ICCBased");
    assert_eq!(images[0].filter, "ASCII85Decode");
}

/// A page whose resources name a Form XObject (obj 5) and an Image XObject
/// (obj 6).
fn xobject_store() -> ObjectStore {
    let form = raw_stream(
        &[("Type", name_obj("XObject")), ("Subtype", name_obj("Form")), ("BBox", int_array(&[0, 0, 100, 100]))],
        b"q Q",
    );
    let image = raw_stream(
        &[
            ("Type", name_obj("XObject")),
            ("Subtype", name_obj("Image")),
            ("Width", Object::Integer(2)),
            ("Height", Object::Integer(2)),
            ("BitsPerComponent", Object::Integer(8)),
            ("ColorSpace", name_obj("DeviceRGB")),
        ],
        &[255, 0, 0, 0, 255, 0, 0, 0, 255, 255, 255, 0],
    );
    let resources = Object::Dictionary(dict(&[(
        "XObject",
        Object::Dictionary(dict(&[("Fm0", rref(5, 0)), ("Im0", rref(6, 0))])),
    )]));
    one_page_with_resources(resources, &[(5, form), (6, image)])
}

#[test]
fn lt1_001_get_xobjects_form_and_image() {
    let doc = xobject_store();
    let xobjs = get_xobjects(&doc, page_ref());
    assert_eq!(xobjs.len(), 2);
    let fm = xobjs.iter().find(|x| x.name == "Fm0").unwrap();
    assert_eq!(fm.kind, "Form");
    assert_eq!(fm.xref, 5);
    assert_eq!(fm.bbox, Some(vec![Object::Integer(0), Object::Integer(0), Object::Integer(100), Object::Integer(100)]));
    assert_eq!(fm.referencer, page_ref().num as i32);
    let im = xobjs.iter().find(|x| x.name == "Im0").unwrap();
    assert_eq!(im.kind, "Image");
    // Image XObjects have no /BBox: the unit square stands for it.
    assert_eq!(im.bbox, None);
}

#[test]
fn xobjects_dedup_matrix_and_order() {
    let form = raw_stream(
        &[
            ("Subtype", name_obj("Form")),
            ("Matrix", int_array(&[1, 0, 0, 1, 5, 6])),
        ],
        b"q Q",
    );
    let short = Object::Dictionary(dict(&[("Matrix", int_array(&[1, 0]))]));
    let resources = Object::Dictionary(dict(&[(
        "XObject",
        Object::Dictionary(dict(&[
            ("B", rref(4, 0)),
            ("A", rref(4, 0)),
            ("C", rref(5, 0)),
            ("D", Object::Integer(3)),
            ("E", rref(9, 0)),
        ])),
    )]));
    let doc = one_page_with_resources(resources, &[(4, form), (5, short)]);
    let xobjs = get_xobjects(&doc, page_ref());
    let names: Vec<&str> = xobjs.iter().map(|x| x.name.as_str()).collect();
    assert_eq!(names, vec!["A", "C"]);
    assert_eq!(xobjs[0].matrix.as_ref().map(|m| m.len()), Some(6));
    assert_eq!(xobjs[1].matrix, None);
    assert_eq!(xobjs[1].kind, "");
    assert_eq!(xobjs[1].xref, 5);
}

#[test]
fn inline_image_keys_are_normalised_and_context_colorspace_wins() {
    let d = dict(&[
        ("CS", name_obj("RGB")),
        ("F", name_obj("AHx")),
        ("DecodeParms", Object::Integer(1)),
        ("DP", Object::Integer(2)),
        ("W", Object::Integer(4)),
    ]);
    let n = inline_image_dict(&d, true, None);
    assert_eq!(n.get(&Name::new("ColorSpace")), Some(&name_obj("RGB")));
    assert_eq!(n.get(&Name::new("Filter")), Some(&name_obj("AHx")));
    // An existing full key is kept.
    assert_eq!(n.get(&Name::new("DecodeParms")), Some(&Object::Integer(1)));
    assert_eq!(n.get(&Name::new("CS")), Some(&name_obj("RGB")));
    assert_eq!(n.len(), 7);
    // The input is untouched.
    assert_eq!(d.len(), 5);

    let cs = name_obj("DeviceGray");
    let o = inline_image_dict(&d, true, Some(&cs));
    assert_eq!(o.get(&Name::new("ColorSpace")), Some(&cs));

    // An image XObject's dictionary keeps its abbreviated keys as they are.
    let x = inline_image_dict(&d, false, None);
    assert_eq!(x.get(&Name::new("ColorSpace")), None);
    assert_eq!(x.len(), 5);
    let y = inline_image_dict(&d, false, Some(&cs));
    assert_eq!(y.get(&Name::new("ColorSpace")), Some(&cs));
    assert_eq!(y.len(), 6);
}

#[test]
fn colorspace_names_arrays_and_resources_resolve() {
    let cs_res = Object::Dictionary(dict(&[
        ("Cs1", Object::Array(vec![name_obj("ICCBased"), rref(5, 0)])),
        ("Cs2", rref(6, 0)),
        ("Pal", Object::Array(vec![name_obj("Indexed"), name_obj("RGB"), Object::Integer(1), rref(7, 0)])),
        ("Sep", Object::Array(vec![name_obj("Separation"), name_obj("Spot"), name_obj("DeviceCMYK"), rref(8, 0)])),
        ("DN", Object::Array(vec![
            name_obj("DeviceN"),
            Object::Array(vec![name_obj("A"), name_obj("B")]),
            name_obj("Cs1"),
            rref(8, 0),
        ])),
        ("Loop", name_obj("Loop")),
    ]));
    let resources = dict(&[("ColorSpace", cs_res.copy())]);
    let icc = raw_stream(&[("N", Object::Integer(4))], b"profile");
    let lab = Object::Array(vec![name_obj("Lab")]);
    let palette = raw_stream(&[], &[255, 0, 0, 0, 0, 255]);
    let tint = Object::Dictionary(dict(&[("FunctionType", Object::Integer(2))]));
    let doc = one_page_with_resources(Object::Dictionary(dict(&[])), &[(5, icc), (6, lab), (7, palette), (8, tint)]);

    assert!(matches!(resolve_colorspace(&doc, &name_obj("DeviceGray"), None), Some(CsShape::DeviceGray)));
    assert!(matches!(resolve_colorspace(&doc, &name_obj("RGB"), None), Some(CsShape::DeviceRgb)));
    assert!(matches!(resolve_colorspace(&doc, &name_obj("CMYK"), None), Some(CsShape::DeviceCmyk)));
    // A resource name needs resources.
    assert!(resolve_colorspace(&doc, &name_obj("Cs1"), None).is_none());
    assert!(matches!(resolve_colorspace(&doc, &name_obj("Cs1"), Some(&resources)), Some(CsShape::DeviceCmyk)));
    assert!(matches!(resolve_colorspace(&doc, &name_obj("Cs2"), Some(&resources)), Some(CsShape::Lab)));
    assert!(resolve_colorspace(&doc, &name_obj("Pattern"), Some(&resources)).is_none());
    // A name that names itself runs into the nesting bound.
    assert!(resolve_colorspace(&doc, &name_obj("Loop"), Some(&resources)).is_none());

    match resolve_colorspace(&doc, &name_obj("Pal"), Some(&resources)) {
        Some(CsShape::Indexed { base, hival, lookup }) => {
            assert!(matches!(*base, CsShape::DeviceRgb));
            assert_eq!(hival, 1);
            assert_eq!(read_lookup(&doc, &lookup), Some(vec![255, 0, 0, 0, 0, 255]));
        }
        _ => panic!("expected an indexed space"),
    }
    match resolve_colorspace(&doc, &name_obj("Sep"), Some(&resources)) {
        Some(CsShape::Separation { alt, tint }) => {
            assert!(matches!(*alt, CsShape::DeviceCmyk));
            assert_eq!(tint, Object::Reference(ObjRef::new(8, 0)));
        }
        _ => panic!("expected a separation space"),
    }
    match resolve_colorspace(&doc, &name_obj("DN"), Some(&resources)) {
        Some(CsShape::DeviceN { n, alt, .. }) => {
            assert_eq!(n, 2);
            assert!(matches!(*alt, CsShape::DeviceCmyk));
        }
        _ => panic!("expected a DeviceN space"),
    }
    // An indexed space whose palette is neither a string nor a stream.
    let bad = Object::Array(vec![name_obj("I"), name_obj("G"), Object::Integer(-3), Object::Integer(0)]);
    assert!(resolve_colorspace(&doc, &bad, None).is_none());
    // Negative hival clamps to 0; a string palette reads as its bytes.
    let pal = Object::String(pdf_core::object::PdfString::literal(vec![7u8]));
    let small = Object::Array(vec![name_obj("I"), name_obj("G"), Object::Integer(-3), pal.copy()]);
    match resolve_colorspace(&doc, &small, None) {
        Some(CsShape::Indexed { hival, lookup, .. }) => {
            assert_eq!(hival, 0);
            assert_eq!(read_lookup(&doc, &lookup), Some(vec![7u8]));
        }
        _ => panic!("expected an indexed space"),
    }
    assert!(matches!(resolve_colorspace(&doc, &Object::Array(vec![name_obj("CalRGB"), Object::Null]), None), Some(CsShape::DeviceRgb)));
    assert!(resolve_colorspace(&doc, &Object::Array(vec![]), None).is_none());
    assert_eq!(read_lookup(&doc, &Object::Integer(3)), None);
}

fn store_of(objects: &[(u32, Object)], trailer: Dict) -> ObjectStore {
    let mut map = BTreeMap::new();
    for (num, obj) in objects {
        map.insert(*num, obj.copy());
    }
    ObjectStore::new(map, trailer, &Limits::default(), false)
}

fn xref_msg(r: Result<(), Error>) -> &'static str {
    match r {
        Err(Error::Xref { offset: 0, msg }) => msg,
        other => panic!("expected an xref error, got {other:?}"),
    }
}

#[test]
fn catalog_check_accepts_a_page_tree_and_names_each_violation() {
    let doc = one_page_with_resources(Object::Dictionary(dict(&[])), &[]);
    assert!(validate_catalog(&doc).is_ok());

    let pages = Object::Dictionary(dict(&[("Type", name_obj("Pages"))]));
    let trailer = || dict(&[("Root", rref(1, 0)), ("Size", Object::Integer(10))]);
    assert_eq!(xref_msg(validate_catalog(&store_of(&[], dict(&[("Size", Object::Integer(10))])))), "trailer has no /Root");
    assert_eq!(xref_msg(validate_catalog(&store_of(&[], trailer()))), "/Root does not resolve");
    assert_eq!(xref_msg(validate_catalog(&store_of(&[(1, Object::Integer(1))], trailer()))), "/Root is not a dictionary");
    let not_catalog = Object::Dictionary(dict(&[("Type", name_obj("Page")), ("Pages", rref(2, 0))]));
    assert_eq!(xref_msg(validate_catalog(&store_of(&[(1, not_catalog), (2, pages.copy())], trailer()))), "/Root is not /Type /Catalog");
    let no_pages = Object::Dictionary(dict(&[("Type", name_obj("Catalog"))]));
    assert_eq!(xref_msg(validate_catalog(&store_of(&[(1, no_pages)], trailer()))), "catalog has no /Pages");
    let lost_pages = Object::Dictionary(dict(&[("Type", name_obj("Catalog")), ("Pages", rref(5, 0))]));
    assert_eq!(xref_msg(validate_catalog(&store_of(&[(1, lost_pages)], trailer()))), "/Pages does not resolve");
    let bad_pages = Object::Dictionary(dict(&[("Type", name_obj("Catalog")), ("Pages", Object::Integer(2))]));
    assert_eq!(xref_msg(validate_catalog(&store_of(&[(1, bad_pages)], trailer()))), "/Pages is not a page-tree node");
    let inline_pages = Object::Dictionary(dict(&[("Type", name_obj("Catalog")), ("Pages", pages)]));
    assert!(validate_catalog(&store_of(&[(1, inline_pages)], trailer())).is_ok());
}

#[test]
fn embedded_font_programs_are_found_through_descendants_and_descriptors() {
    let program = b"\x00\x01\x00\x00 glyph data".to_vec();
    let packed = pdf_core::filters::flate::encode(&program);
    let file2 = raw_stream(&[("Filter", name_obj("FlateDecode"))], &packed);
    let file3 = raw_stream(&[("Subtype", name_obj("OpenType"))], b"otf bytes");
    let descriptor = Object::Dictionary(dict(&[("Type", name_obj("FontDescriptor")), ("FontFile2", rref(5, 0))]));
    let descriptor3 = Object::Dictionary(dict(&[("FontFile3", rref(7, 0))]));
    let cid = Object::Dictionary(dict(&[("Subtype", name_obj("CIDFontType2")), ("FontDescriptor", rref(6, 0))]));
    let doc = one_page_with_resources(
        Object::Dictionary(dict(&[])),
        &[(4, descriptor), (5, file2), (6, descriptor3), (7, file3), (8, cid)],
    );

    let simple = dict(&[("Subtype", name_obj("TrueType")), ("FontDescriptor", rref(4, 0))]);
    let (format, bytes) = embedded_font_program(&doc, &simple).unwrap().unwrap();
    assert_eq!(format, "TrueType");
    assert_eq!(bytes, program);

    let type0 = dict(&[("Subtype", name_obj("Type0")), ("DescendantFonts", Object::Array(vec![rref(8, 0)]))]);
    let (format, bytes) = embedded_font_program(&doc, &type0).unwrap().unwrap();
    assert_eq!(format, "OpenType");
    assert_eq!(bytes, b"otf bytes".to_vec());

    // No descriptor, or a descriptor without a program: nothing embedded.
    assert_eq!(embedded_font_program(&doc, &dict(&[("Subtype", name_obj("Type1"))])).unwrap(), None);
    let bare = dict(&[("FontDescriptor", Object::Dictionary(dict(&[("Type", name_obj("FontDescriptor"))])))]);
    assert_eq!(embedded_font_program(&doc, &bare).unwrap(), None);

    // Entries of the wrong kind.
    let syntax = |d: Dict| match embedded_font_program(&doc, &d) {
        Err(Error::Syntax { offset: 0, msg }) => msg,
        other => panic!("expected a syntax error, got {other:?}"),
    };
    assert_eq!(syntax(dict(&[("DescendantFonts", Object::Array(vec![]))])), "invalid DescendantFonts");
    assert_eq!(syntax(dict(&[("DescendantFonts", Object::Integer(1))])), "invalid DescendantFonts");
    assert_eq!(syntax(dict(&[("DescendantFonts", Object::Array(vec![Object::Integer(1)]))])), "invalid descendant font");
    assert_eq!(syntax(dict(&[("FontDescriptor", Object::Integer(1))])), "invalid FontDescriptor");
    let not_stream = dict(&[("FontDescriptor", Object::Dictionary(dict(&[("FontFile", Object::Integer(1))])))]);
    assert_eq!(syntax(not_stream), "invalid embedded font stream");
}
