use std::collections::BTreeMap;

use pdf_core::api::{self, decode_pdf_text, default_limits, encrypt_dict, encryption_name, format_version, info_dict, info_string, metadata, Metadata};
use pdf_core::changeset::{Change, ChangeSet};
use pdf_core::colorspace::read_bits;
use pdf_core::document::{catalog_version, is_linearized, open_after_parse, open_after_reconstruct, parse_header, parse_version_name, OpenChoice, OpenStep, Version};
use pdf_core::encrypt::{decrypt_strings_in_place, id0_from_trailer, is_encrypt_object, is_exempt_stream, parse_encrypt_dict, string_leaves, CryptMethod};
use pdf_core::error::{Error, LimitKind};
use pdf_core::gc::{collect, dedup, dense_remap, is_dedup_excluded, mark_sweep, referenced_objects, same_signature, Roots};
use pdf_core::geom::irect::IRect;
use pdf_core::geom::paper::{paper_size, paper_sizes};
use pdf_core::limits::Limits;
use pdf_core::object::{Dict, Name, ObjRef, Object, PdfString, StringKind};
use pdf_core::image_table::modal_color;
use pdf_core::page::{effective_resources_checked, paint_inputs, resource_error_code, EffectiveResourceOrigin, ResourceResolutionError};
use pdf_core::store::ObjectStore;
use pdf_core::ocg::{decode_text, is_type, read_intent, OcConfig, OcVisibility};

fn dict_with(entries: Vec<(&str, Object)>) -> Dict {
    let mut d = Dict::new();
    for (k, v) in entries {
        d.insert(Name::new(k), v);
    }
    d
}

fn rf(n: u32) -> Object {
    Object::Reference(ObjRef::new(n, 0))
}

#[test]
fn gc_keeps_only_reachable_objects() {
    let mut m = BTreeMap::new();
    m.insert(1u32, Object::Dictionary(dict_with(vec![("Pages", rf(2))])));
    m.insert(2u32, Object::Array(vec![rf(4)]));
    m.insert(3u32, Object::Integer(99));
    m.insert(4u32, Object::Integer(7));
    let roots = Roots { root: Some(1), info: None, encrypt: None };
    let mut kept = mark_sweep(&m, roots);
    kept.sort();
    assert_eq!(kept, vec![1, 2, 4]);
    let r = collect(m, roots, 1);
    assert_eq!(r.objects.keys().copied().collect::<Vec<_>>(), vec![1, 2, 4]);
    assert_eq!(r.roots, roots);
}

#[test]
fn gc_level_two_renumbers_densely() {
    let mut m = BTreeMap::new();
    m.insert(3u32, Object::Dictionary(dict_with(vec![("Next", rf(10))])));
    m.insert(10u32, Object::Integer(5));
    m.insert(11u32, Object::Integer(6));
    let roots = Roots { root: Some(3), info: Some(10), encrypt: None };
    let r = collect(m, roots, 2);
    assert_eq!(r.roots, Roots { root: Some(1), info: Some(2), encrypt: None });
    assert_eq!(r.objects.len(), 2);
    assert_eq!(r.objects.get(&2), Some(&Object::Integer(5)));
    let d = r.objects.get(&1).unwrap().as_dict().unwrap();
    assert_eq!(d.get(&Name::new("Next")), Some(&rf(2)));
}

fn stream_obj(entries: Vec<(&str, Object)>, body: &[u8]) -> Object {
    Object::Stream(pdf_core::object::StreamObj::new_encoded(dict_with(entries), body.to_vec()))
}

fn dedup_fixture() -> BTreeMap<u32, Object> {
    let mut m = BTreeMap::new();
    m.insert(1u32, Object::Dictionary(dict_with(vec![("Type", Object::Name(Name::new("Catalog"))), ("A", rf(4)), ("B", rf(6)), ("C", rf(8)), ("D", rf(9))])));
    m.insert(4u32, Object::Dictionary(dict_with(vec![("K", Object::Integer(1)), ("R", rf(10))])));
    m.insert(6u32, Object::Dictionary(dict_with(vec![("K", Object::Integer(1)), ("R", rf(10))])));
    m.insert(8u32, stream_obj(vec![("Length", Object::Integer(3))], b"abc"));
    m.insert(9u32, stream_obj(vec![("Length", Object::Integer(99))], b"abc"));
    m.insert(10u32, Object::Integer(5));
    m
}

#[test]
fn gc_level_three_merges_identical_objects() {
    let roots = Roots { root: Some(1), info: None, encrypt: None };

    let r3 = collect(dedup_fixture(), roots, 3);
    // 6 merges into 4; the two streams stay apart below level 4.
    assert_eq!(r3.objects.len(), 5);
    let cat = r3.objects.get(&1).unwrap().as_dict().unwrap();
    assert_eq!(cat.get(&Name::new("A")), cat.get(&Name::new("B")));
    assert_ne!(cat.get(&Name::new("C")), cat.get(&Name::new("D")));

    let r4 = collect(dedup_fixture(), roots, 4);
    // The streams differ only in /Length: merged at level 4.
    assert_eq!(r4.objects.len(), 4);
    let cat = r4.objects.get(&1).unwrap().as_dict().unwrap();
    assert_eq!(cat.get(&Name::new("C")), cat.get(&Name::new("D")));
    assert_eq!(r4.roots, Roots { root: Some(1), info: None, encrypt: None });
}

#[test]
fn gc_dedup_respects_exclusions() {
    let page = || Object::Dictionary(dict_with(vec![("Type", Object::Name(Name::new("Page")))]));
    let mut m = BTreeMap::new();
    m.insert(2u32, page());
    m.insert(3u32, page());
    m.insert(5u32, Object::Dictionary(dict_with(vec![("StructParent", Object::Integer(0))])));
    m.insert(7u32, Object::Dictionary(dict_with(vec![("StructParent", Object::Integer(0))])));
    m.insert(8u32, Object::Integer(1));
    m.insert(9u32, Object::Integer(1));
    m.insert(11u32, Object::Integer(1));
    let roots = Roots { root: None, info: None, encrypt: Some(11) };
    let f = dedup(&m, roots, true);
    assert_eq!(f.get(&3), Some(&3));
    assert_eq!(f.get(&7), Some(&7));
    assert_eq!(f.get(&9), Some(&8));
    assert_eq!(f.get(&11), Some(&11));
    assert!(is_dedup_excluded(2, &page(), roots));
    assert!(is_dedup_excluded(11, &Object::Integer(1), roots));
    assert!(!is_dedup_excluded(8, &Object::Integer(1), roots));
    assert!(same_signature(
        &stream_obj(vec![("Length", Object::Integer(1))], b"x"),
        &stream_obj(vec![], b"x")
    ));
    assert!(!same_signature(&stream_obj(vec![], b"x"), &stream_obj(vec![], b"y")));
    assert!(!same_signature(&Object::Integer(1), &Object::Real(b"1".to_vec())));
}

#[test]
fn gc_dense_remap_is_ascending_from_one() {
    let mut m = BTreeMap::new();
    m.insert(5u32, Object::Null);
    m.insert(9u32, Object::Null);
    m.insert(7u32, Object::Null);
    let f = dense_remap(&m);
    assert_eq!(f.get(&5), Some(&1));
    assert_eq!(f.get(&7), Some(&2));
    assert_eq!(f.get(&9), Some(&3));
}

#[test]
fn gc_referenced_objects_walks_nesting() {
    let o = Object::Array(vec![rf(4), Object::Dictionary(dict_with(vec![("K", rf(8))]))]);
    let mut refs = referenced_objects(&o);
    refs.sort();
    assert_eq!(refs, vec![4, 8]);
}

#[test]
fn irect_basics() {
    let r = IRect::new(0, 0, 10, 20);
    assert_eq!(r.width(), 10);
    assert_eq!(r.height(), 20);
    assert_eq!(r.area(), 200);
    assert!(!r.is_empty());
    assert!(IRect::new(5, 5, 5, 9).is_empty());
    assert_eq!(IRect::new(10, 10, 0, 0).normalize(), IRect::new(0, 0, 10, 10));
}

#[test]
fn irect_union_and_intersection() {
    let a = IRect::new(0, 0, 10, 10);
    let b = IRect::new(5, 5, 15, 15);
    assert_eq!(a.union(&b), IRect::new(0, 0, 15, 15));
    assert_eq!(a.intersect(&b), IRect::new(5, 5, 10, 10));
    assert_eq!(b.intersect(&a), a.intersect(&b));
    assert_eq!(a.intersect(&IRect::new(20, 20, 30, 30)), IRect::new(0, 0, 0, 0));
    assert_eq!(a.union(&IRect::new(3, 3, 3, 3)), a);
    assert!(a.union(&b).contains_rect(&a));
    assert!(a.contains_rect(&IRect::new(1, 1, 9, 9)));
    assert!(!a.contains_rect(&b));
}

#[test]
fn paper_sizes_by_name() {
    assert_eq!(paper_size("a4"), Some((595, 842)));
    assert_eq!(paper_size("  A4-L "), Some((842, 595)));
    assert_eq!(paper_size("letter-landscape"), Some((792, 612)));
    assert_eq!(paper_size("nope"), None);
    assert_eq!(paper_size("\u{3000}\ta5\u{2028}"), Some((420, 595)));
    let all = paper_sizes();
    assert_eq!(all.len(), 14);
    assert_eq!(all[0], ("a0", 2384, 3370));
    assert_eq!(paper_size("ledger"), Some((792, 1224)));
    assert!(all.iter().all(|&(_, w, h)| w <= h));
    for &(name, w, h) in &all {
        assert_eq!(paper_size(name), Some((w, h)));
    }
}

#[test]
fn encrypt_dict_rc4_defaults() {
    let enc = dict_with(vec![
        ("Filter", Object::Name(Name::new("Standard"))),
        ("V", Object::Integer(2)),
        ("R", Object::Integer(3)),
        ("Length", Object::Integer(128)),
        ("P", Object::Integer(-4)),
        ("O", Object::String(PdfString::literal(vec![1, 2]))),
        ("U", Object::String(PdfString::literal(vec![]))),
    ]);
    let c = parse_encrypt_dict(&enc, vec![9]).unwrap();
    assert_eq!(c.v, 2);
    assert_eq!(c.r, 3);
    assert_eq!(c.key_len, 16);
    assert_eq!(c.p, -4);
    assert_eq!(c.o, vec![1, 2]);
    assert!(c.u.is_empty());
    assert!(c.encrypt_metadata);
    assert_eq!(c.id0, vec![9]);
    assert_eq!(c.stm_method, CryptMethod::Rc4);
    assert_eq!(c.str_method, CryptMethod::Rc4);
}

#[test]
fn encrypt_dict_missing_r_is_xref_error() {
    let enc = dict_with(vec![
        ("Filter", Object::Name(Name::new("Standard"))),
        ("V", Object::Integer(2)),
        ("P", Object::Integer(0)),
    ]);
    assert!(matches!(parse_encrypt_dict(&enc, vec![]), Err(Error::Xref { .. })));
    let no_filter = dict_with(vec![("V", Object::Integer(2)), ("R", Object::Integer(3)), ("P", Object::Integer(0))]);
    assert!(matches!(parse_encrypt_dict(&no_filter, vec![]), Err(Error::Xref { .. })));
    let no_v_o_u = dict_with(vec![
        ("Filter", Object::Name(Name::new("Standard"))),
        ("R", Object::Integer(3)),
        ("P", Object::Integer(-4)),
    ]);
    assert!(matches!(parse_encrypt_dict(&no_v_o_u, vec![]), Err(Error::Xref { .. })));
    let no_u = dict_with(vec![
        ("Filter", Object::Name(Name::new("Standard"))),
        ("V", Object::Integer(2)),
        ("R", Object::Integer(3)),
        ("P", Object::Integer(-4)),
        ("O", Object::String(PdfString::literal(vec![1]))),
    ]);
    assert!(matches!(parse_encrypt_dict(&no_u, vec![]), Err(Error::Xref { msg: "/Encrypt has no /U", .. })));
    let other = dict_with(vec![("Filter", Object::Name(Name::new("Adobe.PubSec")))]);
    assert!(matches!(parse_encrypt_dict(&other, vec![]), Err(Error::Unsupported(_))));
}

#[test]
fn encrypt_dict_aes_crypt_filter() {
    let cf = dict_with(vec![(
        "StdCF",
        Object::Dictionary(dict_with(vec![("CFM", Object::Name(Name::new("AESV2")))])),
    )]);
    let enc = dict_with(vec![
        ("Filter", Object::Name(Name::new("Standard"))),
        ("V", Object::Integer(4)),
        ("R", Object::Integer(4)),
        ("P", Object::Integer(0)),
        ("CF", Object::Dictionary(cf)),
        ("StmF", Object::Name(Name::new("StdCF"))),
        ("StrF", Object::Name(Name::new("StdCF"))),
        ("O", Object::String(PdfString::hex(vec![7; 32]))),
        ("U", Object::String(PdfString::hex(vec![8; 32]))),
    ]);
    let c = parse_encrypt_dict(&enc, vec![]).unwrap();
    assert_eq!(c.stm_method, CryptMethod::AesV2);
    assert_eq!(c.str_method, CryptMethod::AesV2);
}

#[test]
fn encrypt_exemptions() {
    assert!(is_encrypt_object(5, Some(5)));
    assert!(!is_encrypt_object(5, Some(6)));
    assert!(!is_encrypt_object(5, None));
    let xref = dict_with(vec![("Type", Object::Name(Name::new("XRef")))]);
    assert!(is_exempt_stream(&xref, true));
    let md = dict_with(vec![("Type", Object::Name(Name::new("Metadata")))]);
    assert!(is_exempt_stream(&md, false));
    assert!(!is_exempt_stream(&md, true));
}

#[test]
fn encrypt_id0_from_trailer() {
    let t = dict_with(vec![(
        "ID",
        Object::Array(vec![Object::String(PdfString::hex(vec![0xaa, 0xbb])), Object::String(PdfString::hex(vec![1]))]),
    )]);
    assert_eq!(id0_from_trailer(&t), vec![0xaa, 0xbb]);
    assert!(id0_from_trailer(&Dict::new()).is_empty());
}

fn config() -> OcConfig {
    let mut overrides = BTreeMap::new();
    overrides.insert(4u32, true);
    OcConfig {
        on: vec![1, 4],
        off: vec![1, 2, 4, 5],
        locked: vec![],
        base_off: false,
        order: None,
        rbgroups: vec![vec![2, 3]],
        overrides,
    }
}

#[test]
fn ocg_visibility_precedence() {
    let c = config();
    assert!(c.is_on(1));
    assert!(!c.is_on(2));
    assert!(c.is_on(3));
    assert!(c.is_on(4));
    assert!(!c.is_on(5));
    assert_eq!(c.ui_kind(3), "radiobox");
    assert_eq!(c.ui_kind(1), "checkbox");
}

#[test]
fn ocg_hidden_oracle_and_policies() {
    let c = config();
    let v = OcVisibility::from_config(&vec![1, 2, 3, 4, 5], &c);
    assert!(v.hides_anything());
    assert!(v.is_ocg_hidden(2));
    assert!(!v.is_ocg_hidden(1));
    assert!(v.policy_hidden(b"AllOn", &[1, 2]));
    assert!(!v.policy_hidden(b"AnyOn", &[1, 2]));
    assert!(v.policy_hidden(b"AnyOn", &[2, 5]));
    assert!(!v.policy_hidden(b"AnyOff", &[1, 2]));
    assert!(v.policy_hidden(b"AllOff", &[1, 2]));
    assert!(!v.policy_hidden(b"AllOn", &[]));
    assert!(!OcVisibility::default().hides_anything());
}

#[test]
fn ocg_intent_and_text() {
    let d = dict_with(vec![
        ("Type", Object::Name(Name::new("OCG"))),
        ("Intent", Object::Array(vec![Object::Name(Name::new("Design")), Object::Integer(1)])),
    ]);
    assert!(is_type(&d, b"OCG"));
    assert!(!is_type(&d, b"OCMD"));
    assert_eq!(read_intent(&d), vec!["Design".to_string()]);
    assert_eq!(read_intent(&Dict::new()), vec!["View".to_string()]);
    assert_eq!(decode_text(b"\xfe\xff\x00L\x00a"), "La");
    assert_eq!(decode_text(b"caf\xe9"), "caf\u{e9}");
}

#[test]
fn changeset_read_after_write() {
    let mut cs = ChangeSet::new();
    assert!(!cs.is_dirty());
    cs.seed(10);
    let r = cs.allocate(Object::Integer(1));
    assert_eq!(r, ObjRef::new(10, 0));
    assert_eq!(cs.allocate(Object::Integer(2)).num, 11);
    cs.set(3, Object::Integer(30));
    assert!(cs.is_dirty());
    assert_eq!(cs.get(3), Some(&Change::Value(std::sync::Arc::new(Object::Integer(30)))));
    cs.delete(3);
    assert_eq!(cs.get(3), Some(&Change::Deleted));
    assert_eq!(cs.get(4), None);
    assert_eq!(cs.high_water(), 12);
    cs.set(40, Object::Null);
    assert_eq!(cs.high_water(), 41);
    assert_eq!(cs.allocate(Object::Null).num, 41);
    assert_eq!(cs.changes().len(), 5);
}

#[test]
fn changeset_seed_is_idempotent_and_never_zero() {
    let mut cs = ChangeSet::new();
    cs.seed(0);
    cs.seed(100);
    assert_eq!(cs.allocate(Object::Null).num, 1);
}

#[test]
fn changeset_stream_edit() {
    let mut cs = ChangeSet::new();
    cs.set_stream(7, Dict::new(), b"body".to_vec(), false);
    match cs.get(7) {
        Some(Change::Value(o)) => {
            let s = o.as_stream().unwrap();
            assert_eq!(s.raw_bytes().as_ref(), b"body");
        }
        other => panic!("unexpected {other:?}"),
    }
}

#[test]
fn header_version_and_offset() {
    assert_eq!(parse_header(b"junk%PDF-1.7\n").unwrap(), (Version { major: 1, minor: 7 }, 4));
    assert!(matches!(parse_header(b"no header here"), Err(Error::Unsupported("missing %PDF- header"))));
    assert!(matches!(parse_header(b"%PDF-x.y"), Err(Error::Unsupported("malformed %PDF- version"))));
    assert!(matches!(parse_header(b"%PDF-1"), Err(Error::Unsupported("malformed %PDF- version"))));
    let mut far = vec![b' '; 2000];
    far.extend_from_slice(b"%PDF-1.4");
    assert!(parse_header(&far).is_err());
}

#[test]
fn version_names() {
    assert_eq!(parse_version_name(b"2.0"), Some(Version { major: 2, minor: 0 }));
    assert_eq!(parse_version_name(b"1.50"), Some(Version { major: 1, minor: 5 }));
    assert_eq!(parse_version_name(b"1,5"), None);
    assert_eq!(parse_version_name(b"1."), None);
    let cat = dict_with(vec![("Version", Object::Name(Name::new("1.7")))]);
    assert_eq!(catalog_version(&cat, Version { major: 1, minor: 4 }), Version { major: 1, minor: 7 });
    assert_eq!(catalog_version(&Dict::new(), Version { major: 1, minor: 4 }), Version { major: 1, minor: 4 });
}

#[test]
fn metadata_from_info_and_pairs() {
    let info = dict_with(vec![
        ("Title", Object::String(PdfString::literal(b"Report".to_vec()))),
        ("Author", Object::String(PdfString::hex(b"\xfe\xff\x00A\x00l".to_vec()))),
        ("Keywords", Object::Integer(3)),
    ]);
    let md = Metadata::from_info(Version { major: 1, minor: 7 }, String::new(), Some(&info));
    assert_eq!(md.format, "PDF 1.7");
    assert_eq!(md.title.as_deref(), Some("Report"));
    assert_eq!(md.author.as_deref(), Some("Al"));
    assert_eq!(md.keywords, None);
    let pairs = md.as_pairs();
    assert_eq!(pairs.len(), 11);
    assert_eq!(pairs[0], ("format", "PDF 1.7".to_string()));
    assert_eq!(pairs[1], ("title", "Report".to_string()));
    assert_eq!(pairs[4], ("keywords", String::new()));
    assert_eq!(pairs[10], ("encryption", String::new()));
    let none = Metadata::from_info(Version { major: 2, minor: 0 }, "Standard".to_string(), None);
    assert_eq!(none.title, None);
    assert_eq!(none.encryption, "Standard");
    assert_eq!(format_version(Version { major: 1, minor: 10 }), "PDF 1.10");
}

#[test]
fn pdf_text_decodings() {
    assert_eq!(decode_pdf_text(b"\xef\xbb\xbfh\xc3\xa9"), "h\u{e9}");
    assert_eq!(decode_pdf_text(b"\xfe\xff\x00h"), "h");
    assert_eq!(decode_pdf_text(b"plain"), "plain");
    // A surrogate pair, and an unpaired high surrogate.
    assert_eq!(decode_pdf_text(b"\xfe\xff\xd8\x3d\xde\x00\xd8\x00\x00A"), "\u{1F600}\u{FFFD}A");
    let info = dict_with(vec![("Producer", Object::String(PdfString::literal(b"x".to_vec())))]);
    assert_eq!(info_string(&info, "Producer").as_deref(), Some("x"));
    assert_eq!(info_string(&info, "Creator"), None);
}

#[test]
fn api_error_kinds() {
    assert_eq!(api::Error::Syntax("x".into()).kind(), "syntax");
    assert_eq!(api::Error::Password("x".into()).kind(), "password");
    assert_eq!(api::Error::Limit("x".into()).kind(), "limit-exceeded");
    assert_eq!(api::Error::Redaction("x".into()).kind(), "redaction");
    assert_eq!(default_limits().max_recursion_depth, Limits::default().max_recursion_depth);
}

#[test]
fn core_error_kinds() {
    assert_eq!(Error::syntax(3, "bad").kind(), "syntax");
    assert_eq!(Error::eof(0).kind(), "unexpected-eof");
    assert_eq!(Error::filter("F", "m").kind(), "filter");
    assert_eq!(Error::decode("F", "m").kind(), "decode");
    assert_eq!(Error::LimitExceeded(LimitKind::DecodeRatio).kind(), "limit-exceeded");
    assert_eq!(LimitKind::ObjstmObjects.as_str(), "objstm-objects");
}

#[test]
fn limits_builders() {
    let l = Limits::default().with_max_recursion_depth(9).with_max_objects(10).with_max_objstm_objects(11);
    assert_eq!(l.max_recursion_depth, 9);
    assert_eq!(l.max_objects, 10);
    assert_eq!(l.max_objstm_objects, 11);
    assert_eq!(Limits::default().max_decompressed_stream, 1073741824);
}

#[test]
fn bit_fields_msb_first() {
    let data = [0b1010_1100u8, 0b0101_0000];
    assert_eq!(read_bits(&data, 0, 4), 0b1010);
    assert_eq!(read_bits(&data, 4, 8), 0b1100_0101);
    assert_eq!(read_bits(&data, 14, 4), 0);
    assert_eq!(read_bits(&data, 0, 0), 0);
}

fn page_store() -> ObjectStore {
    let mut base = BTreeMap::new();
    base.insert(1u32, Object::Dictionary(dict_with(vec![("Type", Object::Name(Name::new("Catalog"))), ("Pages", rf(2))])));
    base.insert(
        2u32,
        Object::Dictionary(dict_with(vec![
            ("Type", Object::Name(Name::new("Pages"))),
            ("Kids", Object::Array(vec![rf(3)])),
            ("Count", Object::Integer(1)),
            ("Resources", Object::Dictionary(dict_with(vec![("Font", Object::Dictionary(Dict::new()))]))),
        ])),
    );
    base.insert(
        3u32,
        Object::Dictionary(dict_with(vec![("Type", Object::Name(Name::new("Page"))), ("Parent", rf(2))])),
    );
    ObjectStore::new(base, dict_with(vec![("Size", Object::Integer(4)), ("Root", rf(1))]), &Limits::default(), true)
}

#[test]
fn snapshot_restore_round_trips_the_overlay() {
    let mut doc = page_store();
    assert!(!doc.is_dirty());
    let clean = doc.snapshot_changeset();

    let new_ref = doc.add_object(Object::Integer(42));
    assert_eq!(new_ref, ObjRef::new(4, 0));
    doc.update_object(ObjRef::new(3, 0), Object::Integer(7));
    assert!(doc.is_dirty());
    assert_eq!(doc.changes_snapshot().len(), 2);
    assert_eq!(doc.resolve(new_ref).unwrap(), Object::Integer(42));

    let dirty = doc.snapshot_changeset();

    doc.restore_changeset(clean);
    assert!(!doc.is_dirty());
    assert_eq!(doc.changes_snapshot().len(), 0);
    assert_eq!(doc.resolve(new_ref).unwrap(), Object::Null);
    assert!(doc.resolve(ObjRef::new(3, 0)).unwrap().as_dict().is_some());

    doc.restore_changeset(dirty);
    assert!(doc.is_dirty());
    assert_eq!(doc.changes_snapshot().len(), 2);
    assert_eq!(doc.resolve(new_ref).unwrap(), Object::Integer(42));
}

#[test]
fn store_resolution_rules() {
    let mut base = BTreeMap::new();
    base.insert(1u32, rf(2));
    base.insert(2u32, Object::Integer(5));
    base.insert(3u32, rf(3));
    base.insert(4u32, rf(9));
    let strict = ObjectStore::new(base, dict_with(vec![("Size", Object::Integer(5))]), &Limits::default(), false);
    assert_eq!(strict.resolve(ObjRef::new(1, 0)).unwrap(), Object::Integer(5));
    assert!(matches!(strict.resolve(ObjRef::new(3, 0)), Err(Error::ReferenceCycle { num: 3, .. })));
    assert!(matches!(strict.resolve(ObjRef::new(4, 0)), Err(Error::MissingObject { num: 9, .. })));
    assert!(matches!(strict.get_object(8, 0), Err(Error::MissingObject { num: 8, .. })));
    assert_eq!(strict.xref_length(), 5);

    let mut chain = BTreeMap::new();
    chain.insert(1u32, rf(2));
    chain.insert(2u32, Object::Integer(1));
    let shallow = ObjectStore::new(chain, Dict::new(), &Limits::default().with_max_recursion_depth(1), true);
    assert!(matches!(
        shallow.resolve(ObjRef::new(1, 0)),
        Err(Error::LimitExceeded(LimitKind::RecursionDepth))
    ));
    assert_eq!(shallow.resolve(ObjRef::new(7, 0)).unwrap(), Object::Null);
}

#[test]
fn store_edits_read_back() {
    let mut doc = page_store();
    doc.delete_object(ObjRef::new(1, 0));
    assert_eq!(doc.resolve(ObjRef::new(1, 0)).unwrap(), Object::Null);
    doc.update_stream(ObjRef::new(9, 0), Dict::new(), b"q Q".to_vec(), false);
    let s = doc.resolve(ObjRef::new(9, 0)).unwrap();
    assert_eq!(s.as_stream().unwrap().raw_bytes().as_ref(), b"q Q");
    assert_eq!(doc.xref_length(), 10);
    assert_eq!(doc.add_object(Object::Null).num, 10);
    let d = dict_with(vec![("P", rf(2)), ("Q", Object::Integer(1))]);
    assert!(doc.resolve_dict_key(&d, &Name::new("P")).unwrap().unwrap().as_dict().is_some());
    assert_eq!(doc.resolve_dict_key(&d, &Name::new("Q")).unwrap(), Some(Object::Integer(1)));
    assert_eq!(doc.resolve_dict_key(&d, &Name::new("R")).unwrap(), None);
}

#[test]
fn page_resources_inherited_direct_absent() {
    let mut doc = page_store();
    let r = effective_resources_checked(&doc, ObjRef::new(3, 0)).unwrap();
    assert_eq!(r.origin, EffectiveResourceOrigin::Inherited);
    assert!(r.resources.contains_key(&Name::new("Font")));

    doc.update_object(
        ObjRef::new(3, 0),
        Object::Dictionary(dict_with(vec![("Resources", Object::Dictionary(Dict::new())), ("Parent", rf(2))])),
    );
    let r = effective_resources_checked(&doc, ObjRef::new(3, 0)).unwrap();
    assert_eq!(r.origin, EffectiveResourceOrigin::Direct);
    assert!(r.resources.is_empty());

    doc.update_object(ObjRef::new(5, 0), Object::Dictionary(Dict::new()));
    let r = effective_resources_checked(&doc, ObjRef::new(5, 0)).unwrap();
    assert_eq!(r.origin, EffectiveResourceOrigin::Absent);

    doc.update_object(ObjRef::new(6, 0), Object::Dictionary(dict_with(vec![("Parent", rf(6))])));
    assert_eq!(
        effective_resources_checked(&doc, ObjRef::new(6, 0)).unwrap_err(),
        ResourceResolutionError::ParentCycle
    );
    doc.update_object(ObjRef::new(7, 0), Object::Dictionary(dict_with(vec![("Parent", Object::Integer(2))])));
    assert_eq!(
        effective_resources_checked(&doc, ObjRef::new(7, 0)).unwrap_err(),
        ResourceResolutionError::InvalidParent
    );
    doc.update_object(ObjRef::new(8, 0), Object::Integer(3));
    assert_eq!(
        effective_resources_checked(&doc, ObjRef::new(8, 0)).unwrap_err(),
        ResourceResolutionError::WrongType
    );
    doc.update_object(ObjRef::new(11, 0), Object::Dictionary(dict_with(vec![("Resources", rf(99))])));
    assert_eq!(
        effective_resources_checked(&doc, ObjRef::new(11, 0)).unwrap_err(),
        ResourceResolutionError::UnresolvedReference
    );
}

#[test]
fn modal_colour_counts_and_ties() {
    assert_eq!(modal_color(&[]), [0, 0, 0]);
    assert_eq!(modal_color(&[[1, 2, 3], [4, 5, 6], [4, 5, 6]]), [4, 5, 6]);
    assert_eq!(modal_color(&[[9, 9, 9], [1, 1, 1], [1, 1, 1], [9, 9, 9]]), [9, 9, 9]);
}

#[test]
fn store_trailer_and_type_queries() {
    let mut doc = page_store();
    assert_eq!(doc.root(), Some(ObjRef::new(1, 0)));
    assert_eq!(doc.effective_trailer_ref("Root"), Some(ObjRef::new(1, 0)));
    assert_eq!(doc.effective_trailer_ref("Info"), None);
    doc.set_trailer_key("Info", rf(2));
    assert_eq!(doc.effective_trailer_ref("Info"), Some(ObjRef::new(2, 0)));
    doc.set_trailer_key("Root", Object::Null);
    assert_eq!(doc.effective_trailer_ref("Root"), None);

    doc.update_object(ObjRef::new(20, 0), Object::Dictionary(dict_with(vec![("Type", Object::Name(Name::new("Font")))])));
    assert_eq!(doc.xref_is_font(20).unwrap(), true);
    assert_eq!(doc.xref_is_font(3).unwrap(), false);
    let mut sd = Dict::new();
    sd.insert(Name::new("Subtype"), Object::Name(Name::new("Image")));
    sd.insert(Name::new("Filter"), Object::Name(Name::new("AHx")));
    doc.update_stream(ObjRef::new(21, 0), sd, b"414243>".to_vec(), true);
    assert_eq!(doc.xref_is_image(21).unwrap(), true);
    assert_eq!(doc.xref_is_stream(21).unwrap(), true);
    assert_eq!(doc.xref_is_stream(3).unwrap(), false);
    assert_eq!(doc.xref_is_stream(99).unwrap(), false);
    assert_eq!(doc.xref_is_xobject(21).unwrap(), false);
    assert_eq!(doc.xref_stream(21).unwrap(), b"ABC".to_vec());
    assert_eq!(doc.xref_stream_raw(21).unwrap(), b"414243>".to_vec());
    assert!(matches!(doc.xref_stream(3), Err(Error::Unsupported(_))));
    doc.xref_copy(21, 22).unwrap();
    assert_eq!(doc.xref_stream(22).unwrap(), b"ABC".to_vec());
    let copied = doc.resolve(ObjRef::new(22, 0)).unwrap();
    assert_eq!(copied.as_stream().unwrap().dict.get(&Name::new("Length")), Some(&Object::Integer(7)));
    assert!(matches!(doc.xref_copy(98, 23), Err(Error::MissingObject { num: 98, .. })));
}

#[test]
fn xref_set_key_edits_dicts_and_streams() {
    let mut doc = page_store();
    doc.xref_set_key(3, "Rotate", "90").unwrap();
    let page = doc.resolve(ObjRef::new(3, 0)).unwrap();
    assert_eq!(page.as_dict().unwrap().get(&Name::new("Rotate")), Some(&Object::Integer(90)));
    doc.xref_set_key(3, "Rotate", "null").unwrap();
    let page = doc.resolve(ObjRef::new(3, 0)).unwrap();
    assert!(!page.as_dict().unwrap().contains_key(&Name::new("Rotate")));
    assert!(page.as_dict().unwrap().contains_key(&Name::new("Parent")));

    doc.update_stream(ObjRef::new(30, 0), Dict::new(), b"BT ET".to_vec(), false);
    doc.xref_set_key(30, "Kind", "/Form").unwrap();
    let s = doc.resolve(ObjRef::new(30, 0)).unwrap();
    let st = s.as_stream().unwrap();
    assert_eq!(st.dict.get(&Name::new("Kind")), Some(&Object::Name(Name::new("Form"))));
    assert_eq!(st.raw_bytes().as_ref(), b"BT ET");

    doc.update_object(ObjRef::new(31, 0), Object::Integer(4));
    assert!(matches!(doc.xref_set_key(31, "K", "1"), Err(Error::Unsupported(_))));
    assert!(matches!(doc.xref_set_key(3, "K", ")"), Err(Error::Unsupported(_))));
    assert!(matches!(doc.xref_set_key(97, "K", "1"), Err(Error::MissingObject { num: 97, .. })));
}

#[test]
fn xref_get_keys_lists_sorted_names() {
    let mut doc = page_store();
    assert_eq!(doc.xref_get_keys(2).unwrap(), vec!["Count", "Kids", "Resources", "Type"]);
    assert_eq!(doc.xref_get_keys(99).unwrap(), Vec::<String>::new());
    doc.update_object(ObjRef::new(40, 0), Object::Integer(1));
    assert_eq!(doc.xref_get_keys(40).unwrap(), Vec::<String>::new());
    let mut sd = Dict::new();
    sd.insert(Name::new("Length"), Object::Integer(3));
    doc.update_stream(ObjRef::new(41, 0), sd, b"abc".to_vec(), false);
    assert_eq!(doc.xref_get_keys(41).unwrap(), vec!["Length"]);
}

#[test]
fn store_metadata_info_and_encryption() {
    let mut base = BTreeMap::new();
    base.insert(1u32, Object::Dictionary(dict_with(vec![("Title", Object::String(PdfString::literal(b"Report".to_vec())))])));
    base.insert(2u32, Object::Dictionary(dict_with(vec![
        ("V", Object::Integer(2)),
        ("R", Object::Integer(3)),
        ("Length", Object::Integer(128)),
    ])));
    base.insert(3u32, Object::Dictionary(dict_with(vec![("Author", Object::String(PdfString::literal(b"Ann".to_vec())))])));
    let trailer = dict_with(vec![("Info", rf(1)), ("Encrypt", rf(2)), ("Size", Object::Integer(4))]);
    let mut doc = ObjectStore::new(base, trailer, &Limits::default(), true);
    assert_eq!(encryption_name(&doc, false), "");
    assert_eq!(encryption_name(&doc, true), "Standard V2 R3 128-bit");
    assert!(encrypt_dict(&doc).is_some());
    let md = metadata(&doc, Version { major: 1, minor: 7 }, true);
    assert_eq!(md.format, "PDF 1.7");
    assert_eq!(md.encryption, "Standard V2 R3 128-bit");
    assert_eq!(md.title.as_deref(), Some("Report"));
    assert_eq!(md.author, None);
    assert!(info_dict(&doc).is_some());

    doc.set_trailer_key("Info", rf(3));
    let md = metadata(&doc, Version { major: 2, minor: 0 }, false);
    assert_eq!(md.encryption, "");
    assert_eq!(md.title, None);
    assert_eq!(md.author.as_deref(), Some("Ann"));

    doc.update_object(ObjRef::new(2, 0), Object::Dictionary(dict_with(vec![("V", Object::Integer(-5))])));
    assert_eq!(encryption_name(&doc, true), "Standard V-5 R0 40-bit");
    doc.update_object(ObjRef::new(2, 0), Object::Integer(0));
    assert_eq!(encryption_name(&doc, true), "Standard");
}

#[test]
fn linearization_marker_in_leading_window() {
    let lin = b"%PDF-1.7\n1 0 obj\n<< /Linearized 1 /L 100 >>\nendobj\n";
    assert!(is_linearized(lin, 0));
    assert!(!is_linearized(b"%PDF-1.7\n1 0 obj\n<< /Type /Catalog >>\n", 0));
    assert!(!is_linearized(b"%PDF-1.7 /Linearize", 0));
    let mut late = b"%PDF-1.7\n".to_vec();
    late.extend(std::iter::repeat(b' ').take(5000));
    late.extend_from_slice(b"/Linearized");
    assert!(!is_linearized(&late, 0));
    assert!(is_linearized(&late, 2000));
    assert!(!is_linearized(lin, 500));
}

#[test]
fn string_decryption_walks_the_tree() {
    let lit = |b: &[u8]| Object::String(PdfString::literal(b.to_vec()));
    let mut obj = Object::Dictionary(dict_with(vec![
        ("A", Object::Array(vec![lit(b"x1"), Object::Integer(3), lit(b"x2")])),
        ("B", Object::String(PdfString::hex(b"x3".to_vec()))),
        ("N", Object::Name(Name::new("x1"))),
        ("R", rf(7)),
    ]));
    assert_eq!(string_leaves(&obj), vec![b"x1".to_vec(), b"x2".to_vec(), b"x3".to_vec()]);
    let table = vec![(b"x1".to_vec(), b"plain one".to_vec()), (b"x3".to_vec(), b"three".to_vec())];
    decrypt_strings_in_place(&mut obj, &table);
    let d = obj.as_dict().unwrap();
    let a = d.get(&Name::new("A")).unwrap().as_array().unwrap();
    assert_eq!(a[0].as_string().unwrap().as_bytes(), b"plain one");
    assert_eq!(a[1], Object::Integer(3));
    assert_eq!(a[2].as_string().unwrap().as_bytes(), b"x2");
    let b = d.get(&Name::new("B")).unwrap().as_string().unwrap();
    assert_eq!(b.as_bytes(), b"three");
    assert_eq!(b.kind, StringKind::Hex);
    assert_eq!(d.get(&Name::new("N")), Some(&Object::Name(Name::new("x1"))));
    assert_eq!(d.get(&Name::new("R")), Some(&rf(7)));
}

#[test]
fn store_interns_names() {
    let mut doc = page_store();
    let a = doc.intern_name(&Name::new("Font"));
    let b = doc.intern_name(&Name::new("Font"));
    assert_eq!(a, b);
    assert_eq!(a.as_bytes(), b"Font");
    assert_eq!(doc.intern_name(&Name::new("XObject")).as_bytes(), b"XObject");
}

#[test]
fn api_errors_from_core() {
    assert!(matches!(api::Error::from_core(Error::decode("F", "m"), "x".to_string()), api::Error::Decode(m) if m == "x"));
    assert!(matches!(api::Error::from_core(Error::filter("F", "m"), "y".to_string()), api::Error::Decode(m) if m == "y"));
    assert!(matches!(
        api::Error::from_core(Error::LimitExceeded(LimitKind::DecodeRatio), "z".to_string()),
        api::Error::Limit(m) if m == "z"
    ));
    assert!(matches!(api::Error::from_core(Error::Unsupported("u"), "w".to_string()), api::Error::Unsupported(m) if m == "u"));
    assert!(matches!(api::Error::from_core(Error::eof(3), "v".to_string()), api::Error::Syntax(m) if m == "v"));
    assert!(matches!(
        api::Error::from_core(Error::MissingObject { num: 1, gen: 0 }, "s".to_string()),
        api::Error::Syntax(m) if m == "s"
    ));
}

#[test]
fn paint_inputs_materialize_resources() {

    let doc = page_store();
    let p = paint_inputs(&doc, ObjRef::new(3, 0));
    assert!(p.inherited);
    assert_eq!(p.error_code, None);
    assert!(p.resources.contains_key(&Name::new("Font")));
    let res = p.page_dict.get(&Name::new("Resources")).unwrap().as_dict().unwrap();
    assert!(res.contains_key(&Name::new("Font")));
    assert!(p.page_dict.contains_key(&Name::new("Parent")));
    let bad = paint_inputs(&doc, ObjRef::new(77, 0));
    assert_eq!(bad.error_code, Some("page_resources_wrong_type"));
    assert!(bad.resources.is_empty());
    assert_eq!(resource_error_code(ResourceResolutionError::ParentCycle), "page_resource_parent_cycle");
}

#[test]
fn open_decisions_strict_fails_first_lenient_reconstructs() {
    let bad_catalog = || Error::xref(0, "/Root is not /Type /Catalog");
    let unreadable = || Error::xref(12, "bad xref");
    // Strict: a clean parse that passes the catalog check is used; the first failure is the error.
    assert!(matches!(open_after_parse(false, Ok(Ok(()))), OpenStep::UseParsed));
    assert!(matches!(open_after_parse(false, Ok(Err(bad_catalog()))), OpenStep::Fail(Error::Xref { msg: "/Root is not /Type /Catalog", .. })));
    assert!(matches!(open_after_parse(false, Err(unreadable())), OpenStep::Fail(Error::Xref { offset: 12, .. })));
    // Lenient: the catalog check only decides whether to reconstruct.
    assert!(matches!(open_after_parse(true, Ok(Ok(()))), OpenStep::UseParsed));
    assert!(matches!(open_after_parse(true, Ok(Err(bad_catalog()))), OpenStep::Reconstruct { fallback: true }));
    assert!(matches!(open_after_parse(true, Err(unreadable())), OpenStep::Reconstruct { fallback: false }));
    // After a reconstruction.
    assert!(matches!(open_after_reconstruct(true, Ok(Ok(()))), OpenChoice::UseReconstructed { validated: true }));
    assert!(matches!(open_after_reconstruct(false, Ok(Ok(()))), OpenChoice::UseReconstructed { validated: true }));
    assert!(matches!(open_after_reconstruct(true, Ok(Err(bad_catalog()))), OpenChoice::UseParsed));
    assert!(matches!(open_after_reconstruct(false, Ok(Err(bad_catalog()))), OpenChoice::UseReconstructed { validated: false }));
    assert!(matches!(open_after_reconstruct(true, Err(unreadable())), OpenChoice::UseParsed));
    assert!(matches!(open_after_reconstruct(false, Err(unreadable())), OpenChoice::Fail(Error::Xref { offset: 12, .. })));
}
