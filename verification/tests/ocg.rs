use std::collections::BTreeMap;

use pdf_core::error::Error;
use pdf_core::limits::Limits;
use pdf_core::object::{Dict, Name, ObjRef, Object, PdfString, StreamObj};
use pdf_core::ocg::{
    get_layers, get_oc, get_ocgs, get_ocmd, layer_config_count, layer_ui_configs, ocg_state, select_layer_config,
    set_layer_ui_config, OcVisibility, VeExpr,
};
use pdf_core::store::ObjectStore;

fn d(entries: Vec<(&str, Object)>) -> Dict {
    let mut out = Dict::new();
    for (k, v) in entries {
        out.insert(Name::new(k), v);
    }
    out
}

fn r(n: u32) -> Object {
    Object::Reference(ObjRef::new(n, 0))
}

fn name(s: &str) -> Object {
    Object::Name(Name::new(s))
}

fn text(s: &str) -> Object {
    Object::String(PdfString::literal(s.as_bytes().to_vec()))
}

fn layered() -> ObjectStore {
    let mut m = BTreeMap::new();
    let default = d(vec![
        ("ON", Object::Array(vec![r(10)])),
        ("OFF", Object::Array(vec![r(11)])),
        ("Order", Object::Array(vec![r(10), Object::Array(vec![text("Group"), r(11), r(12)])])),
        ("RBGroups", Object::Array(vec![Object::Array(vec![r(11), r(12)])])),
        ("Locked", Object::Array(vec![r(12)])),
    ]);
    let ocp = d(vec![
        ("OCGs", Object::Array(vec![r(10), r(11), r(12)])),
        ("D", Object::Dictionary(default)),
        ("Configs", Object::Array(vec![Object::Dictionary(d(vec![("Name", text("Alt")), ("BaseState", name("OFF"))]))])),
    ]);
    m.insert(1, Object::Dictionary(d(vec![("Type", name("Catalog")), ("OCProperties", Object::Dictionary(ocp))])));
    for n in [10u32, 11, 12] {
        m.insert(n, Object::Dictionary(d(vec![("Type", name("OCG")), ("Name", text(&format!("L{n}")))])));
    }
    m.insert(
        20,
        Object::Dictionary(d(vec![("Type", name("OCMD")), ("OCGs", Object::Array(vec![r(10), r(11)])), ("P", name("AllOn"))])),
    );
    m.insert(21, Object::Dictionary(d(vec![("Type", name("OCMD")), ("VE", Object::Array(vec![name("Or"), r(10), r(11)]))])));
    m.insert(22, Object::Dictionary(d(vec![("Type", name("OCMD")), ("VE", Object::Array(vec![name("Not"), r(11)]))])));
    m.insert(23, Object::Dictionary(d(vec![("Type", name("OCMD")), ("VE", Object::Array(vec![name("And"), r(10), r(11)]))])));
    let img = StreamObj::new_encoded(d(vec![("Subtype", name("Image")), ("OC", r(20))]), vec![0]);
    m.insert(30, Object::Stream(img));
    ObjectStore::new(m, d(vec![("Size", Object::Integer(31)), ("Root", r(1))]), &Limits::default(), true)
}

#[test]
fn ocg_groups_and_states() {
    let doc = layered();
    let groups = get_ocgs(&doc);
    assert_eq!(groups.len(), 3);
    assert!(groups[&10].on);
    assert!(!groups[&11].on);
    assert!(groups[&12].on);
    assert!(groups[&12].locked);
    assert_eq!(groups[&10].name, "L10");
    assert_eq!(groups[&10].intent, vec!["View".to_string()]);
    assert!(!ocg_state(&doc, 11));
    assert!(ocg_state(&doc, 10));
}

#[test]
fn ocg_panel_rows_follow_order() {
    let doc = layered();
    let rows = layer_ui_configs(&doc);
    assert_eq!(rows.len(), 4);
    assert_eq!((rows[0].number, rows[0].ocg, rows[0].depth, rows[0].kind), (0, 10, 0, "checkbox"));
    assert_eq!((rows[1].number, rows[1].ocg, rows[1].kind, rows[1].locked), (1, 0, "label", true));
    assert_eq!(rows[1].text, "Group");
    assert_eq!((rows[2].ocg, rows[2].depth, rows[2].kind, rows[2].on), (11, 1, "radiobox", false));
    assert_eq!((rows[3].ocg, rows[3].kind, rows[3].on, rows[3].locked), (12, "radiobox", true, true));
}

#[test]
fn ocg_radio_rows_are_exclusive() {
    let mut doc = layered();
    set_layer_ui_config(&mut doc, 2, 0).unwrap();
    assert!(ocg_state(&doc, 11));
    assert!(!ocg_state(&doc, 12));
    set_layer_ui_config(&mut doc, 0, 1).unwrap();
    assert!(!ocg_state(&doc, 10));
    set_layer_ui_config(&mut doc, 1, 0).unwrap();
    assert!(matches!(set_layer_ui_config(&mut doc, 9, 0), Err(Error::InvalidArgument(_))));
}

#[test]
fn ocg_alternate_configurations() {
    let mut doc = layered();
    assert_eq!(layer_config_count(&doc), 1);
    let layers = get_layers(&doc);
    assert_eq!(layers.len(), 1);
    assert_eq!(layers[0].number, 0);
    assert_eq!(layers[0].name.as_deref(), Some("Alt"));
    assert_eq!(layers[0].creator, None);
    select_layer_config(&mut doc, Some(0)).unwrap();
    assert!(!ocg_state(&doc, 10));
    assert_eq!(layer_ui_configs(&doc).len(), 4);
    assert!(matches!(select_layer_config(&mut doc, Some(5)), Err(Error::InvalidArgument(_))));
    select_layer_config(&mut doc, None).unwrap();
    assert!(ocg_state(&doc, 10));
}

#[test]
fn ocg_hidden_oracle_evaluates_membership() {
    let doc = layered();
    let vis = OcVisibility::read(&doc);
    assert!(vis.hides_anything());
    assert!(vis.is_ocg_hidden(11));
    assert!(vis.is_hidden(&doc, &r(20)));
    assert!(!vis.is_hidden(&doc, &r(10)));
    assert!(vis.is_hidden(&doc, &r(11)));
    assert!(!vis.is_hidden(&doc, &r(21)));
    assert!(!vis.is_hidden(&doc, &r(22)));
    assert!(vis.is_hidden(&doc, &r(23)));
    assert!(!vis.is_hidden(&doc, &Object::Integer(1)));
}

#[test]
fn ocg_membership_dictionaries_and_xobject_links() {
    let doc = layered();
    assert_eq!(get_oc(&doc, 30).unwrap(), 20);
    assert!(matches!(get_oc(&doc, 10), Err(Error::InvalidArgument(_))));
    let m = get_ocmd(&doc, 21).unwrap();
    assert_eq!(m.xref, 21);
    assert_eq!(m.ocgs, None);
    assert_eq!(m.policy, None);
    assert_eq!(
        m.ve,
        Some(VeExpr::Op { op: "Or".to_string(), args: vec![VeExpr::Ocg(10), VeExpr::Ocg(11)] })
    );
    let m = get_ocmd(&doc, 20).unwrap();
    assert_eq!(m.ocgs, Some(vec![10, 11]));
    assert_eq!(m.policy.as_deref(), Some("AllOn"));
    assert_eq!(m.ve, None);
    assert!(matches!(get_ocmd(&doc, 10), Err(Error::InvalidArgument(_))));
}

#[test]
fn ocg_absent_without_properties() {
    let doc = ObjectStore::new(BTreeMap::new(), Dict::new(), &Limits::default(), true);
    assert!(get_ocgs(&doc).is_empty());
    assert!(layer_ui_configs(&doc).is_empty());
    assert_eq!(layer_config_count(&doc), 0);
    assert!(!OcVisibility::read(&doc).hides_anything());
    assert!(!ocg_state(&doc, 1));
}
