use pdf_core::error::{Error, LimitKind};
use pdf_core::filters::flate;
use pdf_core::limits::Limits;
use pdf_core::object::{Dict, Name, Object, StreamObj};
use pdf_core::objstm::ObjStm;

fn objstm_stream(decoded: &[u8], n: i64, first: i64) -> StreamObj {
    let enc = flate::encode(decoded);
    let mut d = Dict::new();
    d.insert(Name::new("Type"), Object::Name(Name::new("ObjStm")));
    d.insert(Name::new("N"), Object::Integer(n));
    d.insert(Name::new("First"), Object::Integer(first));
    d.insert(Name::new("Filter"), Object::Name(Name::new("FlateDecode")));
    d.insert(Name::new("Length"), Object::Integer(enc.len() as i64));
    StreamObj::new_encoded(d, enc)
}

fn objstm_from_members(members: &[(u32, &[u8])]) -> StreamObj {
    let mut bodies = Vec::new();
    let mut offs = Vec::new();
    for (_num, body) in members {
        offs.push(bodies.len());
        bodies.extend_from_slice(body);
        bodies.push(b' ');
    }
    let mut header = String::new();
    for ((num, _), off) in members.iter().zip(&offs) {
        header.push_str(&format!("{num} {off} "));
    }
    let first = header.len() as i64;
    let mut decoded = header.into_bytes();
    decoded.extend_from_slice(&bodies);
    objstm_stream(&decoded, members.len() as i64, first)
}

#[test]
fn objstm_decode_happy_two_members() {
    let stream = objstm_from_members(&[(7, b"42"), (9, b"<< /K 3 >>")]);
    let objstm = ObjStm::decode(&stream, &Limits::unbounded_decode()).unwrap();

    assert_eq!(objstm.len(), 2);
    assert!(!objstm.is_empty());
    assert_eq!(objstm.object_number_at(0), Some(7));
    assert_eq!(objstm.object_number_at(1), Some(9));
    assert_eq!(objstm.object_number_at(2), None);
    assert_eq!(objstm.member_nums(), vec![7, 9]);

    assert_eq!(objstm.object_at(0).unwrap(), Object::Integer(42));
    let o1 = objstm.object_at(1).unwrap();
    let d = o1.as_dict().unwrap();
    assert_eq!(d.get(&Name::new("K")).unwrap(), &Object::Integer(3));
}

#[test]
fn objstm_decode_empty_is_empty() {
    let stream = objstm_stream(b"", 0, 0);
    let objstm = ObjStm::decode(&stream, &Limits::unbounded_decode()).unwrap();
    assert_eq!(objstm.len(), 0);
    assert!(objstm.is_empty());
    assert!(objstm.member_nums().is_empty());
}

#[test]
fn objstm_decode_missing_n_is_xref_err() {
    let enc = flate::encode(b"");
    let mut d = Dict::new();
    d.insert(Name::new("Type"), Object::Name(Name::new("ObjStm")));
    d.insert(Name::new("First"), Object::Integer(0));
    d.insert(Name::new("Length"), Object::Integer(enc.len() as i64));
    let stream = StreamObj::new_encoded(d, enc);

    let e = ObjStm::decode(&stream, &Limits::unbounded_decode()).unwrap_err();
    assert!(matches!(e, Error::Xref { .. }), "{e:?}");
}

#[test]
fn objstm_decode_missing_first_is_xref_err() {
    let enc = flate::encode(b"");
    let mut d = Dict::new();
    d.insert(Name::new("Type"), Object::Name(Name::new("ObjStm")));
    d.insert(Name::new("N"), Object::Integer(0));
    d.insert(Name::new("Length"), Object::Integer(enc.len() as i64));
    let stream = StreamObj::new_encoded(d, enc);

    let e = ObjStm::decode(&stream, &Limits::unbounded_decode()).unwrap_err();
    assert!(matches!(e, Error::Xref { .. }), "{e:?}");
}

#[test]
fn objstm_decode_n_exceeds_limit() {
    let stream = objstm_stream(b"", 100, 0);
    let limits = Limits::unbounded_decode().with_max_objstm_objects(2);
    let e = ObjStm::decode(&stream, &limits).unwrap_err();
    assert!(matches!(e, Error::LimitExceeded(LimitKind::ObjstmObjects)), "{e:?}");
}

#[test]
fn objstm_decode_header_too_few_pairs() {
    let decoded = b"1 0 ".to_vec();
    let stream = objstm_stream(&decoded, 2, decoded.len() as i64);
    let e = ObjStm::decode(&stream, &Limits::unbounded_decode()).unwrap_err();
    assert!(matches!(e, Error::Xref { .. }), "{e:?}");
}

#[test]
fn objstm_decode_object_at_index_out_of_range() {
    let stream = objstm_from_members(&[(7, b"42")]);
    let objstm = ObjStm::decode(&stream, &Limits::unbounded_decode()).unwrap();
    let e = objstm.object_at(5).unwrap_err();
    assert!(matches!(e, Error::Xref { .. }), "{e:?}");
}

#[test]
fn objstm_decode_object_at_offset_past_body() {
    let decoded = b"1 999999 X".to_vec();
    let first = decoded.iter().position(|&b| b == b'X').unwrap() as i64;
    let stream = objstm_stream(&decoded, 1, first);
    let objstm = ObjStm::decode(&stream, &Limits::unbounded_decode()).unwrap();
    let e = objstm.object_at(0).unwrap_err();
    assert!(matches!(e, Error::Xref { .. }), "{e:?}");
}

#[test]
fn objstm_decode_malformed_object_inside() {
    let stream = objstm_from_members(&[(7, b"@@@")]);
    let objstm = ObjStm::decode(&stream, &Limits::unbounded_decode()).unwrap();
    let e = objstm.object_at(0).unwrap_err();
    assert!(matches!(e, Error::Xref { .. }), "{e:?}");
}

#[test]
fn objstm_from_body_reads_header_pairs() {
    let body = b"3 0 4 2 10 20".to_vec();
    let objstm = ObjStm::from_body(2, 8, body).unwrap();
    assert_eq!(objstm.member_nums(), vec![3, 4]);
    assert_eq!(objstm.object_at(0).unwrap(), Object::Integer(10));
    assert_eq!(objstm.object_at(1).unwrap(), Object::Integer(20));
}
