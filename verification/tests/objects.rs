use pdf_core::error::Error;
use pdf_core::interner::NameInterner;
use pdf_core::lexer::{is_delimiter, is_regular, is_whitespace, Keyword, Lexer, Token};
use pdf_core::object::parse::Parser;
use pdf_core::object::{Dict, Name, ObjRef, Object, PdfString, StringKind};

#[test]
fn byte_classes() {
    assert!(is_whitespace(b' '));
    assert!(is_whitespace(0));
    assert!(!is_whitespace(b'a'));
    assert!(is_delimiter(b'('));
    assert!(is_delimiter(b'/'));
    assert!(!is_delimiter(b'a'));
    assert!(is_regular(b'a'));
    assert!(!is_regular(b'['));
}

#[test]
fn lexer_token_stream() {
    let src = b"/Na#20me 12 -3.5 (a\\)b) <41 42> [ ] << >> obj % note\nR";
    let mut lx = Lexer::new(src);
    assert_eq!(lx.next_token().unwrap(), Token::Name(b"Na me".to_vec()));
    assert_eq!(lx.next_token().unwrap(), Token::Integer(12));
    assert!(matches!(lx.next_token().unwrap(), Token::Real(_)));
    assert_eq!(lx.next_token().unwrap(), Token::LiteralString(b"a)b".to_vec()));
    assert_eq!(lx.next_token().unwrap(), Token::HexString(b"AB".to_vec()));
    assert_eq!(lx.next_token().unwrap(), Token::ArrayOpen);
    assert_eq!(lx.next_token().unwrap(), Token::ArrayClose);
    assert_eq!(lx.next_token().unwrap(), Token::DictOpen);
    assert_eq!(lx.next_token().unwrap(), Token::DictClose);
    assert_eq!(lx.next_token().unwrap(), Token::Keyword(Keyword::Obj));
    assert_eq!(lx.next_token().unwrap(), Token::Keyword(Keyword::R));
    assert_eq!(lx.next_token().unwrap(), Token::Eof);
    assert_eq!(lx.next_token().unwrap(), Token::Eof);
}

#[test]
fn lexer_octal_and_line_escapes() {
    let mut lx = Lexer::new(b"(\\101\\n\\\nz)");
    assert_eq!(lx.next_token().unwrap(), Token::LiteralString(b"A\nz".to_vec()));
}

#[test]
fn lexer_nested_parentheses() {
    let mut lx = Lexer::new(b"(a(b)c)");
    assert_eq!(lx.next_token().unwrap(), Token::LiteralString(b"a(b)c".to_vec()));
}

#[test]
fn lexer_unterminated_string_is_eof_error() {
    let mut lx = Lexer::new(b"(abc");
    assert!(matches!(lx.next_token(), Err(Error::UnexpectedEof { .. })));
}

#[test]
fn lexer_seek_and_skip() {
    let mut lx = Lexer::new(b"   % c\n  7");
    lx.skip_whitespace_and_comments();
    assert_eq!(lx.offset(), 9);
    lx.seek(0);
    assert_eq!(lx.offset(), 0);
    assert_eq!(lx.next_token().unwrap(), Token::Integer(7));
    assert_eq!(lx.buffer().len(), 10);
}

#[test]
fn parser_reads_nested_dictionary() {
    let mut p = Parser::new(b"<< /A 1 /B [2 (x) /N] /C << /D null >> /E 3 0 R >>");
    let o = p.parse_object().unwrap();
    let d = o.as_dict().unwrap();
    assert_eq!(d.len(), 4);
    assert_eq!(d.get(&Name::new("A")), Some(&Object::Integer(1)));
    let b = d.get(&Name::new("B")).unwrap().as_array().unwrap();
    assert_eq!(b.len(), 3);
    assert_eq!(b[0], Object::Integer(2));
    assert_eq!(b[1].as_string().unwrap().as_bytes(), b"x");
    assert_eq!(b[2], Object::Name(Name::new("N")));
    let c = d.get(&Name::new("C")).unwrap().as_dict().unwrap();
    assert!(c.get(&Name::new("D")).unwrap().is_null());
    assert_eq!(d.get(&Name::new("E")).unwrap().as_reference(), Some(ObjRef::new(3, 0)));
}

#[test]
fn parser_reads_indirect_object() {
    let mut p = Parser::new(b"12 0 obj\n42\nendobj\n");
    let (r, o) = p.parse_indirect_object().unwrap();
    assert_eq!(r, ObjRef::new(12, 0));
    assert_eq!(o, Object::Integer(42));
}

#[test]
fn parser_reads_stream_body() {
    let mut p = Parser::new(b"1 0 obj\n<< /Length 5 >>\nstream\nhello\nendstream\nendobj\n");
    let (r, o) = p.parse_indirect_object().unwrap();
    assert_eq!(r.num, 1);
    let s = o.as_stream().unwrap();
    assert_eq!(s.raw_bytes().as_ref(), b"hello");
    assert_eq!(s.dict.get(&Name::new("Length")), Some(&Object::Integer(5)));
}

#[test]
fn parser_rejects_unterminated_array() {
    let mut p = Parser::new(b"[1 2");
    assert!(p.parse_object().is_err());
}

#[test]
fn parser_rejects_stray_closer() {
    let mut p = Parser::new(b">>");
    assert!(matches!(p.parse_object(), Err(Error::Syntax { .. })));
}

#[test]
fn parser_booleans_and_integers_not_references() {
    let mut p = Parser::new(b"[true false 1 2]");
    let o = p.parse_object().unwrap();
    let a = o.as_array().unwrap();
    assert_eq!(a[0].as_bool(), Some(true));
    assert_eq!(a[1].as_bool(), Some(false));
    assert_eq!(a[2].as_i64(), Some(1));
    assert_eq!(a[3].as_i64(), Some(2));
}

#[test]
fn dict_insert_replace_remove() {
    let mut d = Dict::new();
    assert!(d.is_empty());
    assert_eq!(d.insert(Name::new("B"), Object::Integer(1)), None);
    assert_eq!(d.insert(Name::new("A"), Object::Integer(2)), None);
    assert_eq!(d.insert(Name::new("B"), Object::Integer(3)), Some(Object::Integer(1)));
    assert_eq!(d.len(), 2);
    assert_eq!(d.entries()[0].0, Name::new("A"));
    assert_eq!(d.entries()[1].0, Name::new("B"));
    assert!(d.contains_key(&Name::new("A")));
    assert_eq!(d.remove(&Name::new("A")), Some(Object::Integer(2)));
    assert!(!d.contains_key(&Name::new("A")));
    assert_eq!(d.remove(&Name::new("A")), None);
    assert_eq!(d.len(), 1);
}

#[test]
fn name_views() {
    let n = Name::new("Type");
    assert_eq!(n.as_bytes(), b"Type");
    assert_eq!(n.as_str(), Some("Type"));
    assert!(n.is("Type"));
    assert!(!n.is("type"));
    assert!(!n.is_empty());
    assert!(Name::from_decoded(vec![]).is_empty());
    assert_eq!(Name::from_decoded(vec![0xff]).as_str(), None);
}

#[test]
fn pdf_strings() {
    let s = PdfString::literal(b"abc".to_vec());
    assert_eq!(s.as_bytes(), b"abc");
    assert_eq!(s.kind, StringKind::Literal);
    let h = PdfString::hex(vec![1, 2]);
    assert_eq!(h.kind, StringKind::Hex);
}

#[test]
fn interning_is_idempotent() {
    let mut pool = NameInterner::new();
    assert!(pool.is_empty());
    let a = pool.intern(&Name::new("Font"));
    let b = pool.intern_bytes(b"Font");
    assert_eq!(a, b);
    assert_eq!(pool.len(), 1);
    pool.intern(&Name::new("Page"));
    assert_eq!(pool.len(), 2);
}

#[test]
fn object_remap_rewrites_references() {
    let mut f = std::collections::BTreeMap::new();
    f.insert(5u32, 1u32);
    let o = Object::Array(vec![Object::Reference(ObjRef::new(5, 0)), Object::Reference(ObjRef::new(6, 2))]);
    let r = o.remap(&f);
    assert_eq!(
        r,
        Object::Array(vec![Object::Reference(ObjRef::new(1, 0)), Object::Reference(ObjRef::new(6, 2))])
    );
}
