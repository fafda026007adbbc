use pdf::object::{ObjectStream, PagesDict, Primitive};
use pdf::pages::Page;
use pdf::objstream::{decode_value, encode_value, ObjectStreamWriter};
use pdf::startxref::locate_xref_offset;
use pdf::types::{PdfError, PlainRef};

fn round_trip(v: Primitive) {
    let mut out = Vec::new();
    encode_value(&mut out, &v).unwrap();
    assert_eq!(decode_value(&out), Ok(v));
}

#[test]
fn scalars_round_trip() {
    round_trip(Primitive::Null);
    round_trip(Primitive::Boolean(false));
    round_trip(Primitive::Boolean(true));
    round_trip(Primitive::Integer(0));
    round_trip(Primitive::Integer(-1));
    round_trip(Primitive::Integer(i64::MIN));
    round_trip(Primitive::Integer(i64::MAX));
    round_trip(Primitive::Reference(PlainRef { id: u64::MAX, gen: 65535 }));
    round_trip(Primitive::Reference(PlainRef { id: 12, gen: 3 }));
}

#[test]
fn integer_bytes_are_little_endian() {
    let mut out = Vec::new();
    encode_value(&mut out, &Primitive::Integer(0x0102)).unwrap();
    assert_eq!(out, vec![2, 2, 1, 0, 0, 0, 0, 0, 0]);
    assert_eq!(decode_value(&[3, 5, 0, 0, 0, 0, 0, 0, 0, 1, 0]), Ok(Primitive::Reference(PlainRef { id: 5, gen: 1 })));
}

#[test]
fn dictionaries_round_trip() {
    round_trip(Primitive::Catalog(PlainRef { id: 2, gen: 0 }));
    round_trip(Primitive::Pages(PagesDict { kids: vec![], count: 0 }));
    round_trip(Primitive::Pages(PagesDict { kids: vec![PlainRef { id: 3, gen: 1 }, PlainRef { id: 9, gen: 0 }], count: 7 }));
    round_trip(Primitive::Page(Page { parent: None, contents: None }));
    round_trip(Primitive::Page(Page { parent: Some(PlainRef { id: 2, gen: 0 }), contents: Some(PlainRef { id: u64::MAX, gen: 4 }) }));
}

#[test]
fn page_tree_node_layout() {
    let mut out = Vec::new();
    encode_value(&mut out, &Primitive::Pages(PagesDict { kids: vec![PlainRef { id: 1, gen: 2 }], count: 3 })).unwrap();
    assert_eq!(out, vec![5, 3, 0, 0, 0, 0, 0, 0, 0, 1, 0, 0, 0, 0, 0, 0, 0, 2, 0]);
}

#[test]
fn containers_are_not_packed() {
    let mut out = vec![7u8];
    let s = ObjectStream { first: 0, pairs: vec![], data: vec![] };
    assert_eq!(encode_value(&mut out, &Primitive::Stream(s)), Err(PdfError::UnexpectedPrimitive));
    assert_eq!(out, vec![7u8]);
}

#[test]
fn malformed_bytes_are_rejected() {
    assert_eq!(decode_value(&[]), Err(PdfError::InvalidEncoding));
    assert_eq!(decode_value(&[1, 2]), Err(PdfError::InvalidEncoding));
    assert_eq!(decode_value(&[2, 0, 0]), Err(PdfError::InvalidEncoding));
    assert_eq!(decode_value(&[0, 0]), Err(PdfError::InvalidEncoding));
    assert_eq!(decode_value(&[5, 0, 0, 0, 0, 0, 0, 0, 0, 1]), Err(PdfError::InvalidEncoding));
    let mut page = vec![6u8; 23];
    page[1] = 2;
    assert_eq!(decode_value(&page), Err(PdfError::InvalidEncoding));
}

#[test]
fn slices_follow_the_directory() {
    let s = ObjectStream { first: 2, pairs: vec![(4, 0), (9, 3)], data: vec![0xaa, 0xbb, 1, 2, 3, 4, 5] };
    assert_eq!(s.len(), 2);
    assert_eq!(s.get_object_slice(0), Ok(&[1u8, 2, 3][..]));
    assert_eq!(s.get_object_slice(1), Ok(&[4u8, 5][..]));
    assert_eq!(s.get_object_slice(2), Err(PdfError::ObjectIndexOutOfRange { index: 2 }));
}

#[test]
fn writer_packs_in_order() {
    let mut w = ObjectStreamWriter::new(30);
    assert_eq!(w.id(), 30);
    assert_eq!(w.add(31, &Primitive::Integer(5)), Ok(0));
    assert_eq!(w.add(32, &Primitive::Boolean(true)), Ok(1));
    let s = ObjectStream { first: 0, pairs: vec![], data: vec![] };
    assert_eq!(w.add(33, &Primitive::Stream(s)), Err(PdfError::UnexpectedPrimitive));
    let (id, s) = w.finish();
    assert_eq!(id, 30);
    assert_eq!(s.pairs, vec![(31, 0), (32, 9)]);
    assert_eq!(s.get_object(0), Ok(Primitive::Integer(5)));
    assert_eq!(s.get_object(1), Ok(Primitive::Boolean(true)));
}

#[test]
fn startxref_number_is_read() {
    assert_eq!(locate_xref_offset(b"startxref\n123\n%%EOF"), Ok(123));
    assert_eq!(locate_xref_offset(b"xx startxref \r\n 0"), Ok(0));
}

#[test]
fn last_startxref_wins() {
    assert_eq!(locate_xref_offset(b"startxref 1\nstartxref 22\n%%EOF"), Ok(22));
}

#[test]
fn startxref_without_number_fails() {
    assert_eq!(locate_xref_offset(b"startxref\n%%EOF"), Err(PdfError::StartXRefNotFound));
    assert_eq!(locate_xref_offset(b"start"), Err(PdfError::StartXRefNotFound));
    assert_eq!(locate_xref_offset(b""), Err(PdfError::StartXRefNotFound));
}

#[test]
fn startxref_overflow_fails() {
    assert_eq!(locate_xref_offset(b"startxref 18446744073709551615"), Ok(u64::MAX));
    assert_eq!(locate_xref_offset(b"startxref 18446744073709551616"), Err(PdfError::StartXRefNotFound));
}
