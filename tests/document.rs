use pdf::backend::{Backend, Record, SectionRecord, UpdateSection};
use pdf::file::{load_xref, resolve_helper, File};
use pdf::object::{ObjectStream, PagesDict, Primitive};
use pdf::objstream::encode_value;
use pdf::pages::Page;
use pdf::types::{PdfError, PlainRef};
use pdf::xref::{XRef, XRefSection, XRefTable};

fn r(id: u64) -> PlainRef {
    PlainRef { id, gen: 0 }
}

fn leaf() -> Page {
    Page { parent: Some(r(2)), contents: Some(r(9)) }
}

fn tail(pos: &str) -> Vec<u8> {
    format!("trailer\n<< /Size 10 >>\nstartxref\n{}\n%%EOF\n", pos).into_bytes()
}

fn section(xref: Vec<XRefSection>, size: Option<u64>, prev: Option<u64>) -> UpdateSection {
    UpdateSection { xref, size, prev, root: r(1), info: None, encrypt: None, id: None }
}

/// Catalog at 1, page tree at 2 with one page at 3; object 4 is free.
fn one_page_backend() -> Backend {
    Backend {
        records: vec![
            Record { pos: 100, value: Primitive::Catalog(r(2)) },
            Record { pos: 200, value: Primitive::Pages(PagesDict { kids: vec![r(3)], count: 1 }) },
            Record { pos: 300, value: Primitive::Page(leaf()) },
        ],
        sections: vec![SectionRecord {
            pos: 500,
            section: section(
                vec![XRefSection {
                    first_id: 0,
                    entries: vec![
                        XRef::Free { next_free: 0 },
                        XRef::Raw { pos: 100 },
                        XRef::Raw { pos: 200 },
                        XRef::Raw { pos: 300 },
                        XRef::Free { next_free: 0 },
                    ],
                }],
                Some(10),
                None,
            ),
        }],
        tail: tail("500"),
        end: 1000,
    }
}

#[test]
fn one_page_document() {
    let f = File::open(one_page_backend()).unwrap();
    assert_eq!(f.get_num_pages(), 1);
    assert_eq!(f.get_page(0), Ok(leaf()));
    assert_eq!(f.get_page(1), Err(PdfError::PageOutOfBounds { page_nr: 1, max: 1 }));
    assert_eq!(f.deref(r(3)), Ok(Primitive::Page(leaf())));
    assert_eq!(f.get_trailer().highest_id, 10);
    assert_eq!(f.get_trailer().info_dict, None);
    assert_eq!(f.get_trailer().encrypt_dict, None);
    assert_eq!(f.get_root().pages.count, 1);
}

#[test]
fn free_and_out_of_range_objects() {
    let f = File::open(one_page_backend()).unwrap();
    assert_eq!(f.resolve(r(4)), Err(PdfError::FreeObject { obj_nr: 4 }));
    assert_eq!(f.resolve(r(10)), Err(PdfError::ObjectNumberOutOfRange { obj_nr: 10 }));
    assert_eq!(f.resolve(r(11)), Err(PdfError::ObjectNumberOutOfRange { obj_nr: 11 }));
}

#[test]
fn unset_slot_is_unbound() {
    let b = one_page_backend();
    let (refs, k) = load_xref(&b, 500).unwrap();
    assert_eq!(k, 0);
    assert_eq!(resolve_helper(&b, &refs, r(7)), Err(PdfError::UnboundObject { obj_nr: 7 }));
}

#[test]
fn update_page_replaces_and_checks_bounds() {
    let mut f = File::open(one_page_backend()).unwrap();
    let p = Page { parent: None, contents: None };
    assert_eq!(f.update_page(0, p), Ok(()));
    assert_eq!(f.get_page(0), Ok(p));
    assert_eq!(f.update_page(1, p), Err(PdfError::PageOutOfBounds { page_nr: 1, max: 1 }));
}

#[test]
fn newer_update_section_is_authoritative() {
    let mut b = one_page_backend();
    b.records.push(Record { pos: 400, value: Primitive::Integer(7) });
    b.records.push(Record { pos: 450, value: Primitive::Integer(8) });
    b.sections[0].section.xref.push(XRefSection { first_id: 5, entries: vec![XRef::Raw { pos: 450 }] });
    b.sections.push(SectionRecord {
        pos: 600,
        section: section(vec![XRefSection { first_id: 5, entries: vec![XRef::Raw { pos: 400 }] }], Some(10), Some(500)),
    });
    b.tail = tail("600");
    let f = File::open(b).unwrap();
    assert_eq!(f.resolve(r(5)), Ok(Primitive::Integer(7)));
    assert_eq!(f.get_page(0), Ok(leaf()));
}

#[test]
fn trailer_fields_come_from_newest_section() {
    let mut b = one_page_backend();
    b.sections[0].section.info = Some(r(4));
    b.sections.push(SectionRecord {
        pos: 600,
        section: UpdateSection { xref: vec![], size: Some(12), prev: Some(500), root: r(1), info: Some(r(8)), encrypt: Some(r(9)), id: Some((vec![1, 2], vec![3])) },
    });
    b.tail = tail("600");
    let f = File::open(b).unwrap();
    let t = f.get_trailer();
    assert_eq!(t.highest_id, 12);
    assert_eq!(t.info_dict, Some(r(8)));
    assert_eq!(t.encrypt_dict, Some(r(9)));
    assert_eq!(t.id, Some((vec![1, 2], vec![3])));
}

#[test]
fn session_edits_keep_trailer() {
    let mut f = File::open(one_page_backend()).unwrap();
    f.add(Primitive::Null);
    let p = f.promise();
    f.fulfill(p, Primitive::Integer(1));
    f.update(2, Primitive::Null);
    assert_eq!(f.get_trailer().highest_id, 10);
    assert_eq!(f.get_num_pages(), 1);
}

#[test]
fn cyclic_prev_chain_fails() {
    let mut b = one_page_backend();
    b.sections[0].section.prev = Some(500);
    assert_eq!(File::open(b).err(), Some(PdfError::CyclicUpdateChain));
}

#[test]
fn missing_size_fails() {
    let mut b = one_page_backend();
    b.sections[0].section.size = None;
    assert_eq!(File::open(b).err(), Some(PdfError::SizeNotFound));
}

#[test]
fn missing_prev_section_fails() {
    let mut b = one_page_backend();
    b.sections[0].section.prev = Some(42);
    assert_eq!(File::open(b).err(), Some(PdfError::NoSectionAt { pos: 42 }));
}

#[test]
fn missing_marker_fails() {
    let mut b = one_page_backend();
    b.tail = b"%%EOF".to_vec();
    assert_eq!(File::open(b).err(), Some(PdfError::StartXRefNotFound));
}

#[test]
fn missing_record_fails() {
    let mut b = one_page_backend();
    b.records.remove(2);
    assert_eq!(File::open(b).err(), Some(PdfError::NoObjectAt { pos: 300 }));
}

#[test]
fn root_of_another_shape_fails() {
    let mut b = one_page_backend();
    b.records[0].value = Primitive::Integer(1);
    assert_eq!(File::open(b).err(), Some(PdfError::UnexpectedPrimitive));
}

#[test]
fn wrong_page_count_fails() {
    let mut b = one_page_backend();
    b.records[1].value = Primitive::Pages(PagesDict { kids: vec![r(3)], count: 2 });
    assert_eq!(File::open(b).err(), Some(PdfError::PageCountMismatch));
}

#[test]
fn nested_page_tree_loads() {
    let mut b = one_page_backend();
    b.records[1].value = Primitive::Pages(PagesDict { kids: vec![r(3), r(5), r(3)], count: 4 });
    b.records.push(Record { pos: 700, value: Primitive::Pages(PagesDict { kids: vec![r(6), r(3)], count: 2 }) });
    let other = Page { parent: Some(r(5)), contents: None };
    b.records.push(Record { pos: 800, value: Primitive::Page(other) });
    b.sections[0].section.xref.push(XRefSection { first_id: 5, entries: vec![XRef::Raw { pos: 700 }, XRef::Raw { pos: 800 }] });
    let f = File::open(b).unwrap();
    assert_eq!(f.get_num_pages(), 4);
    assert_eq!(f.get_page(1), Ok(other));
    assert_eq!(f.get_page(2), Ok(leaf()));
}

#[test]
fn self_containing_page_tree_is_too_deep() {
    let mut b = one_page_backend();
    b.records[1].value = Primitive::Pages(PagesDict { kids: vec![r(2)], count: 0 });
    assert_eq!(File::open(b).err(), Some(PdfError::PageTreeTooDeep));
}

#[test]
fn added_value_resolves_without_storage() {
    let mut f = File::open(one_page_backend()).unwrap();
    let a = f.add(Primitive::Integer(42));
    assert_eq!(a, r(10));
    assert_eq!(f.resolve(a), Ok(Primitive::Integer(42)));
    f.update(3, Primitive::Boolean(true));
    assert_eq!(f.resolve(r(3)), Ok(Primitive::Boolean(true)));
}

#[test]
fn promised_reference_embedded_then_fulfilled() {
    let mut f = File::new(Backend { records: vec![], sections: vec![], tail: vec![], end: 0 });
    let p = f.promise();
    let id = p.get_inner();
    assert_eq!(id, r(1));
    let holder = f.add(Primitive::Pages(PagesDict { kids: vec![id], count: 1 }));
    let page = Page { parent: Some(holder), contents: None };
    let done = f.fulfill(p, Primitive::Page(page));
    assert_eq!(done, id);
    assert_eq!(f.resolve(done), Ok(Primitive::Page(page)));
    let kid = match f.resolve(holder).unwrap() {
        Primitive::Pages(d) => d.kids[0],
        other => panic!("unexpected {:?}", other),
    };
    assert_eq!(f.resolve(kid), Ok(Primitive::Page(page)));
}

#[test]
fn packed_objects_resolve_after_finish() {
    let mut f = File::open(one_page_backend()).unwrap();
    let mut w = f.begin_stream();
    let a = f.promise();
    let b = f.promise();
    let ra = f.fulfill_packed(&mut w, a, &Primitive::Integer(-5)).unwrap();
    let rb = f.fulfill_packed(&mut w, b, &Primitive::Reference(r(3))).unwrap();
    let c = f.promise();
    let rc = f.fulfill_packed(&mut w, c, &Primitive::Page(leaf())).unwrap();
    let d = f.promise();
    let inner = ObjectStream { first: 0, pairs: vec![], data: vec![] };
    assert_eq!(f.fulfill_packed(&mut w, d, &Primitive::Stream(inner)), Err(PdfError::UnexpectedPrimitive));
    let pos = f.finish_stream(w);
    assert_eq!(pos, 1000);
    assert_eq!(f.resolve(ra), Ok(Primitive::Integer(-5)));
    assert_eq!(f.resolve(rb), Ok(Primitive::Reference(r(3))));
    assert_eq!(f.resolve(rc), Ok(Primitive::Page(leaf())));
}

fn packed(values: &[Primitive]) -> ObjectStream {
    let mut data = Vec::new();
    let mut pairs = Vec::new();
    for (i, v) in values.iter().enumerate() {
        pairs.push((20 + i as u64, data.len() as u64));
        encode_value(&mut data, v).unwrap();
    }
    ObjectStream { first: 0, pairs, data }
}

fn stream_backend(container: Primitive, container_entry: XRef) -> Backend {
    let mut b = one_page_backend();
    b.records.push(Record { pos: 900, value: container });
    b.sections[0].section.xref.push(XRefSection {
        first_id: 5,
        entries: vec![container_entry, XRef::Stream { stream_id: 5, index: 0 }, XRef::Stream { stream_id: 5, index: 1 }, XRef::Stream { stream_id: 5, index: 2 }],
    });
    b
}

#[test]
fn stored_container_is_unpacked() {
    let b = stream_backend(Primitive::Stream(packed(&[Primitive::Null, Primitive::Integer(77)])), XRef::Raw { pos: 900 });
    let f = File::open(b).unwrap();
    assert_eq!(f.resolve(r(6)), Ok(Primitive::Null));
    assert_eq!(f.resolve(r(7)), Ok(Primitive::Integer(77)));
    assert_eq!(f.resolve(r(8)), Err(PdfError::ObjectIndexOutOfRange { index: 2 }));
}

#[test]
fn container_errors() {
    let f = File::open(stream_backend(Primitive::Integer(1), XRef::Raw { pos: 900 })).unwrap();
    assert_eq!(f.resolve(r(6)), Err(PdfError::UnexpectedPrimitive));
    let f = File::open(stream_backend(Primitive::Null, XRef::Stream { stream_id: 6, index: 0 })).unwrap();
    assert_eq!(f.resolve(r(6)), Err(PdfError::NestedObjectStream { obj_nr: 5 }));
    let f = File::open(stream_backend(Primitive::Null, XRef::Free { next_free: 0 })).unwrap();
    assert_eq!(f.resolve(r(6)), Err(PdfError::FreeObject { obj_nr: 5 }));
    let bad = ObjectStream { first: 0, pairs: vec![(6, 0), (7, 40)], data: vec![0] };
    let f = File::open(stream_backend(Primitive::Stream(bad), XRef::Raw { pos: 900 })).unwrap();
    assert_eq!(f.resolve(r(6)), Err(PdfError::InvalidObjectStream));
    let junk = ObjectStream { first: 0, pairs: vec![(6, 0)], data: vec![9, 9] };
    let f = File::open(stream_backend(Primitive::Stream(junk), XRef::Raw { pos: 900 })).unwrap();
    assert_eq!(f.resolve(r(6)), Err(PdfError::InvalidEncoding));
}

#[test]
fn new_file_has_root_slot() {
    let mut f = File::new(Backend { records: vec![], sections: vec![], tail: vec![], end: 0 });
    assert_eq!(f.get_num_pages(), 0);
    assert_eq!(f.get_trailer().highest_id, 0);
    assert_eq!(f.get_trailer().info_dict, None);
    assert_eq!(f.get_trailer().encrypt_dict, None);
    assert_eq!(f.get_trailer().id, None);
    assert_eq!(f.add(Primitive::Null), r(1));
    assert_eq!(f.get_page(0), Err(PdfError::PageOutOfBounds { page_nr: 0, max: 0 }));
    let t = XRefTable::new(1);
    assert_eq!(t.get(0), Ok(XRef::Promised));
}
