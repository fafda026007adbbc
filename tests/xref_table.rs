use pdf::types::PdfError;
use pdf::xref::{XRef, XRefInfo, XRefSection, XRefStream, XRefTable};

fn section(first_id: u64, entries: Vec<XRef>) -> XRefSection {
    XRefSection { first_id, entries }
}

#[test]
fn newer_section_wins_over_older() {
    let mut t = XRefTable::new(10);
    t.add_entries_from(&section(5, vec![XRef::Raw { pos: 100 }]));
    t.add_entries_from(&section(5, vec![XRef::Raw { pos: 50 }]));
    assert_eq!(t.get(5), Ok(XRef::Raw { pos: 100 }));
}

#[test]
fn older_section_fills_unset_slots() {
    let mut t = XRefTable::new(4);
    t.add_entries_from(&section(1, vec![XRef::Raw { pos: 7 }]));
    t.add_entries_from(&section(0, vec![XRef::Free { next_free: 0 }, XRef::Raw { pos: 9 }, XRef::Stream { stream_id: 1, index: 2 }]));
    assert_eq!(t.get(0), Ok(XRef::Free { next_free: 0 }));
    assert_eq!(t.get(1), Ok(XRef::Raw { pos: 7 }));
    assert_eq!(t.get(2), Ok(XRef::Stream { stream_id: 1, index: 2 }));
    assert_eq!(t.get(3), Ok(XRef::Promised));
}

#[test]
fn entries_beyond_the_table_are_left_out() {
    let mut t = XRefTable::new(2);
    t.add_entries_from(&section(1, vec![XRef::Raw { pos: 1 }, XRef::Raw { pos: 2 }]));
    assert_eq!(t.len(), 2);
    assert_eq!(t.get(1), Ok(XRef::Raw { pos: 1 }));
    assert_eq!(t.get(2), Err(PdfError::ObjectNumberOutOfRange { obj_nr: 2 }));
}

#[test]
fn push_returns_next_number() {
    let mut t = XRefTable::new(3);
    assert_eq!(t.push(XRef::Promised), 3);
    assert_eq!(t.len(), 4);
    t.set(3, XRef::Raw { pos: 11 });
    assert_eq!(t.get(3), Ok(XRef::Raw { pos: 11 }));
}

#[test]
fn add_sections_merges_in_order() {
    let mut t = XRefTable::new(3);
    let secs = vec![section(0, vec![XRef::Raw { pos: 1 }]), section(0, vec![XRef::Raw { pos: 2 }, XRef::Raw { pos: 3 }])];
    t.add_sections_from(&secs);
    assert_eq!(t.get(0), Ok(XRef::Raw { pos: 1 }));
    assert_eq!(t.get(1), Ok(XRef::Raw { pos: 3 }));
}

#[test]
fn index_defaults_to_whole_table() {
    let info = XRefInfo { size: 12, index: None, prev: None, w: vec![1, 2, 1] };
    assert_eq!(info.subsections(), vec![(0, 12)]);
}

#[test]
fn index_is_read_as_pairs() {
    let info = XRefInfo { size: 12, index: Some(vec![0, 3, 10, 2, 99]), prev: Some(40), w: vec![1, 2, 1] };
    assert_eq!(info.subsections(), vec![(0, 3), (10, 2)]);
    let s = XRefStream { data: vec![1, 0, 5, 0], info };
    assert_eq!(s.info.prev, Some(40));
}
