use pdf::pages::{find_page, update_pages, Page, PageTree, PagesNode};
use pdf::types::{PdfError, PlainRef};

fn page(k: u64) -> Page {
    Page { parent: None, contents: Some(PlainRef { id: k, gen: 0 }) }
}

fn leaves(ks: &[u64]) -> PageTree {
    PageTree { kids: ks.iter().map(|k| PagesNode::Leaf(page(*k))).collect(), count: ks.len() as u64 }
}

fn two_children() -> PageTree {
    PageTree {
        kids: vec![PagesNode::Tree(leaves(&[10, 11])), PagesNode::Tree(leaves(&[20, 21, 22]))],
        count: 5,
    }
}

#[test]
fn fourth_page_is_second_leaf_of_second_child() {
    let t = two_children();
    assert_eq!(find_page(&t, 0, 3), Ok(page(21)));
}

#[test]
fn every_page_found_in_order() {
    let t = two_children();
    let want = [10, 11, 20, 21, 22];
    for (i, k) in want.iter().enumerate() {
        assert_eq!(find_page(&t, 0, i as u64), Ok(page(*k)));
    }
}

#[test]
fn page_past_the_end_is_not_found() {
    let t = two_children();
    assert_eq!(find_page(&t, 0, 5), Err(PdfError::PageNotFound { page_nr: 5 }));
}

#[test]
fn mixed_leaves_and_trees() {
    let t = PageTree {
        kids: vec![PagesNode::Leaf(page(1)), PagesNode::Tree(leaves(&[2, 3])), PagesNode::Leaf(page(4))],
        count: 4,
    };
    assert_eq!(find_page(&t, 0, 0), Ok(page(1)));
    assert_eq!(find_page(&t, 0, 2), Ok(page(3)));
    assert_eq!(find_page(&t, 0, 3), Ok(page(4)));
}

#[test]
fn update_replaces_one_page() {
    let mut t = two_children();
    assert_eq!(update_pages(&mut t, 0, 3, page(99)), Ok(()));
    assert_eq!(find_page(&t, 0, 3), Ok(page(99)));
    assert_eq!(find_page(&t, 0, 2), Ok(page(20)));
    assert_eq!(find_page(&t, 0, 4), Ok(page(22)));
    assert_eq!(t.count, 5);
}

#[test]
fn update_past_the_end_changes_nothing() {
    let mut t = two_children();
    assert_eq!(update_pages(&mut t, 0, 7, page(99)), Err(PdfError::PageNotFound { page_nr: 7 }));
    assert_eq!(t, two_children());
}
