use vstd::prelude::*;
use crate::types::{PdfError, PlainRef};

verus! {

/// A leaf of the page tree.
#[derive(Clone, Copy, Debug, PartialEq, Eq)]
pub struct Page {
    /// The tree node that holds this page.
    pub parent: Option<PlainRef>,
    /// The page's content stream.
    pub contents: Option<PlainRef>,
}

/// An inner node of the page tree: its children and the number of leaves below it.
#[derive(Debug, PartialEq)]
pub struct PageTree {
    pub kids: Vec<PagesNode>,
    pub count: u64,
}

#[derive(Debug, PartialEq)]
pub enum PagesNode {
    Tree(PageTree),
    Leaf(Page),
}

/// The pages below a node, left to right.
pub open spec fn node_leaves(n: PagesNode) -> Seq<Page>
    decreases n,
{
    match n {
        PagesNode::Leaf(p) => seq![p],
        PagesNode::Tree(t) => kids_leaves(t.kids@),
    }
}

/// The pages below a sequence of nodes, left to right.
pub open spec fn kids_leaves(kids: Seq<PagesNode>) -> Seq<Page>
    decreases kids,
{
    if kids.len() == 0 {
        Seq::empty()
    } else {
        kids_leaves(kids.drop_last()) + node_leaves(kids.last())
    }
}

pub open spec fn tree_leaves(t: PageTree) -> Seq<Page> {
    kids_leaves(t.kids@)
}

/// Every inner node's `count` equals the number of pages below it.
pub open spec fn node_wf(n: PagesNode) -> bool
    decreases n,
{
    match n {
        PagesNode::Leaf(p) => true,
        PagesNode::Tree(t) => t.count == kids_leaves(t.kids@).len() && kids_wf(t.kids@),
    }
}

pub open spec fn kids_wf(kids: Seq<PagesNode>) -> bool
    decreases kids,
{
    if kids.len() == 0 {
        true
    } else {
        kids_wf(kids.drop_last()) && node_wf(kids.last())
    }
}

pub open spec fn tree_wf(t: PageTree) -> bool {
    t.count == tree_leaves(t).len() && kids_wf(t.kids@)
}

/// Two nodes have the same shape: the same kind, and for inner nodes the same count and
/// children of the same shapes.
pub open spec fn node_same_shape(a: PagesNode, b: PagesNode) -> bool
    decreases a,
{
    match a {
        PagesNode::Leaf(_) => b is Leaf,
        PagesNode::Tree(ta) => match b {
            PagesNode::Tree(tb) => ta.count == tb.count && kids_same_shape(ta.kids@, tb.kids@),
            PagesNode::Leaf(_) => false,
        },
    }
}

pub open spec fn kids_same_shape(a: Seq<PagesNode>, b: Seq<PagesNode>) -> bool
    decreases a,
{
    a.len() == b.len() && (a.len() == 0 || (kids_same_shape(a.drop_last(), b.drop_last())
        && node_same_shape(a.last(), b.last())))
}

/// Two trees have the same shape; they may differ only in their pages.
pub open spec fn same_shape(a: PageTree, b: PageTree) -> bool {
    a.count == b.count && kids_same_shape(a.kids@, b.kids@)
}

proof fn lemma_node_same_shape_refl(n: PagesNode)
    ensures
        node_same_shape(n, n),
    decreases n,
{
    if let PagesNode::Tree(t) = n {
        lemma_kids_same_shape_refl(t.kids@);
    }
}

proof fn lemma_kids_same_shape_refl(kids: Seq<PagesNode>)
    ensures
        kids_same_shape(kids, kids),
    decreases kids,
{
    if kids.len() > 0 {
        lemma_kids_same_shape_refl(kids.drop_last());
        lemma_node_same_shape_refl(kids.last());
    }
}

proof fn lemma_kids_same_shape_pointwise(a: Seq<PagesNode>, b: Seq<PagesNode>)
    requires
        a.len() == b.len(),
        forall|j: int| 0 <= j < a.len() ==> node_same_shape(#[trigger] a[j], b[j]),
    ensures
        kids_same_shape(a, b),
    decreases a.len(),
{
    if a.len() > 0 {
        let (a1, b1) = (a.drop_last(), b.drop_last());
        assert forall|j: int| 0 <= j < a1.len() implies node_same_shape(#[trigger] a1[j], b1[j]) by {
            assert(a1[j] == a[j] && b1[j] == b[j]);
        }
        lemma_kids_same_shape_pointwise(a1, b1);
        assert(node_same_shape(a[a.len() - 1], b[a.len() - 1]));
    }
}

pub proof fn lemma_kids_leaves_append(a: Seq<PagesNode>, b: Seq<PagesNode>)
    ensures
        kids_leaves(a + b) == kids_leaves(a) + kids_leaves(b),
        kids_wf(a + b) == (kids_wf(a) && kids_wf(b)),
    decreases b.len(),
{
    if b.len() == 0 {
        assert(a + b =~= a);
        assert(kids_leaves(a) + kids_leaves(b) =~= kids_leaves(a));
    } else {
        lemma_kids_leaves_append(a, b.drop_last());
        assert((a + b).drop_last() =~= a + b.drop_last());
        assert((a + b).last() == b.last());
        assert(kids_leaves(a + b) =~= kids_leaves(a) + kids_leaves(b));
    }
}

/// Splits the pages below `kids` at child `i`.
proof fn lemma_kids_split(kids: Seq<PagesNode>, i: int)
    requires
        0 <= i < kids.len(),
    ensures
        kids_leaves(kids.take(i + 1)) == kids_leaves(kids.take(i)) + node_leaves(kids[i]),
        kids_leaves(kids) == kids_leaves(kids.take(i)) + node_leaves(kids[i]) + kids_leaves(
            kids.skip(i + 1),
        ),
        kids_wf(kids) ==> node_wf(kids[i]),
        kids_wf(kids) == (kids_wf(kids.take(i)) && node_wf(kids[i]) && kids_wf(kids.skip(i + 1))),
{
    assert(kids.take(i + 1).drop_last() =~= kids.take(i));
    assert(kids =~= kids.take(i + 1) + kids.skip(i + 1));
    lemma_kids_leaves_append(kids.take(i + 1), kids.skip(i + 1));
}

/// Replacing child `i` by a node with as many pages, changes exactly those pages.
proof fn lemma_kids_replace(kids: Seq<PagesNode>, i: int, n: PagesNode)
    requires
        0 <= i < kids.len(),
    ensures
        kids_leaves(kids.update(i, n)) == kids_leaves(kids.take(i)) + node_leaves(n) + kids_leaves(
            kids.skip(i + 1),
        ),
        kids_wf(kids.update(i, n)) == (kids_wf(kids.take(i)) && node_wf(n) && kids_wf(
            kids.skip(i + 1),
        )),
{
    let k2 = kids.update(i, n);
    lemma_kids_split(k2, i);
    assert(k2.take(i) =~= kids.take(i));
    assert(k2.skip(i + 1) =~= kids.skip(i + 1));
}

/// Finds the page with index `page_nr`, where the pages below `pages` are numbered from `offset`.
pub fn find_page(pages: &PageTree, offset: u64, page_nr: u64) -> (r: Result<Page, PdfError>)
    requires
        tree_wf(*pages),
        offset <= page_nr,
    ensures
        page_nr - offset < tree_leaves(*pages).len() ==> r == Ok::<Page, PdfError>(
            tree_leaves(*pages)[page_nr - offset],
        ),
        page_nr - offset >= tree_leaves(*pages).len() ==> r == Err::<Page, PdfError>(
            PdfError::PageNotFound { page_nr },
        ),
    decreases *pages,
{
    let ghost kids = pages.kids@;
    let mut pos = offset;
    let mut i: usize = 0;
    while i < pages.kids.len()
        invariant
            kids == pages.kids@,
            tree_wf(*pages),
            0 <= i <= kids.len(),
            offset <= pos <= page_nr,
            pos - offset == kids_leaves(kids.take(i as int)).len(),
        decreases kids.len() - i,
    {
        proof {
            lemma_kids_split(kids, i as int);
        }
        match &pages.kids[i] {
            PagesNode::Tree(t) => {
                if t.count <= page_nr - pos {
                    pos = pos + t.count;
                } else {
                    proof {
                        assert(decreases_to!(*pages => pages.kids));
                        assert(decreases_to!(pages.kids => pages.kids[i as int]));
                        assert(kids[i as int] == PagesNode::Tree(*t));
                        assert(node_leaves(kids[i as int]) == tree_leaves(*t));
                        assert(node_wf(kids[i as int]));
                        assert(tree_wf(*t));
                        assert(page_nr - pos < tree_leaves(*t).len());
                        assert(kids_leaves(kids)[page_nr - offset] == tree_leaves(*t)[page_nr
                            - pos]);
                    }
                    return find_page(t, pos, page_nr);
                }
            },
            PagesNode::Leaf(p) => {
                if pos < page_nr {
                    pos = pos + 1;
                } else {
                    return Ok(*p);
                }
            },
        }
        i = i + 1;
    }
    proof {
        assert(kids.take(i as int) =~= kids);
    }
    Err(PdfError::PageNotFound { page_nr })
}

/// Replaces the page with index `page_nr`, where the pages below `pages` are numbered
/// from `offset`; the shape of the tree and its counts stay as they were.
pub fn update_pages(pages: &mut PageTree, offset: u64, page_nr: u64, page: Page) -> (r: Result<
    (),
    PdfError,
>)
    requires
        tree_wf(*old(pages)),
        offset <= page_nr,
    ensures
        tree_wf(*final(pages)),
        final(pages).count == old(pages).count,
        page_nr - offset < tree_leaves(*old(pages)).len() ==> r is Ok && tree_leaves(*final(pages))
            == tree_leaves(*old(pages)).update(page_nr - offset, page),
        page_nr - offset < tree_leaves(*old(pages)).len() ==> same_shape(*final(pages), *old(pages)),
        page_nr - offset >= tree_leaves(*old(pages)).len() ==> r == Err::<(), PdfError>(
            PdfError::PageNotFound { page_nr },
        ) && *final(pages) == *old(pages),
    decreases *old(pages),
{
    let ghost kids = pages.kids@;
    let ghost before = *pages;
    let mut pos = offset;
    let mut i: usize = 0;
    while i < pages.kids.len()
        invariant
            kids == pages.kids@,
            *pages == before,
            before == *old(pages),
            tree_wf(before),
            0 <= i <= kids.len(),
            offset <= pos <= page_nr,
            pos - offset == kids_leaves(kids.take(i as int)).len(),
        decreases kids.len() - i,
    {
        proof {
            lemma_kids_split(kids, i as int);
        }
        let here = match &pages.kids[i] {
            PagesNode::Tree(t) => t.count <= page_nr - pos,
            PagesNode::Leaf(_) => pos < page_nr,
        };
        if !here {
            let kid = pages.kids.remove(i);
            proof {
                assert(kid == kids[i as int]);
                assert(pages.kids@ =~= kids.take(i as int) + kids.skip(i as int + 1));
            }
            let new_kid = match kid {
                PagesNode::Tree(mut t) => {
                    proof {
                        assert(decreases_to!(before => before.kids));
                        assert(decreases_to!(before.kids => before.kids[i as int]));
                        assert(before.kids[i as int] == PagesNode::Tree(t));
                        assert(decreases_to!(PagesNode::Tree(t) => t));
                        assert(tree_wf(t));
                    }
                    let r = update_pages(&mut t, pos, page_nr, page);
                    proof {
                        assert(r is Ok);
                    }
                    PagesNode::Tree(t)
                },
                PagesNode::Leaf(_) => PagesNode::Leaf(page),
            };
            pages.kids.insert(i, new_kid);
            proof {
                assert(pages.count == before.count);
                assert(pages.kids@ =~= kids.update(i as int, new_kid));
                lemma_kids_replace(kids, i as int, new_kid);
                assert(node_leaves(new_kid) =~= node_leaves(kids[i as int]).update(
                    page_nr - pos,
                    page,
                ));
                assert(tree_leaves(*pages) =~= tree_leaves(before).update(page_nr - offset, page));
                assert(node_same_shape(new_kid, kids[i as int]));
                assert forall|j: int| 0 <= j < kids.len() implies node_same_shape(
                    #[trigger] pages.kids@[j],
                    kids[j],
                ) by {
                    if j != i {
                        lemma_node_same_shape_refl(kids[j]);
                    }
                }
                lemma_kids_same_shape_pointwise(pages.kids@, kids);
            }
            return Ok(());
        }
        match &pages.kids[i] {
            PagesNode::Tree(t) => {
                pos = pos + t.count;
            },
            PagesNode::Leaf(_) => {
                pos = pos + 1;
            },
        }
        i = i + 1;
    }
    proof {
        assert(kids.take(i as int) =~= kids);
    }
    Err(PdfError::PageNotFound { page_nr })
}

} // verus!
