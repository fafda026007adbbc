use vstd::prelude::*;
use std::collections::HashMap;
use crate::backend::{lemma_section_index_range, section_index, stored, Backend, Record, SectionRecord};
use crate::object::{copy_file_id, file_id_view, result_view, Primitive, PrimitiveV};
use crate::objstream::{unpacked, ObjectStreamWriter};
use crate::startxref::startxref_value;
use crate::types::{ObjNr, PdfError, PlainRef};
use crate::pages::{find_page, same_shape, update_pages, Page, kids_leaves, kids_wf, node_leaves, node_wf, tree_leaves, tree_wf, PageTree, PagesNode};
use crate::xref::{merged_all, XRef, XRefTable};

verus! {

broadcast use vstd::std_specs::hash::group_hash_axioms;

/// What the container object `id` decodes to: its entry must be a stored record that
/// holds a container.
pub open spec fn container(records: Seq<Record>, table: Seq<XRef>, id: ObjNr) -> Result<
    PrimitiveV,
    PdfError,
> {
    if id >= table.len() {
        Err(PdfError::ObjectNumberOutOfRange { obj_nr: id })
    } else {
        match table[id as int] {
            XRef::Raw { pos } => match stored(records, pos) {
                Ok(v) => if v is Stream {
                    Ok(v)
                } else {
                    Err(PdfError::UnexpectedPrimitive)
                },
                Err(e) => Err(e),
            },
            XRef::Free { .. } => Err(PdfError::FreeObject { obj_nr: id }),
            XRef::Stream { .. } => Err(PdfError::NestedObjectStream { obj_nr: id }),
            XRef::Promised => Err(PdfError::UnboundObject { obj_nr: id }),
        }
    }
}

/// What object `id` decodes to from storage, through the table.
pub open spec fn resolved(records: Seq<Record>, table: Seq<XRef>, id: ObjNr) -> Result<
    PrimitiveV,
    PdfError,
> {
    if id >= table.len() {
        Err(PdfError::ObjectNumberOutOfRange { obj_nr: id })
    } else {
        match table[id as int] {
            XRef::Raw { pos } => stored(records, pos),
            XRef::Stream { stream_id, index } => match container(records, table, stream_id) {
                Ok(PrimitiveV::Stream { first, pairs, data }) => unpacked(
                    first,
                    pairs,
                    data,
                    index as int,
                ),
                Ok(_) => Err(PdfError::UnexpectedPrimitive),
                Err(e) => Err(e),
            },
            XRef::Free { .. } => Err(PdfError::FreeObject { obj_nr: id }),
            XRef::Promised => Err(PdfError::UnboundObject { obj_nr: id }),
        }
    }
}

/// What object `id` decodes to: a pending value first, else storage.
pub open spec fn looked_up(
    pending: Map<ObjNr, PrimitiveV>,
    records: Seq<Record>,
    table: Seq<XRef>,
    id: ObjNr,
) -> Result<PrimitiveV, PdfError> {
    if pending.contains_key(id) {
        Ok(pending[id])
    } else {
        resolved(records, table, id)
    }
}

/// Decodes object `r.id` from storage through the table, unpacking a container object
/// where the entry says so.
pub fn resolve_helper(backend: &Backend, refs: &XRefTable, r: PlainRef) -> (res: Result<
    Primitive,
    PdfError,
>)
    ensures
        result_view(res) == resolved(backend.records@, refs@, r.id),
{
    match refs.get(r.id) {
        Err(e) => Err(e),
        Ok(XRef::Raw { pos }) => backend.read_object(pos),
        Ok(XRef::Stream { stream_id, index }) => {
            let c = match refs.get(stream_id) {
                Err(e) => Err(e),
                Ok(XRef::Raw { pos }) => match backend.read_object(pos) {
                    Ok(Primitive::Stream(s)) => Ok(s),
                    Ok(_) => Err(PdfError::UnexpectedPrimitive),
                    Err(e) => Err(e),
                },
                Ok(XRef::Free { .. }) => Err(PdfError::FreeObject { obj_nr: stream_id }),
                Ok(XRef::Stream { .. }) => Err(PdfError::NestedObjectStream { obj_nr: stream_id }),
                Ok(XRef::Promised) => Err(PdfError::UnboundObject { obj_nr: stream_id }),
            };
            match c {
                Ok(s) => s.get_object(index),
                Err(e) => Err(e),
            }
        },
        Ok(XRef::Free { .. }) => Err(PdfError::FreeObject { obj_nr: r.id }),
        Ok(XRef::Promised) => Err(PdfError::UnboundObject { obj_nr: r.id }),
    }
}

/// The table after walking the chain of update sections from `pos` on, newest first,
/// following at most `fuel` sections.
pub open spec fn walked(
    sections: Seq<SectionRecord>,
    pos: Option<u64>,
    table: Seq<XRef>,
    fuel: nat,
) -> Result<Seq<XRef>, PdfError>
    decreases fuel,
{
    match pos {
        None => Ok(table),
        Some(p) => if fuel == 0 {
            Err(PdfError::CyclicUpdateChain)
        } else {
            match section_index(sections, p) {
                None => Err(PdfError::NoSectionAt { pos: p }),
                Some(i) => walked(
                    sections,
                    sections[i].section.prev,
                    merged_all(table, sections[i].section.xref@),
                    (fuel - 1) as nat,
                ),
            }
        },
    }
}

/// The merged table of the chain that starts at `start`, and the newest section's index.
/// A chain that visits more sections than storage holds runs in a cycle.
pub open spec fn loaded(sections: Seq<SectionRecord>, start: u64) -> Result<(Seq<XRef>, int), PdfError> {
    match section_index(sections, start) {
        None => Err(PdfError::NoSectionAt { pos: start }),
        Some(k) => match sections[k].section.size {
            None => Err(PdfError::SizeNotFound),
            Some(n) => if n > usize::MAX {
                Err(PdfError::SizeTooLarge { size: n })
            } else {
                match walked(
                    sections,
                    Some(start),
                    Seq::new(n as nat, |i: int| XRef::Promised),
                    sections.len() + 1,
                ) {
                    Ok(t) => Ok((t, k)),
                    Err(e) => Err(e),
                }
            },
        },
    }
}

/// Reads the newest update section at `start` and merges the older ones after it.
pub fn load_xref(backend: &Backend, start: u64) -> (r: Result<(XRefTable, usize), PdfError>)
    ensures
        match r {
            Ok((t, k)) => loaded(backend.sections@, start) == Ok::<(Seq<XRef>, int), PdfError>(
                (t@, k as int),
            ),
            Err(e) => loaded(backend.sections@, start) == Err::<(Seq<XRef>, int), PdfError>(e),
        },
{
    let k = match backend.find_section(start) {
        Some(k) => k,
        None => return Err(PdfError::NoSectionAt { pos: start }),
    };
    let size = match backend.sections[k].section.size {
        Some(n) => n,
        None => return Err(PdfError::SizeNotFound),
    };
    if size > usize::MAX as u64 {
        return Err(PdfError::SizeTooLarge { size });
    }
    let mut refs = XRefTable::new(size);
    let ghost secs = backend.sections@;
    let ghost goal = walked(
        secs,
        Some(start),
        Seq::new(size as nat, |i: int| XRef::Promised),
        secs.len() + 1,
    );
    let mut cur: Option<u64> = Some(start);
    let mut fuel: u128 = backend.sections.len() as u128 + 1;
    loop
        invariant
            secs == backend.sections@,
            goal == walked(secs, cur, refs@, fuel as nat),
            section_index(secs, start) == Some(k as int),
            secs[k as int].section.size == Some(size),
            size <= usize::MAX,
            goal == walked(
                secs,
                Some(start),
                Seq::new(size as nat, |i: int| XRef::Promised),
                secs.len() + 1,
            ),
        decreases fuel,
    {
        match cur {
            None => {
                return Ok((refs, k));
            },
            Some(p) => {
                if fuel == 0 {
                    return Err(PdfError::CyclicUpdateChain);
                }
                match backend.find_section(p) {
                    None => {
                        return Err(PdfError::NoSectionAt { pos: p });
                    },
                    Some(i) => {
                        let ghost t0 = refs@;
                        refs.add_sections_from(&backend.sections[i].section.xref);
                        cur = backend.sections[i].section.prev;
                        fuel = fuel - 1;
                        assert(section_index(secs, p) == Some(i as int));
                        assert(walked(secs, Some(p), t0, (fuel + 1) as nat) == walked(
                            secs,
                            secs[i as int].section.prev,
                            merged_all(t0, secs[i as int].section.xref@),
                            fuel as nat,
                        ));
                    },
                }
            },
        }
    }
}

/// The pages below the page-tree node `r`, following at most `depth` more levels of
/// nodes; each node's `count` must equal the number of pages found below it.
pub open spec fn tree_pages(records: Seq<Record>, table: Seq<XRef>, r: PlainRef, depth: nat) -> Result<
    Seq<Page>,
    PdfError,
>
    decreases depth, 1nat, 0nat,
{
    match resolved(records, table, r.id) {
        Ok(PrimitiveV::Pages { kids, count }) => match kids_pages(records, table, kids, depth) {
            Ok(ps) => if ps.len() == count {
                Ok(ps)
            } else {
                Err(PdfError::PageCountMismatch)
            },
            Err(e) => Err(e),
        },
        Ok(_) => Err(PdfError::UnexpectedPrimitive),
        Err(e) => Err(e),
    }
}

/// The pages below a node's children, left to right.
pub open spec fn kids_pages(
    records: Seq<Record>,
    table: Seq<XRef>,
    kids: Seq<PlainRef>,
    depth: nat,
) -> Result<Seq<Page>, PdfError>
    decreases depth, 0nat, kids.len(),
{
    if kids.len() == 0 {
        Ok(Seq::empty())
    } else {
        match kids_pages(records, table, kids.drop_last(), depth) {
            Err(e) => Err(e),
            Ok(ps) => match resolved(records, table, kids.last().id) {
                Ok(PrimitiveV::Page(p)) => if ps.len() + 1 > u64::MAX {
                    Err(PdfError::PageCountMismatch)
                } else {
                    Ok(ps.push(p))
                },
                Ok(PrimitiveV::Pages { .. }) => if depth == 0 {
                    Err(PdfError::PageTreeTooDeep)
                } else {
                    match tree_pages(records, table, kids.last(), (depth - 1) as nat) {
                        Ok(qs) => if ps.len() + qs.len() > u64::MAX {
                            Err(PdfError::PageCountMismatch)
                        } else {
                            Ok(ps + qs)
                        },
                        Err(e) => Err(e),
                    }
                },
                Ok(_) => Err(PdfError::UnexpectedPrimitive),
                Err(e) => Err(e),
            },
        }
    }
}

/// An error among the first children is the error for all of them.
proof fn lemma_kids_pages_err(
    records: Seq<Record>,
    table: Seq<XRef>,
    kids: Seq<PlainRef>,
    depth: nat,
    j: int,
    m: int,
)
    requires
        0 <= j <= m <= kids.len(),
        kids_pages(records, table, kids.take(j), depth) is Err,
    ensures
        kids_pages(records, table, kids.take(m), depth) == kids_pages(records, table, kids.take(j), depth),
    decreases m - j,
{
    if m > j {
        lemma_kids_pages_err(records, table, kids, depth, j, m - 1);
        assert(kids.take(m).drop_last() =~= kids.take(m - 1));
    }
}

/// Loads the page-tree node `r` and, down to `depth` more levels, the nodes below it;
/// each node's `count` is checked against the pages found below it.
pub fn load_tree(backend: &Backend, refs: &XRefTable, r: PlainRef, depth: u64) -> (res: Result<
    PageTree,
    PdfError,
>)
    ensures
        match res {
            Ok(t) => tree_wf(t) && tree_pages(backend.records@, refs@, r, depth as nat) == Ok::<
                Seq<Page>,
                PdfError,
            >(tree_leaves(t)),
            Err(e) => tree_pages(backend.records@, refs@, r, depth as nat) == Err::<
                Seq<Page>,
                PdfError,
            >(e),
        },
    decreases depth,
{
    let dict = match resolve_helper(backend, refs, r) {
        Ok(Primitive::Pages(d)) => d,
        Ok(_) => return Err(PdfError::UnexpectedPrimitive),
        Err(e) => return Err(e),
    };
    let mut kids: Vec<PagesNode> = Vec::new();
    let mut count: u64 = 0;
    let mut i: usize = 0;
    let ghost recs = backend.records@;
    let ghost table = refs@;
    assert(dict.kids@.take(0) =~= Seq::<PlainRef>::empty());
    while i < dict.kids.len()
        invariant
            recs == backend.records@,
            table == refs@,
            resolved(recs, table, r.id) == Ok::<PrimitiveV, PdfError>(
                PrimitiveV::Pages { kids: dict.kids@, count: dict.count },
            ),
            i <= dict.kids@.len(),
            count == kids_leaves(kids@).len(),
            kids_wf(kids@),
            kids_pages(recs, table, dict.kids@.take(i as int), depth as nat) == Ok::<
                Seq<Page>,
                PdfError,
            >(kids_leaves(kids@)),
        decreases dict.kids@.len() - i,
    {
        proof {
            let ks = dict.kids@.take(i as int + 1);
            assert(ks.drop_last() =~= dict.kids@.take(i as int));
            assert(ks.last() == dict.kids@[i as int]);
        }
        let step = match resolve_helper(backend, refs, dict.kids[i]) {
            Ok(Primitive::Page(p)) => Ok(PagesNode::Leaf(p)),
            Ok(Primitive::Pages(_)) => {
                if depth == 0 {
                    Err(PdfError::PageTreeTooDeep)
                } else {
                    match load_tree(backend, refs, dict.kids[i], depth - 1) {
                        Ok(t) => Ok(PagesNode::Tree(t)),
                        Err(e) => Err(e),
                    }
                }
            },
            Ok(_) => Err(PdfError::UnexpectedPrimitive),
            Err(e) => Err(e),
        };
        let step = match step {
            Ok(node) => {
                let n: u64 = match &node {
                    PagesNode::Leaf(_) => 1,
                    PagesNode::Tree(t) => t.count,
                };
                if n > u64::MAX - count {
                    Err(PdfError::PageCountMismatch)
                } else {
                    Ok((node, n))
                }
            },
            Err(e) => Err(e),
        };
        let (node, n) = match step {
            Ok(x) => x,
            Err(e) => {
                proof {
                    lemma_kids_pages_err(recs, table, dict.kids@, depth as nat, i + 1, dict.kids@.len() as int);
                    assert(dict.kids@.take(dict.kids@.len() as int) =~= dict.kids@);
                }
                return Err(e);
            },
        };
        let ghost before = kids@;
        kids.push(node);
        count = count + n;
        proof {
            assert(kids@.drop_last() =~= before);
            assert(node_wf(kids@.last()));
            assert(node_leaves(kids@.last()).len() == n);
            assert(kids_leaves(kids@) == kids_leaves(before) + node_leaves(kids@.last()));
            let ks = dict.kids@.take(i as int + 1);
            assert(ks.drop_last() =~= dict.kids@.take(i as int));
            if let PagesNode::Leaf(p) = kids@.last() {
                assert(kids_leaves(before).push(p) =~= kids_leaves(before) + seq![p]);
            }
        }
        i = i + 1;
    }
    proof {
        assert(dict.kids@.take(i as int) =~= dict.kids@);
    }
    if count != dict.count {
        return Err(PdfError::PageCountMismatch);
    }
    Ok(PageTree { kids, count })
}

/// What opening a document gives: its merged table and its pages. The newest update
/// section is found through the `startxref` marker at the end of storage, its `Root` must
/// be a catalog, and the page tree below it is followed at most as many levels deep as
/// the table has slots.
pub open spec fn opened(records: Seq<Record>, sections: Seq<SectionRecord>, tail: Seq<u8>) -> Result<
    (Seq<XRef>, Seq<Page>),
    PdfError,
> {
    match startxref_value(tail) {
        None => Err(PdfError::StartXRefNotFound),
        Some(v) => if v > u64::MAX {
            Err(PdfError::StartXRefNotFound)
        } else {
            match loaded(sections, v as u64) {
                Err(e) => Err(e),
                Ok((t, k)) => match resolved(records, t, sections[k].section.root.id) {
                    Ok(PrimitiveV::Catalog(pages)) => match tree_pages(records, t, pages, t.len()) {
                        Ok(ps) => Ok((t, ps)),
                        Err(e) => Err(e),
                    },
                    Ok(_) => Err(PdfError::UnexpectedPrimitive),
                    Err(e) => Err(e),
                },
            }
        },
    }
}

/// The newest update section's index, when the chain loads.
pub open spec fn opened_section(sections: Seq<SectionRecord>, tail: Seq<u8>) -> Option<int> {
    match startxref_value(tail) {
        Some(v) => if v > u64::MAX {
            None
        } else {
            match loaded(sections, v as u64) {
                Ok((t, k)) => Some(k),
                Err(_) => None,
            }
        },
        None => None,
    }
}

/// The document catalog.
pub struct Catalog {
    pub pages: PageTree,
}

/// The newest trailer dictionary, decoded.
pub struct Trailer {
    /// `Size`: one past the highest object number.
    pub highest_id: u64,
    pub root: Catalog,
    pub encrypt_dict: Option<PlainRef>,
    pub id: Option<(Vec<u8>, Vec<u8>)>,
    pub info_dict: Option<PlainRef>,
}

/// A reserved object number that is not bound to a value yet.
pub struct PromisedRef {
    inner: PlainRef,
}

impl PromisedRef {
    pub closed spec fn spec_inner(&self) -> PlainRef {
        self.inner
    }

    /// The reserved reference, to be written into other objects before it is bound.
    pub fn get_inner(&self) -> (r: PlainRef)
        ensures
            r == self.spec_inner(),
    {
        self.inner
    }
}

/// A container being filled agrees with the table: its own number is reserved, and each
/// object packed in it has a `Stream` entry that points at its slot.
pub open spec fn stream_consistent(table: Seq<XRef>, w: ObjectStreamWriter) -> bool {
    &&& w.spec_id() < table.len()
    &&& table[w.spec_id() as int] is Promised
    &&& w.ids().len() == w.packed().len()
    &&& forall|i: int|
        0 <= i < w.ids().len() ==> {
            &&& #[trigger] w.ids()[i] < table.len()
            &&& w.ids()[i] != w.spec_id()
            &&& table[w.ids()[i] as int] == XRef::Stream { stream_id: w.spec_id(), index: i as u64 }
        }
}

/// An open document: storage, the merged table, the newest trailer and the edits of
/// this session that are not written yet.
pub struct File {
    backend: Backend,
    trailer: Trailer,
    refs: XRefTable,
    changes: HashMap<ObjNr, Primitive>,
}

impl File {
    pub closed spec fn wf(&self) -> bool {
        tree_wf(self.trailer.root.pages) && self.backend.wf()
    }

    /// The cross-reference table.
    pub closed spec fn table(&self) -> Seq<XRef> {
        self.refs@
    }

    /// The values bound in this session, by object number.
    pub closed spec fn pending(&self) -> Map<ObjNr, PrimitiveV> {
        self.changes@.map_values(|p: Primitive| p@)
    }

    /// The records of storage.
    pub closed spec fn records(&self) -> Seq<Record> {
        self.backend.records@
    }

    /// The trailer of the newest update section, with the page tree below its catalog.
    pub closed spec fn spec_trailer(&self) -> Trailer {
        self.trailer
    }

    /// The position at which the next record is written.
    pub closed spec fn append_pos(&self) -> u64 {
        self.backend.end
    }

    /// The pages of the document, in order.
    pub closed spec fn pages(&self) -> Seq<Page> {
        tree_leaves(self.trailer.root.pages)
    }

    /// An empty document over `b`, whose table holds the slot of the root object.
    pub fn new(b: Backend) -> (r: File)
        requires
            b.wf(),
        ensures
            r.wf(),
            r.table() == seq![XRef::Promised],
            r.pending() == Map::<ObjNr, PrimitiveV>::empty(),
            r.records() == b.records@,
            r.pages() == Seq::<Page>::empty(),
            r.spec_trailer().highest_id == 0,
            r.spec_trailer().info_dict is None,
            r.spec_trailer().encrypt_dict is None,
            r.spec_trailer().id is None,
            r.spec_trailer().root.pages.count == 0,
    {
        let refs = XRefTable::new(1);
        let r = File {
            backend: b,
            trailer: Trailer {
                highest_id: 0,
                root: Catalog { pages: PageTree { kids: Vec::new(), count: 0 } },
                encrypt_dict: None,
                info_dict: None,
                id: None,
            },
            refs,
            changes: HashMap::new(),
        };
        assert(r.table() =~= seq![XRef::Promised]);
        assert(r.pending() =~= Map::<ObjNr, PrimitiveV>::empty());
        r
    }

    /// Opens the document in `backend`: the newest update section is found through the
    /// `startxref` marker at its end, older sections are merged after it, and the catalog
    /// and page tree are loaded.
    pub fn open(backend: Backend) -> (r: Result<File, PdfError>)
        requires
            backend.wf(),
        ensures
            match r {
                Ok(f) => {
                    &&& f.wf()
                    &&& f.records() == backend.records@
                    &&& f.pending() == Map::<ObjNr, PrimitiveV>::empty()
                    &&& opened(backend.records@, backend.sections@, backend.tail@) == Ok::<
                        (Seq<XRef>, Seq<Page>),
                        PdfError,
                    >((f.table(), f.pages()))
                    &&& opened_section(backend.sections@, backend.tail@) matches Some(k) && {
                        let sec = backend.sections@[k].section;
                        &&& f.spec_trailer().highest_id == f.table().len()
                        &&& f.spec_trailer().info_dict == sec.info
                        &&& f.spec_trailer().encrypt_dict == sec.encrypt
                        &&& file_id_view(f.spec_trailer().id) == file_id_view(sec.id)
                    }
                },
                Err(e) => opened(backend.records@, backend.sections@, backend.tail@) == Err::<
                    (Seq<XRef>, Seq<Page>),
                    PdfError,
                >(e),
            },
    {
        let start = match crate::startxref::locate_xref_offset(backend.tail.as_slice()) {
            Ok(s) => s,
            Err(e) => return Err(e),
        };
        let (refs, k) = match load_xref(&backend, start) {
            Ok(x) => x,
            Err(e) => return Err(e),
        };
        proof {
            lemma_section_index_range(backend.sections@, start);
        }
        let root_ref = backend.sections[k].section.root;
        let pages_ref = match resolve_helper(&backend, &refs, root_ref) {
            Ok(Primitive::Catalog(p)) => p,
            Ok(_) => return Err(PdfError::UnexpectedPrimitive),
            Err(e) => return Err(e),
        };
        let depth = refs.len() as u64;
        let pages = match load_tree(&backend, &refs, pages_ref, depth) {
            Ok(t) => t,
            Err(e) => return Err(e),
        };
        let section = &backend.sections[k].section;
        let trailer = Trailer {
            highest_id: refs.len() as u64,
            root: Catalog { pages },
            encrypt_dict: section.encrypt,
            id: copy_file_id(&section.id),
            info_dict: section.info,
        };
        let f = File { backend, trailer, refs, changes: HashMap::new() };
        assert(f.pending() =~= Map::<ObjNr, PrimitiveV>::empty());
        Ok(f)
    }

    pub fn get_root(&self) -> (r: &Catalog)
        requires
            self.wf(),
        ensures
            *r == self.spec_trailer().root,
            tree_wf(r.pages),
            tree_leaves(r.pages) == self.pages(),
    {
        &self.trailer.root
    }

    /// The trailer of the newest update section.
    pub fn get_trailer(&self) -> (r: &Trailer)
        ensures
            *r == self.spec_trailer(),
            tree_leaves(r.root.pages) == self.pages(),
    {
        &self.trailer
    }

    /// Decodes object `r.id`: a value bound in this session is returned as it is, else
    /// the object is read from storage through the table.
    pub fn resolve(&self, r: PlainRef) -> (res: Result<Primitive, PdfError>)
        requires
            !self.pending().contains_key(r.id) && r.id < self.table().len() ==> !(
            self.table()[r.id as int] is Promised),
        ensures
            result_view(res) == looked_up(self.pending(), self.records(), self.table(), r.id),
    {
        match self.changes.get(&r.id) {
            Some(p) => Ok(p.duplicate()),
            None => resolve_helper(&self.backend, &self.refs, r),
        }
    }

    /// Decodes the object that `r` refers to.
    pub fn deref(&self, r: PlainRef) -> (res: Result<Primitive, PdfError>)
        requires
            !self.pending().contains_key(r.id) && r.id < self.table().len() ==> !(
            self.table()[r.id as int] is Promised),
        ensures
            result_view(res) == looked_up(self.pending(), self.records(), self.table(), r.id),
    {
        self.resolve(r)
    }

    pub fn get_num_pages(&self) -> (r: u64)
        requires
            self.wf(),
        ensures
            r == self.pages().len(),
    {
        self.trailer.root.pages.count
    }

    /// The page with index `n`, counted from zero.
    pub fn get_page(&self, n: u64) -> (r: Result<Page, PdfError>)
        requires
            self.wf(),
        ensures
            n < self.pages().len() ==> r == Ok::<Page, PdfError>(self.pages()[n as int]),
            n >= self.pages().len() ==> r == Err::<Page, PdfError>(
                PdfError::PageOutOfBounds { page_nr: n, max: self.pages().len() as u64 },
            ),
    {
        let max = self.get_num_pages();
        if n >= max {
            return Err(PdfError::PageOutOfBounds { page_nr: n, max });
        }
        find_page(&self.trailer.root.pages, 0, n)
    }

    /// Replaces the page with index `n`.
    pub fn update_page(&mut self, n: u64, page: Page) -> (r: Result<(), PdfError>)
        requires
            old(self).wf(),
        ensures
            final(self).wf(),
            final(self).table() == old(self).table(),
            final(self).pending() == old(self).pending(),
            final(self).records() == old(self).records(),
            n < old(self).pages().len() ==> r is Ok && final(self).pages() == old(self).pages().update(
                n as int,
                page,
            ),
            n < old(self).pages().len() ==> {
                let (a, b) = (final(self).spec_trailer(), old(self).spec_trailer());
                &&& a.highest_id == b.highest_id
                &&& a.info_dict == b.info_dict
                &&& a.encrypt_dict == b.encrypt_dict
                &&& same_shape(a.root.pages, b.root.pages)
            },
            n >= old(self).pages().len() ==> r == Err::<(), PdfError>(
                PdfError::PageOutOfBounds { page_nr: n, max: old(self).pages().len() as u64 },
            ) && *final(self) == *old(self),
    {
        let max = self.get_num_pages();
        if n >= max {
            return Err(PdfError::PageOutOfBounds { page_nr: n, max });
        }
        update_pages(&mut self.trailer.root.pages, 0, n, page)
    }

    /// Binds `primitive` to object `id` for this session.
    pub fn update(&mut self, id: ObjNr, primitive: Primitive)
        ensures
            final(self).pending() == old(self).pending().insert(id, primitive@),
            final(self).table() == old(self).table(),
            final(self).records() == old(self).records(),
            final(self).pages() == old(self).pages(),
            final(self).wf() == old(self).wf(),
            final(self).spec_trailer() == old(self).spec_trailer(),
    {
        let ghost v = primitive@;
        self.changes.insert(id, primitive);
        assert(self.pending() =~= old(self).pending().insert(id, v));
    }

    /// Reserves the next object number.
    pub fn promise(&mut self) -> (r: PromisedRef)
        requires
            old(self).table().len() < u64::MAX,
        ensures
            r.spec_inner() == (PlainRef { id: old(self).table().len() as u64, gen: 0 }),
            final(self).table() == old(self).table().push(XRef::Promised),
            final(self).pending() == old(self).pending(),
            final(self).records() == old(self).records(),
            final(self).pages() == old(self).pages(),
            final(self).wf() == old(self).wf(),
            final(self).spec_trailer() == old(self).spec_trailer(),
    {
        let id = self.refs.push(XRef::Promised);
        PromisedRef { inner: PlainRef { id, gen: 0 } }
    }

    /// Binds the promised number to `obj`; the returned reference can be dereferenced.
    pub fn fulfill(&mut self, promise: PromisedRef, obj: Primitive) -> (r: PlainRef)
        ensures
            r == promise.spec_inner(),
            final(self).pending() == old(self).pending().insert(r.id, obj@),
            final(self).table() == old(self).table(),
            final(self).records() == old(self).records(),
            final(self).pages() == old(self).pages(),
            final(self).wf() == old(self).wf(),
            final(self).spec_trailer() == old(self).spec_trailer(),
    {
        self.update(promise.inner.id, obj);
        promise.inner
    }

    /// Adds `obj` under the next object number.
    pub fn add(&mut self, obj: Primitive) -> (r: PlainRef)
        requires
            old(self).table().len() < u64::MAX,
        ensures
            r == (PlainRef { id: old(self).table().len() as u64, gen: 0 }),
            final(self).table() == old(self).table().push(XRef::Promised),
            final(self).pending() == old(self).pending().insert(r.id, obj@),
            final(self).records() == old(self).records(),
            final(self).pages() == old(self).pages(),
            final(self).wf() == old(self).wf(),
            final(self).spec_trailer() == old(self).spec_trailer(),
    {
        let id = self.refs.push(XRef::Promised);
        self.update(id, obj);
        PlainRef { id, gen: 0 }
    }

    /// Reserves a number for a new container object and opens it for packing.
    pub fn begin_stream(&mut self) -> (r: ObjectStreamWriter)
        requires
            old(self).table().len() < u64::MAX,
        ensures
            r.wf(),
            r.spec_id() == old(self).table().len(),
            r.packed() == Seq::<PrimitiveV>::empty(),
            r.size() == 0,
            stream_consistent(final(self).table(), r),
            final(self).table() == old(self).table().push(XRef::Promised),
            final(self).pending() == old(self).pending(),
            final(self).records() == old(self).records(),
            final(self).pages() == old(self).pages(),
            final(self).wf() == old(self).wf(),
            final(self).spec_trailer() == old(self).spec_trailer(),
    {
        let id = self.refs.push(XRef::Promised);
        ObjectStreamWriter::new(id)
    }

    /// Binds the promised number to `obj` by packing it into the open container `w`.
    pub fn fulfill_packed(
        &mut self,
        w: &mut ObjectStreamWriter,
        promise: PromisedRef,
        obj: &Primitive,
    ) -> (r: Result<PlainRef, PdfError>)
        requires
            old(w).wf(),
            old(w).size() + crate::objstream::encoded(obj@).len() <= u64::MAX,
            stream_consistent(old(self).table(), *old(w)),
            promise.spec_inner().id < old(self).table().len(),
            old(self).table()[promise.spec_inner().id as int] is Promised,
            promise.spec_inner().id != old(w).spec_id(),
        ensures
            final(w).wf(),
            stream_consistent(final(self).table(), *final(w)),
            final(self).pending() == old(self).pending(),
            final(self).records() == old(self).records(),
            final(self).pages() == old(self).pages(),
            final(self).wf() == old(self).wf(),
            final(self).spec_trailer() == old(self).spec_trailer(),
            crate::objstream::packable(obj@) ==> r == Ok::<PlainRef, PdfError>(promise.spec_inner())
                && final(w).packed() == old(w).packed().push(obj@) && final(self).table()
                == old(self).table().update(
                promise.spec_inner().id as int,
                XRef::Stream { stream_id: old(w).spec_id(), index: old(w).packed().len() as u64 },
            ),
            !crate::objstream::packable(obj@) ==> r == Err::<PlainRef, PdfError>(
                PdfError::UnexpectedPrimitive,
            ) && *final(w) == *old(w) && final(self).table() == old(self).table(),
    {
        let id = promise.inner.id;
        match w.add(id, obj) {
            Ok(index) => {
                self.refs.set(id, XRef::Stream { stream_id: w.id(), index });
                proof {
                    let t1 = self.refs@;
                    assert forall|i: int| 0 <= i < w.ids().len() implies {
                        &&& #[trigger] w.ids()[i] < t1.len()
                        &&& w.ids()[i] != w.spec_id()
                        &&& t1[w.ids()[i] as int] == XRef::Stream {
                            stream_id: w.spec_id(),
                            index: i as u64,
                        }
                    } by {
                        if i < old(w).ids().len() {
                            assert(w.ids()[i] == old(w).ids()[i]);
                        }
                    }
                }
                Ok(promise.inner)
            },
            Err(e) => Err(e),
        }
    }

    /// Writes the container `w` to storage and points its own entry at the written record.
    pub fn finish_stream(&mut self, w: ObjectStreamWriter) -> (r: u64)
        requires
            old(self).wf(),
            w.wf(),
            stream_consistent(old(self).table(), w),
            old(self).append_pos() < u64::MAX,
        ensures
            final(self).wf(),
            final(self).table() == old(self).table().update(w.spec_id() as int, XRef::Raw { pos: r }),
            final(self).pending() == old(self).pending(),
            final(self).pages() == old(self).pages(),
            final(self).spec_trailer() == old(self).spec_trailer(),
            forall|i: int|
                0 <= i < w.packed().len() ==> #[trigger] resolved(
                    final(self).records(),
                    final(self).table(),
                    w.ids()[i],
                ) == Ok::<PrimitiveV, PdfError>(w.packed()[i]),
    {
        let ghost ids = w.ids();
        let ghost packed = w.packed();
        let ghost t0 = self.refs@;
        let (id, os) = w.finish();
        let ghost first = os.first;
        let ghost pairs = os.pairs@;
        let ghost data = os.data@;
        let n = os.len();
        let pos = self.backend.append(Primitive::Stream(os));
        self.refs.set(id, XRef::Raw { pos });
        proof {
            assert(stored(self.records(), pos) == Ok::<PrimitiveV, PdfError>(
                PrimitiveV::Stream { first, pairs, data },
            ));
            assert(container(self.records(), self.table(), id) == Ok::<PrimitiveV, PdfError>(
                PrimitiveV::Stream { first, pairs, data },
            ));
            assert forall|i: int| 0 <= i < packed.len() implies #[trigger] resolved(
                self.records(),
                self.table(),
                ids[i],
            ) == Ok::<PrimitiveV, PdfError>(packed[i]) by {
                assert(i < n);
                assert(ids[i] != id);
                assert(self.table()[ids[i] as int] == t0[ids[i] as int]);
                assert(t0[ids[i] as int] == XRef::Stream { stream_id: id, index: i as u64 });
                assert(unpacked(first, pairs, data, i) == Ok::<PrimitiveV, PdfError>(packed[i]));
            }
        }
        pos
    }
}

/// Every object loaded from storage that is not itself a container re-encodes to bytes
/// that decode to an equal value.
pub proof fn lemma_loaded_object_round_trip(
    records: Seq<Record>,
    table: Seq<XRef>,
    id: ObjNr,
    v: PrimitiveV,
)
    requires
        resolved(records, table, id) == Ok::<PrimitiveV, PdfError>(v),
        !(v is Stream),
    ensures
        crate::objstream::decoded(crate::objstream::encoded(v)) == Ok::<PrimitiveV, PdfError>(v),
{
    crate::objstream::lemma_codec_round_trip(v);
}

/// A value bound in this session by `add`, `fulfill` or `update` is what resolving its
/// number gives afterwards, whatever storage and the table hold.
pub proof fn lemma_fulfilled_resolves(before: File, after: File, id: ObjNr, v: PrimitiveV)
    requires
        after.pending() == before.pending().insert(id, v),
    ensures
        looked_up(after.pending(), after.records(), after.table(), id) == Ok::<PrimitiveV, PdfError>(v),
{
}

/// A promised number written into another object before it is bound: once the holder is
/// added and the promise fulfilled, resolving each gives its own value, so the embedded
/// reference leads to the value it was promised for.
pub proof fn lemma_promise_embedded(
    before: File,
    after: File,
    promised: ObjNr,
    holder: ObjNr,
    holder_value: PrimitiveV,
    v: PrimitiveV,
)
    requires
        promised != holder,
        after.pending() == before.pending().insert(holder, holder_value).insert(promised, v),
    ensures
        looked_up(after.pending(), after.records(), after.table(), promised) == Ok::<
            PrimitiveV,
            PdfError,
        >(v),
        looked_up(after.pending(), after.records(), after.table(), holder) == Ok::<
            PrimitiveV,
            PdfError,
        >(holder_value),
{
}

} // verus!
