use vstd::prelude::*;
use crate::pages::Page;
use crate::types::{PdfError, PlainRef};

verus! {

/// A page-tree node dictionary as stored: its children by reference and its page count.
#[derive(Debug, PartialEq)]
pub struct PagesDict {
    pub kids: Vec<PlainRef>,
    pub count: u64,
}

/// A container object: `pairs` is its directory of (object number, offset relative to
/// `first`), one per packed sub-object in index order; `data` is the whole payload.
#[derive(Debug, PartialEq)]
pub struct ObjectStream {
    pub first: u64,
    pub pairs: Vec<(u64, u64)>,
    pub data: Vec<u8>,
}

/// A decoded value. Dictionaries appear in the shapes the loader reads: a catalog
/// (its page-tree reference), a page-tree node, a page, a container object.
#[derive(Debug, PartialEq)]
pub enum Primitive {
    Null,
    Boolean(bool),
    Integer(i64),
    Reference(PlainRef),
    Catalog(PlainRef),
    Pages(PagesDict),
    Page(Page),
    Stream(ObjectStream),
}

/// The mathematical value of a `Primitive`.
pub enum PrimitiveV {
    Null,
    Boolean(bool),
    Integer(i64),
    Reference(PlainRef),
    Catalog(PlainRef),
    Pages { kids: Seq<PlainRef>, count: u64 },
    Page(Page),
    Stream { first: u64, pairs: Seq<(u64, u64)>, data: Seq<u8> },
}

impl View for Primitive {
    type V = PrimitiveV;

    open spec fn view(&self) -> PrimitiveV {
        match self {
            Primitive::Null => PrimitiveV::Null,
            Primitive::Boolean(b) => PrimitiveV::Boolean(*b),
            Primitive::Integer(i) => PrimitiveV::Integer(*i),
            Primitive::Reference(r) => PrimitiveV::Reference(*r),
            Primitive::Catalog(r) => PrimitiveV::Catalog(*r),
            Primitive::Pages(d) => PrimitiveV::Pages { kids: d.kids@, count: d.count },
            Primitive::Page(p) => PrimitiveV::Page(*p),
            Primitive::Stream(s) => PrimitiveV::Stream {
                first: s.first,
                pairs: s.pairs@,
                data: s.data@,
            },
        }
    }
}

/// The value of a result, seen through the view of its `Ok` value.
pub open spec fn result_view(r: Result<Primitive, PdfError>) -> Result<PrimitiveV, PdfError> {
    match r {
        Ok(p) => Ok(p@),
        Err(e) => Err(e),
    }
}

impl Primitive {
    /// A value equal to this one.
    pub fn duplicate(&self) -> (r: Primitive)
        ensures
            r@ == self@,
    {
        match self {
            Primitive::Null => Primitive::Null,
            Primitive::Boolean(b) => Primitive::Boolean(*b),
            Primitive::Integer(i) => Primitive::Integer(*i),
            Primitive::Reference(r) => Primitive::Reference(*r),
            Primitive::Catalog(r) => Primitive::Catalog(*r),
            Primitive::Pages(d) => {
                let kids = copy_refs(&d.kids);
                Primitive::Pages(PagesDict { kids, count: d.count })
            },
            Primitive::Page(p) => Primitive::Page(*p),
            Primitive::Stream(s) => {
                let pairs = copy_pairs(&s.pairs);
                let data = copy_bytes(&s.data);
                Primitive::Stream(ObjectStream { first: s.first, pairs, data })
            },
        }
    }
}

fn copy_refs(v: &Vec<PlainRef>) -> (r: Vec<PlainRef>)
    ensures
        r@ == v@,
{
    let mut r: Vec<PlainRef> = Vec::new();
    let mut i: usize = 0;
    while i < v.len()
        invariant
            i <= v@.len(),
            r@ == v@.take(i as int),
        decreases v@.len() - i,
    {
        r.push(v[i]);
        i = i + 1;
        assert(r@ =~= v@.take(i as int));
    }
    assert(v@.take(i as int) =~= v@);
    r
}

fn copy_pairs(v: &Vec<(u64, u64)>) -> (r: Vec<(u64, u64)>)
    ensures
        r@ == v@,
{
    let mut r: Vec<(u64, u64)> = Vec::new();
    let mut i: usize = 0;
    while i < v.len()
        invariant
            i <= v@.len(),
            r@ == v@.take(i as int),
        decreases v@.len() - i,
    {
        r.push(v[i]);
        i = i + 1;
        assert(r@ =~= v@.take(i as int));
    }
    assert(v@.take(i as int) =~= v@);
    r
}

pub fn copy_bytes(v: &[u8]) -> (r: Vec<u8>)
    ensures
        r@ == v@,
{
    let mut r: Vec<u8> = Vec::new();
    let mut i: usize = 0;
    while i < v.len()
        invariant
            i <= v@.len(),
            r@ == v@.take(i as int),
        decreases v@.len() - i,
    {
        r.push(v[i]);
        i = i + 1;
        assert(r@ =~= v@.take(i as int));
    }
    assert(v@.take(i as int) =~= v@);
    r
}

/// The two byte strings of a document's `ID`, seen as sequences.
pub open spec fn file_id_view(id: Option<(Vec<u8>, Vec<u8>)>) -> Option<(Seq<u8>, Seq<u8>)> {
    match id {
        None => None,
        Some((a, b)) => Some((a@, b@)),
    }
}

/// A copy of a document's `ID`.
pub fn copy_file_id(id: &Option<(Vec<u8>, Vec<u8>)>) -> (r: Option<(Vec<u8>, Vec<u8>)>)
    ensures
        file_id_view(r) == file_id_view(*id),
{
    match id {
        None => None,
        Some((a, b)) => Some((copy_bytes(a.as_slice()), copy_bytes(b.as_slice()))),
    }
}

} // verus!
