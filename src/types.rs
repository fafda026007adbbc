use vstd::prelude::*;

verus! {

/// Identity of an indirect object within a document session.
pub type ObjNr = u64;

/// An untyped reference to an indirect object.
#[derive(Clone, Copy, Debug, PartialEq, Eq, Structural)]
pub struct PlainRef {
    pub id: ObjNr,
    pub gen: u16,
}

/// Errors reported by the loader, the resolver and the page-tree navigator.
#[derive(Clone, Copy, Debug, PartialEq, Eq, Structural)]
pub enum PdfError {
    /// No page with this index was found below a tree whose counts disagree with its shape.
    PageNotFound { page_nr: u64 },
    /// The page index is not below the number of pages.
    PageOutOfBounds { page_nr: u64, max: u64 },
    /// A trailer dictionary lacks its `Size` entry.
    SizeNotFound,
    /// The object was deleted.
    FreeObject { obj_nr: ObjNr },
    /// The object number is not below the length of the cross-reference table.
    ObjectNumberOutOfRange { obj_nr: ObjNr },
    /// Storage holds no indirect-object record at this position.
    NoObjectAt { pos: u64 },
    /// Storage holds no update section at this position.
    NoSectionAt { pos: u64 },
    /// A value had another shape than the one asked for.
    UnexpectedPrimitive,
    /// A packed sub-object's bytes do not decode to a value.
    InvalidEncoding,
    /// The sub-object index is not below the number of objects in the container.
    ObjectIndexOutOfRange { index: u64 },
    /// A container object's directory points outside its payload.
    InvalidObjectStream,
    /// A container object's own entry is not a stored record.
    NestedObjectStream { obj_nr: ObjNr },
    /// The object number is reserved and not bound to any value.
    UnboundObject { obj_nr: ObjNr },
    /// A page-tree node's `count` disagrees with the pages below it.
    PageCountMismatch,
    /// The page tree nests deeper than the loader follows.
    PageTreeTooDeep,
    /// `Size` is larger than a table this machine can hold.
    SizeTooLarge { size: u64 },
    /// The chain of update sections does not end.
    CyclicUpdateChain,
    /// No `startxref` marker followed by a number was found.
    StartXRefNotFound,
}

} // verus!
