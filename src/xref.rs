use vstd::prelude::*;
use crate::types::{ObjNr, PdfError};

verus! {

/// Where the bytes of one object are found.
#[derive(Clone, Copy, Debug, PartialEq, Eq, Structural)]
pub enum XRef {
    /// The object's indirect-object record starts at `pos` in storage.
    Raw { pos: u64 },
    /// The object is the `index`-th sub-object packed in the container object `stream_id`.
    Stream { stream_id: ObjNr, index: u64 },
    /// The object number is deleted.
    Free { next_free: ObjNr },
    /// The number is reserved but not bound, or not yet given by any update section.
    Promised,
}

/// The entries of one update section: consecutive object numbers from `first_id` on.
#[derive(Debug, PartialEq)]
pub struct XRefSection {
    pub first_id: ObjNr,
    pub entries: Vec<XRef>,
}

/// The table after merging a section whose entries start at `first`: a slot is
/// written only while it is still `Promised`, and slots beyond the table are left out.
pub open spec fn merged(table: Seq<XRef>, first: int, entries: Seq<XRef>) -> Seq<XRef> {
    Seq::new(
        table.len(),
        |id: int|
            if first <= id < first + entries.len() && table[id] is Promised {
                entries[id - first]
            } else {
                table[id]
            },
    )
}

/// The table after merging each section in order.
pub open spec fn merged_all(table: Seq<XRef>, sections: Seq<XRefSection>) -> Seq<XRef>
    decreases sections.len(),
{
    if sections.len() == 0 {
        table
    } else {
        let last = sections.last();
        merged(merged_all(table, sections.drop_last()), last.first_id as int, last.entries@)
    }
}

/// The cross-reference table: object number to location; the index is the object number.
pub struct XRefTable {
    entries: Vec<XRef>,
}

impl View for XRefTable {
    type V = Seq<XRef>;

    closed spec fn view(&self) -> Seq<XRef> {
        self.entries@
    }
}

impl XRefTable {
    /// A table of `size` slots, each still `Promised`.
    pub fn new(size: u64) -> (r: XRefTable)
        requires
            size <= usize::MAX,
        ensures
            r@ == Seq::new(size as nat, |i: int| XRef::Promised),
    {
        let mut entries: Vec<XRef> = Vec::new();
        let mut i: u64 = 0;
        while i < size
            invariant
                i <= size,
                entries@ == Seq::new(i as nat, |j: int| XRef::Promised),
            decreases size - i,
        {
            entries.push(XRef::Promised);
            i = i + 1;
            assert(entries@ =~= Seq::new(i as nat, |j: int| XRef::Promised));
        }
        XRefTable { entries }
    }

    pub fn len(&self) -> (r: usize)
        ensures
            r == self@.len(),
    {
        self.entries.len()
    }

    /// The entry of `id`, or the out-of-range error when `id` is not below the length.
    pub fn get(&self, id: ObjNr) -> (r: Result<XRef, PdfError>)
        ensures
            id < self@.len() ==> r == Ok::<XRef, PdfError>(self@[id as int]),
            id >= self@.len() ==> r == Err::<XRef, PdfError>(PdfError::ObjectNumberOutOfRange { obj_nr: id }),
    {
        if id < self.entries.len() as u64 {
            Ok(self.entries[id as usize])
        } else {
            Err(PdfError::ObjectNumberOutOfRange { obj_nr: id })
        }
    }

    /// Appends a slot at the next unused object number and returns that number.
    pub fn push(&mut self, entry: XRef) -> (r: ObjNr)
        requires
            old(self)@.len() < u64::MAX,
        ensures
            r == old(self)@.len(),
            final(self)@ == old(self)@.push(entry),
    {
        let id = self.entries.len() as u64;
        self.entries.push(entry);
        id
    }

    /// Overwrites the entry of `id`.
    pub fn set(&mut self, id: ObjNr, entry: XRef)
        requires
            id < old(self)@.len(),
        ensures
            final(self)@ == old(self)@.update(id as int, entry),
    {
        if id < self.entries.len() as u64 {
            self.entries.set(id as usize, entry);
        }
    }

    /// Merges an older section: only slots that are still `Promised` are written.
    pub fn add_entries_from(&mut self, section: &XRefSection)
        ensures
            final(self)@ == merged(old(self)@, section.first_id as int, section.entries@),
    {
        let n = section.entries.len();
        let len = self.entries.len();
        let ghost before = self.entries@;
        let mut i: usize = 0;
        while i < n
            invariant
                n == section.entries@.len(),
                len == before.len(),
                i <= n,
                self.entries@.len() == len,
                forall|id: int|
                    0 <= id < len ==> #[trigger] self.entries@[id] == (if section.first_id
                        <= id < section.first_id + i && before[id] is Promised {
                        section.entries@[id - section.first_id]
                    } else {
                        before[id]
                    }),
            decreases n - i,
        {
            if section.first_id as u128 + (i as u128) < len as u128 {
                let id = (section.first_id + i as u64) as usize;
                if matches!(self.entries[id], XRef::Promised) {
                    self.entries.set(id, section.entries[i]);
                }
            }
            i = i + 1;
        }
        assert(self.entries@ =~= merged(before, section.first_id as int, section.entries@));
    }
}

impl XRefTable {
    /// Merges each section in order.
    pub fn add_sections_from(&mut self, sections: &Vec<XRefSection>)
        ensures
            final(self)@ == merged_all(old(self)@, sections@),
    {
        let ghost start = self@;
        let mut j: usize = 0;
        assert(sections@.take(0) =~= Seq::<XRefSection>::empty());
        while j < sections.len()
            invariant
                j <= sections@.len(),
                self@ == merged_all(start, sections@.take(j as int)),
            decreases sections@.len() - j,
        {
            self.add_entries_from(&sections[j]);
            assert(sections@.take(j as int + 1).drop_last() =~= sections@.take(j as int));
            j = j + 1;
        }
        assert(sections@.take(j as int) =~= sections@);
    }
}

/// The dictionary of a cross-reference stream.
#[derive(Debug, PartialEq)]
pub struct XRefInfo {
    /// `Size`: one past the highest object number.
    pub size: u64,
    /// `Index`: pairs of (first object number, number of entries), one per subsection.
    pub index: Option<Vec<u64>>,
    /// `Prev`: the position of the next older section.
    pub prev: Option<u64>,
    /// `W`: the byte widths of the fields of one entry.
    pub w: Vec<u64>,
}

/// The subsections that `Index` lists; without `Index`, the one subsection `(0, size)`.
/// A trailing unpaired number is left out.
pub open spec fn index_pairs(size: u64, index: Option<Seq<u64>>) -> Seq<(u64, u64)> {
    match index {
        None => seq![(0u64, size)],
        Some(v) => Seq::new((v.len() / 2) as nat, |i: int| (v[2 * i], v[2 * i + 1])),
    }
}

impl XRefInfo {
    pub open spec fn spec_index(&self) -> Option<Seq<u64>> {
        match self.index {
            None => None,
            Some(v) => Some(v@),
        }
    }

    /// The subsections as (first object number, number of entries).
    pub fn subsections(&self) -> (r: Vec<(u64, u64)>)
        ensures
            r@ == index_pairs(self.size, self.spec_index()),
    {
        match &self.index {
            None => {
                let r = vec![(0u64, self.size)];
                assert(r@ =~= index_pairs(self.size, self.spec_index()));
                r
            },
            Some(v) => {
                let ghost want = index_pairs(self.size, self.spec_index());
                let mut r: Vec<(u64, u64)> = Vec::new();
                let mut i: usize = 0;
                while i + 1 < v.len()
                    invariant
                        i % 2 == 0,
                        i <= v@.len(),
                        want == Seq::new((v@.len() / 2) as nat, |k: int| (v@[2 * k], v@[2 * k + 1])),
                        r@ == want.take(i as int / 2),
                    decreases v@.len() - i,
                {
                    r.push((v[i], v[i + 1]));
                    assert(r@ =~= want.take(i as int / 2 + 1));
                    i = i + 2;
                }
                assert(i as int / 2 == v@.len() / 2);
                assert(r@ =~= want);
                r
            },
        }
    }
}

/// A cross-reference stream: its decoded payload and its dictionary.
#[derive(Debug, PartialEq)]
pub struct XRefStream {
    pub data: Vec<u8>,
    pub info: XRefInfo,
}

/// Merging a newer section and then an older one keeps the newer section's
/// concrete entry for every object number both of them define, provided the slot
/// was unset before.
pub proof fn lemma_newer_section_wins(
    table: Seq<XRef>,
    newer_first: int,
    newer: Seq<XRef>,
    older_first: int,
    older: Seq<XRef>,
    id: int,
)
    requires
        0 <= id < table.len(),
        table[id] is Promised,
        newer_first <= id < newer_first + newer.len(),
        !(newer[id - newer_first] is Promised),
    ensures
        merged(merged(table, newer_first, newer), older_first, older)[id] == newer[id - newer_first],
{
}

/// A slot that already holds a concrete entry is never changed by a merge.
pub proof fn lemma_merge_keeps_concrete(table: Seq<XRef>, first: int, entries: Seq<XRef>, id: int)
    requires
        0 <= id < table.len(),
        !(table[id] is Promised),
    ensures
        merged(table, first, entries)[id] == table[id],
{
}

} // verus!
