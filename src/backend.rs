use vstd::prelude::*;
use crate::object::{Primitive, PrimitiveV};
use crate::types::{PdfError, PlainRef};
use crate::xref::XRefSection;

verus! {

/// An indirect-object record in storage: the value found at byte position `pos`.
pub struct Record {
    pub pos: u64,
    pub value: Primitive,
}

/// One update section: its directory entries and its trailer dictionary.
pub struct UpdateSection {
    pub xref: Vec<XRefSection>,
    /// `Size`: one past the highest object number.
    pub size: Option<u64>,
    /// `Prev`: the position of the next older section.
    pub prev: Option<u64>,
    /// `Root`: the document catalog.
    pub root: PlainRef,
    /// `Info`
    pub info: Option<PlainRef>,
    /// `Encrypt`
    pub encrypt: Option<PlainRef>,
    /// `ID`: the two byte strings that identify the document.
    pub id: Option<(Vec<u8>, Vec<u8>)>,
}

/// An update section found at byte position `pos`.
pub struct SectionRecord {
    pub pos: u64,
    pub section: UpdateSection,
}

/// The storage of a document as its records are read from it: indirect-object records
/// and update sections by position, the trailing bytes where `startxref` stands, and the
/// position at which appended records go.
pub struct Backend {
    pub records: Vec<Record>,
    pub sections: Vec<SectionRecord>,
    pub tail: Vec<u8>,
    pub end: u64,
}

/// The value of the first record at `pos`.
pub open spec fn record_at(records: Seq<Record>, pos: u64) -> Option<PrimitiveV>
    decreases records.len(),
{
    if records.len() == 0 {
        None
    } else if records[0].pos == pos {
        Some(records[0].value@)
    } else {
        record_at(records.drop_first(), pos)
    }
}

/// What reading the record at `pos` gives.
pub open spec fn stored(records: Seq<Record>, pos: u64) -> Result<PrimitiveV, PdfError> {
    match record_at(records, pos) {
        Some(v) => Ok(v),
        None => Err(PdfError::NoObjectAt { pos }),
    }
}

/// The index of the first section at `pos`.
pub open spec fn section_index(sections: Seq<SectionRecord>, pos: u64) -> Option<int>
    decreases sections.len(),
{
    if sections.len() == 0 {
        None
    } else if sections[0].pos == pos {
        Some(0)
    } else {
        match section_index(sections.drop_first(), pos) {
            Some(i) => Some(i + 1),
            None => None,
        }
    }
}

pub proof fn lemma_section_index_range(sections: Seq<SectionRecord>, pos: u64)
    ensures
        section_index(sections, pos) matches Some(i) ==> 0 <= i < sections.len() && sections[i].pos
            == pos,
    decreases sections.len(),
{
    if sections.len() > 0 {
        lemma_section_index_range(sections.drop_first(), pos);
    }
}

proof fn lemma_record_at_skip(records: Seq<Record>, pos: u64, i: int)
    requires
        0 <= i < records.len(),
        records[i].pos != pos,
    ensures
        record_at(records.skip(i), pos) == record_at(records.skip(i + 1), pos),
{
    assert(records.skip(i).drop_first() =~= records.skip(i + 1));
}

proof fn lemma_record_at_push(records: Seq<Record>, r: Record, pos: u64)
    ensures
        record_at(records.push(r), pos) == (if record_at(records, pos) is Some {
            record_at(records, pos)
        } else if r.pos == pos {
            Some(r.value@)
        } else {
            None
        }),
    decreases records.len(),
{
    if records.len() > 0 {
        assert(records.push(r).drop_first() =~= records.drop_first().push(r));
        assert(records.push(r)[0] == records[0]);
        lemma_record_at_push(records.drop_first(), r, pos);
    } else {
        assert(records.push(r).drop_first() =~= Seq::<Record>::empty());
        assert(records.push(r)[0] == r);
        assert(record_at(Seq::<Record>::empty(), pos) is None);
    }
}

proof fn lemma_record_at_below(records: Seq<Record>, pos: u64)
    requires
        forall|i: int| 0 <= i < records.len() ==> #[trigger] records[i].pos < pos,
    ensures
        record_at(records, pos) is None,
    decreases records.len(),
{
    if records.len() > 0 {
        assert(records[0].pos < pos);
        lemma_record_at_below(records.drop_first(), pos);
    }
}

impl Backend {
    /// Every record lies before the append position.
    pub open spec fn wf(&self) -> bool {
        forall|i: int| 0 <= i < self.records@.len() ==> #[trigger] self.records@[i].pos < self.end
    }

    /// Reads the indirect-object record at `pos`.
    pub fn read_object(&self, pos: u64) -> (r: Result<Primitive, PdfError>)
        ensures
            crate::object::result_view(r) == stored(self.records@, pos),
    {
        let ghost s = self.records@;
        let mut i: usize = 0;
        assert(s.skip(0) =~= s);
        while i < self.records.len()
            invariant
                s == self.records@,
                i <= s.len(),
                record_at(s, pos) == record_at(s.skip(i as int), pos),
            decreases s.len() - i,
        {
            if self.records[i].pos == pos {
                assert(s.skip(i as int)[0] == s[i as int]);
                return Ok(self.records[i].value.duplicate());
            }
            proof {
                lemma_record_at_skip(s, pos, i as int);
            }
            i = i + 1;
        }
        assert(s.skip(i as int) =~= Seq::<Record>::empty());
        Err(PdfError::NoObjectAt { pos })
    }

    /// Finds the update section at `pos`.
    pub fn find_section(&self, pos: u64) -> (r: Option<usize>)
        ensures
            section_index(self.sections@, pos) == match r {
                Some(i) => Some(i as int),
                None => None::<int>,
            },
            r matches Some(i) ==> i < self.sections@.len() && self.sections@[i as int].pos == pos,
    {
        proof {
            lemma_section_index_range(self.sections@, pos);
        }
        let ghost s = self.sections@;
        let mut i: usize = 0;
        assert(s.skip(0) =~= s);
        while i < self.sections.len()
            invariant
                s == self.sections@,
                i <= s.len(),
                section_index(s, pos) == match section_index(s.skip(i as int), pos) {
                    Some(j) => Some(j + i),
                    None => None::<int>,
                },
            decreases s.len() - i,
        {
            if self.sections[i].pos == pos {
                return Some(i);
            }
            assert(s.skip(i as int).drop_first() =~= s.skip(i as int + 1));
            i = i + 1;
        }
        assert(s.skip(i as int) =~= Seq::<SectionRecord>::empty());
        None
    }

    /// Appends a record holding `value` and returns its position.
    pub fn append(&mut self, value: Primitive) -> (r: u64)
        requires
            old(self).wf(),
            old(self).end < u64::MAX,
        ensures
            final(self).wf(),
            r == old(self).end,
            final(self).end == old(self).end + 1,
            final(self).sections@ == old(self).sections@,
            stored(final(self).records@, r) == Ok::<PrimitiveV, PdfError>(value@),
            forall|p: u64|
                p != r ==> #[trigger] stored(final(self).records@, p) == stored(
                    old(self).records@,
                    p,
                ),
    {
        let pos = self.end;
        let ghost old_records = self.records@;
        let ghost v = value@;
        self.records.push(Record { pos, value });
        self.end = pos + 1;
        proof {
            lemma_record_at_below(old_records, pos);
            assert forall|p: u64| true implies #[trigger] stored(self.records@, p) == (if p == pos {
                Ok::<PrimitiveV, PdfError>(v)
            } else {
                stored(old_records, p)
            }) by {
                lemma_record_at_push(old_records, self.records@.last(), p);
            }
        }
        pos
    }
}

} // verus!
