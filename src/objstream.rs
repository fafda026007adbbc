use vstd::prelude::*;
use crate::object::{ObjectStream, PagesDict, Primitive, PrimitiveV};
use crate::pages::Page;
use crate::types::{ObjNr, PdfError, PlainRef};

verus! {

/// The value of eight bytes in little-endian order, from `at` on.
pub open spec fn le64(b: Seq<u8>, at: int) -> u64 {
    (b[at] as u64) | ((b[at + 1] as u64) << 8u64) | ((b[at + 2] as u64) << 16u64) | ((b[at
        + 3] as u64) << 24u64) | ((b[at + 4] as u64) << 32u64) | ((b[at + 5] as u64) << 40u64)
        | ((b[at + 6] as u64) << 48u64) | ((b[at + 7] as u64) << 56u64)
}

/// The value of two bytes in little-endian order, from `at` on.
pub open spec fn le16(b: Seq<u8>, at: int) -> u16 {
    (b[at] as u16) | ((b[at + 1] as u16) << 8u16)
}

/// The eight little-endian bytes of `x`.
pub open spec fn le64_bytes(x: u64) -> Seq<u8> {
    seq![
        (x & 0xff) as u8,
        ((x >> 8u64) & 0xff) as u8,
        ((x >> 16u64) & 0xff) as u8,
        ((x >> 24u64) & 0xff) as u8,
        ((x >> 32u64) & 0xff) as u8,
        ((x >> 40u64) & 0xff) as u8,
        ((x >> 48u64) & 0xff) as u8,
        ((x >> 56u64) & 0xff) as u8,
    ]
}

/// The two little-endian bytes of `x`.
pub open spec fn le16_bytes(x: u16) -> Seq<u8> {
    seq![(x & 0xff) as u8, ((x >> 8u16) & 0xff) as u8]
}

/// Values that can be packed into a container object: all but a container itself.
pub open spec fn packable(v: PrimitiveV) -> bool {
    !(v is Stream)
}

/// The ten bytes of a reference: its number, then its generation.
pub open spec fn ref_bytes(r: PlainRef) -> Seq<u8> {
    le64_bytes(r.id) + le16_bytes(r.gen)
}

/// The reference whose ten bytes start at `at`.
pub open spec fn ref_at(b: Seq<u8>, at: int) -> PlainRef {
    PlainRef { id: le64(b, at), gen: le16(b, at + 8) }
}

/// Eleven bytes for an optional reference: a flag, then the reference or zeros.
pub open spec fn opt_ref_bytes(o: Option<PlainRef>) -> Seq<u8> {
    match o {
        None => seq![0u8] + le64_bytes(0) + le16_bytes(0),
        Some(r) => seq![1u8] + ref_bytes(r),
    }
}

/// The optional reference whose eleven bytes start at `at`; its flag must be 0 or 1.
pub open spec fn opt_ref_at(b: Seq<u8>, at: int) -> Option<PlainRef> {
    if b[at] == 0 {
        None
    } else {
        Some(ref_at(b, at + 1))
    }
}

/// The references one after the other, ten bytes each.
pub open spec fn refs_bytes(s: Seq<PlainRef>) -> Seq<u8>
    decreases s.len(),
{
    if s.len() == 0 {
        Seq::empty()
    } else {
        refs_bytes(s.drop_last()) + ref_bytes(s.last())
    }
}

/// The bytes of a packed sub-object: a tag byte, then the payload in little-endian order.
pub open spec fn encoded(v: PrimitiveV) -> Seq<u8> {
    match v {
        PrimitiveV::Boolean(b) => seq![1u8, if b { 1u8 } else { 0u8 }],
        PrimitiveV::Integer(i) => seq![2u8] + le64_bytes(i as u64),
        PrimitiveV::Reference(r) => seq![3u8] + ref_bytes(r),
        PrimitiveV::Catalog(r) => seq![4u8] + ref_bytes(r),
        PrimitiveV::Pages { kids, count } => seq![5u8] + le64_bytes(count) + refs_bytes(kids),
        PrimitiveV::Page(p) => seq![6u8] + opt_ref_bytes(p.parent) + opt_ref_bytes(p.contents),
        _ => seq![0u8],
    }
}

/// What a packed sub-object's bytes decode to.
pub open spec fn decoded(b: Seq<u8>) -> Result<PrimitiveV, PdfError> {
    if b.len() == 1 && b[0] == 0 {
        Ok(PrimitiveV::Null)
    } else if b.len() == 2 && b[0] == 1 && b[1] <= 1 {
        Ok(PrimitiveV::Boolean(b[1] == 1))
    } else if b.len() == 9 && b[0] == 2 {
        Ok(PrimitiveV::Integer(le64(b, 1) as i64))
    } else if b.len() == 11 && b[0] == 3 {
        Ok(PrimitiveV::Reference(ref_at(b, 1)))
    } else if b.len() == 11 && b[0] == 4 {
        Ok(PrimitiveV::Catalog(ref_at(b, 1)))
    } else if b.len() >= 9 && b[0] == 5 && (b.len() - 9) % 10 == 0 {
        Ok(
            PrimitiveV::Pages {
                kids: Seq::new(((b.len() - 9) / 10) as nat, |i: int| ref_at(b, 9 + 10 * i)),
                count: le64(b, 1),
            },
        )
    } else if b.len() == 23 && b[0] == 6 && b[1] <= 1 && b[12] <= 1 {
        Ok(PrimitiveV::Page(Page { parent: opt_ref_at(b, 1), contents: opt_ref_at(b, 12) }))
    } else {
        Err(PdfError::InvalidEncoding)
    }
}

proof fn lemma_le64_round_trip(x: u64)
    ensures
        le64(le64_bytes(x), 0) == x,
{
    let b = le64_bytes(x);
    let b0 = (x & 0xff) as u8;
    let b1 = ((x >> 8u64) & 0xff) as u8;
    let b2 = ((x >> 16u64) & 0xff) as u8;
    let b3 = ((x >> 24u64) & 0xff) as u8;
    let b4 = ((x >> 32u64) & 0xff) as u8;
    let b5 = ((x >> 40u64) & 0xff) as u8;
    let b6 = ((x >> 48u64) & 0xff) as u8;
    let b7 = ((x >> 56u64) & 0xff) as u8;
    assert(b[0] == b0 && b[1] == b1 && b[2] == b2 && b[3] == b3);
    assert(b[4] == b4 && b[5] == b5 && b[6] == b6 && b[7] == b7);
    assert((b0 as u64) | ((b1 as u64) << 8u64) | ((b2 as u64) << 16u64) | ((b3 as u64) << 24u64)
        | ((b4 as u64) << 32u64) | ((b5 as u64) << 40u64) | ((b6 as u64) << 48u64) | ((b7 as u64)
        << 56u64) == x) by (bit_vector)
        requires
            b0 == (x & 0xff) as u8,
            b1 == ((x >> 8u64) & 0xff) as u8,
            b2 == ((x >> 16u64) & 0xff) as u8,
            b3 == ((x >> 24u64) & 0xff) as u8,
            b4 == ((x >> 32u64) & 0xff) as u8,
            b5 == ((x >> 40u64) & 0xff) as u8,
            b6 == ((x >> 48u64) & 0xff) as u8,
            b7 == ((x >> 56u64) & 0xff) as u8,
    ;
}

proof fn lemma_le16_round_trip(x: u16)
    ensures
        le16(le16_bytes(x), 0) == x,
{
    let b = le16_bytes(x);
    let b0 = (x & 0xff) as u8;
    let b1 = ((x >> 8u16) & 0xff) as u8;
    assert(b[0] == b0 && b[1] == b1);
    assert((b0 as u16) | ((b1 as u16) << 8u16) == x) by (bit_vector)
        requires
            b0 == (x & 0xff) as u8,
            b1 == ((x >> 8u16) & 0xff) as u8,
    ;
}

/// A reference reads back from any place where its ten bytes stand.
proof fn lemma_ref_at(b: Seq<u8>, at: int, r: PlainRef)
    requires
        0 <= at,
        at + 10 <= b.len(),
        b.subrange(at, at + 10) == ref_bytes(r),
    ensures
        ref_at(b, at) == r,
{
    let c = ref_bytes(r);
    lemma_le64_round_trip(r.id);
    lemma_le16_round_trip(r.gen);
    assert forall|k: int| 0 <= k < 10 implies b[at + k] == c[k] by {
        assert(b.subrange(at, at + 10)[k] == b[at + k]);
    }
    assert(le64(b, at) == le64(c, 0));
    assert(le16(b, at + 8) == le16(c, 8));
    assert(c.subrange(8, 10) =~= le16_bytes(r.gen));
    assert(le16(c, 8) == le16(le16_bytes(r.gen), 0));
}

proof fn lemma_refs_bytes(s: Seq<PlainRef>, i: int)
    requires
        0 <= i < s.len(),
    ensures
        refs_bytes(s).len() == 10 * s.len(),
        refs_bytes(s).subrange(10 * i, 10 * i + 10) == ref_bytes(s[i]),
    decreases s.len(),
{
    lemma_refs_bytes_len(s);
    let init = s.drop_last();
    lemma_refs_bytes_len(init);
    if i < s.len() - 1 {
        lemma_refs_bytes(init, i);
        assert(refs_bytes(s).subrange(10 * i, 10 * i + 10) =~= refs_bytes(init).subrange(
            10 * i,
            10 * i + 10,
        ));
    } else {
        assert(refs_bytes(s).subrange(10 * i, 10 * i + 10) =~= ref_bytes(s.last()));
    }
}

proof fn lemma_refs_bytes_len(s: Seq<PlainRef>)
    ensures
        refs_bytes(s).len() == 10 * s.len(),
    decreases s.len(),
{
    if s.len() > 0 {
        lemma_refs_bytes_len(s.drop_last());
    }
}

proof fn lemma_opt_ref(b: Seq<u8>, at: int, o: Option<PlainRef>)
    requires
        0 <= at,
        at + 11 <= b.len(),
        b.subrange(at, at + 11) == opt_ref_bytes(o),
    ensures
        b[at] <= 1,
        opt_ref_at(b, at) == o,
{
    assert(b[at] == b.subrange(at, at + 11)[0]);
    if let Some(r) = o {
        assert(b.subrange(at + 1, at + 11) =~= b.subrange(at, at + 11).subrange(1, 11));
        assert(opt_ref_bytes(o).subrange(1, 11) =~= ref_bytes(r));
        lemma_ref_at(b, at + 1, r);
    }
}

/// Packing a value and decoding its bytes gives the value back.
pub proof fn lemma_codec_round_trip(v: PrimitiveV)
    requires
        packable(v),
    ensures
        decoded(encoded(v)) == Ok::<PrimitiveV, PdfError>(v),
{
    let b = encoded(v);
    match v {
        PrimitiveV::Integer(i) => {
            lemma_le64_round_trip(i as u64);
            assert(le64(b, 1) == le64(le64_bytes(i as u64), 0));
            assert(((i as u64) as i64) == i) by (bit_vector);
        },
        PrimitiveV::Reference(r) => {
            assert(b.subrange(1, 11) =~= ref_bytes(r));
            lemma_ref_at(b, 1, r);
        },
        PrimitiveV::Catalog(r) => {
            assert(b.subrange(1, 11) =~= ref_bytes(r));
            lemma_ref_at(b, 1, r);
        },
        PrimitiveV::Pages { kids, count } => {
            lemma_refs_bytes_len(kids);
            lemma_le64_round_trip(count);
            assert(le64(b, 1) == le64(le64_bytes(count), 0));
            let n = kids.len();
            assert((b.len() - 9) / 10 == n);
            assert forall|i: int| 0 <= i < n implies ref_at(b, 9 + 10 * i) == kids[i] by {
                lemma_refs_bytes(kids, i);
                assert(b.subrange(9 + 10 * i, 9 + 10 * i + 10) =~= refs_bytes(kids).subrange(
                    10 * i,
                    10 * i + 10,
                ));
                lemma_ref_at(b, 9 + 10 * i, kids[i]);
            }
            assert(Seq::new(n, |i: int| ref_at(b, 9 + 10 * i)) =~= kids);
        },
        PrimitiveV::Page(p) => {
            assert(b.subrange(1, 12) =~= opt_ref_bytes(p.parent));
            assert(b.subrange(12, 23) =~= opt_ref_bytes(p.contents));
            lemma_opt_ref(b, 1, p.parent);
            lemma_opt_ref(b, 12, p.contents);
        },
        _ => {},
    }
}

fn push_le64(out: &mut Vec<u8>, x: u64)
    ensures
        final(out)@ == old(out)@ + le64_bytes(x),
{
    out.push((x & 0xff) as u8);
    out.push(((x >> 8u64) & 0xff) as u8);
    out.push(((x >> 16u64) & 0xff) as u8);
    out.push(((x >> 24u64) & 0xff) as u8);
    out.push(((x >> 32u64) & 0xff) as u8);
    out.push(((x >> 40u64) & 0xff) as u8);
    out.push(((x >> 48u64) & 0xff) as u8);
    out.push(((x >> 56u64) & 0xff) as u8);
    assert(final(out)@ =~= old(out)@ + le64_bytes(x));
}

fn push_ref(out: &mut Vec<u8>, r: PlainRef)
    ensures
        final(out)@ == old(out)@ + ref_bytes(r),
{
    push_le64(out, r.id);
    out.push((r.gen & 0xff) as u8);
    out.push(((r.gen >> 8u16) & 0xff) as u8);
    assert(final(out)@ =~= old(out)@ + ref_bytes(r));
}

fn push_opt_ref(out: &mut Vec<u8>, o: Option<PlainRef>)
    ensures
        final(out)@ == old(out)@ + opt_ref_bytes(o),
{
    match o {
        None => {
            out.push(0u8);
            push_le64(out, 0);
            out.push(0u8);
            out.push(0u8);
            assert(le16_bytes(0) =~= seq![0u8, 0u8]) by {
                assert((0u16 & 0xff) as u8 == 0u8 && ((0u16 >> 8u16) & 0xff) as u8 == 0u8)
                    by (bit_vector);
            }
        },
        Some(r) => {
            out.push(1u8);
            push_ref(out, r);
        },
    }
    assert(final(out)@ =~= old(out)@ + opt_ref_bytes(o));
}

/// Appends the packed bytes of `v`, or fails on a container, which cannot be packed.
pub fn encode_value(out: &mut Vec<u8>, v: &Primitive) -> (r: Result<(), PdfError>)
    ensures
        packable(v@) ==> r is Ok && final(out)@ == old(out)@ + encoded(v@),
        !packable(v@) ==> r == Err::<(), PdfError>(PdfError::UnexpectedPrimitive) && final(out)@
            == old(out)@,
{
    match v {
        Primitive::Null => {
            out.push(0u8);
        },
        Primitive::Boolean(b) => {
            out.push(1u8);
            out.push(if *b { 1u8 } else { 0u8 });
        },
        Primitive::Integer(i) => {
            out.push(2u8);
            push_le64(out, *i as u64);
        },
        Primitive::Reference(r) => {
            out.push(3u8);
            push_ref(out, *r);
        },
        Primitive::Catalog(r) => {
            out.push(4u8);
            push_ref(out, *r);
        },
        Primitive::Pages(d) => {
            out.push(5u8);
            push_le64(out, d.count);
            let ghost head = out@;
            let mut i: usize = 0;
            assert(d.kids@.take(0) =~= Seq::<PlainRef>::empty());
            assert(head + refs_bytes(Seq::<PlainRef>::empty()) =~= head);
            while i < d.kids.len()
                invariant
                    i <= d.kids@.len(),
                    out@ == head + refs_bytes(d.kids@.take(i as int)),
                decreases d.kids@.len() - i,
            {
                push_ref(out, d.kids[i]);
                assert(d.kids@.take(i as int + 1).drop_last() =~= d.kids@.take(i as int));
                i = i + 1;
            }
            assert(d.kids@.take(i as int) =~= d.kids@);
        },
        Primitive::Page(p) => {
            out.push(6u8);
            push_opt_ref(out, p.parent);
            push_opt_ref(out, p.contents);
        },
        Primitive::Stream(_) => {
            return Err(PdfError::UnexpectedPrimitive);
        },
    }
    assert(final(out)@ =~= old(out)@ + encoded(v@));
    Ok(())
}

fn read_le64(b: &[u8], at: usize) -> (r: u64)
    requires
        at + 8 <= b@.len(),
    ensures
        r == le64(b@, at as int),
{
    (b[at] as u64) | ((b[at + 1] as u64) << 8u64) | ((b[at + 2] as u64) << 16u64) | ((b[at
        + 3] as u64) << 24u64) | ((b[at + 4] as u64) << 32u64) | ((b[at + 5] as u64) << 40u64)
        | ((b[at + 6] as u64) << 48u64) | ((b[at + 7] as u64) << 56u64)
}

fn read_ref(b: &[u8], at: usize) -> (r: PlainRef)
    requires
        at + 10 <= b@.len(),
    ensures
        r == ref_at(b@, at as int),
{
    let _len = b.len();  // brings the bound on the slice length into the index arithmetic
    let id = read_le64(b, at);
    let gen = (b[at + 8] as u16) | ((b[at + 9] as u16) << 8u16);
    PlainRef { id, gen }
}

fn read_opt_ref(b: &[u8], at: usize) -> (r: Option<PlainRef>)
    requires
        at + 11 <= b@.len(),
    ensures
        r == opt_ref_at(b@, at as int),
{
    if b[at] == 0 {
        None
    } else {
        Some(read_ref(b, at + 1))
    }
}

/// Decodes the bytes of one packed sub-object.
pub fn decode_value(b: &[u8]) -> (r: Result<Primitive, PdfError>)
    ensures
        crate::object::result_view(r) == decoded(b@),
{
    let n = b.len();
    if n == 1 && b[0] == 0 {
        Ok(Primitive::Null)
    } else if n == 2 && b[0] == 1 && b[1] <= 1 {
        Ok(Primitive::Boolean(b[1] == 1))
    } else if n == 9 && b[0] == 2 {
        Ok(Primitive::Integer(read_le64(b, 1) as i64))
    } else if n == 11 && b[0] == 3 {
        Ok(Primitive::Reference(read_ref(b, 1)))
    } else if n == 11 && b[0] == 4 {
        Ok(Primitive::Catalog(read_ref(b, 1)))
    } else if n >= 9 && b[0] == 5 && (n - 9) % 10 == 0 {
        let count = read_le64(b, 1);
        let m = (n - 9) / 10;
        let ghost want = Seq::new(m as nat, |i: int| ref_at(b@, 9 + 10 * i));
        let mut kids: Vec<PlainRef> = Vec::new();
        let mut i: usize = 0;
        while i < m
            invariant
                m == (n - 9) / 10,
                n == b@.len(),
                n >= 9,
                (n - 9) % 10 == 0,
                i <= m,
                want == Seq::new(m as nat, |k: int| ref_at(b@, 9 + 10 * k)),
                kids@ == want.take(i as int),
            decreases m - i,
        {
            kids.push(read_ref(b, 9 + 10 * i));
            assert(kids@ =~= want.take(i as int + 1));
            i = i + 1;
        }
        assert(kids@ =~= want);
        Ok(Primitive::Pages(PagesDict { kids, count }))
    } else if n == 23 && b[0] == 6 && b[1] <= 1 && b[12] <= 1 {
        Ok(Primitive::Page(Page { parent: read_opt_ref(b, 1), contents: read_opt_ref(b, 12) }))
    } else {
        Err(PdfError::InvalidEncoding)
    }
}

/// The byte range of sub-object `index` in a payload of `len` bytes: from `first` plus its
/// offset to `first` plus the next sub-object's offset, or to the end for the last one.
pub open spec fn object_slice(first: u64, pairs: Seq<(u64, u64)>, len: int, index: int) -> Result<
    (int, int),
    PdfError,
> {
    if index < 0 || index >= pairs.len() {
        Err(PdfError::ObjectIndexOutOfRange { index: index as u64 })
    } else {
        let start = first + pairs[index].1;
        let end = if index + 1 < pairs.len() {
            first + pairs[index + 1].1
        } else {
            len
        };
        if start <= end <= len {
            Ok((start, end))
        } else {
            Err(PdfError::InvalidObjectStream)
        }
    }
}

/// What sub-object `index` of a container decodes to.
pub open spec fn unpacked(first: u64, pairs: Seq<(u64, u64)>, data: Seq<u8>, index: int) -> Result<
    PrimitiveV,
    PdfError,
> {
    match object_slice(first, pairs, data.len() as int, index) {
        Ok(range) => decoded(data.subrange(range.0, range.1)),
        Err(e) => Err(e),
    }
}

impl ObjectStream {
    /// The number of sub-objects packed in this container.
    pub fn len(&self) -> (r: usize)
        ensures
            r == self.pairs@.len(),
    {
        self.pairs.len()
    }

    /// The bytes of sub-object `index`.
    pub fn get_object_slice(&self, index: u64) -> (r: Result<&[u8], PdfError>)
        ensures
            match object_slice(self.first, self.pairs@, self.data@.len() as int, index as int) {
                Ok(range) => r is Ok && r->Ok_0@ == self.data@.subrange(range.0, range.1),
                Err(e) => r == Err::<&[u8], PdfError>(e),
            },
    {
        let n = self.pairs.len();
        if index >= n as u64 {
            return Err(PdfError::ObjectIndexOutOfRange { index });
        }
        let i = index as usize;
        let len = self.data.len() as u64;
        let start = self.first as u128 + self.pairs[i].1 as u128;
        let end = if i + 1 < n {
            self.first as u128 + self.pairs[i + 1].1 as u128
        } else {
            len as u128
        };
        if start <= end && end <= len as u128 {
            Ok(vstd::slice::slice_subrange(self.data.as_slice(), start as usize, end as usize))
        } else {
            Err(PdfError::InvalidObjectStream)
        }
    }

    /// Decodes sub-object `index`.
    pub fn get_object(&self, index: u64) -> (r: Result<Primitive, PdfError>)
        ensures
            crate::object::result_view(r) == unpacked(self.first, self.pairs@, self.data@, index as int),
    {
        match self.get_object_slice(index) {
            Ok(bytes) => decode_value(bytes),
            Err(e) => Err(e),
        }
    }
}

/// A container object being filled: sub-objects are packed one after the other.
pub struct ObjectStreamWriter {
    id: ObjNr,
    pairs: Vec<(u64, u64)>,
    data: Vec<u8>,
    values: Ghost<Seq<PrimitiveV>>,
}

impl ObjectStreamWriter {
    /// Each sub-object packed so far unpacks to the value it was given.
    pub closed spec fn wf(&self) -> bool {
        &&& self.pairs@.len() == self.values@.len()
        &&& forall|i: int|
            0 <= i < self.values@.len() ==> #[trigger] unpacked(0, self.pairs@, self.data@, i)
                == Ok::<PrimitiveV, PdfError>(self.values@[i])
        &&& forall|i: int|
            0 <= i < self.pairs@.len() ==> #[trigger] self.pairs@[i].1 <= self.data@.len()
        &&& forall|i: int, j: int|
            0 <= i <= j < self.pairs@.len() ==> #[trigger] self.pairs@[i].1 <= #[trigger] self.pairs@[j].1
    }

    /// The object number the container will be written under.
    pub closed spec fn spec_id(&self) -> ObjNr {
        self.id
    }

    /// The values packed so far, in index order.
    pub closed spec fn packed(&self) -> Seq<PrimitiveV> {
        self.values@
    }

    /// The object numbers packed so far, in index order.
    pub closed spec fn ids(&self) -> Seq<ObjNr> {
        self.pairs@.map_values(|p: (u64, u64)| p.0)
    }

    /// The number of payload bytes so far.
    pub closed spec fn size(&self) -> nat {
        self.data@.len()
    }

    /// An empty container to be written under object number `id`.
    pub fn new(id: ObjNr) -> (r: ObjectStreamWriter)
        ensures
            r.wf(),
            r.spec_id() == id,
            r.packed() == Seq::<PrimitiveV>::empty(),
            r.ids() == Seq::<ObjNr>::empty(),
            r.size() == 0,
    {
        let r = ObjectStreamWriter {
            id,
            pairs: Vec::new(),
            data: Vec::new(),
            values: Ghost(Seq::empty()),
        };
        assert(r.ids() =~= Seq::<ObjNr>::empty());
        r
    }

    pub fn id(&self) -> (r: ObjNr)
        ensures
            r == self.spec_id(),
    {
        self.id
    }

    /// Packs `v` as object `obj_nr` and returns its index in the container.
    pub fn add(&mut self, obj_nr: ObjNr, v: &Primitive) -> (r: Result<u64, PdfError>)
        requires
            old(self).wf(),
            old(self).size() + encoded(v@).len() <= u64::MAX,
        ensures
            final(self).wf(),
            final(self).spec_id() == old(self).spec_id(),
            packable(v@) ==> r == Ok::<u64, PdfError>(old(self).packed().len() as u64)
                && final(self).packed() == old(self).packed().push(v@)
                && final(self).ids() == old(self).ids().push(obj_nr)
                && final(self).size() == old(self).size() + encoded(v@).len(),
            !packable(v@) ==> r == Err::<u64, PdfError>(PdfError::UnexpectedPrimitive)
                && *final(self) == *old(self),
    {
        if matches!(v, Primitive::Stream(_)) {
            return Err(PdfError::UnexpectedPrimitive);
        }
        let ghost old_data = self.data@;
        let ghost old_pairs = self.pairs@;
        let start = self.data.len() as u64;
        let index = self.pairs.len() as u64;
        let res = encode_value(&mut self.data, v);
        self.pairs.push((obj_nr, start));
        self.values = Ghost(self.values@.push(v@));
        proof {
            let n = old_pairs.len() as int;
            assert forall|i: int| 0 <= i < self.values@.len() implies #[trigger] unpacked(
                0,
                self.pairs@,
                self.data@,
                i,
            ) == Ok::<PrimitiveV, PdfError>(self.values@[i]) by {
                if i < n {
                    assert(unpacked(0, old_pairs, old_data, i) == Ok::<PrimitiveV, PdfError>(
                        self.values@[i],
                    ));
                    assert(old_pairs[i].1 <= old_data.len());
                    if i + 1 < n {
                        assert(old_pairs[i].1 <= old_pairs[i + 1].1);
                    }
                    let range = object_slice(0, old_pairs, old_data.len() as int, i)->Ok_0;
                    assert(object_slice(0, self.pairs@, self.data@.len() as int, i) == Ok::<
                        (int, int),
                        PdfError,
                    >(range));
                    assert(self.data@.subrange(range.0, range.1) =~= old_data.subrange(
                        range.0,
                        range.1,
                    ));
                } else {
                    assert(self.data@.subrange(old_data.len() as int, self.data@.len() as int)
                        =~= encoded(v@));
                    lemma_codec_round_trip(v@);
                }
            }
            assert(self.ids() =~= old_pairs.map_values(|p: (u64, u64)| p.0).push(obj_nr));
        }
        Ok(index)
    }

    /// The finished container and the object number it is to be written under.
    pub fn finish(self) -> (r: (ObjNr, ObjectStream))
        requires
            self.wf(),
        ensures
            r.0 == self.spec_id(),
            r.1.pairs@.len() == self.packed().len(),
            forall|i: int|
                0 <= i < self.packed().len() ==> #[trigger] unpacked(
                    r.1.first,
                    r.1.pairs@,
                    r.1.data@,
                    i,
                ) == Ok::<PrimitiveV, PdfError>(self.packed()[i]),
            forall|i: int| 0 <= i < self.packed().len() ==> #[trigger] r.1.pairs@[i].0 == self.ids()[i],
    {
        (self.id, ObjectStream { first: 0, pairs: self.pairs, data: self.data })
    }
}

} // verus!
