use vstd::prelude::*;
use crate::types::PdfError;

verus! {

/// The bytes of the marker `startxref`.
pub open spec fn marker() -> Seq<u8> {
    seq![115u8, 116u8, 97u8, 114u8, 116u8, 120u8, 114u8, 101u8, 102u8]
}

pub open spec fn marker_at(d: Seq<u8>, i: int) -> bool {
    0 <= i && i + 9 <= d.len() && d.subrange(i, i + 9) == marker()
}

/// The last position at or below `i` where the marker starts.
pub open spec fn last_marker(d: Seq<u8>, i: int) -> Option<int>
    decreases i + 1,
{
    if i < 0 {
        None
    } else if marker_at(d, i) {
        Some(i)
    } else {
        last_marker(d, i - 1)
    }
}

pub open spec fn is_space(b: u8) -> bool {
    b == 32 || b == 10 || b == 13 || b == 9 || b == 12 || b == 0
}

pub open spec fn is_digit(b: u8) -> bool {
    48 <= b <= 57
}

/// The first position at or after `j` that holds no white space.
pub open spec fn skip_spaces(d: Seq<u8>, j: int) -> int
    decreases d.len() - j,
{
    if 0 <= j < d.len() && is_space(d[j]) {
        skip_spaces(d, j + 1)
    } else {
        j
    }
}

/// The first position at or after `j` that holds no digit.
pub open spec fn skip_digits(d: Seq<u8>, j: int) -> int
    decreases d.len() - j,
{
    if 0 <= j < d.len() && is_digit(d[j]) {
        skip_digits(d, j + 1)
    } else {
        j
    }
}

/// The number that a run of decimal digits spells.
pub open spec fn digits_value(s: Seq<u8>) -> nat
    decreases s.len(),
{
    if s.len() == 0 {
        0
    } else {
        digits_value(s.drop_last()) * 10 + (s.last() - 48) as nat
    }
}

/// The number after the last `startxref` marker, past white space.
pub open spec fn startxref_value(d: Seq<u8>) -> Option<nat> {
    match last_marker(d, d.len() - 9) {
        None => None,
        Some(i) => {
            let j = skip_spaces(d, i + 9);
            let e = skip_digits(d, j);
            if e == j {
                None
            } else {
                Some(digits_value(d.subrange(j, e)))
            }
        },
    }
}

proof fn lemma_digits_value_grows(s: Seq<u8>, m: int)
    requires
        0 <= m <= s.len(),
        forall|k: int| 0 <= k < s.len() ==> is_digit(#[trigger] s[k]),
    ensures
        digits_value(s.take(m)) <= digits_value(s),
    decreases s.len(),
{
    if m < s.len() {
        assert(s.drop_last().take(m) =~= s.take(m));
        assert forall|k: int| 0 <= k < s.drop_last().len() implies is_digit(
            #[trigger] s.drop_last()[k],
        ) by {
            assert(s.drop_last()[k] == s[k]);
        }
        lemma_digits_value_grows(s.drop_last(), m);
    } else {
        assert(s.take(m) =~= s);
    }
}

proof fn lemma_skip_digits(d: Seq<u8>, j: int, k: int)
    requires
        0 <= j <= k <= d.len(),
        forall|x: int| j <= x < k ==> is_digit(#[trigger] d[x]),
    ensures
        skip_digits(d, j) == skip_digits(d, k),
    decreases k - j,
{
    if j < k {
        assert(is_digit(d[j]));
        lemma_skip_digits(d, j + 1, k);
    }
}

proof fn lemma_skip_digits_at_least(d: Seq<u8>, j: int)
    requires
        0 <= j <= d.len(),
    ensures
        j <= skip_digits(d, j) <= d.len(),
    decreases d.len() - j,
{
    if 0 <= j < d.len() && is_digit(d[j]) {
        lemma_skip_digits_at_least(d, j + 1);
    }
}

proof fn lemma_skip_digits_all(d: Seq<u8>, j: int, x: int)
    requires
        0 <= j <= x < skip_digits(d, j),
    ensures
        x < d.len() && is_digit(d[x]),
    decreases x - j,
{
    if j < x {
        assert(0 <= j < d.len() && is_digit(d[j]));
        lemma_skip_digits_all(d, j + 1, x);
    }
}

fn matches_marker(d: &[u8], i: usize) -> (r: bool)
    requires
        i + 9 <= d@.len(),
    ensures
        r == marker_at(d@, i as int),
{
    let mark: [u8; 9] = [115u8, 116u8, 97u8, 114u8, 116u8, 120u8, 114u8, 101u8, 102u8];
    assert(mark@ == marker());
    let n = d.len();
    let mut k: usize = 0;
    while k < 9
        invariant
            k <= 9,
            n == d@.len(),
            i + 9 <= d@.len(),
            mark@ == marker(),
            forall|x: int| 0 <= x < k ==> d@[i + x] == mark@[x],
        decreases 9 - k,
    {
        if d[i + k] != mark[k] {
            assert(d@.subrange(i as int, i + 9)[k as int] != marker()[k as int]);
            return false;
        }
        k = k + 1;
    }
    assert(d@.subrange(i as int, i + 9) =~= marker());
    true
}

/// The position of the last `startxref` marker in `d`.
fn find_last_marker(d: &[u8]) -> (r: Option<usize>)
    ensures
        last_marker(d@, d@.len() - 9) == match r {
            Some(i) => Some(i as int),
            None => None::<int>,
        },
        r matches Some(i) ==> i + 9 <= d@.len(),
{
    let n = d.len();
    if n < 9 {
        return None;
    }
    let mut i: usize = n - 9;
    loop
        invariant
            i + 9 <= n,
            n == d@.len(),
            last_marker(d@, n - 9) == last_marker(d@, i as int),
        decreases i,
    {
        if matches_marker(d, i) {
            return Some(i);
        }
        if i == 0 {
            assert(last_marker(d@, -1) is None);
            return None;
        }
        i = i - 1;
    }
}

/// Finds the position of the newest update section: the number after the last
/// `startxref` marker in `data`.
pub fn locate_xref_offset(data: &[u8]) -> (r: Result<u64, PdfError>)
    ensures
        match startxref_value(data@) {
            Some(v) => if v <= u64::MAX {
                r == Ok::<u64, PdfError>(v as u64)
            } else {
                r == Err::<u64, PdfError>(PdfError::StartXRefNotFound)
            },
            None => r == Err::<u64, PdfError>(PdfError::StartXRefNotFound),
        },
{
    let n = data.len();
    let found = match find_last_marker(data) {
        Some(i) => i,
        None => return Err(PdfError::StartXRefNotFound),
    };
    let mut j: usize = found + 9;
    while j < n && (data[j] == 32 || data[j] == 10 || data[j] == 13 || data[j] == 9 || data[j] == 12 || data[j] == 0)
        invariant
            found + 9 <= j <= n,
            n == data@.len(),
            skip_spaces(data@, found + 9) == skip_spaces(data@, j as int),
        decreases n - j,
    {
        j = j + 1;
    }
    let ghost start = j as int;
    let ghost e = skip_digits(data@, start);
    let mut v: u64 = 0;
    let mut k: usize = j;
    assert(data@.subrange(start, start) =~= Seq::<u8>::empty());
    loop
        invariant
            start == j,
            found + 9 <= j,
            skip_spaces(data@, found + 9) == j,
            last_marker(data@, data@.len() - 9) == Some(found as int),
            start <= k <= n,
            n == data@.len(),
            e == skip_digits(data@, start),
            forall|x: int| start <= x < k ==> is_digit(#[trigger] data@[x]),
            v == digits_value(data@.subrange(start, k as int)),
        decreases n - k,
    {
        if k >= n || data[k] < 48 || data[k] > 57 {
            proof {
                lemma_skip_digits(data@, start, k as int);
                assert(skip_digits(data@, k as int) == k);
                assert(e == k);
                assert(startxref_value(data@) == if k == j {
                    None::<nat>
                } else {
                    Some(digits_value(data@.subrange(start, k as int)))
                });
            }
            if k == j {
                return Err(PdfError::StartXRefNotFound);
            }
            return Ok(v);
        }
        let digit = (data[k] - 48) as u64;
        proof {
            assert(data@.subrange(start, k as int + 1).drop_last() =~= data@.subrange(start, k as int));
        }
        if v > (u64::MAX - digit) / 10 {
            proof {
                assert(is_digit(data@[k as int]));
                lemma_skip_digits(data@, start, k as int + 1);
                lemma_skip_digits_at_least(data@, k as int + 1);
                let s = data@.subrange(start, e);
                assert forall|x: int| 0 <= x < s.len() implies is_digit(#[trigger] s[x]) by {
                    lemma_skip_digits_all(data@, start, start + x);
                }
                assert(s.take(k as int + 1 - start) =~= data@.subrange(start, k as int + 1));
                lemma_digits_value_grows(s, k as int + 1 - start);
            }
            return Err(PdfError::StartXRefNotFound);
        }
        v = v * 10 + digit;
        k = k + 1;
    }
}

} // verus!
