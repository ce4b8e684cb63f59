//! Searching in byte buffers.

use vstd::prelude::*;

verus! {

/// Whether `needle` stands in `hay` at position `i`.
pub open spec fn occurs_at(hay: Seq<u8>, needle: Seq<u8>, i: int) -> bool {
    0 <= i && i + needle.len() <= hay.len() && hay.subrange(i, i + needle.len()) == needle
}

/// The first position, from `start` on, at which `needle` stands in `hay`.
/// An empty needle is nowhere.
pub open spec fn first_at(hay: Seq<u8>, needle: Seq<u8>, start: int) -> Option<int>
    decreases hay.len() - start,
{
    if needle.len() == 0 || start < 0 || start + needle.len() > hay.len() {
        None
    } else if occurs_at(hay, needle, start) {
        Some(start)
    } else {
        first_at(hay, needle, start + 1)
    }
}

/// The positions, from `start` on, at which `needle` stands in `hay`, each
/// one searched for behind the end of the one before.
pub open spec fn all_at(hay: Seq<u8>, needle: Seq<u8>, start: int) -> Seq<int>
    decreases hay.len() - start,
{
    match first_at(hay, needle, start) {
        Some(i) => {
            proof {
                lemma_first_at(hay, needle, start);
            }
            seq![i] + all_at(hay, needle, i + needle.len())
        },
        None => seq![],
    }
}

/// `first_at` gives an occurrence before which there is none, and fails only
/// where there is none at all.
pub proof fn lemma_first_at(hay: Seq<u8>, needle: Seq<u8>, start: int)
    ensures
        match first_at(hay, needle, start) {
            Some(i) => {
                &&& start <= i
                &&& 0 <= start
                &&& needle.len() > 0
                &&& occurs_at(hay, needle, i)
                &&& forall|j: int| start <= j < i ==> !occurs_at(hay, needle, j)
            },
            None => needle.len() > 0 && start >= 0 ==> forall|j: int|
                start <= j ==> !occurs_at(hay, needle, j),
        },
    decreases hay.len() - start,
{
    if needle.len() == 0 || start < 0 || start + needle.len() > hay.len() {
    } else if occurs_at(hay, needle, start) {
    } else {
        lemma_first_at(hay, needle, start + 1);
    }
}

/// Nothing but the first occurrence has what `lemma_first_at` says of it.
pub proof fn lemma_first_at_is(hay: Seq<u8>, needle: Seq<u8>, start: int, i: int)
    requires
        needle.len() > 0,
        0 <= start <= i,
        occurs_at(hay, needle, i),
        forall|j: int| start <= j < i ==> !occurs_at(hay, needle, j),
    ensures
        first_at(hay, needle, start) == Some(i),
{
    lemma_first_at(hay, needle, start);
    match first_at(hay, needle, start) {
        Some(k) => {
            if k < i {
                assert(occurs_at(hay, needle, k));
            }
        },
        None => {},
    }
}

/// Where `needle` occurs nowhere, `first_at` fails.
pub proof fn lemma_first_at_none(hay: Seq<u8>, needle: Seq<u8>, start: int)
    requires
        forall|j: int| start <= j ==> !occurs_at(hay, needle, j),
    ensures
        first_at(hay, needle, start) is None,
{
    lemma_first_at(hay, needle, start);
}

/// What is found in a buffer is found at the same place once more bytes have
/// been appended to it.
pub proof fn lemma_first_at_extends(hay: Seq<u8>, more: Seq<u8>, needle: Seq<u8>, start: int)
    requires
        first_at(hay, needle, start) is Some,
    ensures
        first_at(hay + more, needle, start) == first_at(hay, needle, start),
{
    lemma_first_at(hay, needle, start);
    let i = first_at(hay, needle, start)->0;
    let n = needle.len();
    assert((hay + more).subrange(i, i + n) =~= hay.subrange(i, i + n));
    assert forall|j: int| start <= j < i implies !occurs_at(hay + more, needle, j) by {
        assert(!occurs_at(hay, needle, j));
        assert((hay + more).subrange(j, j + n) =~= hay.subrange(j, j + n));
    }
    lemma_first_at_is(hay + more, needle, start, i);
}

/// The positions that `all_at` gives are occurrences, each behind the end of
/// the one before.
pub proof fn lemma_all_at(hay: Seq<u8>, needle: Seq<u8>, start: int)
    requires
        0 <= start,
    ensures
        forall|i: int|
            0 <= i < all_at(hay, needle, start).len() ==> start <= #[trigger] all_at(
                hay,
                needle,
                start,
            )[i] && occurs_at(hay, needle, all_at(hay, needle, start)[i]),
        forall|i: int, j: int|
            0 <= i < j < all_at(hay, needle, start).len() ==> #[trigger] all_at(
                hay,
                needle,
                start,
            )[i] + needle.len() <= #[trigger] all_at(hay, needle, start)[j],
    decreases hay.len() - start,
{
    lemma_first_at(hay, needle, start);
    match first_at(hay, needle, start) {
        Some(k) => {
            let rest = all_at(hay, needle, k + needle.len());
            let all = all_at(hay, needle, start);
            lemma_all_at(hay, needle, k + needle.len());
            assert forall|i: int| 0 <= i < all.len() implies start <= #[trigger] all[i]
                && occurs_at(hay, needle, all[i]) by {
                if i > 0 {
                    assert(all[i] == rest[i - 1]);
                }
            }
            assert forall|i: int, j: int| 0 <= i < j < all.len() implies #[trigger] all[i]
                + needle.len() <= #[trigger] all[j] by {
                assert(all[j] == rest[j - 1]);
                if i > 0 {
                    assert(all[i] == rest[i - 1]);
                }
            }
        },
        None => {},
    }
}

/// Whether two buffers hold the same bytes.
pub fn same_bytes(a: &[u8], b: &[u8]) -> (r: bool)
    ensures
        r == (a@ == b@),
{
    if a.len() != b.len() {
        return false;
    }
    let mut i: usize = 0;
    while i < a.len()
        invariant
            i <= a@.len(),
            a@.len() == b@.len(),
            forall|j: int| 0 <= j < i ==> a@[j] == b@[j],
        decreases a@.len() - i,
    {
        if a[i] != b[i] {
            return false;
        }
        i += 1;
    }
    assert(a@ =~= b@);
    true
}

/// Finds `needle` in `haystack` at or after `start`.
pub fn find_from(haystack: &[u8], start: usize, needle: &[u8]) -> (r: Option<usize>)
    ensures
        match r {
            Some(i) => first_at(haystack@, needle@, start as int) == Some(i as int) && i
                + needle@.len() <= haystack@.len(),
            None => first_at(haystack@, needle@, start as int) is None,
        },
{
    if needle.len() == 0 || haystack.len() < start || haystack.len() - start < needle.len() {
        return None;
    }
    let last: usize = haystack.len() - needle.len();
    let mut i: usize = start;
    while i <= last
        invariant
            start <= i <= last + 1,
            last + needle@.len() == haystack.len(),
            needle@.len() > 0,
            forall|j: int| start <= j < i ==> !occurs_at(haystack@, needle@, j),
        decreases last + 1 - i,
    {
        if same_bytes(vstd::slice::slice_subrange(haystack, i, i + needle.len()), needle) {
            proof {
                lemma_first_at_is(haystack@, needle@, start as int, i as int);
            }
            return Some(i);
        }
        i += 1;
    }
    proof {
        lemma_first_at_none(haystack@, needle@, start as int);
    }
    None
}

/// Finds the first `needle` in `hay`.
pub fn find(hay: &[u8], needle: &[u8]) -> (r: Option<usize>)
    ensures
        match r {
            Some(i) => first_at(hay@, needle@, 0) == Some(i as int) && i + needle@.len()
                <= hay@.len(),
            None => first_at(hay@, needle@, 0) is None,
        },
{
    find_from(hay, 0, needle)
}

/// A list of positions, as integers.
pub open spec fn positions(v: Seq<usize>) -> Seq<int> {
    v.map_values(|i: usize| i as int)
}

/// Finds every `needle` in `hay`, from left to right without overlaps.
pub fn find_all(hay: &[u8], needle: &[u8]) -> (r: Vec<usize>)
    ensures
        positions(r@) == all_at(hay@, needle@, 0),
{
    let mut out: Vec<usize> = Vec::new();
    let mut i: usize = 0;
    assert(positions(out@) + all_at(hay@, needle@, 0) =~= all_at(hay@, needle@, 0));
    loop
        invariant
            i <= hay@.len(),
            positions(out@) + all_at(hay@, needle@, i as int) == all_at(hay@, needle@, 0),
        decreases hay@.len() - i,
    {
        match find_from(hay, i, needle) {
            Some(k) => {
                let ghost before = out@;
                proof {
                    lemma_first_at(hay@, needle@, i as int);
                }
                out.push(k);
                assert(k + needle@.len() <= hay.len());
                i = k + needle.len();
                proof {
                    assert(positions(out@) =~= positions(before).push(k as int));
                    assert(positions(out@) + all_at(hay@, needle@, i as int) =~= positions(before)
                        + (seq![k as int] + all_at(hay@, needle@, i as int)));
                }
            },
            None => {
                assert(positions(out@) =~= positions(out@) + all_at(hay@, needle@, i as int));
                return out;
            },
        }
    }
}

/// Tests whether `hay` begins with `needle`.
pub fn starts_with(hay: &[u8], needle: &[u8]) -> (r: bool)
    ensures
        r == occurs_at(hay@, needle@, 0),
{
    needle.len() <= hay.len() && same_bytes(
        vstd::slice::slice_subrange(hay, 0, needle.len()),
        needle,
    )
}

/// Tests whether `hay` ends with `needle`.
pub fn ends_with(hay: &[u8], needle: &[u8]) -> (r: bool)
    ensures
        r == occurs_at(hay@, needle@, hay@.len() - needle@.len()),
{
    needle.len() <= hay.len() && same_bytes(
        vstd::slice::slice_subrange(hay, hay.len() - needle.len(), hay.len()),
        needle,
    )
}

/// Appends bytes to a buffer.
pub fn push_bytes(out: &mut Vec<u8>, more: &[u8])
    ensures
        final(out)@ == old(out)@ + more@,
{
    out.extend_from_slice(more);
    assert(out@ =~= old(out)@ + more@);
}

} // verus!
