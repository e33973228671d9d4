//! Finding one byte among others.

use vstd::prelude::*;

verus! {

/// No byte of `s` is `b`.
pub open spec fn free_of(s: Seq<u8>, b: u8) -> bool {
    forall|i: int| 0 <= i < s.len() ==> s[i] != b
}

/// The index of the first `b` in `s`; the length of `s` where it holds none.
pub open spec fn first_index_of(s: Seq<u8>, b: u8) -> int
    decreases s.len(),
{
    if s.len() == 0 || s[0] == b {
        0
    } else {
        1 + first_index_of(s.skip(1), b)
    }
}

/// The first `b` is a `b`, and nothing before it is one.
pub proof fn lemma_first_index_of(s: Seq<u8>, b: u8)
    ensures
        0 <= first_index_of(s, b) <= s.len(),
        forall|j: int| 0 <= j < first_index_of(s, b) ==> s[j] != b,
        first_index_of(s, b) < s.len() ==> s[first_index_of(s, b)] == b,
    decreases s.len(),
{
    if s.len() == 0 || s[0] == b {
    } else {
        let rest = s.skip(1);
        lemma_first_index_of(rest, b);
        assert forall|j: int| 0 <= j < first_index_of(s, b) implies s[j] != b by {
            if j > 0 {
                assert(rest[j - 1] != b);
            }
        }
    }
}

/// An index that holds `b`, or the length, with no `b` before it, is the
/// first index of `b`.
pub proof fn lemma_first_index_is(s: Seq<u8>, b: u8, at: int)
    requires
        0 <= at <= s.len(),
        free_of(s.take(at), b),
        at < s.len() ==> s[at] == b,
    ensures
        first_index_of(s, b) == at,
{
    lemma_first_index_of(s, b);
    let first = first_index_of(s, b);
    if first < at {
        assert(s.take(at)[first] == b);
    }
}

/// The first index at or after `from` that holds `b`; the length of `bytes`
/// where there is none.
pub fn find_byte(bytes: &[u8], from: usize, b: u8) -> (at: usize)
    requires
        from <= bytes@.len(),
    ensures
        from <= at <= bytes@.len(),
        free_of(bytes@.subrange(from as int, at as int), b),
        at < bytes@.len() ==> bytes@[at as int] == b,
{
    let mut at: usize = from;
    while at < bytes.len() && bytes[at] != b
        invariant
            from <= at <= bytes@.len(),
            free_of(bytes@.subrange(from as int, at as int), b),
        decreases bytes@.len() - at,
    {
        at += 1;
    }
    at
}

} // verus!
