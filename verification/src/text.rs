//! Searching in bytes of text.

use vstd::prelude::*;

verus! {

/// The first position from `from` on at which `s` holds `b`.
pub open spec fn position_of(s: Seq<u8>, from: int, b: u8) -> Option<int>
    decreases s.len() - from,
{
    if from >= s.len() {
        None
    } else if s[from] == b {
        Some(from)
    } else {
        position_of(s, from + 1, b)
    }
}

/// The first position from `from` on at which `s` holds something else
/// than `b`.
pub open spec fn position_of_other(s: Seq<u8>, from: int, b: u8) -> Option<int>
    decreases s.len() - from,
{
    if from >= s.len() {
        None
    } else if s[from] != b {
        Some(from)
    } else {
        position_of_other(s, from + 1, b)
    }
}

/// `needle` stands in `hay` at position `i`.
pub open spec fn occurs_at(hay: Seq<u8>, needle: Seq<u8>, i: int) -> bool {
    &&& 0 <= i
    &&& i + needle.len() <= hay.len()
    &&& hay.subrange(i, i + needle.len()) == needle
}

/// The first position from `from` on at which `needle` stands in `hay`.
pub open spec fn position_of_text(hay: Seq<u8>, needle: Seq<u8>, from: int) -> Option<int>
    decreases hay.len() + 1 - from,
{
    if from + needle.len() > hay.len() {
        None
    } else if occurs_at(hay, needle, from) {
        Some(from)
    } else {
        position_of_text(hay, needle, from + 1)
    }
}

/// A position that [`position_of`] finds lies from `from` on, holds `b`,
/// and no position between does; where it finds none, none holds `b`.
pub proof fn lemma_position_of(s: Seq<u8>, from: int, b: u8)
    requires
        0 <= from,
    ensures
        match position_of(s, from, b) {
            Some(i) => from <= i < s.len() && s[i] == b && forall|j: int|
                from <= j < i ==> s[j] != b,
            None => forall|j: int| from <= j < s.len() ==> s[j] != b,
        },
    decreases s.len() - from,
{
    if from < s.len() && s[from] != b {
        lemma_position_of(s, from + 1, b);
    }
}

/// A position that [`position_of_other`] finds lies from `from` on, does
/// not hold `b`, and every position between does; where it finds none,
/// all hold `b`.
pub proof fn lemma_position_of_other(s: Seq<u8>, from: int, b: u8)
    requires
        0 <= from,
    ensures
        match position_of_other(s, from, b) {
            Some(i) => from <= i < s.len() && s[i] != b && forall|j: int|
                from <= j < i ==> s[j] == b,
            None => forall|j: int| from <= j < s.len() ==> s[j] == b,
        },
    decreases s.len() - from,
{
    if from < s.len() && s[from] == b {
        lemma_position_of_other(s, from + 1, b);
    }
}

/// A position that [`position_of_text`] finds is the first from `from` on
/// at which the text stands; where it finds none, the text stands nowhere
/// from `from` on.
pub proof fn lemma_position_of_text(hay: Seq<u8>, needle: Seq<u8>, from: int)
    requires
        0 <= from,
    ensures
        match position_of_text(hay, needle, from) {
            Some(i) => from <= i && occurs_at(hay, needle, i) && forall|j: int|
                from <= j < i ==> !occurs_at(hay, needle, j),
            None => forall|j: int| from <= j ==> !occurs_at(hay, needle, j),
        },
    decreases hay.len() + 1 - from,
{
    if from + needle.len() <= hay.len() && !occurs_at(hay, needle, from) {
        lemma_position_of_text(hay, needle, from + 1);
    }
}

/// What a search hands out for a position that a specification names.
pub open spec fn found_at(position: Option<int>) -> Option<usize> {
    match position {
        Some(i) => Some(i as usize),
        None => None,
    }
}

/// The first position from `from` on at which `s` holds `b`, if any.
pub fn find_byte(s: &[u8], from: usize, b: u8) -> (found: Option<usize>)
    ensures
        found == found_at(position_of(s@, from as int, b)),
{
    let mut i: usize = from;
    while i < s.len()
        invariant
            from <= i,
            position_of(s@, i as int, b) == position_of(s@, from as int, b),
        decreases s@.len() - i,
    {
        if s[i] == b {
            return Some(i);
        }
        i += 1;
    }
    None
}

/// The first position from `from` on at which `s` holds something else
/// than `b`, if any.
pub fn find_other(s: &[u8], from: usize, b: u8) -> (found: Option<usize>)
    ensures
        found == found_at(position_of_other(s@, from as int, b)),
{
    let mut i: usize = from;
    while i < s.len()
        invariant
            from <= i,
            position_of_other(s@, i as int, b) == position_of_other(s@, from as int, b),
        decreases s@.len() - i,
    {
        if s[i] != b {
            return Some(i);
        }
        i += 1;
    }
    None
}

/// The first position at which `needle` stands in `hay`, if any.
pub fn find_text(hay: &[u8], needle: &[u8]) -> (found: Option<usize>)
    ensures
        found == found_at(position_of_text(hay@, needle@, 0)),
{
    let n: usize = hay.len();
    let m: usize = needle.len();
    if m > n {
        return None;
    }
    let mut i: usize = 0;
    while i <= n - m
        invariant
            n == hay@.len(),
            m == needle@.len(),
            m <= n,
            position_of_text(hay@, needle@, i as int) == position_of_text(hay@, needle@, 0),
        decreases n - m + 1 - i,
    {
        let mut k: usize = 0;
        while k < m && hay[i + k] == needle[k]
            invariant
                n == hay@.len(),
                m == needle@.len(),
                i + m <= n,
                k <= m,
                forall|j: int| 0 <= j < k ==> hay@[i + j] == needle@[j],
            decreases m - k,
        {
            k += 1;
        }
        if k == m {
            proof {
                assert(hay@.subrange(i as int, i + m) =~= needle@);
            }
            return Some(i);
        }
        proof {
            assert(hay@.subrange(i as int, i + m)[k as int] == hay@[i + k]);
        }
        i += 1;
    }
    None
}

} // verus!
