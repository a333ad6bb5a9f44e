//! The record splitter: non-copying line views over the terminator-stripped
//! buffer, and the byte-search helper the line parser shares with it.

use vstd::prelude::*;
use vstd::slice::slice_subrange;
use crate::codec::TERM;

verus! {

/// The first index at which `c` occurs in `s`.
pub open spec fn first_occurrence(s: Seq<u8>, c: u8) -> Option<int>
    decreases s.len(),
{
    if s.len() == 0 {
        None
    } else if s[0] == c {
        Some(0)
    } else {
        match first_occurrence(s.skip(1), c) {
            None => None,
            Some(j) => Some(j + 1),
        }
    }
}

/// What `first_occurrence` means, pointwise: `None` when `c` is absent,
/// otherwise the least index holding `c`.
pub proof fn lemma_first_occurrence(s: Seq<u8>, c: u8)
    ensures
        match first_occurrence(s, c) {
            None => forall|j: int| 0 <= j < s.len() ==> s[j] != c,
            Some(i) => 0 <= i < s.len() && s[i] == c && (forall|j: int| 0 <= j < i ==> s[j] != c),
        },
    decreases s.len(),
{
    if s.len() == 0 {
    } else if s[0] == c {
    } else {
        lemma_first_occurrence(s.skip(1), c);
        match first_occurrence(s.skip(1), c) {
            None => {
                assert forall|j: int| 0 <= j < s.len() implies s[j] != c by {
                    if j > 0 {
                        assert(s[j] == s.skip(1)[j - 1]);
                    }
                }
            },
            Some(i) => {
                assert(s[i + 1] == s.skip(1)[i]);
                assert forall|j: int| 0 <= j < i + 1 implies s[j] != c by {
                    if j > 0 {
                        assert(s[j] == s.skip(1)[j - 1]);
                    }
                }
            },
        }
    }
}

/// Splits a byte slice at the first occurrence of `sep`. Returns the bytes
/// before it and the bytes after it (the separator itself excluded), or
/// `None` when `sep` does not occur. No bytes are copied.
pub fn split_once<'a>(s: &'a [u8], sep: u8) -> (r: Option<(&'a [u8], &'a [u8])>)
    ensures
        match r {
            None => first_occurrence(s@, sep) is None,
            Some((left, right)) => {
                &&& first_occurrence(s@, sep) == Some(left@.len() as int)
                &&& left@ == s@.take(left@.len() as int)
                &&& right@ == s@.skip(left@.len() as int + 1)
            },
        },
{
    let n = s.len();
    let mut i: usize = 0;
    while i < n
        invariant
            i <= n,
            n == s@.len(),
            forall|j: int| 0 <= j < i ==> s@[j] != sep,
        decreases n - i,
    {
        if s[i] == sep {
            let left = slice_subrange(s, 0, i);
            let right = slice_subrange(s, i + 1, n);
            proof {
                lemma_first_occurrence(s@, sep);
            }
            return Some((left, right));
        }
        i = i + 1;
    }
    proof {
        lemma_first_occurrence(s@, sep);
    }
    None
}

/// The lines of a non-empty buffer, split at every terminator byte. A buffer
/// without a terminator is one line; each terminator ends the line before it.
pub open spec fn split_lines(b: Seq<u8>) -> Seq<Seq<u8>>
    decreases b.len(),
        via split_lines_decreases
{
    match first_occurrence(b, TERM) {
        None => seq![b],
        Some(i) => seq![b.take(i)] + split_lines(b.skip(i + 1)),
    }
}

#[via_fn]
proof fn split_lines_decreases(b: Seq<u8>) {
    lemma_first_occurrence(b, TERM);
}

/// The line views of a terminator-stripped buffer: an empty buffer yields
/// zero lines, any other buffer its terminator-split segments.
pub open spec fn lines_of(b: Seq<u8>) -> Seq<Seq<u8>> {
    if b.len() == 0 {
        Seq::empty()
    } else {
        split_lines(b)
    }
}

/// The views of a sequence of borrowed line slices.
pub open spec fn views_of(s: Seq<&[u8]>) -> Seq<Seq<u8>> {
    s.map_values(|x: &[u8]| x@)
}

/// Produces the finite sequence of line views of the terminator-stripped
/// buffer, in order, copying no bytes.
pub fn split_records<'a>(data: &'a [u8]) -> (lines: Vec<&'a [u8]>)
    ensures
        views_of(lines@) == lines_of(data@),
{
    let mut lines: Vec<&[u8]> = Vec::new();
    let n = data.len();
    if n == 0 {
        proof {
            assert(views_of(lines@) =~= lines_of(data@));
        }
        return lines;
    }
    let mut rem: &[u8] = data;
    loop
        invariant
            views_of(lines@) + split_lines(rem@) =~= split_lines(data@),
            data@.len() > 0,
        decreases rem@.len(),
    {
        let ghost old_lines = lines@;
        let ghost old_rem = rem@;
        match split_once(rem, TERM) {
            None => {
                lines.push(rem);
                proof {
                    assert(split_lines(old_rem) == seq![old_rem]);
                    assert(views_of(lines@) =~= views_of(old_lines).push(old_rem));
                    assert(views_of(lines@) =~= lines_of(data@));
                }
                return lines;
            },
            Some((l, r)) => {
                lines.push(l);
                rem = r;
                proof {
                    let i = l@.len() as int;
                    lemma_first_occurrence(old_rem, TERM);
                    assert(rem@.len() < old_rem.len());
                    assert(split_lines(old_rem) == seq![old_rem.take(i)] + split_lines(
                        old_rem.skip(i + 1),
                    ));
                    assert(views_of(lines@) =~= views_of(old_lines).push(l@));
                    assert(views_of(lines@) + split_lines(rem@) =~= split_lines(data@));
                }
            },
        }
    }
}

} // verus!
