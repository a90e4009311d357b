//! Searching and cutting byte strings.

use crate::syntax::{first_index, first_pair, split};
use vstd::prelude::*;
use vstd::slice::slice_subrange;

verus! {

/// `first_index` is the one place before which `c` does not occur and at
/// which it does, or the end.
pub proof fn lemma_first_index_is(s: Seq<u8>, c: u8, i: int)
    requires
        0 <= i <= s.len(),
        forall|j: int| 0 <= j < i ==> s[j] != c,
        i < s.len() ==> s[i] == c,
    ensures
        first_index(s, c) == i,
    decreases i,
{
    if i > 0 {
        let rest = s.skip(1);
        assert forall|j: int| 0 <= j < i - 1 implies rest[j] != c by {
            assert(rest[j] == s[j + 1]);
        }
        lemma_first_index_is(rest, c, i - 1);
    }
}

/// What `first_index` finds: a place within the text, with no `c` before it,
/// and `c` at it unless it is the end.
pub proof fn lemma_first_index_found(s: Seq<u8>, c: u8)
    ensures
        0 <= first_index(s, c) <= s.len(),
        forall|j: int| 0 <= j < first_index(s, c) ==> s[j] != c,
        first_index(s, c) < s.len() ==> s[first_index(s, c)] == c,
    decreases s.len(),
{
    if !(s.len() == 0 || s[0] == c) {
        let rest = s.skip(1);
        lemma_first_index_found(rest, c);
        assert forall|j: int| 0 <= j < first_index(s, c) implies s[j] != c by {
            if j > 0 {
                assert(s[j] == rest[j - 1]);
            }
        }
    }
}

/// Whether `c` stands at `j` and again right after it.
pub open spec fn pair_at(s: Seq<u8>, c: u8, j: int) -> bool {
    0 <= j && j + 1 < s.len() && s[j] == c && s[j + 1] == c
}

/// `first_pair` is the one place before which `c` never stands twice in a
/// row and at which it does, or the end.
pub proof fn lemma_first_pair_is(s: Seq<u8>, c: u8, i: int)
    requires
        0 <= i <= s.len(),
        forall|j: int| 0 <= j < i ==> !pair_at(s, c, j),
        i < s.len() ==> pair_at(s, c, i),
    ensures
        first_pair(s, c) == i,
    decreases i,
{
    if s.len() < 2 {
        if i < s.len() {
            assert(pair_at(s, c, i));
        }
    } else if i == 0 {
        assert(pair_at(s, c, 0));
    } else {
        assert(!pair_at(s, c, 0));
        let rest = s.skip(1);
        assert forall|j: int| 0 <= j < i - 1 implies !pair_at(rest, c, j) by {
            assert(!pair_at(s, c, j + 1));
        }
        if i < s.len() {
            assert(pair_at(s, c, i));
            assert(pair_at(rest, c, i - 1));
        }
        lemma_first_pair_is(rest, c, i - 1);
    }
}

/// What `first_pair` finds: a place within the text, with no pair before it,
/// and a pair at it unless it is the end.
pub proof fn lemma_first_pair_found(s: Seq<u8>, c: u8)
    ensures
        0 <= first_pair(s, c) <= s.len(),
        forall|j: int| 0 <= j < first_pair(s, c) ==> !pair_at(s, c, j),
        first_pair(s, c) < s.len() ==> pair_at(s, c, first_pair(s, c)),
    decreases s.len(),
{
    if s.len() >= 2 && !(s[0] == c && s[1] == c) {
        let rest = s.skip(1);
        lemma_first_pair_found(rest, c);
        assert forall|j: int| 0 <= j < first_pair(s, c) implies !pair_at(s, c, j) by {
            if j > 0 {
                assert(!pair_at(rest, c, j - 1));
            }
        }
        if first_pair(s, c) < s.len() {
            assert(pair_at(rest, c, first_pair(rest, c)));
        }
    }
}

/// The texts that a list of slices holds.
pub open spec fn texts(parts: Seq<&[u8]>) -> Seq<Seq<u8>> {
    Seq::new(parts.len(), |i: int| parts[i]@)
}

/// The index of the first `c` at or after `from`, or the length of the text.
pub fn find_byte(text: &[u8], from: usize, c: u8) -> (i: usize)
    requires
        from <= text@.len(),
    ensures
        from <= i <= text@.len(),
        i == from + first_index(text@.skip(from as int), c),
{
    let mut i: usize = from;
    while i < text.len() && text[i] != c
        invariant
            from <= i <= text@.len(),
            forall|j: int| from <= j < i ==> text@[j] != c,
        decreases text@.len() - i,
    {
        i += 1;
    }
    proof {
        lemma_first_index_is(text@.skip(from as int), c, i - from);
    }
    i
}

/// The index at which `c` first stands twice in a row, or the length of the
/// text.
pub fn find_pair(text: &[u8], c: u8) -> (i: usize)
    ensures
        i == first_pair(text@, c),
{
    let mut i: usize = 0;
    while i < text.len() && !(i + 1 < text.len() && text[i] == c && text[i + 1] == c)
        invariant
            0 <= i <= text@.len(),
            forall|j: int| 0 <= j < i ==> !pair_at(text@, c, j),
        decreases text@.len() - i,
    {
        i += 1;
    }
    proof {
        lemma_first_pair_is(text@, c, i as int);
    }
    i
}

/// The pieces of the text between the occurrences of `sep`.
pub fn split_on<'a>(text: &'a [u8], sep: u8) -> (parts: Vec<&'a [u8]>)
    ensures
        texts(parts@) == split(text@, sep),
{
    let mut parts: Vec<&'a [u8]> = Vec::new();
    let mut start: usize = 0;
    let mut done = false;
    proof {
        assert(text@.skip(0) =~= text@);
        assert(texts(parts@) + split(text@, sep) =~= split(text@, sep));
    }
    while !done
        invariant
            start <= text@.len(),
            done ==> texts(parts@) == split(text@, sep),
            !done ==> split(text@, sep) == texts(parts@) + split(text@.skip(start as int), sep),
        decreases
            if done {
                0
            } else {
                text@.len() - start + 1
            },
    {
        let ghost before = texts(parts@);
        let ghost rest = text@.skip(start as int);
        let end = find_byte(text, start, sep);
        parts.push(slice_subrange(text, start, end));
        proof {
            assert(texts(parts@) =~= before.push(text@.subrange(start as int, end as int)));
        }
        if end == text.len() {
            proof {
                assert(text@.subrange(start as int, end as int) =~= rest);
                assert(split(rest, sep) =~= seq![rest]);
                assert(texts(parts@) =~= before + split(rest, sep));
            }
            done = true;
        } else {
            proof {
                assert(rest.take(end - start) =~= text@.subrange(start as int, end as int));
                assert(rest.skip(end - start + 1) =~= text@.skip(end + 1));
                assert(split(rest, sep) =~= seq![rest.take(end - start)] + split(
                    rest.skip(end - start + 1),
                    sep,
                ));
                assert(before + split(rest, sep) =~= texts(parts@) + split(
                    text@.skip(end + 1),
                    sep,
                ));
            }
            start = end + 1;
        }
    }
    parts
}

} // verus!
