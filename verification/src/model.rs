//! Ghost text utilities: first occurrences of characters and character pairs,
//! the splits built from them, and the slicing of a document into sections.
use vstd::prelude::*;

verus! {

/// The characters that make a text run ignorable between tags.
pub open spec fn is_space_char(c: char) -> bool {
    c == ' ' || c == '\n'
}

/// A text run of spaces and newlines only (an empty run counts as blank).
pub open spec fn is_blank(s: Seq<char>) -> bool {
    forall|i: int| 0 <= i < s.len() ==> is_space_char(s[i])
}

/// Index of the first occurrence of `c` in `s`.
pub open spec fn find_char(s: Seq<char>, c: char) -> Option<int>
    decreases s.len(),
{
    if s.len() == 0 {
        None
    } else if s[0] == c {
        Some(0int)
    } else {
        match find_char(s.skip(1), c) {
            Some(i) => Some(i + 1),
            None => None,
        }
    }
}

/// Index of the first occurrence of the two-character pattern `c1 c2` in `s`.
pub open spec fn find_pair(s: Seq<char>, c1: char, c2: char) -> Option<int>
    decreases s.len(),
{
    if s.len() < 2 {
        None
    } else if s[0] == c1 && s[1] == c2 {
        Some(0int)
    } else {
        match find_pair(s.skip(1), c1, c2) {
            Some(i) => Some(i + 1),
            None => None,
        }
    }
}

pub proof fn lemma_find_char(s: Seq<char>, c: char)
    ensures
        match find_char(s, c) {
            Some(i) => 0 <= i < s.len() && s[i] == c && (forall|j: int| 0 <= j < i ==> s[j] != c),
            None => forall|j: int| 0 <= j < s.len() ==> s[j] != c,
        },
    decreases s.len(),
{
    if s.len() == 0 {
    } else if s[0] == c {
    } else {
        lemma_find_char(s.skip(1), c);
        match find_char(s.skip(1), c) {
            Some(i) => {
                assert(s.skip(1)[i] == s[i + 1]);
                assert forall|j: int| 0 <= j < i + 1 implies s[j] != c by {
                    if j > 0 {
                        assert(s.skip(1)[j - 1] == s[j]);
                    }
                }
            },
            None => {
                assert forall|j: int| 0 <= j < s.len() implies s[j] != c by {
                    if j > 0 {
                        assert(s.skip(1)[j - 1] == s[j]);
                    }
                }
            },
        }
    }
}

pub proof fn lemma_find_char_is(s: Seq<char>, c: char, i: int)
    requires
        0 <= i < s.len(),
        s[i] == c,
        forall|j: int| 0 <= j < i ==> s[j] != c,
    ensures
        find_char(s, c) == Some(i),
{
    lemma_find_char(s, c);
    match find_char(s, c) {
        Some(k) => {
            if k < i {
                assert(s[k] == c);
            } else if i < k {
                assert(s[i] != c);
            }
        },
        None => {
            assert(s[i] != c);
        },
    }
}

pub proof fn lemma_find_char_none(s: Seq<char>, c: char)
    requires
        forall|j: int| 0 <= j < s.len() ==> s[j] != c,
    ensures
        find_char(s, c) is None,
{
    lemma_find_char(s, c);
    match find_char(s, c) {
        Some(k) => {
            assert(s[k] == c);
        },
        None => {},
    }
}

pub proof fn lemma_find_pair(s: Seq<char>, c1: char, c2: char)
    ensures
        match find_pair(s, c1, c2) {
            Some(i) => 0 <= i && i + 1 < s.len() && s[i] == c1 && s[i + 1] == c2 && (forall|j: int|
                0 <= j < i ==> !(#[trigger] s[j] == c1 && s[j + 1] == c2)),
            None => forall|j: int|
                0 <= j && j + 1 < s.len() ==> !(#[trigger] s[j] == c1 && s[j + 1] == c2),
        },
    decreases s.len(),
{
    if s.len() < 2 {
    } else if s[0] == c1 && s[1] == c2 {
    } else {
        lemma_find_pair(s.skip(1), c1, c2);
        match find_pair(s.skip(1), c1, c2) {
            Some(i) => {
                assert(s.skip(1)[i] == s[i + 1]);
                assert(s.skip(1)[i + 1] == s[i + 2]);
                assert forall|j: int| 0 <= j < i + 1 implies !(#[trigger] s[j] == c1 && s[j + 1]
                    == c2) by {
                    if j > 0 {
                        assert(s.skip(1)[j - 1] == s[j]);
                        assert(s.skip(1)[j] == s[j + 1]);
                    }
                }
            },
            None => {
                assert forall|j: int| 0 <= j && j + 1 < s.len() implies !(#[trigger] s[j] == c1
                    && s[j + 1] == c2) by {
                    if j > 0 {
                        assert(s.skip(1)[j - 1] == s[j]);
                        assert(s.skip(1)[j] == s[j + 1]);
                    }
                }
            },
        }
    }
}

pub proof fn lemma_find_pair_is(s: Seq<char>, c1: char, c2: char, i: int)
    requires
        0 <= i,
        i + 1 < s.len(),
        s[i] == c1,
        s[i + 1] == c2,
        forall|j: int| 0 <= j < i ==> !(#[trigger] s[j] == c1 && s[j + 1] == c2),
    ensures
        find_pair(s, c1, c2) == Some(i),
{
    lemma_find_pair(s, c1, c2);
    match find_pair(s, c1, c2) {
        Some(k) => {
            if k < i {
                assert(!(s[k] == c1 && s[k + 1] == c2));
            } else if i < k {
                assert(!(s[i] == c1 && s[i + 1] == c2));
            }
        },
        None => {
            assert(!(s[i] == c1 && s[i + 1] == c2));
        },
    }
}

pub proof fn lemma_find_pair_none(s: Seq<char>, c1: char, c2: char)
    requires
        forall|j: int| 0 <= j && j + 1 < s.len() ==> !(#[trigger] s[j] == c1 && s[j + 1] == c2),
    ensures
        find_pair(s, c1, c2) is None,
{
    lemma_find_pair(s, c1, c2);
    match find_pair(s, c1, c2) {
        Some(k) => {
            assert(!(s[k] == c1 && s[k + 1] == c2));
        },
        None => {},
    }
}

/// Index of the first occurrence of the three-character pattern
/// `c1 c2 c3` in `s`.
pub open spec fn find_triple(s: Seq<char>, c1: char, c2: char, c3: char) -> Option<int>
    decreases s.len(),
{
    if s.len() < 3 {
        None
    } else if s[0] == c1 && s[1] == c2 && s[2] == c3 {
        Some(0int)
    } else {
        match find_triple(s.skip(1), c1, c2, c3) {
            Some(i) => Some(i + 1),
            None => None,
        }
    }
}

pub proof fn lemma_find_triple(s: Seq<char>, c1: char, c2: char, c3: char)
    ensures
        match find_triple(s, c1, c2, c3) {
            Some(i) => 0 <= i && i + 2 < s.len() && s[i] == c1 && s[i + 1] == c2 && s[i + 2]
                == c3 && (forall|j: int|
                0 <= j < i ==> !(#[trigger] s[j] == c1 && s[j + 1] == c2 && s[j + 2] == c3)),
            None => forall|j: int|
                0 <= j && j + 2 < s.len() ==> !(#[trigger] s[j] == c1 && s[j + 1] == c2 && s[j
                    + 2] == c3),
        },
    decreases s.len(),
{
    if s.len() < 3 {
    } else if s[0] == c1 && s[1] == c2 && s[2] == c3 {
    } else {
        lemma_find_triple(s.skip(1), c1, c2, c3);
        match find_triple(s.skip(1), c1, c2, c3) {
            Some(i) => {
                assert(s.skip(1)[i] == s[i + 1]);
                assert(s.skip(1)[i + 1] == s[i + 2]);
                assert(s.skip(1)[i + 2] == s[i + 3]);
                assert forall|j: int| 0 <= j < i + 1 implies !(#[trigger] s[j] == c1 && s[j + 1]
                    == c2 && s[j + 2] == c3) by {
                    if j > 0 {
                        assert(s.skip(1)[j - 1] == s[j]);
                        assert(s.skip(1)[j] == s[j + 1]);
                        assert(s.skip(1)[j + 1] == s[j + 2]);
                    }
                }
            },
            None => {
                assert forall|j: int| 0 <= j && j + 2 < s.len() implies !(#[trigger] s[j] == c1
                    && s[j + 1] == c2 && s[j + 2] == c3) by {
                    if j > 0 {
                        assert(s.skip(1)[j - 1] == s[j]);
                        assert(s.skip(1)[j] == s[j + 1]);
                        assert(s.skip(1)[j + 1] == s[j + 2]);
                    }
                }
            },
        }
    }
}

pub proof fn lemma_find_triple_is(s: Seq<char>, c1: char, c2: char, c3: char, i: int)
    requires
        0 <= i,
        i + 2 < s.len(),
        s[i] == c1,
        s[i + 1] == c2,
        s[i + 2] == c3,
        forall|j: int| 0 <= j < i ==> !(#[trigger] s[j] == c1 && s[j + 1] == c2 && s[j + 2] == c3),
    ensures
        find_triple(s, c1, c2, c3) == Some(i),
{
    lemma_find_triple(s, c1, c2, c3);
    match find_triple(s, c1, c2, c3) {
        Some(k) => {
            if k < i {
                assert(!(s[k] == c1 && s[k + 1] == c2 && s[k + 2] == c3));
            } else if i < k {
                assert(!(s[i] == c1 && s[i + 1] == c2 && s[i + 2] == c3));
            }
        },
        None => {
            assert(!(s[i] == c1 && s[i + 1] == c2 && s[i + 2] == c3));
        },
    }
}

pub proof fn lemma_find_triple_none(s: Seq<char>, c1: char, c2: char, c3: char)
    requires
        forall|j: int|
            0 <= j && j + 2 < s.len() ==> !(#[trigger] s[j] == c1 && s[j + 1] == c2 && s[j + 2]
                == c3),
    ensures
        find_triple(s, c1, c2, c3) is None,
{
    lemma_find_triple(s, c1, c2, c3);
    match find_triple(s, c1, c2, c3) {
        Some(k) => {
            assert(!(s[k] == c1 && s[k + 1] == c2 && s[k + 2] == c3));
        },
        None => {},
    }
}

/// Split on a single character, the separator removed; always at least one piece.
pub open spec fn split_on(s: Seq<char>, c: char) -> Seq<Seq<char>>
    decreases s.len(),
    via split_on_dec
{
    match find_char(s, c) {
        None => seq![s],
        Some(i) => seq![s.take(i)] + split_on(s.skip(i + 1), c),
    }
}

#[via_fn]
proof fn split_on_dec(s: Seq<char>, c: char) {
    lemma_find_char(s, c);
}

/// Split on the two-character pattern `c1 c2`, left to right, non-overlapping.
pub open spec fn split_pair(s: Seq<char>, c1: char, c2: char) -> Seq<Seq<char>>
    decreases s.len(),
    via split_pair_dec
{
    match find_pair(s, c1, c2) {
        None => seq![s],
        Some(i) => seq![s.take(i)] + split_pair(s.skip(i + 2), c1, c2),
    }
}

#[via_fn]
proof fn split_pair_dec(s: Seq<char>, c1: char, c2: char) {
    lemma_find_pair(s, c1, c2);
}

pub open spec fn cdata_open() -> Seq<char> {
    seq!['<', '!', '[', 'C', 'D', 'A', 'T', 'A', '[']
}

pub open spec fn cdata_close() -> Seq<char> {
    seq![']', ']', '>']
}

/// Cut the document into sections: a piece that begins with the CDATA opener
/// runs through the first `]]>` (so a `>` inside the block does not cut it);
/// every other piece ends immediately after the next `>`. Each piece but
/// possibly the last ends with `>`, and concatenating all pieces gives back
/// the input.
pub open spec fn split_sections(s: Seq<char>) -> Seq<Seq<char>>
    decreases s.len(),
    via split_sections_dec
{
    if s.len() == 0 {
        Seq::empty()
    } else if has_prefix(s, cdata_open()) {
        match find_triple(s, ']', ']', '>') {
            None => seq![s],
            Some(i) => seq![s.take(i + 3)] + split_sections(s.skip(i + 3)),
        }
    } else {
        match find_char(s, '>') {
            None => seq![s],
            Some(i) => seq![s.take(i + 1)] + split_sections(s.skip(i + 1)),
        }
    }
}

#[via_fn]
proof fn split_sections_dec(s: Seq<char>) {
    lemma_find_triple(s, ']', ']', '>');
    lemma_find_char(s, '>');
}

/// `s` starts with `p`.
pub open spec fn has_prefix(s: Seq<char>, p: Seq<char>) -> bool {
    s.len() >= p.len() && s.take(p.len() as int) == p
}

/// `s` ends with `p`.
pub open spec fn has_suffix(s: Seq<char>, p: Seq<char>) -> bool {
    s.len() >= p.len() && s.skip(s.len() - p.len()) == p
}

} // verus!
