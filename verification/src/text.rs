//! Character-level helpers: whitespace, trimming, and first-occurrence
//! searches used by the lexer, each with an exact specification.

use vstd::prelude::*;

verus! {

broadcast use vstd::seq::group_seq_axioms, vstd::std_specs::vec::group_vec_axioms;

use vstd::string::StrSliceExecFns;

/// The whitespace characters this library splits and trims on.
pub open spec fn is_space(c: char) -> bool {
    c == ' ' || c == '\t' || c == '\r' || c == '\n'
}

/// Executable test for [`is_space`].
pub fn is_space_char(c: char) -> (r: bool)
    ensures
        r == is_space(c),
{
    c == ' ' || c == '\t' || c == '\r' || c == '\n'
}

/// The index of the first whitespace character, or the length if there is
/// none.
pub open spec fn first_space_idx(s: Seq<char>) -> int
    decreases s.len(),
{
    if s.len() == 0 {
        0
    } else if is_space(s[0]) {
        0
    } else {
        1 + first_space_idx(s.subrange(1, s.len() as int))
    }
}

/// What [`first_space_idx`] returns: the position of the first whitespace
/// character, or the length.
pub proof fn lemma_first_space_idx(s: Seq<char>)
    ensures
        0 <= first_space_idx(s) <= s.len(),
        forall|j: int| 0 <= j < first_space_idx(s) ==> !is_space(s[j]),
        first_space_idx(s) < s.len() ==> is_space(s[first_space_idx(s)]),
    decreases s.len(),
{
    if s.len() == 0 {
    } else if is_space(s[0]) {
    } else {
        let t = s.subrange(1, s.len() as int);
        lemma_first_space_idx(t);
        assert forall|j: int| 0 <= j < first_space_idx(s) implies !is_space(s[j]) by {
            if j > 0 {
                assert(s[j] == t[j - 1]);
            }
        }
    }
}

/// The index of the first occurrence of `c`, or the length if there is
/// none.
pub open spec fn first_idx_of(s: Seq<char>, c: char) -> int
    decreases s.len(),
{
    if s.len() == 0 {
        0
    } else if s[0] == c {
        0
    } else {
        1 + first_idx_of(s.subrange(1, s.len() as int), c)
    }
}

/// What [`first_idx_of`] returns: the position of the first occurrence of
/// `c`, or the length.
pub proof fn lemma_first_idx_of(s: Seq<char>, c: char)
    ensures
        0 <= first_idx_of(s, c) <= s.len(),
        forall|j: int| 0 <= j < first_idx_of(s, c) ==> s[j] != c,
        first_idx_of(s, c) < s.len() ==> s[first_idx_of(s, c)] == c,
    decreases s.len(),
{
    if s.len() == 0 {
    } else if s[0] == c {
    } else {
        let t = s.subrange(1, s.len() as int);
        lemma_first_idx_of(t, c);
        assert forall|j: int| 0 <= j < first_idx_of(s, c) implies s[j] != c by {
            if j > 0 {
                assert(s[j] == t[j - 1]);
            }
        }
    }
}

/// Whether `c` occurs anywhere in `s`.
pub open spec fn has_char(s: Seq<char>, c: char) -> bool {
    first_idx_of(s, c) < s.len()
}

/// The index of the first occurrence of the two-character run `a` then
/// `b`, or `s.len() - 1` capped below by 0 if there is none.
pub open spec fn first_pair_idx(s: Seq<char>, a: char, b: char) -> int
    decreases s.len(),
{
    if s.len() < 2 {
        0
    } else if s[0] == a && s[1] == b {
        0
    } else {
        1 + first_pair_idx(s.subrange(1, s.len() as int), a, b)
    }
}

/// Whether the two-character run `a` then `b` occurs anywhere in `s`.
pub open spec fn has_pair(s: Seq<char>, a: char, b: char) -> bool {
    let i = first_pair_idx(s, a, b);
    i + 1 < s.len() && s[i] == a && s[i + 1] == b
}

/// What [`first_pair_idx`] returns: the position of the first occurrence
/// of the run, before which the run never occurs.
pub proof fn lemma_first_pair_idx(s: Seq<char>, a: char, b: char)
    ensures
        0 <= first_pair_idx(s, a, b),
        s.len() == 0 ==> first_pair_idx(s, a, b) == 0,
        s.len() >= 1 ==> first_pair_idx(s, a, b) <= s.len() - 1,
        forall|j: int|
            0 <= j < first_pair_idx(s, a, b) ==> !((#[trigger] s[j]) == a && j + 1 < s.len()
                && s[j + 1] == b),
        has_pair(s, a, b) == (exists|j: int|
            0 <= j && j + 1 < s.len() && (#[trigger] s[j]) == a && s[j + 1] == b),
    decreases s.len(),
{
    if s.len() < 2 {
    } else if s[0] == a && s[1] == b {
    } else {
        let t = s.subrange(1, s.len() as int);
        lemma_first_pair_idx(t, a, b);
        let i = first_pair_idx(s, a, b);
        assert forall|j: int|
            0 <= j < i implies !((#[trigger] s[j]) == a && j + 1 < s.len() && s[j + 1] == b) by {
            if j > 0 {
                assert(s[j] == t[j - 1] && (j + 1 < s.len() ==> s[j + 1] == t[j]));
            }
        }
        if has_pair(s, a, b) {
            assert(s[i] == a && s[i + 1] == b);
        }
        if exists|j: int| 0 <= j && j + 1 < s.len() && (#[trigger] s[j]) == a && s[j + 1] == b {
            let j = choose|j: int| 0 <= j && j + 1 < s.len() && (#[trigger] s[j]) == a && s[j + 1] == b;
            if j == 0 {
                assert(false);
            } else {
                assert(t[j - 1] == a && t[j] == b);
                assert(has_pair(t, a, b));
                assert(has_pair(s, a, b));
            }
        }
    }
}

/// A character occurs exactly when some position holds it.
pub proof fn lemma_has_char_iff(s: Seq<char>, c: char)
    ensures
        has_char(s, c) == (exists|j: int| 0 <= j < s.len() && s[j] == c),
{
    lemma_first_idx_of(s, c);
    if has_char(s, c) {
        assert(s[first_idx_of(s, c)] == c);
    }
    if exists|j: int| 0 <= j < s.len() && s[j] == c {
        let j = choose|j: int| 0 <= j < s.len() && s[j] == c;
        if first_idx_of(s, c) == s.len() {
            assert(s[j] != c);
        }
    }
}

/// The index of the first occurrence of the three-character run `a`,
/// `b`, `c`, or an out-of-range position if there is none.
pub open spec fn first_triple_idx(s: Seq<char>, a: char, b: char, c: char) -> int
    decreases s.len(),
{
    if s.len() < 3 {
        0
    } else if s[0] == a && s[1] == b && s[2] == c {
        0
    } else {
        1 + first_triple_idx(s.subrange(1, s.len() as int), a, b, c)
    }
}

/// Whether the three-character run occurs anywhere in `s`.
pub open spec fn has_triple(s: Seq<char>, a: char, b: char, c: char) -> bool {
    let i = first_triple_idx(s, a, b, c);
    i + 2 < s.len() && s[i] == a && s[i + 1] == b && s[i + 2] == c
}

/// What [`first_triple_idx`] returns: the position of the first
/// occurrence of the run, before which the run never occurs.
pub proof fn lemma_first_triple_idx(s: Seq<char>, a: char, b: char, c: char)
    ensures
        0 <= first_triple_idx(s, a, b, c),
        s.len() == 0 ==> first_triple_idx(s, a, b, c) == 0,
        s.len() >= 1 ==> first_triple_idx(s, a, b, c) <= s.len() - 1,
        forall|j: int|
            0 <= j < first_triple_idx(s, a, b, c) ==> !((#[trigger] s[j]) == a && j + 2 < s.len()
                && s[j + 1] == b && s[j + 2] == c),
        has_triple(s, a, b, c) == (exists|j: int|
            0 <= j && j + 2 < s.len() && (#[trigger] s[j]) == a && s[j + 1] == b && s[j + 2] == c),
    decreases s.len(),
{
    if s.len() < 3 {
    } else if s[0] == a && s[1] == b && s[2] == c {
    } else {
        let t = s.subrange(1, s.len() as int);
        lemma_first_triple_idx(t, a, b, c);
        let i = first_triple_idx(s, a, b, c);
        assert forall|j: int|
            0 <= j < i implies !((#[trigger] s[j]) == a && j + 2 < s.len() && s[j + 1] == b && s[j
            + 2] == c) by {
            if j > 0 {
                assert(s[j] == t[j - 1] && (j + 1 < s.len() ==> s[j + 1] == t[j]) && (j + 2
                    < s.len() ==> s[j + 2] == t[j + 1]));
            }
        }
        if has_triple(s, a, b, c) {
            assert(s[i] == a && s[i + 1] == b && s[i + 2] == c);
        }
        if exists|j: int|
            0 <= j && j + 2 < s.len() && (#[trigger] s[j]) == a && s[j + 1] == b && s[j + 2] == c {
            let j = choose|j: int|
                0 <= j && j + 2 < s.len() && (#[trigger] s[j]) == a && s[j + 1] == b && s[j + 2]
                    == c;
            if j == 0 {
                assert(false);
            } else {
                assert(t[j - 1] == a && t[j] == b && t[j + 1] == c);
                assert(has_triple(t, a, b, c));
                assert(has_triple(s, a, b, c));
            }
        }
    }
}

/// The index of the first occurrence of the run `a`, `b`, `c`, together
/// with whether the run occurs at all.
pub fn find_triple(s: &str, a: char, b: char, c: char) -> (r: (usize, bool))
    ensures
        r.1 == has_triple(s@, a, b, c),
        r.1 ==> r.0 == first_triple_idx(s@, a, b, c),
{
    let n = s.unicode_len();
    if n < 3 {
        proof {
            lemma_first_triple_idx(s@, a, b, c);
        }
        return (0, false);
    }
    let mut i: usize = 0;
    while i + 2 < n && !(s.get_char(i) == a && s.get_char(i + 1) == b && s.get_char(i + 2) == c)
        invariant
            0 <= i,
            i + 2 <= n,
            n == s@.len(),
            n >= 3,
            forall|j: int|
                0 <= j < i ==> !((#[trigger] s@[j]) == a && j + 2 < n && s@[j + 1] == b && s@[j
                    + 2] == c),
        decreases n - i,
    {
        i += 1;
    }
    proof {
        lemma_first_triple_idx(s@, a, b, c);
    }
    if s.get_char(i) == a && i + 2 < n && s.get_char(i + 1) == b && s.get_char(i + 2) == c {
        proof {
            let f = first_triple_idx(s@, a, b, c);
            if f < i {
                assert(!(s@[f] == a && f + 2 < n && s@[f + 1] == b && s@[f + 2] == c));
            }
            if i < f {
                assert(!(s@[i as int] == a && i + 2 < n && s@[i as int + 1] == b && s@[i as int
                    + 2] == c));
            }
            assert(has_triple(s@, a, b, c));
        }
        (i, true)
    } else {
        proof {
            if has_triple(s@, a, b, c) {
                let f = first_triple_idx(s@, a, b, c);
                assert(s@[f] == a && f + 2 < n && s@[f + 1] == b && s@[f + 2] == c);
                assert(f >= i);
                assert(false);
            }
        }
        (0, false)
    }
}

/// The sequence with leading whitespace removed.
pub open spec fn trim_left(s: Seq<char>) -> Seq<char>
    decreases s.len(),
{
    if s.len() > 0 && is_space(s[0]) {
        trim_left(s.subrange(1, s.len() as int))
    } else {
        s
    }
}

/// The sequence with trailing whitespace removed.
pub open spec fn trim_right(s: Seq<char>) -> Seq<char>
    decreases s.len(),
{
    if s.len() > 0 && is_space(s[s.len() - 1]) {
        trim_right(s.subrange(0, s.len() - 1))
    } else {
        s
    }
}

/// The sequence with surrounding whitespace removed.
pub open spec fn trim_spec(s: Seq<char>) -> Seq<char> {
    trim_right(trim_left(s))
}

/// Dropping one leading space at a time reaches the first non-space.
proof fn lemma_trim_left_skip(s: Seq<char>, i: int)
    requires
        0 <= i <= s.len(),
        forall|j: int| 0 <= j < i ==> is_space(s[j]),
    ensures
        trim_left(s) == trim_left(s.subrange(i, s.len() as int)),
    decreases i,
{
    if i == 0 {
        assert(s.subrange(0, s.len() as int) =~= s);
    } else {
        assert(is_space(s[0]));
        let t = s.subrange(1, s.len() as int);
        lemma_trim_left_skip(t, i - 1);
        assert(t.subrange(i - 1, t.len() as int) =~= s.subrange(i, s.len() as int));
    }
}

/// Dropping one trailing space at a time reaches the last non-space.
proof fn lemma_trim_right_skip(s: Seq<char>, e: int)
    requires
        0 <= e <= s.len(),
        forall|j: int| e <= j < s.len() ==> is_space(s[j]),
    ensures
        trim_right(s) == trim_right(s.subrange(0, e)),
    decreases s.len() - e,
{
    if e == s.len() {
        assert(s.subrange(0, s.len() as int) =~= s);
    } else {
        assert(is_space(s[s.len() - 1]));
        let t = s.subrange(0, s.len() - 1);
        lemma_trim_right_skip(t, e);
        assert(t.subrange(0, e) =~= s.subrange(0, e));
    }
}

/// A trimmed sequence neither starts nor ends with whitespace.
pub proof fn lemma_trim_ends(s: Seq<char>)
    ensures
        trim_spec(s).len() > 0 ==> !is_space(trim_spec(s)[0]),
        trim_spec(s).len() > 0 ==> !is_space(trim_spec(s)[trim_spec(s).len() - 1]),
{
    lemma_trim_left_head(s);
    lemma_trim_right_keeps_head(trim_left(s));
    lemma_trim_right_last(trim_left(s));
}

/// Removing leading whitespace leaves a non-space first character.
proof fn lemma_trim_left_head(s: Seq<char>)
    ensures
        trim_left(s).len() > 0 ==> !is_space(trim_left(s)[0]),
    decreases s.len(),
{
    if s.len() > 0 && is_space(s[0]) {
        lemma_trim_left_head(s.subrange(1, s.len() as int));
    }
}

/// Removing trailing whitespace leaves a non-space last character.
proof fn lemma_trim_right_last(s: Seq<char>)
    ensures
        trim_right(s).len() > 0 ==> !is_space(trim_right(s)[trim_right(s).len() - 1]),
    decreases s.len(),
{
    if s.len() > 0 && is_space(s[s.len() - 1]) {
        lemma_trim_right_last(s.subrange(0, s.len() - 1));
    }
}

/// Removing trailing whitespace keeps the first character.
proof fn lemma_trim_right_keeps_head(s: Seq<char>)
    ensures
        trim_right(s).len() > 0 ==> trim_right(s)[0] == s[0],
    decreases s.len(),
{
    if s.len() > 0 && is_space(s[s.len() - 1]) {
        lemma_trim_right_keeps_head(s.subrange(0, s.len() - 1));
    }
}

/// Trims surrounding whitespace from a string slice.
pub fn trim_str<'a>(s: &'a str) -> (r: &'a str)
    ensures
        r@ == trim_spec(s@),
{
    let n = s.unicode_len();
    let mut b: usize = 0;
    while b < n && is_space_char(s.get_char(b))
        invariant
            0 <= b <= n,
            n == s@.len(),
            forall|j: int| 0 <= j < b ==> is_space(s@[j]),
        decreases n - b,
    {
        b += 1;
    }
    let mut e: usize = n;
    while e > b && is_space_char(s.get_char(e - 1))
        invariant
            b <= e <= n,
            n == s@.len(),
            forall|j: int| e <= j < n ==> is_space(s@[j]),
        decreases e,
    {
        e -= 1;
    }
    let r = s.substring_char(b, e);
    proof {
        let tl = s@.subrange(b as int, n as int);
        lemma_trim_left_skip(s@, b as int);
        if b < n {
            assert(!is_space(tl[0]));
            assert(trim_left(s@) == tl);
        } else {
            assert(tl =~= Seq::<char>::empty());
            assert(trim_left(s@) == tl);
        }
        lemma_trim_right_skip(tl, e - b);
        let tr = tl.subrange(0, e - b);
        if e > b {
            assert(tl[e - b - 1] == s@[e - 1]);
            assert(!is_space(tr[tr.len() - 1]));
            assert(trim_right(tl) == tr);
        } else {
            assert(tr =~= Seq::<char>::empty());
            assert(trim_right(tl) == tr);
        }
        assert(r@ =~= tr);
    }
    r
}

/// The index of the first whitespace character, or the length.
pub fn find_space(s: &str) -> (r: usize)
    ensures
        r == first_space_idx(s@),
{
    let n = s.unicode_len();
    let mut i: usize = 0;
    while i < n && !is_space_char(s.get_char(i))
        invariant
            0 <= i <= n,
            n == s@.len(),
            forall|j: int| 0 <= j < i ==> !is_space(s@[j]),
        decreases n - i,
    {
        i += 1;
    }
    proof {
        lemma_first_space_idx(s@);
        let f = first_space_idx(s@);
        if f < i {
            assert(!is_space(s@[f]));
        }
        if i < f {
            assert(is_space(s@[i as int]));
        }
    }
    i
}

/// The index of the first occurrence of `c`, or the length.
pub fn find_char(s: &str, c: char) -> (r: usize)
    ensures
        r == first_idx_of(s@, c),
{
    let n = s.unicode_len();
    let mut i: usize = 0;
    while i < n && s.get_char(i) != c
        invariant
            0 <= i <= n,
            n == s@.len(),
            forall|j: int| 0 <= j < i ==> s@[j] != c,
        decreases n - i,
    {
        i += 1;
    }
    proof {
        lemma_first_idx_of(s@, c);
        let f = first_idx_of(s@, c);
        if f < i {
            assert(s@[f] != c);
        }
        if i < f {
            assert(s@[i as int] == c);
        }
    }
    i
}

/// The index of the first occurrence of the run `a` then `b`, together
/// with whether the run occurs at all.
pub fn find_pair(s: &str, a: char, b: char) -> (r: (usize, bool))
    ensures
        r.1 == has_pair(s@, a, b),
        r.1 ==> r.0 == first_pair_idx(s@, a, b),
{
    let n = s.unicode_len();
    if n < 2 {
        proof {
            lemma_first_pair_idx(s@, a, b);
        }
        return (0, false);
    }
    let mut i: usize = 0;
    while i + 1 < n && !(s.get_char(i) == a && s.get_char(i + 1) == b)
        invariant
            0 <= i,
            i + 1 <= n,
            n == s@.len(),
            n >= 2,
            forall|j: int| 0 <= j < i ==> !((#[trigger] s@[j]) == a && j + 1 < n && s@[j + 1] == b),
        decreases n - i,
    {
        i += 1;
    }
    proof {
        lemma_first_pair_idx(s@, a, b);
    }
    if s.get_char(i) == a && i + 1 < n && s.get_char(i + 1) == b {
        proof {
            let f = first_pair_idx(s@, a, b);
            if f < i {
                assert(!(s@[f] == a && f + 1 < n && s@[f + 1] == b));
            }
            if i < f {
                assert(!(s@[i as int] == a && i + 1 < n && s@[i as int + 1] == b));
            }
            assert(has_pair(s@, a, b));
        }
        (i, true)
    } else {
        proof {
            if has_pair(s@, a, b) {
                let f = first_pair_idx(s@, a, b);
                assert(s@[f] == a && f + 1 < n && s@[f + 1] == b);
                assert(f >= i);
                assert(false);
            }
        }
        (0, false)
    }
}

} // verus!
