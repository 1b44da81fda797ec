//! Searching characters in text.
use vstd::prelude::*;

verus! {

/// Index of the first `c` at or after `from`, or -1 when there is none.
pub open spec fn first_index_of(s: Seq<char>, c: char, from: int) -> int
    decreases s.len() - from,
{
    if from < 0 || from >= s.len() {
        -1
    } else if s[from] == c {
        from
    } else {
        first_index_of(s, c, from + 1)
    }
}

/// Index of the first `::` at or after `from`, or -1 when there is none.
pub open spec fn first_double_colon(s: Seq<char>, from: int) -> int
    decreases s.len() - from,
{
    if from < 0 || from + 1 >= s.len() {
        -1
    } else if s[from] == ':' && s[from + 1] == ':' {
        from
    } else {
        first_double_colon(s, from + 1)
    }
}

/// Number of occurrences of `c` in `s`.
pub open spec fn count_char(s: Seq<char>, c: char) -> nat
    decreases s.len(),
{
    if s.len() == 0 {
        0
    } else {
        count_char(s.drop_last(), c) + if s.last() == c {
            1nat
        } else {
            0nat
        }
    }
}

pub proof fn lemma_first_index_of_bounds(s: Seq<char>, c: char, from: int)
    requires
        0 <= from,
    ensures
        first_index_of(s, c, from) == -1 || (from <= first_index_of(s, c, from) < s.len() && s[first_index_of(s, c, from)] == c),
    decreases s.len() - from,
{
    if from < s.len() && s[from] != c {
        lemma_first_index_of_bounds(s, c, from + 1);
    }
}

/// Position of the first `c` at or after `from`.
pub fn find_char(s: &str, c: char, from: usize) -> (r: Option<usize>)
    ensures
        match r {
            Some(i) => i as int == first_index_of(s@, c, from as int) && from <= i < s@.len() && s@[i as int] == c,
            None => first_index_of(s@, c, from as int) == -1,
        },
{
    proof {
        lemma_first_index_of_bounds(s@, c, from as int);
    }
    let n = s.unicode_len();
    let mut i = from;
    while i < n
        invariant
            n == s@.len(),
            from <= i,
            first_index_of(s@, c, i as int) == first_index_of(s@, c, from as int),
        decreases n - i,
    {
        if s.get_char(i) == c {
            return Some(i);
        }
        i = i + 1;
    }
    None
}

/// Position of the first `::`.
pub fn find_double_colon(s: &str) -> (r: Option<usize>)
    ensures
        match r {
            Some(i) => i as int == first_double_colon(s@, 0) && i + 1 < s@.len(),
            None => first_double_colon(s@, 0) == -1,
        },
{
    let n = s.unicode_len();
    let mut i: usize = 0;
    while i < n && i + 1 < n
        invariant
            n == s@.len(),
            i <= n,
            first_double_colon(s@, i as int) == first_double_colon(s@, 0),
        decreases n - i,
    {
        if s.get_char(i) == ':' && s.get_char(i + 1) == ':' {
            return Some(i);
        }
        i = i + 1;
    }
    None
}

/// Number of occurrences of `c`.
pub fn count_chars(s: &str, c: char) -> (r: usize)
    ensures
        r == count_char(s@, c),
{
    let n = s.unicode_len();
    let mut i: usize = 0;
    let mut k: usize = 0;
    assert(s@.take(0) =~= Seq::<char>::empty());
    while i < n
        invariant
            n == s@.len(),
            0 <= i <= n,
            k <= i,
            k == count_char(s@.take(i as int), c),
        decreases n - i,
    {
        assert(s@.take(i + 1).drop_last() =~= s@.take(i as int));
        if s.get_char(i) == c {
            k = k + 1;
        }
        i = i + 1;
    }
    assert(s@.take(n as int) =~= s@);
    k
}

/// Whether `s` starts with `prefix`.
pub fn starts_with(s: &str, prefix: &str) -> (r: bool)
    ensures
        r == (prefix@.len() <= s@.len() && s@.subrange(0, prefix@.len() as int) == prefix@),
{
    let n = prefix.unicode_len();
    if n > s.unicode_len() {
        return false;
    }
    let mut i: usize = 0;
    while i < n
        invariant
            n == prefix@.len(),
            n <= s@.len(),
            0 <= i <= n,
            forall|j: int| 0 <= j < i ==> s@[j] == prefix@[j],
        decreases n - i,
    {
        if s.get_char(i) != prefix.get_char(i) {
            assert(s@.subrange(0, n as int)[i as int] != prefix@[i as int]);
            return false;
        }
        i = i + 1;
    }
    assert(s@.subrange(0, n as int) =~= prefix@);
    true
}

pub proof fn lemma_first_index_of_absent(s: Seq<char>, c: char, from: int)
    requires
        0 <= from,
        first_index_of(s, c, from) == -1,
    ensures
        forall|i: int| from <= i < s.len() ==> s[i] != c,
    decreases s.len() - from,
{
    if from < s.len() {
        lemma_first_index_of_absent(s, c, from + 1);
    }
}

/// The characters with the Unicode White_Space property.
pub open spec fn is_white_space(c: char) -> bool {
    ('\u{9}' <= c && c <= '\u{d}') || c == ' ' || c == '\u{85}' || c == '\u{a0}' || c == '\u{1680}'
        || ('\u{2000}' <= c && c <= '\u{200a}') || c == '\u{2028}' || c == '\u{2029}' || c
        == '\u{202f}' || c == '\u{205f}' || c == '\u{3000}'
}

/// Index of the first character at or after `i` that is not white space,
/// or the length.
pub open spec fn skip_white(s: Seq<char>, i: int) -> int
    decreases s.len() - i,
{
    if i < 0 || i >= s.len() || !is_white_space(s[i]) {
        i
    } else {
        skip_white(s, i + 1)
    }
}

/// Index of the first white-space character at or after `i`, or the
/// length.
pub open spec fn word_end(s: Seq<char>, i: int) -> int
    decreases s.len() - i,
{
    if i < 0 || i >= s.len() || is_white_space(s[i]) {
        i
    } else {
        word_end(s, i + 1)
    }
}

/// The end of `s[lo..j]` once trailing white space is removed.
pub open spec fn trim_end(s: Seq<char>, j: int, lo: int) -> int
    decreases j - lo,
{
    if j <= lo || j > s.len() || !is_white_space(s[j - 1]) {
        j
    } else {
        trim_end(s, j - 1, lo)
    }
}

} // verus!
