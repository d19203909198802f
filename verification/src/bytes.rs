//! Byte-level searching: substring and byte-set search (through `memchr`),
//! and the small scanning helpers the line classifier is built from.

use vstd::prelude::*;

verus! {

/// `pat` occurs in `s` starting at index `i`.
pub open spec fn matches_at(s: Seq<u8>, i: int, pat: Seq<u8>) -> bool {
    &&& 0 <= i
    &&& i + pat.len() <= s.len()
    &&& s.subrange(i, i + pat.len()) == pat
}

/// The first index at or after `i` at which `pat` occurs in `s`.
pub open spec fn occurrence_from(s: Seq<u8>, pat: Seq<u8>, i: int) -> Option<int>
    decreases s.len() + 1 - i,
{
    if i < 0 || i + pat.len() > s.len() {
        None
    } else if matches_at(s, i, pat) {
        Some(i)
    } else {
        occurrence_from(s, pat, i + 1)
    }
}

/// The first index at which `pat` occurs in `s`.
pub open spec fn first_occurrence(s: Seq<u8>, pat: Seq<u8>) -> Option<int> {
    occurrence_from(s, pat, 0)
}

/// `occurrence_from` is the least matching index at or after `i`.
pub proof fn lemma_occurrence_from(s: Seq<u8>, pat: Seq<u8>, i: int)
    requires
        0 <= i,
    ensures
        match occurrence_from(s, pat, i) {
            Some(k) => i <= k && matches_at(s, k, pat) && forall|j: int|
                i <= j < k ==> !matches_at(s, j, pat),
            None => forall|j: int| i <= j ==> !matches_at(s, j, pat),
        },
    decreases s.len() + 1 - i,
{
    if i + pat.len() > s.len() {
    } else if matches_at(s, i, pat) {
    } else {
        lemma_occurrence_from(s, pat, i + 1);
    }
}

/// `first_occurrence` is the least matching index.
pub proof fn lemma_first_occurrence(s: Seq<u8>, pat: Seq<u8>)
    ensures
        match first_occurrence(s, pat) {
            Some(k) => matches_at(s, k, pat) && forall|j: int| 0 <= j < k ==> !matches_at(s, j, pat),
            None => forall|j: int| !matches_at(s, j, pat),
        },
{
    lemma_occurrence_from(s, pat, 0);
}

/// Searches for the first occurrence of `needle` in `haystack`.
///
/// Trusted: calls `memchr::memmem::find`, which returns the least index at
/// which `needle` occurs in `haystack` (the empty needle occurs at index 0),
/// or `None` when it does not occur.
#[verifier::external_body]
pub fn find_subslice(haystack: &[u8], needle: &[u8]) -> (r: Option<usize>)
    ensures
        match r {
            Some(k) => first_occurrence(haystack@, needle@) == Some(k as int),
            None => first_occurrence(haystack@, needle@) is None,
        },
{
    memchr::memmem::find(haystack, needle)
}


/// The first index at or after `i` whose byte is one of `set`.
pub open spec fn byte_in_set_from(s: Seq<u8>, set: Seq<u8>, i: int) -> Option<int>
    decreases s.len() - i,
{
    if i < 0 || i >= s.len() {
        None
    } else if set.contains(s[i]) {
        Some(i)
    } else {
        byte_in_set_from(s, set, i + 1)
    }
}

/// `byte_in_set_from` is the least index at or after `i` holding a byte of `set`.
pub proof fn lemma_byte_in_set_from(s: Seq<u8>, set: Seq<u8>, i: int)
    requires
        0 <= i,
    ensures
        match byte_in_set_from(s, set, i) {
            Some(k) => i <= k < s.len() && set.contains(s[k]) && forall|j: int|
                i <= j < k ==> !set.contains(#[trigger] s[j]),
            None => forall|j: int| i <= j < s.len() ==> !set.contains(#[trigger] s[j]),
        },
    decreases s.len() - i,
{
    if i < s.len() && !set.contains(s[i]) {
        lemma_byte_in_set_from(s, set, i + 1);
    }
}

/// Searches for the first occurrence of the byte `b`.
///
/// Trusted: calls `memchr::memchr`, which returns the least index of
/// `haystack` holding `b`, or `None` when `b` does not occur.
#[verifier::external_body]
pub fn find_byte(b: u8, haystack: &[u8]) -> (r: Option<usize>)
    ensures
        match r {
            Some(k) => byte_in_set_from(haystack@, seq![b], 0) == Some(k as int),
            None => byte_in_set_from(haystack@, seq![b], 0) is None,
        },
{
    memchr::memchr(b, haystack)
}

/// Searches for the first occurrence of either of two bytes.
///
/// Trusted: calls `memchr::memchr2`, which returns the least index of
/// `haystack` holding `b1` or `b2`, or `None` when neither occurs.
#[verifier::external_body]
pub fn find_byte2(b1: u8, b2: u8, haystack: &[u8]) -> (r: Option<usize>)
    ensures
        match r {
            Some(k) => byte_in_set_from(haystack@, seq![b1, b2], 0) == Some(k as int),
            None => byte_in_set_from(haystack@, seq![b1, b2], 0) is None,
        },
{
    memchr::memchr2(b1, b2, haystack)
}

/// Searches for the first occurrence of any of three bytes.
///
/// Trusted: calls `memchr::memchr3`, which returns the least index of
/// `haystack` holding `b1`, `b2` or `b3`, or `None` when none occurs.
#[verifier::external_body]
pub fn find_byte3(b1: u8, b2: u8, b3: u8, haystack: &[u8]) -> (r: Option<usize>)
    ensures
        match r {
            Some(k) => byte_in_set_from(haystack@, seq![b1, b2, b3], 0) == Some(k as int),
            None => byte_in_set_from(haystack@, seq![b1, b2, b3], 0) is None,
        },
{
    memchr::memchr3(b1, b2, b3, haystack)
}

/// ASCII whitespace as `u8::is_ascii_whitespace` defines it: space, tab,
/// line feed, form feed and carriage return.
pub open spec fn is_ascii_ws(b: u8) -> bool {
    b == 0x20u8 || b == 0x09u8 || b == 0x0au8 || b == 0x0cu8 || b == 0x0du8
}

/// The number of ASCII whitespace bytes that `s` starts with.
pub open spec fn leading_ws(s: Seq<u8>) -> nat
    decreases s.len(),
{
    if s.len() > 0 && is_ascii_ws(s[0]) {
        1 + leading_ws(s.drop_first())
    } else {
        0
    }
}

/// `leading_ws` counts exactly the whitespace prefix.
pub proof fn lemma_leading_ws(s: Seq<u8>)
    ensures
        leading_ws(s) <= s.len(),
        forall|j: int| 0 <= j < leading_ws(s) ==> is_ascii_ws(#[trigger] s[j]),
        leading_ws(s) < s.len() ==> !is_ascii_ws(s[leading_ws(s) as int]),
    decreases s.len(),
{
    if s.len() > 0 && is_ascii_ws(s[0]) {
        lemma_leading_ws(s.drop_first());
        assert forall|j: int| 0 <= j < leading_ws(s) implies is_ascii_ws(#[trigger] s[j]) by {
            if j > 0 {
                assert(s[j] == s.drop_first()[j - 1]);
            }
        }
    }
}

/// The whitespace prefix is determined by the bytes: a prefix of `k` whitespace
/// bytes followed by a non-whitespace byte (or the end) has length `k`.
pub proof fn lemma_leading_ws_unique(s: Seq<u8>, k: int)
    requires
        0 <= k <= s.len(),
        forall|j: int| 0 <= j < k ==> is_ascii_ws(#[trigger] s[j]),
        k < s.len() ==> !is_ascii_ws(s[k]),
    ensures
        leading_ws(s) == k,
    decreases s.len(),
{
    if k > 0 {
        assert(is_ascii_ws(s[0]));
        assert forall|j: int| 0 <= j < k - 1 implies is_ascii_ws(#[trigger] s.drop_first()[j]) by {
            assert(s.drop_first()[j] == s[j + 1]);
        }
        lemma_leading_ws_unique(s.drop_first(), k - 1);
    } else if s.len() > 0 {
        assert(!is_ascii_ws(s[0]));
    }
}

/// Whether `b` is ASCII whitespace.
pub fn ascii_ws_byte(b: u8) -> (r: bool)
    ensures
        r == is_ascii_ws(b),
{
    b == 0x20u8 || b == 0x09u8 || b == 0x0au8 || b == 0x0cu8 || b == 0x0du8
}

/// Length of the leading ASCII whitespace of `s` (what
/// `<[u8]>::trim_ascii_start` removes).
pub fn leading_ws_len(s: &[u8]) -> (n: usize)
    ensures
        n == leading_ws(s@),
{
    let mut i: usize = 0;
    while i < s.len() && ascii_ws_byte(s[i])
        invariant
            i <= s.len(),
            forall|j: int| 0 <= j < i ==> is_ascii_ws(#[trigger] s@[j]),
        decreases s.len() - i,
    {
        i = i + 1;
    }
    proof {
        lemma_leading_ws_unique(s@, i as int);
    }
    i
}

/// The number of consecutive backslashes that `s` ends with.
pub open spec fn trailing_backslashes(s: Seq<u8>) -> nat
    decreases s.len(),
{
    if s.len() > 0 && s.last() == 0x5cu8 {
        1 + trailing_backslashes(s.drop_last())
    } else {
        0
    }
}

/// The byte at `pos` is escaped: it is preceded by an odd number of backslashes.
pub open spec fn escaped_at(s: Seq<u8>, pos: int) -> bool {
    trailing_backslashes(s.subrange(0, pos)) % 2 == 1
}

/// Whether the byte at `pos` in `line` is preceded by an odd number of
/// backslashes (i.e. is escaped).
pub fn is_escaped(line: &[u8], pos: usize) -> (r: bool)
    requires
        pos <= line@.len(),
    ensures
        r == escaped_at(line@, pos as int),
{
    let mut count: usize = 0;
    let mut i: usize = pos;
    while i > 0 && line[i - 1] == 0x5cu8
        invariant
            i <= pos <= line@.len(),
            count == pos - i,
            trailing_backslashes(line@.subrange(0, pos as int)) == count + trailing_backslashes(
                line@.subrange(0, i as int),
            ),
        decreases i,
    {
        assert(line@.subrange(0, i as int).drop_last() =~= line@.subrange(0, i - 1));
        i = i - 1;
        count = count + 1;
    }
    count % 2 == 1
}


/// Whether `pat` occurs in `s` at index `i` (`s[i..].starts_with(pat)`).
pub fn starts_with_at(s: &[u8], i: usize, pat: &[u8]) -> (r: bool)
    requires
        i <= s@.len(),
    ensures
        r == matches_at(s@, i as int, pat@),
{
    if pat.len() > s.len() - i {
        return false;
    }
    let mut j: usize = 0;
    while j < pat.len()
        invariant
            j <= pat@.len(),
            i + pat@.len() <= s@.len(),
            s@.len() <= usize::MAX,
            forall|m: int| 0 <= m < j ==> s@[i + m] == pat@[m],
        decreases pat@.len() - j,
    {
        if s[i + j] != pat[j] {
            proof {
                assert(s@.subrange(i as int, i + pat@.len())[j as int] != pat@[j as int]);
            }
            return false;
        }
        j = j + 1;
    }
    proof {
        assert(s@.subrange(i as int, i + pat@.len()) =~= pat@);
    }
    true
}

} // verus!
