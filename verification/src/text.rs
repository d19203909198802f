//! Character-level text helpers for file names and shebang lines, and the
//! standard-library text functions they rest on.

use vstd::prelude::*;

verus! {

broadcast use vstd::string::axiom_spec_iter;

/// The characters of `s`.
pub fn chars_of(s: &str) -> (r: Vec<char>)
    ensures
        r@ == s@,
{
    let mut v: Vec<char> = Vec::new();
    for c in it: s.chars()
        invariant
            it.seq() == s@,
            v@ == it.seq().take(it.index()),
    {
        v.push(c);
    }
    v
}


/// `a` and `b` hold the same characters.
pub fn same_chars(a: &[char], b: &[char]) -> (r: bool)
    ensures
        r == (a@ == b@),
{
    if a.len() != b.len() {
        return false;
    }
    let mut i: usize = 0;
    while i < a.len()
        invariant
            i <= a@.len(),
            a@.len() == b@.len(),
            forall|j: int| 0 <= j < i ==> a@[j] == b@[j],
        decreases a@.len() - i,
    {
        if a[i] != b[i] {
            return false;
        }
        i = i + 1;
    }
    proof {
        assert(a@ =~= b@);
    }
    true
}

/// `s` starts with `prefix`.
pub open spec fn starts_with(s: Seq<char>, prefix: Seq<char>) -> bool {
    prefix.len() <= s.len() && s.subrange(0, prefix.len() as int) == prefix
}

/// Whether `s` starts with `prefix`.
pub fn chars_start_with(s: &[char], prefix: &[char]) -> (r: bool)
    ensures
        r == starts_with(s@, prefix@),
{
    if prefix.len() > s.len() {
        return false;
    }
    let mut i: usize = 0;
    while i < prefix.len()
        invariant
            i <= prefix@.len(),
            prefix@.len() <= s@.len(),
            forall|j: int| 0 <= j < i ==> s@[j] == prefix@[j],
        decreases prefix@.len() - i,
    {
        if s[i] != prefix[i] {
            proof {
                assert(s@.subrange(0, prefix@.len() as int)[i as int] != prefix@[i as int]);
            }
            return false;
        }
        i = i + 1;
    }
    proof {
        assert(s@.subrange(0, prefix@.len() as int) =~= prefix@);
    }
    true
}

/// A copy of `s[from..to]`.
pub fn copy_range(s: &[char], from: usize, to: usize) -> (r: Vec<char>)
    requires
        from <= to <= s@.len(),
    ensures
        r@ == s@.subrange(from as int, to as int),
{
    let mut v: Vec<char> = Vec::new();
    let mut i = from;
    while i < to
        invariant
            from <= i <= to <= s@.len(),
            v@ == s@.subrange(from as int, i as int),
        decreases to - i,
    {
        v.push(s[i]);
        proof {
            assert(v@ =~= s@.subrange(from as int, i + 1));
        }
        i = i + 1;
    }
    v
}

/// The last index at which `c` occurs in the first `k` characters of `s`.
pub open spec fn last_index_upto(s: Seq<char>, c: char, k: int) -> Option<int>
    decreases k,
{
    if k <= 0 {
        None
    } else if s[k - 1] == c {
        Some(k - 1)
    } else {
        last_index_upto(s, c, k - 1)
    }
}

/// The last index at which `c` occurs in `s`.
pub open spec fn last_index_of(s: Seq<char>, c: char) -> Option<int> {
    last_index_upto(s, c, s.len() as int)
}

/// A found last index lies inside `s` and holds `c`.
pub proof fn lemma_last_index_upto(s: Seq<char>, c: char, k: int)
    requires
        k <= s.len(),
    ensures
        last_index_upto(s, c, k) matches Some(j) ==> 0 <= j < k && s[j] == c,
    decreases k,
{
    if k > 0 && s[k - 1] != c {
        lemma_last_index_upto(s, c, k - 1);
    }
}

/// The last index of `c` in `s`.
pub fn find_last(s: &[char], c: char) -> (r: Option<usize>)
    ensures
        match r {
            Some(j) => last_index_of(s@, c) == Some(j as int),
            None => last_index_of(s@, c) is None,
        },
{
    let mut k = s.len();
    while k > 0
        invariant
            k <= s@.len(),
            last_index_upto(s@, c, k as int) == last_index_of(s@, c),
        decreases k,
    {
        if s[k - 1] == c {
            return Some(k - 1);
        }
        k = k - 1;
    }
    None
}

/// The final component of `path` as `Path::file_name` gives it, if any.
pub uninterp spec fn path_file_name(path: Seq<char>) -> Option<Seq<char>>;

/// The final component of a path.
///
/// Trusted: calls `std::path::Path::file_name` and converts the name to
/// characters. The name is a function of the path alone; this contract
/// says nothing more about it.
#[verifier::external_body]
pub fn file_name_of(path: &str) -> (r: Option<Vec<char>>)
    ensures
        match r {
            Some(v) => path_file_name(path@) == Some(v@),
            None => path_file_name(path@) is None,
        },
{
    std::path::Path::new(path).file_name().and_then(|f| f.to_str()).map(|f| f.chars().collect())
}

/// The extension of a file name, as `Path::extension` documents it: none
/// without a file name or without an embedded `.`, none when the only `.`
/// begins the name, otherwise the part after the final `.`.
pub open spec fn extension_of_name(name: Option<Seq<char>>) -> Option<Seq<char>> {
    match name {
        None => None,
        Some(f) => match last_index_of(f, '.') {
            None => None,
            Some(k) => if k == 0 {
                None
            } else {
                Some(f.subrange(k + 1, f.len() as int))
            },
        },
    }
}

/// The extension of a path.
///
/// Trusted: calls `std::path::Path::extension`, which is documented to derive
/// the extension from the file name as `extension_of_name` states.
#[verifier::external_body]
pub fn extension_of(path: &str) -> (r: Option<Vec<char>>)
    ensures
        match r {
            Some(v) => extension_of_name(path_file_name(path@)) == Some(v@),
            None => extension_of_name(path_file_name(path@)) is None,
        },
{
    std::path::Path::new(path).extension().and_then(|e| e.to_str()).map(|e| e.chars().collect())
}

/// Whether `c` has the Unicode `White_Space` property (what `char::is_whitespace`
/// decides).
pub uninterp spec fn white_space(c: char) -> bool;

/// Whether `c` is whitespace.
///
/// Trusted: calls `char::is_whitespace`; the result is named, not stated.
#[verifier::external_body]
pub fn is_white_space(c: char) -> (r: bool)
    ensures
        r == white_space(c),
{
    c.is_whitespace()
}

/// The number of whitespace characters that `s` starts with, counted from `i`.
pub open spec fn white_run(s: Seq<char>, i: int) -> int
    decreases s.len() - i,
{
    if i < 0 || i >= s.len() || !white_space(s[i]) {
        i
    } else {
        white_run(s, i + 1)
    }
}

/// The index just after the last non-whitespace character of the first `k`
/// characters of `s` (0 when there is none).
pub open spec fn white_run_back(s: Seq<char>, k: int) -> int
    decreases k,
{
    if k <= 0 || !white_space(s[k - 1]) {
        k
    } else {
        white_run_back(s, k - 1)
    }
}

/// `s` without leading and trailing whitespace (what `str::trim` returns).
pub open spec fn trimmed(s: Seq<char>) -> Seq<char> {
    let a = white_run(s, 0);
    if a >= s.len() {
        Seq::empty()
    } else {
        s.subrange(a, white_run_back(s, s.len() as int))
    }
}

/// Bounds of the whitespace runs.
pub proof fn lemma_white_runs(s: Seq<char>, i: int, k: int)
    requires
        0 <= i <= s.len(),
        0 <= k <= s.len(),
    ensures
        i <= white_run(s, i) <= s.len(),
        0 <= white_run_back(s, k) <= k,
        white_run(s, i) < s.len() ==> !white_space(s[white_run(s, i)]),
        white_run_back(s, k) > 0 ==> !white_space(s[white_run_back(s, k) - 1]),
    decreases s.len() - i + k,
{
    if i < s.len() && white_space(s[i]) {
        lemma_white_runs(s, i + 1, k);
    }
    if k > 0 && white_space(s[k - 1]) {
        lemma_white_runs(s, i, k - 1);
    }
}

/// A trimmed string is non-empty only with a non-whitespace character inside,
/// which bounds the trailing run.
pub proof fn lemma_trimmed_bounds(s: Seq<char>)
    ensures
        white_run(s, 0) < s.len() ==> white_run(s, 0) < white_run_back(s, s.len() as int),
{
    lemma_white_runs(s, 0, s.len() as int);
    if white_run(s, 0) < s.len() {
        lemma_white_run_back_past(s, s.len() as int, white_run(s, 0));
    }
}

/// The backward run stops at or after any non-whitespace character.
proof fn lemma_white_run_back_past(s: Seq<char>, k: int, j: int)
    requires
        0 <= j < k <= s.len(),
        !white_space(s[j]),
    ensures
        j < white_run_back(s, k),
    decreases k,
{
    if k - 1 != j && white_space(s[k - 1]) {
        lemma_white_run_back_past(s, k - 1, j);
    }
}

/// `s` without leading and trailing whitespace.
pub fn trim_chars(s: &[char]) -> (r: Vec<char>)
    ensures
        r@ == trimmed(s@),
{
    let mut a: usize = 0;
    while a < s.len() && is_white_space(s[a])
        invariant
            a <= s@.len(),
            white_run(s@, a as int) == white_run(s@, 0),
        decreases s@.len() - a,
    {
        a = a + 1;
    }
    if a >= s.len() {
        return Vec::new();
    }
    let mut b: usize = s.len();
    while b > 0 && is_white_space(s[b - 1])
        invariant
            b <= s@.len(),
            white_run_back(s@, b as int) == white_run_back(s@, s@.len() as int),
        decreases b,
    {
        b = b - 1;
    }
    proof {
        lemma_trimmed_bounds(s@);
    }
    copy_range(s, a, b)
}

/// ASCII whitespace as `char::is_ascii_whitespace` defines it (space, tab,
/// line feed, form feed, carriage return).
pub open spec fn ascii_white(c: char) -> bool {
    c == ' ' || c == '\t' || c == '\n' || c == '\x0C' || c == '\r'
}

/// Whether `c` is ASCII whitespace.
pub fn is_ascii_white(c: char) -> (r: bool)
    ensures
        r == ascii_white(c),
{
    c == ' ' || c == '\t' || c == '\n' || c == '\x0C' || c == '\r'
}

/// The first index at or after `i` whose character is (when `white`) or is
/// not (otherwise) ASCII whitespace; the length when there is none.
pub open spec fn run_end(s: Seq<char>, i: int, white: bool) -> int
    decreases s.len() - i,
{
    if i < 0 || i >= s.len() || ascii_white(s[i]) != white {
        i
    } else {
        run_end(s, i + 1, white)
    }
}

/// A run ends inside the sequence, past its start.
pub proof fn lemma_run_end(s: Seq<char>, i: int, white: bool)
    requires
        0 <= i <= s.len(),
    ensures
        i <= run_end(s, i, white) <= s.len(),
        run_end(s, i, white) < s.len() ==> ascii_white(s[run_end(s, i, white)]) != white,
    decreases s.len() - i,
{
    if i < s.len() && ascii_white(s[i]) == white {
        lemma_run_end(s, i + 1, white);
    }
}

/// The bounds of the first word of `s` when split at ASCII whitespace (what
/// `split_ascii_whitespace` yields first), if there is a word.
pub open spec fn first_word(s: Seq<char>) -> Option<(int, int)> {
    let a = run_end(s, 0, true);
    if a >= s.len() {
        None
    } else {
        Some((a, run_end(s, a, false)))
    }
}

/// The bounds of the first word of `s`.
pub fn find_first_word(s: &[char]) -> (r: Option<(usize, usize)>)
    ensures
        match r {
            Some((a, b)) => first_word(s@) == Some((a as int, b as int)) && a < b <= s@.len(),
            None => first_word(s@) is None,
        },
{
    let mut a: usize = 0;
    while a < s.len() && is_ascii_white(s[a])
        invariant
            a <= s@.len(),
            run_end(s@, a as int, true) == run_end(s@, 0, true),
        decreases s@.len() - a,
    {
        a = a + 1;
    }
    if a >= s.len() {
        return None;
    }
    let mut b: usize = a;
    while b < s.len() && !is_ascii_white(s[b])
        invariant
            a <= b <= s@.len(),
            run_end(s@, b as int, false) == run_end(s@, a as int, false),
        decreases s@.len() - b,
    {
        b = b + 1;
    }
    proof {
        lemma_run_end(s@, a as int, true);
    }
    Some((a, b))
}

/// The part of `s` after its last `/` (all of `s` without one): what
/// `split('/').next_back()` yields.
pub open spec fn after_last_slash(s: Seq<char>) -> Seq<char> {
    match last_index_of(s, '/') {
        Some(k) => s.subrange(k + 1, s.len() as int),
        None => s,
    }
}

/// The lowercase form of `s` as `str::to_lowercase` computes it.
pub uninterp spec fn lowercase(s: Seq<char>) -> Seq<char>;

/// Lowercases `s`.
///
/// Trusted: calls `str::to_lowercase` on the string made of `s`; the result
/// is a function of `s` alone, named and not stated.
#[verifier::external_body]
pub fn to_lowercase(s: &[char]) -> (r: Vec<char>)
    ensures
        r@ == lowercase(s@),
{
    s.iter().collect::<String>().to_lowercase().chars().collect()
}

/// Decodes `bytes` as UTF-8.
///
/// Trusted: calls `std::str::from_utf8`, which succeeds exactly on valid
/// UTF-8, decoding it to its characters.
#[verifier::external_body]
pub fn decode_utf8(bytes: &[u8]) -> (r: Option<&str>)
    ensures
        match r {
            Some(s) => vstd::utf8::valid_utf8(bytes@) && s@ == vstd::utf8::decode_utf8(bytes@),
            None => !vstd::utf8::valid_utf8(bytes@),
        },
{
    std::str::from_utf8(bytes).ok()
}

} // verus!
