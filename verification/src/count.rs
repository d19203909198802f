//! The line classifier: a per-line state machine that tracks block comments
//! and multiline strings across lines and classifies every line as blank,
//! comment or code.

use vstd::prelude::*;

use crate::bytes::{
    byte_in_set_from, escaped_at, find_byte, find_byte2, find_byte3, find_subslice,
    first_occurrence, is_escaped, leading_ws, leading_ws_len, lemma_byte_in_set_from,
    lemma_first_occurrence, lemma_leading_ws, matches_at, starts_with_at,
};

verus! {

/// A pair of string delimiters, e.g. `"` ... `"` or `"""` ... `"""`.
#[derive(Debug, Clone)]
pub struct StringDelimiter {
    pub open: Vec<u8>,
    pub close: Vec<u8>,
    pub backslash_escapes: bool,
}

/// The comment and string syntax of a language.
#[derive(Debug, Clone)]
pub struct LangSyntax {
    pub line_comment: Option<Vec<u8>>,
    pub block_comment: Option<(Vec<u8>, Vec<u8>)>,
    pub single_line_strings: Vec<StringDelimiter>,
    pub multiline_strings: Vec<StringDelimiter>,
    pub docstring_delimiters: Vec<StringDelimiter>,
}

/// A string delimiter pair as bytes: opener, closer, and whether a backslash
/// escapes the closer.
#[verifier::ext_equal]
pub struct DelimView {
    pub open: Seq<u8>,
    pub close: Seq<u8>,
    pub backslash_escapes: bool,
}

impl View for StringDelimiter {
    type V = DelimView;

    open spec fn view(&self) -> DelimView {
        DelimView {
            open: self.open@,
            close: self.close@,
            backslash_escapes: self.backslash_escapes,
        }
    }
}

/// The comment and string syntax of a language, as bytes.
#[verifier::ext_equal]
pub struct SyntaxView {
    pub line_comment: Option<Seq<u8>>,
    pub block_comment: Option<(Seq<u8>, Seq<u8>)>,
    pub single_line_strings: Seq<DelimView>,
    pub multiline_strings: Seq<DelimView>,
    pub docstring_delimiters: Seq<DelimView>,
}

/// The views of a sequence of delimiters.
pub open spec fn delim_views(ds: Seq<StringDelimiter>) -> Seq<DelimView> {
    ds.map_values(|d: StringDelimiter| d@)
}

impl View for LangSyntax {
    type V = SyntaxView;

    open spec fn view(&self) -> SyntaxView {
        SyntaxView {
            line_comment: match self.line_comment {
                Some(v) => Some(v@),
                None => None,
            },
            block_comment: match self.block_comment {
                Some((s, e)) => Some((s@, e@)),
                None => None,
            },
            single_line_strings: delim_views(self.single_line_strings@),
            multiline_strings: delim_views(self.multiline_strings@),
            docstring_delimiters: delim_views(self.docstring_delimiters@),
        }
    }
}

/// The first bytes of the block comment opener and of the multiline string
/// openers among the first `k` multiline delimiters, each once, in order of
/// appearance: the bytes the scanner looks for first.
pub open spec fn triggers_upto(sx: LangSyntax, k: int) -> Seq<u8>
    decreases k,
{
    if k <= 0 {
        match sx.block_comment {
            Some((s, _)) => seq![s@[0]],
            None => Seq::empty(),
        }
    } else {
        let t = triggers_upto(sx, k - 1);
        let b = sx.multiline_strings@[k - 1].open@[0];
        if t.contains(b) {
            t
        } else {
            t.push(b)
        }
    }
}

/// The trigger bytes of a syntax.
pub open spec fn trigger_bytes(sx: LangSyntax) -> Seq<u8> {
    triggers_upto(sx, sx.multiline_strings@.len() as int)
}

impl LangSyntax {
    /// The opener of the block comment (empty when there is none).
    pub open spec fn block_start(self) -> Seq<u8> {
        match self.block_comment {
            Some((s, _)) => s@,
            None => Seq::empty(),
        }
    }

    /// The closer of the block comment (empty when there is none).
    pub open spec fn block_end(self) -> Seq<u8> {
        match self.block_comment {
            Some((_, e)) => e@,
            None => Seq::empty(),
        }
    }

    /// A syntax the classifier can run on: the block comment opener and the
    /// multiline string openers, whose first bytes the scanner keys on, are
    /// non-empty, and at most four distinct bytes start them.
    pub open spec fn wf(self) -> bool {
        &&& (self.block_comment is Some ==> self.block_start().len() > 0)
        &&& forall|i: int|
            0 <= i < self.multiline_strings@.len()
                ==> (#[trigger] self.multiline_strings@[i]).open@.len() > 0
        &&& trigger_bytes(self).len() <= 4
    }
}

/// `close` occurs in `line` at `k` and, when backslashes escape, is not
/// preceded by an odd number of backslashes.
pub open spec fn unescaped_at(line: Seq<u8>, k: int, close: Seq<u8>, esc: bool) -> bool {
    matches_at(line, k, close) && !(esc && escaped_at(line, k))
}

/// The position of the closing delimiter `close`: the least position at or
/// after `pos` where it occurs unescaped.
pub open spec fn close_from(line: Seq<u8>, pos: int, close: Seq<u8>, esc: bool) -> Option<int>
    decreases line.len() + 1 - pos,
{
    if pos < 0 || pos + close.len() > line.len() {
        None
    } else if unescaped_at(line, pos, close, esc) {
        Some(pos)
    } else {
        close_from(line, pos + 1, close, esc)
    }
}

/// The closer found by `close_from` lies inside the line, at or after `pos`,
/// and is the first unescaped occurrence there.
pub proof fn lemma_close_from(line: Seq<u8>, pos: int, close: Seq<u8>, esc: bool)
    ensures
        close_from(line, pos, close, esc) matches Some(k) ==> pos <= k && k + close.len()
            <= line.len() && matches_at(line, k, close) && unescaped_at(line, k, close, esc),
        0 <= pos ==> match close_from(line, pos, close, esc) {
            Some(k) => forall|j: int| pos <= j < k ==> !unescaped_at(line, j, close, esc),
            None => forall|j: int| pos <= j ==> !unescaped_at(line, j, close, esc),
        },
    decreases line.len() + 1 - pos,
{
    if !(pos < 0 || pos + close.len() > line.len()) && !unescaped_at(line, pos, close, esc) {
        lemma_close_from(line, pos + 1, close, esc);
    }
}

/// Positions without an unescaped closer can be skipped.
pub proof fn lemma_close_skip(line: Seq<u8>, pos: int, k: int, close: Seq<u8>, esc: bool)
    requires
        0 <= pos <= k,
        forall|j: int| pos <= j < k ==> !unescaped_at(line, j, close, esc),
    ensures
        close_from(line, pos, close, esc) == close_from(line, k, close, esc),
    decreases k - pos,
{
    if pos < k {
        lemma_close_skip(line, pos + 1, k, close, esc);
    }
}

/// `pat` occurs in a suffix of `s` exactly where it occurs in `s`.
pub proof fn lemma_matches_shift(s: Seq<u8>, pos: int, j: int, pat: Seq<u8>)
    requires
        0 <= pos <= s.len(),
        0 <= j,
    ensures
        matches_at(s.subrange(pos, s.len() as int), j, pat) == matches_at(s, pos + j, pat),
{
    let sub = s.subrange(pos, s.len() as int);
    if j + pat.len() <= sub.len() {
        assert(sub.subrange(j, j + pat.len()) =~= s.subrange(pos + j, pos + j + pat.len()));
    }
}

/// An `Option<usize>` result equals an `Option<int>` specification value.
pub open spec fn same_pos(r: Option<usize>, s: Option<int>) -> bool {
    match r {
        Some(k) => s == Some(k as int),
        None => s is None,
    }
}

/// Find the first unescaped occurrence of `close` in `line[start..]`.
/// Returns the absolute position within `line`, or `None`.
fn find_close(line: &[u8], start: usize, close: &[u8], backslash_escapes: bool) -> (r: Option<
    usize,
>)
    requires
        start <= line@.len(),
    ensures
        same_pos(r, close_from(line@, start as int, close@, backslash_escapes)),
{
    let mut pos = start;
    let n = line.len();
    loop
        invariant
            start <= pos <= line@.len(),
            n == line@.len(),
            close_from(line@, pos as int, close@, backslash_escapes) == close_from(
                line@,
                start as int,
                close@,
                backslash_escapes,
            ),
        decreases line@.len() - pos,
    {
        let rest = &line[pos..n];
        proof {
            lemma_first_occurrence(rest@, close@);
        }
        match find_subslice(rest, close) {
            None => {
                proof {
                    assert forall|j: int| pos <= j implies !unescaped_at(
                        line@,
                        j,
                        close@,
                        backslash_escapes,
                    ) by {
                        if j <= n {
                            lemma_matches_shift(line@, pos as int, j - pos, close@);
                        }
                    }
                    lemma_close_from(line@, pos as int, close@, backslash_escapes);
                }
                return None;
            },
            Some(off) => {
                let abs = pos + off;
                proof {
                    assert forall|j: int| pos <= j < abs implies !unescaped_at(
                        line@,
                        j,
                        close@,
                        backslash_escapes,
                    ) by {
                        lemma_matches_shift(line@, pos as int, j - pos, close@);
                    }
                    lemma_close_skip(line@, pos as int, abs as int, close@, backslash_escapes);
                    lemma_matches_shift(line@, pos as int, off as int, close@);
                }
                if backslash_escapes && is_escaped(line, abs) {
                    if abs >= n {
                        proof {
                            assert(close_from(line@, abs + 1, close@, backslash_escapes) is None);
                        }
                        return None;
                    }
                    pos = abs + 1;
                } else {
                    return Some(abs);
                }
            },
        }
    }
}

/// The earliest opener among the first `k` delimiters in `h`, as
/// `(offset, delimiter index)`; on equal offsets the earlier delimiter wins.
pub open spec fn earliest_upto(h: Seq<u8>, ds: Seq<StringDelimiter>, k: int) -> Option<(int, int)>
    decreases k,
{
    if k <= 0 {
        None
    } else {
        let prev = earliest_upto(h, ds, k - 1);
        match first_occurrence(h, ds[k - 1].open@) {
            None => prev,
            Some(o) => match prev {
                None => Some((o, k - 1)),
                Some((po, _)) => if o < po {
                    Some((o, k - 1))
                } else {
                    prev
                },
            },
        }
    }
}

/// The earliest string opener in `h` among `ds`.
pub open spec fn earliest_opener(h: Seq<u8>, ds: Seq<StringDelimiter>) -> Option<(int, int)> {
    earliest_upto(h, ds, ds.len() as int)
}

/// The earliest opener is one of the delimiters, found where it first occurs.
pub proof fn lemma_earliest_upto(h: Seq<u8>, ds: Seq<StringDelimiter>, k: int)
    requires
        k <= ds.len(),
    ensures
        earliest_upto(h, ds, k) matches Some((o, j)) ==> 0 <= j < k && first_occurrence(
            h,
            ds[j].open@,
        ) == Some(o) && 0 <= o && o + ds[j].open@.len() <= h.len(),
    decreases k,
{
    if k > 0 {
        lemma_earliest_upto(h, ds, k - 1);
        lemma_first_occurrence(h, ds[k - 1].open@);
    }
}

/// An `Option<(usize, usize)>` result equals an `Option<(int, int)>` value.
pub open spec fn same_pair(r: Option<(usize, usize)>, s: Option<(int, int)>) -> bool {
    match r {
        Some((a, b)) => s == Some((a as int, b as int)),
        None => s is None,
    }
}

/// Find the earliest string delimiter opener in `haystack`, as
/// `(offset, index of the delimiter)`.
fn find_earliest_opener(haystack: &[u8], delimiters: &Vec<StringDelimiter>) -> (r: Option<
    (usize, usize),
>)
    ensures
        same_pair(r, earliest_opener(haystack@, delimiters@)),
{
    let mut best: Option<(usize, usize)> = None;
    let mut k: usize = 0;
    while k < delimiters.len()
        invariant
            k <= delimiters@.len(),
            same_pair(best, earliest_upto(haystack@, delimiters@, k as int)),
        decreases delimiters@.len() - k,
    {
        match find_subslice(haystack, delimiters[k].open.as_slice()) {
            None => {},
            Some(o) => {
                match best {
                    None => {
                        best = Some((o, k));
                    },
                    Some((bo, _)) => {
                        if o < bo {
                            best = Some((o, k));
                        }
                    },
                }
            },
        }
        k = k + 1;
    }
    best
}

/// Every delimiter among the first `n` at whose opener `h` has an occurrence
/// makes `earliest_upto` find an opener no later than that occurrence.
pub proof fn lemma_earliest_min(h: Seq<u8>, ds: Seq<StringDelimiter>, n: int, k: int)
    requires
        0 <= k < n <= ds.len(),
        first_occurrence(h, ds[k].open@) is Some,
    ensures
        earliest_upto(h, ds, n) matches Some((o, _)) && o <= first_occurrence(
            h,
            ds[k].open@,
        )->0,
    decreases n,
{
    if k < n - 1 {
        lemma_earliest_min(h, ds, n - 1, k);
    }
}

/// The first single-line string of `seg` whose opener starts at or after `i`:
/// where its opener starts, and the position just past its closer (the end
/// of `seg` when it is not closed). Of openers at one position, the earlier
/// delimiter wins.
pub open spec fn string_from(seg: Seq<u8>, i: int, ds: Seq<StringDelimiter>) -> Option<(int, int)> {
    if i < 0 || i > seg.len() {
        None
    } else {
        match earliest_opener(seg.subrange(i, seg.len() as int), ds) {
            None => None,
            Some((off, k)) => {
                let d = ds[k];
                let o = i + off;
                match close_from(seg, o + d.open@.len(), d.close@, d.backslash_escapes) {
                    None => Some((o, seg.len() as int)),
                    Some(cp) => Some((o, cp + d.close@.len())),
                }
            },
        }
    }
}

/// A string found by `string_from` opens at or after `i` and ends within `seg`.
pub proof fn lemma_string_from(seg: Seq<u8>, i: int, ds: Seq<StringDelimiter>)
    ensures
        string_from(seg, i, ds) matches Some((o, e)) ==> i <= o <= e <= seg.len(),
{
    if 0 <= i <= seg.len() {
        let h = seg.subrange(i, seg.len() as int);
        lemma_earliest_upto(h, ds, ds.len() as int);
        if let Some((off, k)) = earliest_opener(h, ds) {
            let d = ds[k];
            lemma_first_occurrence(h, d.open@);
            lemma_close_from(seg, i + off + d.open@.len(), d.close@, d.backslash_escapes);
        }
    }
}

/// If `target` lies inside a single-line string of `seg`, the strings being
/// read one after another from `i`, the position just past that string. A
/// string holds the positions after the start of its opener and before the
/// end of its closer.
pub open spec fn enclosing_from(seg: Seq<u8>, i: int, target: int, ds: Seq<StringDelimiter>) -> Option<int>
    decreases seg.len() + 1 - i,
{
    match string_from(seg, i, ds) {
        None => None,
        Some((o, e)) => if target <= o {
            None
        } else if target < e {
            Some(e)
        } else if i < e <= seg.len() {
            enclosing_from(seg, e, target, ds)
        } else {
            None
        },
    }
}

/// Position `p` of `seg` lies inside a single-line string, reading the
/// strings one after another from the start of `seg`.
pub open spec fn in_string(seg: Seq<u8>, p: int, ds: Seq<StringDelimiter>) -> bool {
    enclosing_from(seg, 0, p, ds) is Some
}

/// The end of an enclosing string lies past `target`, within the segment.
pub proof fn lemma_enclosing_from(seg: Seq<u8>, i: int, target: int, ds: Seq<StringDelimiter>)
    ensures
        enclosing_from(seg, i, target, ds) matches Some(e) ==> target < e <= seg.len(),
    decreases seg.len() + 1 - i,
{
    lemma_string_from(seg, i, ds);
    if let Some((o, e)) = string_from(seg, i, ds) {
        if !(target <= o) && !(target < e) && i < e <= seg.len() {
            lemma_enclosing_from(seg, e, target, ds);
        }
    }
}

/// The strings read from `i` past the one enclosing `c` are those read from
/// its end, and every position from `c` up to that end is enclosed.
pub proof fn lemma_enclosing_chain(
    seg: Seq<u8>,
    i: int,
    c: int,
    end: int,
    ds: Seq<StringDelimiter>,
)
    requires
        enclosing_from(seg, i, c, ds) == Some(end),
    ensures
        forall|p: int| end <= p ==> enclosing_from(seg, i, p, ds) == enclosing_from(seg, end, p, ds),
        forall|q: int| c <= q < end ==> enclosing_from(seg, i, q, ds) is Some,
    decreases seg.len() + 1 - i,
{
    lemma_string_from(seg, i, ds);
    let (o, e) = string_from(seg, i, ds)->0;
    if !(c < e) {
        lemma_enclosing_chain(seg, e, c, end, ds);
        lemma_enclosing_from(seg, e, c, ds);
        assert forall|q: int| c <= q < end implies enclosing_from(seg, i, q, ds) is Some by {
            assert(enclosing_from(seg, i, q, ds) == enclosing_from(seg, e, q, ds));
        }
    } else {
        assert forall|q: int| c <= q < end implies enclosing_from(seg, i, q, ds) is Some by {
            assert(enclosing_from(seg, i, q, ds) == Some(e));
        }
    }
}

/// Where a position holds the opener of a multiline construct, the opener's
/// first byte is a trigger byte.
pub proof fn lemma_triggers_upto(sx: LangSyntax, n: int)
    requires
        0 <= n <= sx.multiline_strings@.len(),
    ensures
        sx.block_comment is Some && sx.block_start().len() > 0 ==> triggers_upto(sx, n).contains(
            sx.block_start()[0],
        ),
        forall|k: int|
            0 <= k < n && (#[trigger] sx.multiline_strings@[k]).open@.len() > 0
                ==> triggers_upto(sx, n).contains(sx.multiline_strings@[k].open@[0]),
    decreases n,
{
    if n > 0 {
        lemma_triggers_upto(sx, n - 1);
        let t = triggers_upto(sx, n - 1);
        let b = sx.multiline_strings@[n - 1].open@[0];
        if !t.contains(b) {
            assert(t.push(b)[t.len() as int] == b);
            assert forall|x: u8| t.contains(x) implies t.push(b).contains(x) by {
                let j = choose|j: int| 0 <= j < t.len() && t[j] == x;
                assert(t.push(b)[j] == x);
            }
        }
    } else {
        if sx.block_comment is Some {
            assert(triggers_upto(sx, 0)[0] == sx.block_start()[0]);
        }
    }
}

/// The least position at or after `p` where a multiline string or block
/// comment opens, inside or outside strings.
pub open spec fn first_opener_from(seg: Seq<u8>, sx: LangSyntax, p: int) -> Option<int>
    decreases seg.len() - p,
{
    if p < 0 || p >= seg.len() {
        None
    } else if event_at(seg, sx, p) is Some {
        Some(p)
    } else {
        first_opener_from(seg, sx, p + 1)
    }
}

/// Positions where nothing opens can be skipped.
proof fn lemma_opener_skip(seg: Seq<u8>, sx: LangSyntax, a: int, b: int)
    requires
        0 <= a <= b,
        forall|q: int| a <= q < b ==> event_at(seg, sx, q) is None,
    ensures
        first_opener_from(seg, sx, a) == first_opener_from(seg, sx, b)
            || (b > seg.len() && first_opener_from(seg, sx, a) is None),
    decreases b - a,
{
    if a < b {
        lemma_opener_skip(seg, sx, a + 1, b);
    }
}

/// A multiline construct opens at `p` outside every single-line string.
pub open spec fn visible_event(seg: Seq<u8>, sx: LangSyntax, p: int) -> bool {
    &&& 0 <= p < seg.len()
    &&& event_at(seg, sx, p) is Some
    &&& !in_string(seg, p, sx.single_line_strings@)
}

/// The least position at or after `p` where a multiline construct opens
/// outside every single-line string.
pub open spec fn first_visible_from(seg: Seq<u8>, sx: LangSyntax, p: int) -> Option<int>
    decreases seg.len() - p,
{
    if p < 0 || p >= seg.len() {
        None
    } else if visible_event(seg, sx, p) {
        Some(p)
    } else {
        first_visible_from(seg, sx, p + 1)
    }
}

/// Positions where nothing opens outside strings can be skipped.
proof fn lemma_visible_skip(seg: Seq<u8>, sx: LangSyntax, a: int, b: int)
    requires
        0 <= a <= b <= seg.len(),
        forall|q: int| a <= q < b ==> !visible_event(seg, sx, q),
    ensures
        first_visible_from(seg, sx, a) == first_visible_from(seg, sx, b),
    decreases b - a,
{
    if a < b {
        lemma_visible_skip(seg, sx, a + 1, b);
    }
}

/// The first string of `seg` that opens at or after `i`.
fn next_string(seg: &[u8], i: usize, ds: &Vec<StringDelimiter>) -> (r: Option<(usize, usize)>)
    requires
        i <= seg@.len(),
    ensures
        same_pair(r, string_from(seg@, i as int, ds@)),
{
    let n = seg.len();
    let ghost h = seg@.subrange(i as int, n as int);
    proof {
        lemma_earliest_upto(h, ds@, ds@.len() as int);
    }
    match find_earliest_opener(&seg[i..n], ds) {
        None => None,
        Some((off, k)) => {
            let d = &ds[k];
            let o = i + off;
            let after = o + d.open.len();
            match find_close(seg, after, d.close.as_slice(), d.backslash_escapes) {
                None => Some((o, n)),
                Some(cp) => {
                    proof {
                        lemma_close_from(seg@, after as int, d.close@, d.backslash_escapes);
                    }
                    Some((o, cp + d.close.len()))
                },
            }
        },
    }
}

/// If the position `target` in `seg` falls inside a single-line string, the
/// strings being read from `start` on, returns `Some(end)` where `end` is
/// past the closing delimiter of that string. Otherwise returns `None`.
fn string_enclosing(seg: &[u8], start: usize, target: usize, delimiters: &Vec<StringDelimiter>) -> (r:
    Option<usize>)
    requires
        start <= target <= seg@.len(),
    ensures
        same_pos(r, enclosing_from(seg@, start as int, target as int, delimiters@)),
{
    let mut i = start;
    let n = seg.len();
    loop
        invariant
            start <= i <= seg@.len(),
            n == seg@.len(),
            enclosing_from(seg@, i as int, target as int, delimiters@) == enclosing_from(
                seg@,
                start as int,
                target as int,
                delimiters@,
            ),
        decreases seg@.len() - i,
    {
        proof {
            lemma_string_from(seg@, i as int, delimiters@);
        }
        match next_string(seg, i, delimiters) {
            None => return None,
            Some((o, e)) => {
                if target <= o {
                    return None;
                } else if target < e {
                    return Some(e);
                } else if i < e {
                    i = e;
                } else {
                    return None;
                }
            },
        }
    }
}

/// A multiline construct found by `find_next_event`.
#[derive(Debug, Clone, Copy, PartialEq, Eq, Structural)]
pub enum Event {
    /// A multiline string opens at `pos` with the multiline delimiter `delim`.
    MultilineString { pos: usize, delim: usize },
    /// A block comment opens at `pos`.
    BlockComment { pos: usize },
}

/// The first delimiter, from index `j` on, whose opener occurs in `s` at `c`.
pub open spec fn first_delim_at(s: Seq<u8>, c: int, ds: Seq<StringDelimiter>, j: int) -> Option<int>
    decreases ds.len() - j,
{
    if j < 0 || j >= ds.len() {
        None
    } else if matches_at(s, c, ds[j].open@) {
        Some(j)
    } else {
        first_delim_at(s, c, ds, j + 1)
    }
}

/// A found delimiter is in range and its opener occurs at `c`.
pub proof fn lemma_first_delim_at(s: Seq<u8>, c: int, ds: Seq<StringDelimiter>, j: int)
    requires
        0 <= j,
    ensures
        first_delim_at(s, c, ds, j) matches Some(k) ==> j <= k < ds.len() && matches_at(
            s,
            c,
            ds[k].open@,
        ),
    decreases ds.len() - j,
{
    if j < ds.len() && !matches_at(s, c, ds[j].open@) {
        lemma_first_delim_at(s, c, ds, j + 1);
    }
}

/// The index of the first delimiter whose opener occurs in `s` at `c`.
fn find_delim_at(s: &[u8], c: usize, ds: &Vec<StringDelimiter>) -> (r: Option<usize>)
    requires
        c <= s@.len(),
    ensures
        same_pos(r, first_delim_at(s@, c as int, ds@, 0)),
{
    let mut j: usize = 0;
    while j < ds.len()
        invariant
            j <= ds@.len(),
            c <= s@.len(),
            first_delim_at(s@, c as int, ds@, j as int) == first_delim_at(s@, c as int, ds@, 0),
        decreases ds@.len() - j,
    {
        if starts_with_at(s, c, ds[j].open.as_slice()) {
            return Some(j);
        }
        j = j + 1;
    }
    None
}

/// The multiline construct that opens in `seg` at `c`, if any: a multiline
/// string (the first delimiter that matches) before a block comment.
pub open spec fn event_at(seg: Seq<u8>, sx: LangSyntax, c: int) -> Option<Event> {
    match first_delim_at(seg, c, sx.multiline_strings@, 0) {
        Some(k) => Some(Event::MultilineString { pos: c as usize, delim: k as usize }),
        None => if sx.block_comment is Some && matches_at(seg, c, sx.block_start()) {
            Some(Event::BlockComment { pos: c as usize })
        } else {
            None
        },
    }
}

/// The smaller of two optional offsets.
pub open spec fn min_offset(a: Option<int>, b: Option<int>) -> Option<int> {
    match (a, b) {
        (Some(x), Some(y)) => if y < x {
            Some(y)
        } else {
            Some(x)
        },
        (Some(x), None) => Some(x),
        (None, y) => y,
    }
}

/// The next offset in `rem` that may start a multiline construct: with at
/// most three trigger bytes, the first trigger byte; otherwise the first full
/// occurrence of the block comment opener or of a multiline string opener.
pub open spec fn candidate_off(rem: Seq<u8>, sx: LangSyntax) -> Option<int> {
    let t = trigger_bytes(sx);
    if t.len() <= 3 {
        byte_in_set_from(rem, t, 0)
    } else {
        let b = if sx.block_comment is Some {
            first_occurrence(rem, sx.block_start())
        } else {
            None
        };
        let m = match earliest_opener(rem, sx.multiline_strings@) {
            Some((o, _)) => Some(o),
            None => None,
        };
        min_offset(b, m)
    }
}

/// A candidate offset lies inside `rem`.
pub proof fn lemma_candidate_off(rem: Seq<u8>, sx: LangSyntax)
    requires
        sx.wf(),
    ensures
        candidate_off(rem, sx) matches Some(o) ==> 0 <= o < rem.len(),
{
    let t = trigger_bytes(sx);
    if t.len() <= 3 {
        lemma_byte_in_set_from(rem, t, 0);
    } else {
        lemma_first_occurrence(rem, sx.block_start());
        lemma_earliest_upto(rem, sx.multiline_strings@, sx.multiline_strings@.len() as int);
        if let Some((o, j)) = earliest_opener(rem, sx.multiline_strings@) {
            assert(sx.multiline_strings@[j].open@.len() > 0);
        }
    }
}

/// The multiline construct that opens first in `seg` outside every
/// single-line string, if any.
pub open spec fn next_event(seg: Seq<u8>, sx: LangSyntax) -> Option<Event> {
    match first_visible_from(seg, sx, 0) {
        Some(p) => event_at(seg, sx, p),
        None => None,
    }
}

/// An event found by `event_at` opens there.
pub proof fn lemma_event_at(seg: Seq<u8>, sx: LangSyntax, c: int)
    requires
        sx.multiline_strings@.len() <= usize::MAX,
        0 <= c <= usize::MAX,
    ensures
        match event_at(seg, sx, c) {
            Some(Event::MultilineString { pos: p, delim: k }) => p == c && k
                < sx.multiline_strings@.len() && matches_at(
                seg,
                c,
                sx.multiline_strings@[k as int].open@,
            ),
            Some(Event::BlockComment { pos: p }) => p == c && sx.block_comment is Some
                && matches_at(seg, c, sx.block_start()),
            None => first_delim_at(seg, c, sx.multiline_strings@, 0) is None && !(
            sx.block_comment is Some && matches_at(seg, c, sx.block_start())),
        },
{
    lemma_first_delim_at(seg, c, sx.multiline_strings@, 0);
}

/// The event found by `next_event` opens inside the segment.
pub proof fn lemma_next_event(seg: Seq<u8>, sx: LangSyntax)
    requires
        seg.len() <= usize::MAX,
        sx.multiline_strings@.len() <= usize::MAX,
    ensures
        match next_event(seg, sx) {
            Some(Event::MultilineString { pos: p, delim: k }) => p + sx.multiline_strings@[k as int].open@.len()
                <= seg.len() && k < sx.multiline_strings@.len() && matches_at(
                seg,
                p as int,
                sx.multiline_strings@[k as int].open@,
            ),
            Some(Event::BlockComment { pos: p }) => sx.block_comment is Some && p
                + sx.block_start().len() <= seg.len() && matches_at(seg, p as int, sx.block_start()),
            None => true,
        },
{
    lemma_first_visible(seg, sx, 0);
    if let Some(p) = first_visible_from(seg, sx, 0) {
        lemma_event_at(seg, sx, p);
    }
}

/// `first_visible_from` finds a visible event at or after `p`, the least one.
pub proof fn lemma_first_visible(seg: Seq<u8>, sx: LangSyntax, p: int)
    requires
        0 <= p,
    ensures
        match first_visible_from(seg, sx, p) {
            Some(q) => p <= q && visible_event(seg, sx, q) && forall|j: int|
                p <= j < q ==> !visible_event(seg, sx, j),
            None => forall|j: int| p <= j ==> !visible_event(seg, sx, j),
        },
    decreases seg.len() - p,
{
    if p < seg.len() && !visible_event(seg, sx, p) {
        lemma_first_visible(seg, sx, p + 1);
    }
}

/// No multiline construct opens in `seg` from `pos` up to (not including)
/// `pos + off`, where `off` is the candidate offset of the rest of `seg`.
proof fn lemma_no_event_before_candidate(seg: Seq<u8>, sx: LangSyntax, pos: int)
    requires
        sx.wf(),
        0 <= pos <= seg.len(),
    ensures
        match candidate_off(seg.subrange(pos, seg.len() as int), sx) {
            Some(off) => forall|q: int| pos <= q < pos + off ==> event_at(seg, sx, q) is None,
            None => forall|q: int| pos <= q ==> event_at(seg, sx, q) is None,
        },
{
    let rem = seg.subrange(pos, seg.len() as int);
    let t = trigger_bytes(sx);
    let ms = sx.multiline_strings@;
    lemma_triggers_upto(sx, ms.len() as int);
    assert forall|q: int|
        pos <= q && event_at(seg, sx, q) is Some implies (match candidate_off(rem, sx) {
        Some(off) => pos + off <= q,
        None => false,
    }) by {
        lemma_first_delim_at(seg, q, ms, 0);
        let j = q - pos;
        if t.len() <= 3 {
            lemma_byte_in_set_from(rem, t, 0);
            let b = seg[q];
            match first_delim_at(seg, q, ms, 0) {
                Some(k) => {
                    assert(ms[k].open@[0] == seg.subrange(q, q + ms[k].open@.len())[0]);
                    assert(t.contains(ms[k].open@[0]));
                },
                None => {
                    assert(sx.block_start()[0] == seg.subrange(q, q + sx.block_start().len())[0]);
                    assert(t.contains(sx.block_start()[0]));
                },
            }
            assert(rem[j] == b);
        } else {
            lemma_first_occurrence(rem, sx.block_start());
            match first_delim_at(seg, q, ms, 0) {
                Some(k) => {
                    lemma_matches_shift(seg, pos, j, ms[k].open@);
                    lemma_first_occurrence(rem, ms[k].open@);
                    lemma_earliest_min(rem, ms, ms.len() as int, k);
                },
                None => {
                    lemma_matches_shift(seg, pos, j, sx.block_start());
                },
            }
        }
    }
}

/// The least position at or after `from` where a multiline string or block
/// comment opens, found through the trigger bytes.
fn next_opener(seg: &[u8], syntax: &LangSyntax, triggers: &[u8], from: usize) -> (r: Option<usize>)
    requires
        syntax.wf(),
        triggers@ == trigger_bytes(*syntax),
        from <= seg@.len(),
    ensures
        same_pos(r, first_opener_from(seg@, *syntax, from as int)),
{
    let seg_len = seg.len();
    let ml_len = syntax.multiline_strings.len();
    let mut pos: usize = from;
    loop
        invariant
            from <= pos <= seg@.len(),
            seg_len == seg@.len(),
            ml_len == syntax.multiline_strings@.len(),
            syntax.wf(),
            triggers@ == trigger_bytes(*syntax),
            first_opener_from(seg@, *syntax, pos as int) == first_opener_from(
                seg@,
                *syntax,
                from as int,
            ),
        decreases seg@.len() - pos,
    {
        let remaining = &seg[pos..seg_len];
        let ghost rem = remaining@;
        proof {
            lemma_candidate_off(rem, *syntax);
            lemma_no_event_before_candidate(seg@, *syntax, pos as int);
        }
        let off: usize;
        if triggers.len() == 0 {
            proof {
                lemma_opener_skip(seg@, *syntax, pos as int, seg_len as int);
            }
            return None;
        } else if triggers.len() <= 3 {
            let found = if triggers.len() == 1 {
                proof {
                    assert(triggers@ =~= seq![triggers@[0]]);
                }
                find_byte(triggers[0], remaining)
            } else if triggers.len() == 2 {
                proof {
                    assert(triggers@ =~= seq![triggers@[0], triggers@[1]]);
                }
                find_byte2(triggers[0], triggers[1], remaining)
            } else {
                proof {
                    assert(triggers@ =~= seq![triggers@[0], triggers@[1], triggers@[2]]);
                }
                find_byte3(triggers[0], triggers[1], triggers[2], remaining)
            };
            match found {
                None => {
                    proof {
                        lemma_opener_skip(seg@, *syntax, pos as int, seg_len as int);
                    }
                    return None;
                },
                Some(o) => {
                    off = o;
                },
            }
        } else {
            // fall back to individual scans.
            let mut min_off = usize::MAX;
            proof {
                lemma_first_occurrence(rem, syntax.block_start());
                lemma_earliest_upto(rem, syntax.multiline_strings@, ml_len as int);
            }
            if let Some((s, _)) = &syntax.block_comment {
                if let Some(o) = find_subslice(remaining, s.as_slice()) {
                    if o < min_off {
                        min_off = o;
                    }
                }
            }
            if let Some((o, j)) = find_earliest_opener(remaining, &syntax.multiline_strings) {
                proof {
                    assert(syntax.multiline_strings@[j as int].open@.len() > 0);
                }
                if o < min_off {
                    min_off = o;
                }
            }
            if min_off == usize::MAX {
                proof {
                    lemma_opener_skip(seg@, *syntax, pos as int, seg_len as int);
                }
                return None;
            }
            off = min_off;
        }
        let candidate = pos + off;
        proof {
            lemma_opener_skip(seg@, *syntax, pos as int, candidate as int);
            lemma_first_delim_at(seg@, candidate as int, syntax.multiline_strings@, 0);
        }
        let opens = match find_delim_at(seg, candidate, &syntax.multiline_strings) {
            Some(_) => true,
            None => match &syntax.block_comment {
                Some((block_start, _)) => starts_with_at(seg, candidate, block_start.as_slice()),
                None => false,
            },
        };
        if opens {
            return Some(candidate);
        }
        // false trigger match; advance past it
        pos = candidate + 1;
    }
}

/// Scan `seg` for the earliest multiline string opener or block comment opener
/// that is not inside a single-line string. Uses a single memchr pass to find
/// the first "trigger byte" (first byte of any opener), then verifies the full
/// match at that position; single-line strings are read from the start of
/// `seg`, so an opener inside one is passed over.
fn find_next_event(seg: &[u8], syntax: &LangSyntax, triggers: &[u8]) -> (r: Option<Event>)
    requires
        syntax.wf(),
        triggers@ == trigger_bytes(*syntax),
    ensures
        r == next_event(seg@, *syntax),
{
    let seg_len = seg.len();
    let ghost ds = syntax.single_line_strings@;
    // `pos`: no opener outside strings before it; `sstart`: a string boundary.
    let mut pos: usize = 0;
    let mut sstart: usize = 0;
    loop
        invariant
            sstart <= pos <= seg@.len(),
            seg_len == seg@.len(),
            syntax.wf(),
            triggers@ == trigger_bytes(*syntax),
            ds == syntax.single_line_strings@,
            forall|p: int|
                sstart <= p ==> (#[trigger] enclosing_from(seg@, 0, p, ds) is Some) == (
                enclosing_from(seg@, sstart as int, p, ds) is Some),
            first_visible_from(seg@, *syntax, pos as int) == first_visible_from(seg@, *syntax, 0),
        decreases seg@.len() - pos,
    {
        proof {
            lemma_first_opener(seg@, *syntax, pos as int);
        }
        let c = match next_opener(seg, syntax, triggers, pos) {
            None => {
                proof {
                    lemma_visible_skip(seg@, *syntax, pos as int, seg_len as int);
                }
                return None;
            },
            Some(c) => c,
        };
        proof {
            lemma_enclosing_from(seg@, sstart as int, c as int, ds);
        }
        match string_enclosing(seg, sstart, c, &syntax.single_line_strings) {
            None => {
                proof {
                    lemma_visible_skip(seg@, *syntax, pos as int, c as int);
                    assert(visible_event(seg@, *syntax, c as int));
                }
                let ml_len = syntax.multiline_strings.len();
                proof {
                    lemma_first_delim_at(seg@, c as int, syntax.multiline_strings@, 0);
                }
                return match find_delim_at(seg, c, &syntax.multiline_strings) {
                    Some(k) => Some(Event::MultilineString { pos: c, delim: k }),
                    None => Some(Event::BlockComment { pos: c }),
                };
            },
            // ignore this opener since it's inside of a string literal
            Some(end) => {
                proof {
                    lemma_enclosing_chain(seg@, sstart as int, c as int, end as int, ds);
                    assert forall|q: int| pos <= q < end implies !visible_event(
                        seg@,
                        *syntax,
                        q,
                    ) by {
                        if q >= c {
                            assert(enclosing_from(seg@, sstart as int, q, ds) is Some);
                            assert(enclosing_from(seg@, 0, q, ds) is Some);
                        }
                    }
                    lemma_visible_skip(seg@, *syntax, pos as int, end as int);
                    assert forall|p: int| end <= p implies (#[trigger] enclosing_from(
                        seg@,
                        0,
                        p,
                        ds,
                    ) is Some) == (enclosing_from(seg@, end as int, p, ds) is Some) by {
                        assert(enclosing_from(seg@, 0, p, ds) is Some == enclosing_from(
                            seg@,
                            sstart as int,
                            p,
                            ds,
                        ) is Some);
                    }
                }
                pos = end;
                sstart = end;
            },
        }
    }
}

/// `first_opener_from` finds the least opener at or after `p`.
proof fn lemma_first_opener(seg: Seq<u8>, sx: LangSyntax, p: int)
    requires
        0 <= p,
    ensures
        match first_opener_from(seg, sx, p) {
            Some(q) => p <= q < seg.len() && event_at(seg, sx, q) is Some && forall|j: int|
                p <= j < q ==> event_at(seg, sx, j) is None,
            None => forall|j: int| p <= j < seg.len() ==> event_at(seg, sx, j) is None,
        },
    decreases seg.len() - p,
{
    if p < seg.len() && event_at(seg, sx, p) is None {
        lemma_first_opener(seg, sx, p + 1);
    }
}

/// Where the scanner stands at the start of a line.
#[derive(Debug, Clone, Copy, PartialEq, Eq, Structural)]
pub enum ScanState {
    Normal,
    InBlockComment,
    /// Inside the multiline string (or docstring, when `is_docstring`)
    /// delimited by delimiter `delim` of its list.
    InMultilineString { delim: usize, is_docstring: bool },
}

/// The class of a line.
#[derive(Debug, Clone, Copy, PartialEq, Eq, Structural)]
pub enum LineClass {
    Blank,
    Comment,
    Code,
}

/// The delimiter of an open multiline string or docstring.
pub open spec fn open_delim(sx: LangSyntax, delim: usize, is_docstring: bool) -> StringDelimiter {
    if is_docstring {
        sx.docstring_delimiters@[delim as int]
    } else {
        sx.multiline_strings@[delim as int]
    }
}

/// A state refers only to constructs that the syntax has.
pub open spec fn state_ok(sx: LangSyntax, st: ScanState) -> bool {
    match st {
        ScanState::Normal => true,
        ScanState::InBlockComment => sx.block_comment is Some,
        ScanState::InMultilineString { delim, is_docstring } => if is_docstring {
            delim < sx.docstring_delimiters@.len()
        } else {
            delim < sx.multiline_strings@.len()
        },
    }
}

/// Rank of a state in the termination measure of the line scan.
pub open spec fn state_rank(st: ScanState) -> int {
    match st {
        ScanState::Normal => 0,
        _ => 1,
    }
}

/// The scan of one line from `cur`, as `classify_and_advance` performs it:
/// returns the state for the next line and whether code and comments were seen.
pub open spec fn scan(
    sx: LangSyntax,
    line: Seq<u8>,
    st: ScanState,
    cur: int,
    at_start: bool,
    code: bool,
    com: bool,
) -> (ScanState, bool, bool)
    decreases line.len() - cur, state_rank(st), if at_start {
        1int
    } else {
        0int
    },
{
    if cur < 0 || cur > line.len() {
        (st, code, com)
    } else {
        match st {
            ScanState::InBlockComment => {
                let be = sx.block_end();
                match first_occurrence(line.subrange(cur, line.len() as int), be) {
                    None => (st, code, true),
                    Some(off) => {
                        let nc = cur + off + be.len();
                        if cur <= nc <= line.len() {
                            scan(sx, line, ScanState::Normal, nc, false, code, true)
                        } else {
                            (st, code, true)
                        }
                    },
                }
            },
            ScanState::InMultilineString { delim, is_docstring } => {
                let d = open_delim(sx, delim, is_docstring);
                let code2 = code || !is_docstring;
                let com2 = com || is_docstring;
                match close_from(line, cur, d.close@, d.backslash_escapes) {
                    None => (st, code2, com2),
                    Some(cp) => {
                        let nc = cp + d.close@.len();
                        if cur <= nc <= line.len() {
                            scan(sx, line, ScanState::Normal, nc, false, code2, com2)
                        } else {
                            (st, code2, com2)
                        }
                    },
                }
            },
            ScanState::Normal => {
                let rem = line.subrange(cur, line.len() as int);
                let ws = leading_ws(rem) as int;
                if ws == rem.len() {
                    (st, code, com)
                } else if sx.block_comment is Some && matches_at(rem, ws, sx.block_start()) {
                    // block comment at the start of the line
                    let after = cur + ws + sx.block_start().len();
                    match first_occurrence(line.subrange(after, line.len() as int), sx.block_end()) {
                        None => (ScanState::InBlockComment, code, true),
                        Some(off) => {
                            let nc = after + off + sx.block_end().len();
                            if cur < nc <= line.len() {
                                scan(sx, line, ScanState::Normal, nc, false, code, true)
                            } else {
                                (ScanState::Normal, code, true)
                            }
                        },
                    }
                } else if sx.line_comment is Some && matches_at(rem, ws, sx.line_comment->0@) {
                    // a line comment consumes the rest of the line
                    (st, code, true)
                } else if at_start && first_delim_at(rem, ws, sx.docstring_delimiters@, 0) is Some {
                    // a docstring opens as the first content of the line
                    let k = first_delim_at(rem, ws, sx.docstring_delimiters@, 0)->0;
                    let d = sx.docstring_delimiters@[k];
                    let after = cur + ws + d.open@.len();
                    match close_from(line, after, d.close@, d.backslash_escapes) {
                        None => (
                            ScanState::InMultilineString { delim: k as usize, is_docstring: true },
                            code,
                            true,
                        ),
                        Some(cp) => {
                            let nc = cp + d.close@.len();
                            if cur <= nc <= line.len() {
                                scan(sx, line, ScanState::Normal, nc, false, code, true)
                            } else {
                                (ScanState::Normal, code, true)
                            }
                        },
                    }
                } else {
                    match next_event(rem, sx) {
                        None => (st, true, com),
                        Some(Event::BlockComment { pos }) => {
                            let code2 = code || leading_ws(rem.subrange(0, pos as int)) < pos;
                            let after = cur + pos + sx.block_start().len();
                            match first_occurrence(
                                line.subrange(after, line.len() as int),
                                sx.block_end(),
                            ) {
                                None => (ScanState::InBlockComment, code2, true),
                                Some(off) => {
                                    let nc = after + off + sx.block_end().len();
                                    if cur < nc <= line.len() {
                                        scan(sx, line, ScanState::Normal, nc, false, code2, true)
                                    } else {
                                        (ScanState::Normal, code2, true)
                                    }
                                },
                            }
                        },
                        Some(Event::MultilineString { pos, delim }) => {
                            let d = sx.multiline_strings@[delim as int];
                            let after = cur + pos + d.open@.len();
                            match close_from(line, after, d.close@, d.backslash_escapes) {
                                None => (
                                    ScanState::InMultilineString { delim, is_docstring: false },
                                    true,
                                    com,
                                ),
                                Some(cp) => {
                                    let nc = cp + d.close@.len();
                                    if cur < nc <= line.len() {
                                        scan(sx, line, ScanState::Normal, nc, false, true, com)
                                    } else {
                                        (ScanState::Normal, true, com)
                                    }
                                },
                            }
                        },
                    }
                }
            },
        }
    }
}

/// The class of `line` and the state for the next line, when the line starts
/// in state `st`: blank lines are blank, otherwise a line with any code is
/// code, a line with only comments is a comment.
pub open spec fn classify(sx: LangSyntax, st: ScanState, line: Seq<u8>) -> (LineClass, ScanState) {
    if leading_ws(line) == line.len() {
        (LineClass::Blank, st)
    } else {
        let (st2, code, com) = scan(sx, line, st, 0, true, false, false);
        (
            if code {
                LineClass::Code
            } else if com {
                LineClass::Comment
            } else {
                LineClass::Blank
            },
            st2,
        )
    }
}


/// The scan keeps the state within what the syntax has.
pub proof fn lemma_scan_state_ok(
    sx: LangSyntax,
    line: Seq<u8>,
    st: ScanState,
    cur: int,
    at_start: bool,
    code: bool,
    com: bool,
)
    requires
        sx.wf(),
        state_ok(sx, st),
        line.len() <= usize::MAX,
        sx.multiline_strings@.len() <= usize::MAX,
        sx.docstring_delimiters@.len() <= usize::MAX,
    ensures
        state_ok(sx, scan(sx, line, st, cur, at_start, code, com).0),
    decreases line.len() - cur, state_rank(st), if at_start {
        1int
    } else {
        0int
    },
{
    if 0 <= cur <= line.len() {
        match st {
            ScanState::InBlockComment => {
                let be = sx.block_end();
                match first_occurrence(line.subrange(cur, line.len() as int), be) {
                    None => {},
                    Some(off) => {
                        let nc = cur + off + be.len();
                        if cur <= nc <= line.len() {
                            lemma_scan_state_ok(sx, line, ScanState::Normal, nc, false, code, true);
                        }
                    },
                }
            },
            ScanState::InMultilineString { delim, is_docstring } => {
                let d = open_delim(sx, delim, is_docstring);
                let code2 = code || !is_docstring;
                let com2 = com || is_docstring;
                match close_from(line, cur, d.close@, d.backslash_escapes) {
                    None => {},
                    Some(cp) => {
                        let nc = cp + d.close@.len();
                        if cur <= nc <= line.len() {
                            lemma_scan_state_ok(sx, line, ScanState::Normal, nc, false, code2, com2);
                        }
                    },
                }
            },
            ScanState::Normal => {
                let rem = line.subrange(cur, line.len() as int);
                let ws = leading_ws(rem) as int;
                if ws == rem.len() {
                } else if sx.block_comment is Some && matches_at(rem, ws, sx.block_start()) {
                    let after = cur + ws + sx.block_start().len();
                    match first_occurrence(line.subrange(after, line.len() as int), sx.block_end()) {
                        None => {},
                        Some(off) => {
                            let nc = after + off + sx.block_end().len();
                            if cur < nc <= line.len() {
                                lemma_scan_state_ok(sx, line, ScanState::Normal, nc, false, code, true);
                            }
                        },
                    }
                } else if sx.line_comment is Some && matches_at(rem, ws, sx.line_comment->0@) {
                } else if at_start && first_delim_at(rem, ws, sx.docstring_delimiters@, 0) is Some {
                    lemma_first_delim_at(rem, ws, sx.docstring_delimiters@, 0);
                    let k = first_delim_at(rem, ws, sx.docstring_delimiters@, 0)->0;
                    let d = sx.docstring_delimiters@[k];
                    let after = cur + ws + d.open@.len();
                    match close_from(line, after, d.close@, d.backslash_escapes) {
                        None => {},
                        Some(cp) => {
                            let nc = cp + d.close@.len();
                            if cur <= nc <= line.len() {
                                lemma_scan_state_ok(sx, line, ScanState::Normal, nc, false, code, true);
                            }
                        },
                    }
                } else {
                    lemma_next_event(rem, sx);
                    match next_event(rem, sx) {
                        None => {},
                        Some(Event::BlockComment { pos }) => {
                            let code2 = code || leading_ws(rem.subrange(0, pos as int)) < pos;
                            let after = cur + pos + sx.block_start().len();
                            match first_occurrence(
                                line.subrange(after, line.len() as int),
                                sx.block_end(),
                            ) {
                                None => {},
                                Some(off) => {
                                    let nc = after + off + sx.block_end().len();
                                    if cur < nc <= line.len() {
                                        lemma_scan_state_ok(
                                            sx,
                                            line,
                                            ScanState::Normal,
                                            nc,
                                            false,
                                            code2,
                                            true,
                                        );
                                    }
                                },
                            }
                        },
                        Some(Event::MultilineString { pos, delim }) => {
                            let d = sx.multiline_strings@[delim as int];
                            let after = cur + pos + d.open@.len();
                            match close_from(line, after, d.close@, d.backslash_escapes) {
                                None => {},
                                Some(cp) => {
                                    let nc = cp + d.close@.len();
                                    if cur < nc <= line.len() {
                                        lemma_scan_state_ok(
                                            sx,
                                            line,
                                            ScanState::Normal,
                                            nc,
                                            false,
                                            true,
                                            com,
                                        );
                                    }
                                },
                            }
                        },
                    }
                }
            },
        }
    }
}

/// The scan never forgets code or comments already seen, and a scan that
/// starts inside a block comment or string, or before non-blank bytes,
/// finds code or comments.
pub proof fn lemma_scan_marks(
    sx: LangSyntax,
    line: Seq<u8>,
    st: ScanState,
    cur: int,
    at_start: bool,
    code: bool,
    com: bool,
)
    requires
        sx.wf(),
        state_ok(sx, st),
        line.len() <= usize::MAX,
        sx.multiline_strings@.len() <= usize::MAX,
        sx.docstring_delimiters@.len() <= usize::MAX,
    ensures
        code ==> scan(sx, line, st, cur, at_start, code, com).1,
        com ==> scan(sx, line, st, cur, at_start, code, com).2,
        0 <= cur <= line.len() && (st != ScanState::Normal || leading_ws(
            line.subrange(cur, line.len() as int),
        ) < line.len() - cur) ==> scan(sx, line, st, cur, at_start, code, com).1 || scan(
            sx,
            line,
            st,
            cur,
            at_start,
            code,
            com,
        ).2,
        (0 <= cur <= line.len() && (st matches ScanState::InMultilineString {
            is_docstring: false,
            ..
        })) ==> scan(sx, line, st, cur, at_start, code, com).1,
    decreases line.len() - cur, state_rank(st), if at_start {
        1int
    } else {
        0int
    },
{
    if 0 <= cur <= line.len() {
        match st {
            ScanState::InBlockComment => {
                let be = sx.block_end();
                match first_occurrence(line.subrange(cur, line.len() as int), be) {
                    None => {},
                    Some(off) => {
                        let nc = cur + off + be.len();
                        if cur <= nc <= line.len() {
                            lemma_scan_marks(sx, line, ScanState::Normal, nc, false, code, true);
                        }
                    },
                }
            },
            ScanState::InMultilineString { delim, is_docstring } => {
                let d = open_delim(sx, delim, is_docstring);
                let code2 = code || !is_docstring;
                let com2 = com || is_docstring;
                match close_from(line, cur, d.close@, d.backslash_escapes) {
                    None => {},
                    Some(cp) => {
                        let nc = cp + d.close@.len();
                        if cur <= nc <= line.len() {
                            lemma_scan_marks(sx, line, ScanState::Normal, nc, false, code2, com2);
                        }
                    },
                }
            },
            ScanState::Normal => {
                let rem = line.subrange(cur, line.len() as int);
                let ws = leading_ws(rem) as int;
                if ws == rem.len() {
                } else if sx.block_comment is Some && matches_at(rem, ws, sx.block_start()) {
                    let after = cur + ws + sx.block_start().len();
                    match first_occurrence(line.subrange(after, line.len() as int), sx.block_end()) {
                        None => {},
                        Some(off) => {
                            let nc = after + off + sx.block_end().len();
                            if cur < nc <= line.len() {
                                lemma_scan_marks(sx, line, ScanState::Normal, nc, false, code, true);
                            }
                        },
                    }
                } else if sx.line_comment is Some && matches_at(rem, ws, sx.line_comment->0@) {
                } else if at_start && first_delim_at(rem, ws, sx.docstring_delimiters@, 0) is Some {
                    lemma_first_delim_at(rem, ws, sx.docstring_delimiters@, 0);
                    let k = first_delim_at(rem, ws, sx.docstring_delimiters@, 0)->0;
                    let d = sx.docstring_delimiters@[k];
                    let after = cur + ws + d.open@.len();
                    match close_from(line, after, d.close@, d.backslash_escapes) {
                        None => {},
                        Some(cp) => {
                            let nc = cp + d.close@.len();
                            if cur <= nc <= line.len() {
                                lemma_scan_marks(sx, line, ScanState::Normal, nc, false, code, true);
                            }
                        },
                    }
                } else {
                    lemma_next_event(rem, sx);
                    match next_event(rem, sx) {
                        None => {},
                        Some(Event::BlockComment { pos }) => {
                            let code2 = code || leading_ws(rem.subrange(0, pos as int)) < pos;
                            let after = cur + pos + sx.block_start().len();
                            match first_occurrence(
                                line.subrange(after, line.len() as int),
                                sx.block_end(),
                            ) {
                                None => {},
                                Some(off) => {
                                    let nc = after + off + sx.block_end().len();
                                    if cur < nc <= line.len() {
                                        lemma_scan_marks(
                                            sx,
                                            line,
                                            ScanState::Normal,
                                            nc,
                                            false,
                                            code2,
                                            true,
                                        );
                                    }
                                },
                            }
                        },
                        Some(Event::MultilineString { pos, delim }) => {
                            let d = sx.multiline_strings@[delim as int];
                            let after = cur + pos + d.open@.len();
                            match close_from(line, after, d.close@, d.backslash_escapes) {
                                None => {},
                                Some(cp) => {
                                    let nc = cp + d.close@.len();
                                    if cur < nc <= line.len() {
                                        lemma_scan_marks(
                                            sx,
                                            line,
                                            ScanState::Normal,
                                            nc,
                                            false,
                                            true,
                                            com,
                                        );
                                    }
                                },
                            }
                        },
                    }
                }
            },
        }
    }
}

/// Whether `v` holds `b`.
fn contains_byte(v: &Vec<u8>, b: u8) -> (r: bool)
    ensures
        r == v@.contains(b),
{
    let mut i: usize = 0;
    while i < v.len()
        invariant
            i <= v@.len(),
            forall|j: int| 0 <= j < i ==> v@[j] != b,
        decreases v@.len() - i,
    {
        if v[i] == b {
            return true;
        }
        i = i + 1;
    }
    false
}

/// The per-line classifier: the scan state carried from line to line.
struct Counter<'a> {
    state: ScanState,
    syntax: &'a LangSyntax,
    triggers: Vec<u8>,
}

impl<'a> Counter<'a> {
    /// The counter runs on a syntax it can scan, with that syntax's trigger
    /// bytes, in a state the syntax allows.
    spec fn wf(&self) -> bool {
        &&& self.syntax.wf()
        &&& self.triggers@ == trigger_bytes(*self.syntax)
        &&& state_ok(*self.syntax, self.state)
    }

    fn new(syntax: &'a LangSyntax) -> (r: Self)
        requires
            syntax.wf(),
        ensures
            r.wf(),
            r.syntax == syntax,
            r.state == ScanState::Normal,
    {
        let mut triggers: Vec<u8> = Vec::new();
        if let Some((block_start, _)) = &syntax.block_comment {
            triggers.push(block_start[0]);
        }
        proof {
            assert(triggers@ =~= triggers_upto(*syntax, 0));
        }
        let mut k: usize = 0;
        while k < syntax.multiline_strings.len()
            invariant
                k <= syntax.multiline_strings@.len(),
                syntax.wf(),
                triggers@ == triggers_upto(*syntax, k as int),
            decreases syntax.multiline_strings@.len() - k,
        {
            let delim = &syntax.multiline_strings[k];
            let b = delim.open[0];
            if !contains_byte(&triggers, b) {
                triggers.push(b);
            }
            k = k + 1;
        }
        Counter { state: ScanState::Normal, syntax, triggers }
    }

    /// Classify the line and update state for the next line.
    fn classify_and_advance(&mut self, line_bytes: &[u8]) -> (cls: LineClass)
        requires
            old(self).wf(),
        ensures
            final(self).wf(),
            final(self).syntax == old(self).syntax,
            final(self).triggers == old(self).triggers,
            (cls, final(self).state) == classify(*old(self).syntax, old(self).state, line_bytes@),
    {
        let syntax: &LangSyntax = self.syntax;
        let len = line_bytes.len();
        if leading_ws_len(line_bytes) == len {
            return LineClass::Blank;
        }
        let ghost sx = *syntax;
        let ghost line = line_bytes@;
        let ghost target = scan(sx, line, self.state, 0, true, false, false);
        let ml_len = syntax.multiline_strings.len();
        let ds_len = syntax.docstring_delimiters.len();
        proof {
            lemma_scan_state_ok(sx, line, self.state, 0, true, false, false);
        }

        let mut state = self.state;
        let mut has_code = false;
        let mut has_comment = false;
        let mut cursor: usize = 0;
        let mut at_line_start = true;

        loop
            invariant_except_break
                cursor <= len,
                state_ok(sx, state),
                scan(sx, line, state, cursor as int, at_line_start, has_code, has_comment)
                    == target,
            invariant
                self.wf(),
                self.syntax == syntax,
                sx == *syntax,
                line == line_bytes@,
                len == line.len(),
                ml_len == sx.multiline_strings@.len(),
                ds_len == sx.docstring_delimiters@.len(),
                state_ok(sx, target.0),
            ensures
                (state, has_code, has_comment) == target,
            decreases len - cursor, state_rank(state), if at_line_start {
                1int
            } else {
                0int
            },
        {
            let step = match state {
                ScanState::InBlockComment => step_in_block_comment(
                    syntax,
                    line_bytes,
                    cursor,
                    at_line_start,
                    has_code,
                    has_comment,
                ),
                ScanState::InMultilineString { delim, is_docstring } => step_in_string(
                    syntax,
                    line_bytes,
                    cursor,
                    delim,
                    is_docstring,
                    at_line_start,
                    has_code,
                    has_comment,
                ),
                ScanState::Normal => step_normal(
                    syntax,
                    self.triggers.as_slice(),
                    line_bytes,
                    cursor,
                    at_line_start,
                    has_code,
                    has_comment,
                ),
            };
            match step {
                Step::Done(s, c, m) => {
                    state = s;
                    has_code = c;
                    has_comment = m;
                    break;
                },
                Step::Next(s, nc, na, c, m) => {
                    state = s;
                    cursor = nc;
                    at_line_start = na;
                    has_code = c;
                    has_comment = m;
                },
            }
        }
        self.state = state;

        if has_code {
            LineClass::Code
        } else if has_comment {
            LineClass::Comment
        } else {
            LineClass::Blank
        }
    }
}

/// One step of the line scan: either the scan of the line is done, with the
/// final state and findings, or it continues from a new cursor.
enum Step {
    Done(ScanState, bool, bool),
    Next(ScanState, usize, bool, bool, bool),
}

/// The step agrees with `scan`: a finished step is the scan's result, and a
/// continuing step leads to the same result through a smaller measure.
spec fn step_ok(
    sx: LangSyntax,
    line: Seq<u8>,
    st: ScanState,
    cur: int,
    at_start: bool,
    code: bool,
    com: bool,
    r: Step,
) -> bool {
    match r {
        Step::Done(s, c, m) => (s, c, m) == scan(sx, line, st, cur, at_start, code, com),
        Step::Next(s, nc, na, c, m) => {
            &&& nc <= line.len()
            &&& state_ok(sx, s)
            &&& scan(sx, line, s, nc as int, na, c, m) == scan(sx, line, st, cur, at_start, code, com)
            &&& (cur < nc || (cur == nc && (state_rank(s) < state_rank(st) || (state_rank(s)
                == state_rank(st) && at_start && !na))))
        },
    }
}

/// The scan context: a scannable syntax, a line of addressable length.
spec fn step_pre(sx: LangSyntax, line: Seq<u8>, st: ScanState, cur: int) -> bool {
    &&& sx.wf()
    &&& state_ok(sx, st)
    &&& 0 <= cur <= line.len()
    &&& line.len() <= usize::MAX
    &&& sx.multiline_strings@.len() <= usize::MAX
    &&& sx.docstring_delimiters@.len() <= usize::MAX
}

/// Inside a block comment: look for its end.
fn step_in_block_comment(
    syntax: &LangSyntax,
    line_bytes: &[u8],
    cursor: usize,
    at_line_start: bool,
    has_code: bool,
    has_comment: bool,
) -> (r: Step)
    requires
        step_pre(*syntax, line_bytes@, ScanState::InBlockComment, cursor as int),
    ensures
        step_ok(
            *syntax,
            line_bytes@,
            ScanState::InBlockComment,
            cursor as int,
            at_line_start,
            has_code,
            has_comment,
            r,
        ),
{
    let len = line_bytes.len();
    let block_end = match &syntax.block_comment {
        Some((_, block_end)) => block_end,
        None => {
            proof {
                assert(false);
            }
            return Step::Done(ScanState::InBlockComment, has_code, true);
        },
    };
    let rest = &line_bytes[cursor..len];
    proof {
        lemma_first_occurrence(rest@, block_end@);
    }
    match find_subslice(rest, block_end.as_slice()) {
        None => Step::Done(ScanState::InBlockComment, has_code, true),
        Some(off) => Step::Next(ScanState::Normal, cursor + off + block_end.len(), false, has_code, true),
    }
}

/// Inside a multiline string or docstring: look for its closer.
fn step_in_string(
    syntax: &LangSyntax,
    line_bytes: &[u8],
    cursor: usize,
    delim: usize,
    is_docstring: bool,
    at_line_start: bool,
    has_code: bool,
    has_comment: bool,
) -> (r: Step)
    requires
        step_pre(
            *syntax,
            line_bytes@,
            ScanState::InMultilineString { delim, is_docstring },
            cursor as int,
        ),
    ensures
        step_ok(
            *syntax,
            line_bytes@,
            ScanState::InMultilineString { delim, is_docstring },
            cursor as int,
            at_line_start,
            has_code,
            has_comment,
            r,
        ),
{
    let code = has_code || !is_docstring;
    let com = has_comment || is_docstring;
    let d = if is_docstring {
        &syntax.docstring_delimiters[delim]
    } else {
        &syntax.multiline_strings[delim]
    };
    proof {
        lemma_close_from(line_bytes@, cursor as int, d.close@, d.backslash_escapes);
    }
    match find_close(line_bytes, cursor, d.close.as_slice(), d.backslash_escapes) {
        None => Step::Done(ScanState::InMultilineString { delim, is_docstring }, code, com),
        Some(close_pos) => Step::Next(ScanState::Normal, close_pos + d.close.len(), false, code, com),
    }
}

/// In normal state: a block comment or line comment at the start of the
/// rest of the line, or a docstring as the first content of the line.
/// `None` when none of these applies.
fn step_normal_start(
    syntax: &LangSyntax,
    line_bytes: &[u8],
    cursor: usize,
    at_line_start: bool,
    has_code: bool,
    has_comment: bool,
) -> (r: Option<Step>)
    requires
        step_pre(*syntax, line_bytes@, ScanState::Normal, cursor as int),
    ensures
        match r {
            Some(step) => step_ok(
                *syntax,
                line_bytes@,
                ScanState::Normal,
                cursor as int,
                at_line_start,
                has_code,
                has_comment,
                step,
            ),
            None => {
                let rem = line_bytes@.subrange(cursor as int, line_bytes@.len() as int);
                let ws = leading_ws(rem) as int;
                &&& ws < rem.len()
                &&& !(syntax.block_comment is Some && matches_at(rem, ws, syntax.block_start()))
                &&& !(syntax.line_comment is Some && matches_at(
                    rem,
                    ws,
                    syntax.line_comment->0@,
                ))
                &&& !(at_line_start && first_delim_at(rem, ws, syntax.docstring_delimiters@, 0) is Some)
            },
        },
{
    let len = line_bytes.len();
    let remaining = &line_bytes[cursor..len];
    let ghost rem = remaining@;
    let ws = leading_ws_len(remaining);
    proof {
        lemma_leading_ws(rem);
    }
    if ws == remaining.len() {
        return Some(Step::Done(ScanState::Normal, has_code, has_comment));
    }
    // Block comment at start of line. Must precede the line comment check
    // since in some languages (Lua, Julia) the line comment marker is a
    // prefix of the block comment start marker.

    if let Some((block_start, block_end)) = &syntax.block_comment {
        if starts_with_at(remaining, ws, block_start.as_slice()) {
            let after_open = cursor + ws + block_start.len();
            let rest = &line_bytes[after_open..len];
            proof {
                lemma_first_occurrence(rest@, block_end@);
            }
            return match find_subslice(rest, block_end.as_slice()) {
                None => Some(Step::Done(ScanState::InBlockComment, has_code, true)),
                Some(off) => Some(
                    Step::Next(ScanState::Normal, after_open + off + block_end.len(), false, has_code, true),
                ),
            };
        }
    }
    // Check if line starts with a line comment

    if let Some(prefix) = &syntax.line_comment {
        if starts_with_at(remaining, ws, prefix.as_slice()) {
            // line comment consumes the rest of the line
            return Some(Step::Done(ScanState::Normal, has_code, true));
        }
    }
    // Check if it's a docstring (multiline string opener as first content on line)

    if at_line_start {
        proof {
            lemma_first_delim_at(rem, ws as int, syntax.docstring_delimiters@, 0);
        }
        if let Some(k) = find_delim_at(remaining, ws, &syntax.docstring_delimiters) {
            let d = &syntax.docstring_delimiters[k];
            let after_open = cursor + ws + d.open.len();
            proof {
                lemma_close_from(line_bytes@, after_open as int, d.close@, d.backslash_escapes);
            }
            return match find_close(line_bytes, after_open, d.close.as_slice(), d.backslash_escapes) {
                None => Some(
                    Step::Done(
                        ScanState::InMultilineString { delim: k, is_docstring: true },
                        has_code,
                        true,
                    ),
                ),
                Some(close_pos) => Some(
                    Step::Next(ScanState::Normal, close_pos + d.close.len(), false, has_code, true),
                ),
            };
        }
    }
    None
}

/// In normal state: scan for the earliest multiline opener (block comment or
/// string).
fn step_event(
    syntax: &LangSyntax,
    triggers: &[u8],
    line_bytes: &[u8],
    cursor: usize,
    at_line_start: bool,
    has_code: bool,
    has_comment: bool,
) -> (r: Step)
    requires
        step_pre(*syntax, line_bytes@, ScanState::Normal, cursor as int),
        triggers@ == trigger_bytes(*syntax),
        ({
            let rem = line_bytes@.subrange(cursor as int, line_bytes@.len() as int);
            let ws = leading_ws(rem) as int;
            &&& ws < rem.len()
            &&& !(syntax.block_comment is Some && matches_at(rem, ws, syntax.block_start()))
            &&& !(syntax.line_comment is Some && matches_at(rem, ws, syntax.line_comment->0@))
            &&& !(at_line_start && first_delim_at(rem, ws, syntax.docstring_delimiters@, 0) is Some)
        }),
    ensures
        step_ok(
            *syntax,
            line_bytes@,
            ScanState::Normal,
            cursor as int,
            at_line_start,
            has_code,
            has_comment,
            r,
        ),
{
    let len = line_bytes.len();
    let remaining = &line_bytes[cursor..len];
    let ghost rem = remaining@;
    let ml_len = syntax.multiline_strings.len();
    proof {
        lemma_next_event(rem, *syntax);
    }
    match find_next_event(remaining, syntax, triggers) {
        None => Step::Done(ScanState::Normal, true, has_comment),
        Some(Event::BlockComment { pos }) => {
            let code = has_code || leading_ws_len(&remaining[0..pos]) < pos;
            let (block_start, block_end) = match &syntax.block_comment {
                Some((block_start, block_end)) => (block_start, block_end),
                None => {
                    proof {
                        assert(false);
                    }
                    return Step::Done(ScanState::Normal, code, true);
                },
            };
            let after_open = cursor + pos + block_start.len();
            let rest = &line_bytes[after_open..len];
            proof {
                lemma_first_occurrence(rest@, block_end@);
            }
            match find_subslice(rest, block_end.as_slice()) {
                None => Step::Done(ScanState::InBlockComment, code, true),
                Some(off) => Step::Next(ScanState::Normal, after_open + off + block_end.len(), false, code, true),
            }
        },
        Some(Event::MultilineString { pos, delim }) => {
            let d = &syntax.multiline_strings[delim];
            let after_open = cursor + pos + d.open.len();
            proof {
                lemma_close_from(line_bytes@, after_open as int, d.close@, d.backslash_escapes);
            }
            match find_close(line_bytes, after_open, d.close.as_slice(), d.backslash_escapes) {
                None => Step::Done(
                    ScanState::InMultilineString { delim, is_docstring: false },
                    true,
                    has_comment,
                ),
                Some(close_pos) => Step::Next(ScanState::Normal, close_pos + d.close.len(), false, true, has_comment),
            }
        },
    }
}

/// In normal state: one step of the scan.
fn step_normal(
    syntax: &LangSyntax,
    triggers: &[u8],
    line_bytes: &[u8],
    cursor: usize,
    at_line_start: bool,
    has_code: bool,
    has_comment: bool,
) -> (r: Step)
    requires
        step_pre(*syntax, line_bytes@, ScanState::Normal, cursor as int),
        triggers@ == trigger_bytes(*syntax),
    ensures
        step_ok(
            *syntax,
            line_bytes@,
            ScanState::Normal,
            cursor as int,
            at_line_start,
            has_code,
            has_comment,
            r,
        ),
{
    match step_normal_start(syntax, line_bytes, cursor, at_line_start, has_code, has_comment) {
        Some(step) => step,
        None => step_event(syntax, triggers, line_bytes, cursor, at_line_start, has_code, has_comment),
    }
}


/// Line counts as mathematical numbers.
pub struct Tally {
    pub lines: nat,
    pub blanks: nat,
    pub comments: nat,
    pub code: nat,
}

impl Tally {
    /// No lines at all.
    pub open spec fn zero() -> Tally {
        Tally { lines: 0, blanks: 0, comments: 0, code: 0 }
    }

    /// One more line, of class `cls`.
    pub open spec fn with_class(self, cls: LineClass) -> Tally {
        Tally {
            lines: self.lines + 1,
            blanks: if cls == LineClass::Blank {
                self.blanks + 1
            } else {
                self.blanks
            },
            comments: if cls == LineClass::Comment {
                self.comments + 1
            } else {
                self.comments
            },
            code: if cls == LineClass::Code {
                self.code + 1
            } else {
                self.code
            },
        }
    }

    /// Field-wise sum.
    pub open spec fn plus(self, other: Tally) -> Tally {
        Tally {
            lines: self.lines + other.lines,
            blanks: self.blanks + other.blanks,
            comments: self.comments + other.comments,
            code: self.code + other.code,
        }
    }

    /// Every line is counted in exactly one class.
    pub open spec fn partitioned(self) -> bool {
        self.lines == self.blanks + self.comments + self.code
    }
}

/// Line counts of a file or a group of files.
#[derive(Debug, Clone, Copy, PartialEq, Eq, Structural)]
pub struct Counts {
    pub lines: usize,
    pub blanks: usize,
    pub comments: usize,
    pub code: usize,
}

impl View for Counts {
    type V = Tally;

    open spec fn view(&self) -> Tally {
        Tally {
            lines: self.lines as nat,
            blanks: self.blanks as nat,
            comments: self.comments as nat,
            code: self.code as nat,
        }
    }
}

impl Default for Counts {
    fn default() -> (r: Self)
        ensures
            r@ == Tally::zero(),
    {
        Counts { lines: 0, blanks: 0, comments: 0, code: 0 }
    }
}

impl Counts {
    /// Adds `other` to these counts, field by field.
    pub fn add_assign(&mut self, other: Counts)
        requires
            old(self).lines + other.lines <= usize::MAX,
            old(self).blanks + other.blanks <= usize::MAX,
            old(self).comments + other.comments <= usize::MAX,
            old(self).code + other.code <= usize::MAX,
        ensures
            final(self)@ == old(self)@.plus(other@),
    {
        self.lines = self.lines + other.lines;
        self.blanks = self.blanks + other.blanks;
        self.comments = self.comments + other.comments;
        self.code = self.code + other.code;
    }
}

/// The counts of `lines` read in order from the normal state, and the state
/// after the last of them.
pub open spec fn tally_lines(sx: LangSyntax, lines: Seq<Seq<u8>>) -> (Tally, ScanState)
    decreases lines.len(),
{
    if lines.len() == 0 {
        (Tally::zero(), ScanState::Normal)
    } else {
        let (t, st) = tally_lines(sx, lines.drop_last());
        let (cls, st2) = classify(sx, st, lines.last());
        (t.with_class(cls), st2)
    }
}

/// The newline byte.
pub open spec fn newline() -> u8 {
    0x0au8
}

/// The lines of `c` that a newline terminates, without their newlines.
pub open spec fn complete_lines(c: Seq<u8>) -> Seq<Seq<u8>>
    decreases c.len(),
{
    if c.len() == 0 {
        Seq::empty()
    } else if c.last() == newline() {
        complete_lines(c.drop_last()).push(line_tail(c.drop_last()))
    } else {
        complete_lines(c.drop_last())
    }
}

/// The bytes of `c` after its last newline (all of `c` when it has none).
pub open spec fn line_tail(c: Seq<u8>) -> Seq<u8>
    decreases c.len(),
{
    if c.len() == 0 {
        Seq::empty()
    } else if c.last() == newline() {
        Seq::empty()
    } else {
        line_tail(c.drop_last()).push(c.last())
    }
}

/// The lines of `c`: the newline-terminated ones, then the unterminated rest
/// when it is not empty.
pub open spec fn split_lines(c: Seq<u8>) -> Seq<Seq<u8>> {
    if line_tail(c).len() > 0 {
        complete_lines(c).push(line_tail(c))
    } else {
        complete_lines(c)
    }
}

/// The counts of the lines of `content` in the given syntax.
pub open spec fn count_content(sx: LangSyntax, content: Seq<u8>) -> Tally {
    tally_lines(sx, split_lines(content)).0
}

/// The number of newline bytes in `c`.
pub open spec fn newline_count(c: Seq<u8>) -> nat
    decreases c.len(),
{
    if c.len() == 0 {
        0
    } else if c.last() == newline() {
        newline_count(c.drop_last()) + 1
    } else {
        newline_count(c.drop_last())
    }
}

/// The newlines of two pieces of content add up.
pub proof fn lemma_newline_count_concat(a: Seq<u8>, b: Seq<u8>)
    ensures
        newline_count(a + b) == newline_count(a) + newline_count(b),
    decreases b.len(),
{
    if b.len() == 0 {
        assert(a + b =~= a);
    } else {
        lemma_newline_count_concat(a, b.drop_last());
        assert((a + b).drop_last() =~= a + b.drop_last());
    }
}

/// The lines of `c` are its complete lines and, when not empty, its tail.
pub proof fn lemma_split_lines_len(c: Seq<u8>)
    ensures
        split_lines(c).len() <= c.len(),
        newline_count(c) <= split_lines(c).len(),
        split_lines(c).len() <= newline_count(c) + 1,
{
    lemma_lines_bound(c);
}

/// Appending bytes without a newline extends the tail and completes no line.
pub proof fn lemma_append_no_newline(c: Seq<u8>, s: Seq<u8>)
    requires
        forall|j: int| 0 <= j < s.len() ==> s[j] != newline(),
    ensures
        complete_lines(c + s) == complete_lines(c),
        line_tail(c + s) == line_tail(c) + s,
        newline_count(c + s) == newline_count(c),
    decreases s.len(),
{
    if s.len() == 0 {
        assert(c + s =~= c);
        assert(line_tail(c) + s =~= line_tail(c));
    } else {
        lemma_append_no_newline(c, s.drop_last());
        assert((c + s).drop_last() =~= c + s.drop_last());
        assert((c + s).last() == s.last());
        assert(line_tail(c) + s =~= (line_tail(c) + s.drop_last()).push(s.last()));
    }
}

/// Appending a segment without newlines, then a newline, completes the line
/// made of the old tail and the segment.
pub proof fn lemma_append_line(c: Seq<u8>, s: Seq<u8>)
    requires
        forall|j: int| 0 <= j < s.len() ==> s[j] != newline(),
    ensures
        complete_lines(c + s.push(newline())) == complete_lines(c).push(line_tail(c) + s),
        line_tail(c + s.push(newline())) == Seq::<u8>::empty(),
        newline_count(c + s.push(newline())) == newline_count(c) + 1,
{
    lemma_append_no_newline(c, s);
    assert((c + s.push(newline())).drop_last() =~= c + s);
}

/// There are as many complete lines as newlines, and together with the tail
/// they take no more room than the content.
pub proof fn lemma_lines_bound(c: Seq<u8>)
    ensures
        complete_lines(c).len() == newline_count(c),
        complete_lines(c).len() + line_tail(c).len() <= c.len(),
    decreases c.len(),
{
    if c.len() > 0 {
        lemma_lines_bound(c.drop_last());
    }
}

/// The tally of lines counts each of them once, in exactly one class.
pub proof fn lemma_tally_lines(sx: LangSyntax, lines: Seq<Seq<u8>>)
    ensures
        tally_lines(sx, lines).0.lines == lines.len(),
        tally_lines(sx, lines).0.partitioned(),
    decreases lines.len(),
{
    if lines.len() > 0 {
        lemma_tally_lines(sx, lines.drop_last());
    }
}

impl<'a> Counter<'a> {
    /// Classify one line and advance the state machine.
    fn process_line(&mut self, line_bytes: &[u8], counts: &mut Counts)
        requires
            old(self).wf(),
            old(counts)@.lines < usize::MAX,
            ({
                let cls = classify(*old(self).syntax, old(self).state, line_bytes@).0;
                &&& cls == LineClass::Blank ==> old(counts)@.blanks < usize::MAX
                &&& cls == LineClass::Comment ==> old(counts)@.comments < usize::MAX
                &&& cls == LineClass::Code ==> old(counts)@.code < usize::MAX
            }),
        ensures
            final(self).wf(),
            final(self).syntax == old(self).syntax,
            final(self).triggers == old(self).triggers,
            ({
                let (cls, st) = classify(*old(self).syntax, old(self).state, line_bytes@);
                final(counts)@ == old(counts)@.with_class(cls) && final(self).state == st
            }),
    {
        counts.lines = counts.lines + 1;
        match self.classify_and_advance(line_bytes) {
            LineClass::Blank => counts.blanks = counts.blanks + 1,
            LineClass::Comment => counts.comments = counts.comments + 1,
            LineClass::Code => counts.code = counts.code + 1,
        }
    }
}

/// Counts lines of a stream fed in chunks of any size: complete lines are
/// classified as they arrive, and the partial line at the end of a chunk is
/// carried over to the next.
pub struct LineCounter<'a> {
    counter: Counter<'a>,
    carry: Vec<u8>,
    counts: Counts,
    total_bytes: u64,
    seen: Ghost<Seq<u8>>,
}

impl<'a> LineCounter<'a> {
    /// The syntax the lines are counted in.
    pub closed spec fn syntax(&self) -> LangSyntax {
        *self.counter.syntax
    }

    /// All bytes fed so far.
    pub closed spec fn seen(&self) -> Seq<u8> {
        self.seen@
    }

    /// The complete lines seen are counted, the partial one is carried.
    #[verifier::type_invariant]
    closed spec fn wf(&self) -> bool {
        &&& self.counter.wf()
        &&& self.carry@ == line_tail(self.seen@)
        &&& (self.counts@, self.counter.state) == tally_lines(
            *self.counter.syntax,
            complete_lines(self.seen@),
        )
        &&& self.total_bytes == self.seen@.len()
        &&& split_lines(self.seen@).len() <= usize::MAX
    }

    /// A counter that has seen nothing yet.
    pub fn new(syntax: &'a LangSyntax) -> (r: Self)
        requires
            syntax.wf(),
        ensures
            r.syntax() == *syntax,
            r.seen() == Seq::<u8>::empty(),
    {
        let r = LineCounter {
            counter: Counter::new(syntax),
            carry: Vec::new(),
            counts: Counts::default(),
            total_bytes: 0,
            seen: Ghost(Seq::empty()),
        };
        proof {
            assert(complete_lines(Seq::<u8>::empty()) =~= Seq::<Seq<u8>>::empty());
        }
        r
    }

    /// Counts the lines that `chunk` completes and carries its partial last line.
    pub fn feed(&mut self, chunk: &[u8])
        requires
            old(self).seen().len() + chunk@.len() <= u64::MAX,
            split_lines(old(self).seen() + chunk@).len() <= usize::MAX,
        ensures
            final(self).syntax() == old(self).syntax(),
            final(self).seen() == old(self).seen() + chunk@,
    {
        proof {
            use_type_invariant(&*self);
        }
        let mut old_state = LineCounter::new(self.counter.syntax);
        std::mem::swap(&mut old_state, self);
        proof {
            use_type_invariant(&old_state);
        }
        let LineCounter { mut counter, mut carry, mut counts, total_bytes, seen } = old_state;
        let n = chunk.len();
        let ghost s0 = seen@;
        let ghost sx = *counter.syntax;
        let mut prev: usize = 0;
        loop
            invariant_except_break
                prev <= n,
            invariant
                n == chunk@.len(),
                s0.len() + n <= u64::MAX,
                split_lines(s0 + chunk@).len() <= usize::MAX,
                sx == *counter.syntax,
                sx == old(self).syntax(),
                s0 == old(self).seen(),
                seen@ == s0,
                total_bytes == s0.len(),
                counter.wf(),
                carry@ == line_tail(s0 + chunk@.subrange(0, prev as int)),
                (counts@, counter.state) == tally_lines(
                    sx,
                    complete_lines(s0 + chunk@.subrange(0, prev as int)),
                ),
            ensures
                prev <= n,
                forall|j: int| prev <= j < n ==> chunk@[j] != newline(),
            decreases n - prev,
        {
            let rest = &chunk[prev..n];
            proof {
                lemma_byte_in_set_from(rest@, seq![newline()], 0);
            }
            match find_byte(0x0au8, rest) {
                None => {
                    proof {
                        assert forall|j: int| prev <= j < n implies chunk@[j] != newline() by {
                            assert(rest@[j - prev] == chunk@[j]);
                            if chunk@[j] == newline() {
                                assert(seq![newline()][0] == newline());
                            }
                        }
                    }
                    break;
                },
                Some(off) => {
                    let nl = prev + off;
                    let segment = &chunk[prev..nl];
                    let ghost done = s0 + chunk@.subrange(0, prev as int);
                    proof {
                        assert forall|j: int| 0 <= j < segment@.len() implies segment@[j]
                            != newline() by {
                            assert(rest@[j] == segment@[j]);
                            if segment@[j] == newline() {
                                assert(seq![newline()][0] == newline());
                            }
                        }
                        assert(seq![newline()].contains(rest@[off as int]));
                        lemma_append_line(done, segment@);
                        assert(done + segment@.push(newline()) =~= s0 + chunk@.subrange(
                            0,
                            nl + 1,
                        ));
                        lemma_lines_bound(done + segment@.push(newline()));
                        lemma_lines_bound(done);
                        lemma_tally_lines(sx, complete_lines(done));
                        lemma_newline_count_concat(
                            s0 + chunk@.subrange(0, nl + 1),
                            chunk@.subrange(nl + 1, n as int),
                        );
                        assert(s0 + chunk@.subrange(0, nl + 1) + chunk@.subrange(nl + 1, n as int)
                            =~= s0 + chunk@);
                        lemma_split_lines_len(s0 + chunk@);
                    }
                    if carry.len() == 0 {
                        proof {
                            assert(line_tail(done) + segment@ =~= segment@);
                        }
                        counter.process_line(segment, &mut counts);
                    } else {
                        carry.extend_from_slice(segment);
                        proof {
                            assert(carry@ =~= line_tail(done) + segment@);
                        }
                        counter.process_line(carry.as_slice(), &mut counts);
                        carry.clear();
                    }
                    proof {
                        let ls = complete_lines(done).push(line_tail(done) + segment@);
                        assert(ls.drop_last() =~= complete_lines(done));
                    }
                    prev = nl + 1;
                },
            }
        }
        let tail = &chunk[prev..n];
        let ghost done = s0 + chunk@.subrange(0, prev as int);
        proof {
            lemma_append_no_newline(done, tail@);
            assert(done + tail@ =~= s0 + chunk@);
        }
        carry.extend_from_slice(tail);
        proof {
            assert(carry@ =~= line_tail(done) + tail@);
        }
        *self = LineCounter {
            counter,
            carry,
            counts,
            total_bytes: total_bytes + n as u64,
            seen: Ghost(s0 + chunk@),
        };
    }

    /// The number of complete lines fed so far: the number of newlines.
    pub fn lines_completed(&self) -> (r: usize)
        ensures
            r == newline_count(self.seen()),
    {
        proof {
            use_type_invariant(self);
            lemma_lines_bound(self.seen@);
            lemma_tally_lines(*self.counter.syntax, complete_lines(self.seen@));
        }
        self.counts.lines
    }

    /// The number of bytes fed so far.
    pub fn bytes_seen(&self) -> (r: u64)
        ensures
            r == self.seen().len(),
    {
        proof {
            use_type_invariant(self);
        }
        self.total_bytes
    }

    /// Counts the carried partial line, if any, and returns the counts of all
    /// lines fed and the number of bytes fed.
    pub fn finish(self) -> (r: (Counts, u64))
        ensures
            r.0@ == count_content(self.syntax(), self.seen()),
            r.1 == self.seen().len(),
    {
        proof {
            use_type_invariant(&self);
        }
        let mut counter = self.counter;
        let mut counts = self.counts;
        let ghost sx = *counter.syntax;
        let ghost c = self.seen@;
        if self.carry.len() > 0 {
            proof {
                lemma_lines_bound(c);
                lemma_tally_lines(sx, complete_lines(c));
                assert(split_lines(c).drop_last() =~= complete_lines(c));
            }
            counter.process_line(self.carry.as_slice(), &mut counts);
        }
        (counts, self.total_bytes)
    }
}

/// The line counts of `content` in the given syntax.
pub fn count_lines_from_bytes(content: &[u8], syntax: &LangSyntax) -> (r: Counts)
    requires
        syntax.wf(),
    ensures
        r@ == count_content(*syntax, content@),
{
    let mut counter = LineCounter::new(syntax);
    let n = content.len();
    proof {
        assert(Seq::<u8>::empty() + content@.subrange(0, n as int) =~= content@);
        lemma_split_lines_len(content@);
    }
    counter.feed(&content[0..n]);
    proof {
        assert(Seq::<u8>::empty() + content@.subrange(0, n as int) =~= content@);
    }
    counter.finish().0
}

} // verus!
