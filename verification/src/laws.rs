//! Properties of line counting that hold for every syntax and every input.

use vstd::prelude::*;

use crate::languages::{first_claimant, lemma_table_lookup, lookup, LanguageRegistry, TableKind};
use crate::bytes::{
    escaped_at, first_occurrence, is_ascii_ws, leading_ws, lemma_leading_ws, lemma_leading_ws_unique,
    matches_at, trailing_backslashes,
};
use crate::count::{
    classify, close_from, complete_lines, count_content, event_at, first_delim_at, first_visible_from,
    in_string, lemma_first_visible, lemma_lines_bound, lemma_scan_marks, lemma_tally_lines,
    line_tail, newline, newline_count, next_event, open_delim, split_lines, state_ok, tally_lines,
    visible_event, lemma_close_skip, lemma_first_delim_at, lemma_matches_shift, unescaped_at,
    Event, LangSyntax, LineClass, ScanState, StringDelimiter,
};

verus! {

/// Every line is counted exactly once, in exactly one of the classes blank,
/// comment and code.
pub proof fn law_each_line_in_one_class(sx: LangSyntax, content: Seq<u8>)
    ensures
        count_content(sx, content).partitioned(),
        count_content(sx, content).lines == split_lines(content).len(),
{
    lemma_tally_lines(sx, split_lines(content));
}

/// The number of lines is the number of newlines, plus one for a last line
/// that does not end in a newline.
pub proof fn law_line_total(sx: LangSyntax, content: Seq<u8>)
    ensures
        count_content(sx, content).lines == newline_count(content) + if line_tail(content).len()
            > 0 {
            1nat
        } else {
            0nat
        },
{
    lemma_tally_lines(sx, split_lines(content));
    lemma_lines_bound(content);
}

/// A line is blank exactly when it is empty or holds only whitespace,
/// whatever construct it starts in.
pub proof fn law_blank_iff_whitespace(sx: LangSyntax, st: ScanState, line: Seq<u8>)
    requires
        sx.wf(),
        state_ok(sx, st),
        line.len() <= usize::MAX,
        sx.multiline_strings@.len() <= usize::MAX,
        sx.docstring_delimiters@.len() <= usize::MAX,
    ensures
        (classify(sx, st, line).0 == LineClass::Blank) == (leading_ws(line) == line.len()),
{
    if leading_ws(line) != line.len() {
        lemma_leading_ws(line);
        assert(line.subrange(0, line.len() as int) =~= line);
        lemma_scan_marks(sx, line, st, 0, true, false, false);
    }
}

/// A blank line leaves the scanner where it was.
pub proof fn law_blank_line_keeps_state(sx: LangSyntax, st: ScanState, line: Seq<u8>)
    requires
        leading_ws(line) == line.len(),
    ensures
        classify(sx, st, line) == (LineClass::Blank, st),
{
}

/// While inside a multiline string, every non-blank line is a code line.
pub proof fn law_string_lines_are_code(sx: LangSyntax, delim: usize, line: Seq<u8>)
    requires
        sx.wf(),
        state_ok(sx, ScanState::InMultilineString { delim, is_docstring: false }),
        leading_ws(line) < line.len(),
        line.len() <= usize::MAX,
        sx.multiline_strings@.len() <= usize::MAX,
        sx.docstring_delimiters@.len() <= usize::MAX,
    ensures
        classify(sx, ScanState::InMultilineString { delim, is_docstring: false }, line).0
            == LineClass::Code,
{
    lemma_scan_marks(
        sx,
        line,
        ScanState::InMultilineString { delim, is_docstring: false },
        0,
        true,
        false,
        false,
    );
}

/// While inside a multiline string or docstring, a non-blank line that holds
/// no unescaped closer stays inside it, and is a code line in a string, a
/// comment line in a docstring.
pub proof fn law_unclosed_string_lines(sx: LangSyntax, delim: usize, is_docstring: bool, line: Seq<u8>)
    requires
        leading_ws(line) < line.len(),
        ({
            let d = open_delim(sx, delim, is_docstring);
            close_from(line, 0, d.close@, d.backslash_escapes) is None
        }),
    ensures
        classify(sx, ScanState::InMultilineString { delim, is_docstring }, line) == (
            if is_docstring {
                LineClass::Comment
            } else {
                LineClass::Code
            },
            ScanState::InMultilineString { delim, is_docstring },
        ),
{
}

/// While inside a block comment, a non-blank line in which the comment does
/// not end is a comment line, and the comment goes on.
pub proof fn law_block_comment_lines(sx: LangSyntax, line: Seq<u8>)
    requires
        leading_ws(line) < line.len(),
        first_occurrence(line, sx.block_end()) is None,
    ensures
        classify(sx, ScanState::InBlockComment, line) == (
            LineClass::Comment,
            ScanState::InBlockComment,
        ),
{
    assert(line.subrange(0, line.len() as int) =~= line);
}

/// Outside block comments and strings, a line whose first non-whitespace
/// bytes are the line comment marker is a comment line, and the next line
/// starts outside block comments and strings too.
pub proof fn law_line_comment_lines(sx: LangSyntax, line: Seq<u8>)
    requires
        sx.line_comment is Some,
        leading_ws(line) < line.len(),
        matches_at(line, leading_ws(line) as int, sx.line_comment->0@),
        !(sx.block_comment is Some && matches_at(line, leading_ws(line) as int, sx.block_start())),
    ensures
        classify(sx, ScanState::Normal, line) == (LineClass::Comment, ScanState::Normal),
{
    assert(line.subrange(0, line.len() as int) =~= line);
}

/// In every table of a registry, an extension, file name, prefix or
/// interpreter maps to the first language that claims it, and to none when
/// no language claims it.
pub proof fn law_first_claim_wins(registry: LanguageRegistry, kind: TableKind, key: Seq<char>)
    requires
        registry.wf(),
    ensures
        lookup(registry.table(kind), key) == first_claimant(
            registry.languages(),
            kind,
            key,
            registry.languages().len() as int,
        ),
{
    lemma_table_lookup(registry.languages(), kind, key, registry.languages().len() as int);
}

/// A block comment or multiline string opener that lies inside a single-line
/// string opens nothing: the scan finds the first opener outside every
/// string, and finds none when every opener lies inside one.
pub proof fn law_openers_in_strings_ignored(seg: Seq<u8>, sx: LangSyntax)
    ensures
        (next_event(seg, sx) is None) == (forall|p: int|
            0 <= p < seg.len() && #[trigger] event_at(seg, sx, p) is Some ==> in_string(
                seg,
                p,
                sx.single_line_strings@,
            )),
        first_visible_from(seg, sx, 0) matches Some(p) ==> {
            &&& next_event(seg, sx) == event_at(seg, sx, p)
            &&& !in_string(seg, p, sx.single_line_strings@)
            &&& forall|q: int|
                0 <= q < p && #[trigger] event_at(seg, sx, q) is Some ==> in_string(
                    seg,
                    q,
                    sx.single_line_strings@,
                )
        },
{
    lemma_first_visible(seg, sx, 0);
    match first_visible_from(seg, sx, 0) {
        Some(p) => {
            assert(visible_event(seg, sx, p));
            assert forall|q: int| 0 <= q < p && #[trigger] event_at(seg, sx, q) is Some implies in_string(
                seg,
                q,
                sx.single_line_strings@,
            ) by {
                assert(!visible_event(seg, sx, q));
            }
        },
        None => {
            assert forall|p: int| 0 <= p < seg.len() && #[trigger] event_at(seg, sx, p) is Some implies in_string(
                seg,
                p,
                sx.single_line_strings@,
            ) by {
                assert(!visible_event(seg, sx, p));
            }
        },
    }
}

/// Outside block comments and strings, a non-blank line that starts with no
/// comment or docstring, and whose every block comment or multiline string
/// opener lies inside a single-line string, is a code line, and the next
/// line starts outside block comments and strings too.
pub proof fn law_code_line_with_openers_in_strings(sx: LangSyntax, line: Seq<u8>)
    requires
        leading_ws(line) < line.len(),
        !(sx.block_comment is Some && matches_at(line, leading_ws(line) as int, sx.block_start())),
        !(sx.line_comment is Some && matches_at(line, leading_ws(line) as int, sx.line_comment->0@)),
        first_delim_at(line, leading_ws(line) as int, sx.docstring_delimiters@, 0) is None,
        forall|p: int|
            0 <= p < line.len() && #[trigger] event_at(line, sx, p) is Some ==> in_string(
                line,
                p,
                sx.single_line_strings@,
            ),
    ensures
        classify(sx, ScanState::Normal, line) == (LineClass::Code, ScanState::Normal),
{
    assert(line.subrange(0, line.len() as int) =~= line);
    law_openers_in_strings_ignored(line, sx);
}

/// The syntax has neither block comments nor multiline strings nor
/// docstrings: every line starts outside any multiline construct.
pub open spec fn single_line_syntax(sx: LangSyntax) -> bool {
    &&& sx.block_comment is None
    &&& sx.multiline_strings@.len() == 0
    &&& sx.docstring_delimiters@.len() == 0
}

/// In a single-line syntax, a line never leaves the normal state.
proof fn lemma_single_line_classify(sx: LangSyntax, line: Seq<u8>)
    requires
        single_line_syntax(sx),
    ensures
        classify(sx, ScanState::Normal, line).1 == ScanState::Normal,
{
    assert(line.subrange(0, line.len() as int) =~= line);
    assert forall|p: int| 0 <= p < line.len() implies !visible_event(line, sx, p) by {
        assert(first_delim_at(line, p, sx.multiline_strings@, 0) is None);
    }
    lemma_first_visible(line, sx, 0);
    assert(first_delim_at(line, leading_ws(line) as int, sx.docstring_delimiters@, 0) is None);
}

/// In a single-line syntax, counting a list of lines ends in the normal state.
proof fn lemma_single_line_state(sx: LangSyntax, xs: Seq<Seq<u8>>)
    requires
        single_line_syntax(sx),
    ensures
        tally_lines(sx, xs).1 == ScanState::Normal,
    decreases xs.len(),
{
    if xs.len() > 0 {
        lemma_single_line_state(sx, xs.drop_last());
        lemma_single_line_classify(sx, xs.last());
    }
}

/// In a single-line syntax, counting a list of lines ends in the normal
/// state, and the counts of two lists add up.
proof fn lemma_single_line_tally(sx: LangSyntax, xs: Seq<Seq<u8>>, ys: Seq<Seq<u8>>)
    requires
        single_line_syntax(sx),
    ensures
        tally_lines(sx, ys).1 == ScanState::Normal,
        tally_lines(sx, xs + ys) == (
            tally_lines(sx, xs).0.plus(tally_lines(sx, ys).0),
            ScanState::Normal,
        ),
    decreases ys.len(),
{
    if ys.len() == 0 {
        assert(xs + ys =~= xs);
        lemma_single_line_state(sx, xs);
    } else {
        lemma_single_line_tally(sx, xs, ys.drop_last());
        assert((xs + ys).drop_last() =~= xs + ys.drop_last());
        assert((xs + ys).last() == ys.last());
        lemma_single_line_classify(sx, ys.last());
    }
}

/// After content that ends in a newline, the lines of what follows are the
/// lines of the rest read alone.
proof fn lemma_lines_concat(a: Seq<u8>, b: Seq<u8>)
    requires
        a.len() == 0 || a.last() == newline(),
    ensures
        complete_lines(a + b) == complete_lines(a) + complete_lines(b),
        line_tail(a + b) == line_tail(b),
    decreases b.len(),
{
    if b.len() == 0 {
        assert(a + b =~= a);
        assert(complete_lines(a) + complete_lines(b) =~= complete_lines(a));
    } else {
        lemma_lines_concat(a, b.drop_last());
        assert((a + b).drop_last() =~= a + b.drop_last());
        assert((a + b).last() == b.last());
        if b.last() == newline() {
            assert(complete_lines(a) + complete_lines(b.drop_last()).push(line_tail(b.drop_last()))
                =~= (complete_lines(a) + complete_lines(b.drop_last())).push(
                line_tail(b.drop_last()),
            ));
        }
    }
}

/// In a syntax without multiline constructs, the counts of two pieces of
/// content, the first ending in a newline, add up to the counts of the whole.
pub proof fn law_counts_add_over_files(sx: LangSyntax, a: Seq<u8>, b: Seq<u8>)
    requires
        single_line_syntax(sx),
        a.len() == 0 || a.last() == newline(),
    ensures
        count_content(sx, a + b) == count_content(sx, a).plus(count_content(sx, b)),
{
    lemma_lines_concat(a, b);
    assert(line_tail(a).len() == 0);
    assert(split_lines(a) == complete_lines(a));
    if line_tail(b).len() > 0 {
        assert(split_lines(a + b) =~= complete_lines(a) + split_lines(b));
    } else {
        assert(split_lines(a + b) =~= complete_lines(a) + split_lines(b));
    }
    lemma_single_line_tally(sx, complete_lines(a), split_lines(b));
}

/// `n` backslashes.
pub open spec fn backslashes(n: nat) -> Seq<u8> {
    Seq::new(n, |i: int| 0x5cu8)
}

/// Content that does not end in a backslash, followed by `n` backslashes,
/// ends in exactly `n` backslashes.
proof fn lemma_trailing_backslashes(p: Seq<u8>, n: nat)
    requires
        p.len() == 0 || p.last() != 0x5cu8,
    ensures
        trailing_backslashes(p + backslashes(n)) == n,
    decreases n,
{
    if n == 0 {
        assert(p + backslashes(0) =~= p);
    } else {
        lemma_trailing_backslashes(p, (n - 1) as nat);
        assert((p + backslashes(n)).drop_last() =~= p + backslashes((n - 1) as nat));
    }
}

/// A byte preceded by a run of `n` backslashes (and before them no
/// backslash) is escaped exactly when `n` is odd: backslashes escape each
/// other in pairs.
pub proof fn law_escape_parity(p: Seq<u8>, n: nat, q: Seq<u8>)
    requires
        p.len() == 0 || p.last() != 0x5cu8,
    ensures
        escaped_at(p + backslashes(n) + q, p.len() + n as int) == (n % 2 == 1),
{
    lemma_trailing_backslashes(p, n);
    assert((p + backslashes(n) + q).subrange(0, p.len() + n as int) =~= p + backslashes(n));
}

/// Delimiter `k` is the first of `ds` whose opener occurs in `s` at `c`.
proof fn lemma_first_delim_is(s: Seq<u8>, c: int, ds: Seq<StringDelimiter>, j: int, k: int)
    requires
        0 <= j <= k < ds.len(),
        matches_at(s, c, ds[k].open@),
        forall|i: int| 0 <= i < k ==> !matches_at(s, c, #[trigger] ds[i].open@),
    ensures
        first_delim_at(s, c, ds, j) == Some(k),
    decreases k - j,
{
    if j < k {
        lemma_first_delim_is(s, c, ds, j + 1, k);
    }
}

/// No opener of `ds` occurring in `s` at `c` leaves no delimiter found there.
proof fn lemma_no_delim(s: Seq<u8>, c: int, ds: Seq<StringDelimiter>)
    requires
        forall|i: int| 0 <= i < ds.len() ==> !matches_at(s, c, #[trigger] ds[i].open@),
    ensures
        first_delim_at(s, c, ds, 0) is None,
{
    lemma_first_delim_at(s, c, ds, 0);
}

/// No multiline string or block comment opens at `q` in `line`.
pub open spec fn no_opener_at(sx: LangSyntax, line: Seq<u8>, q: int) -> bool {
    &&& forall|i: int|
        0 <= i < sx.multiline_strings@.len() ==> !matches_at(
            line,
            q,
            #[trigger] sx.multiline_strings@[i].open@,
        )
    &&& !(sx.block_comment is Some && matches_at(line, q, sx.block_start()))
}

/// After position `nc`, where nothing opens, the scan of the rest of the
/// line in normal state finds no multiline construct.
proof fn lemma_rest_without_openers(sx: LangSyntax, line: Seq<u8>, nc: int)
    requires
        0 <= nc <= line.len(),
        forall|q: int| nc <= q < line.len() ==> #[trigger] no_opener_at(sx, line, q),
    ensures
        next_event(line.subrange(nc, line.len() as int), sx) is None,
        forall|q: int|
            0 <= q < line.len() - nc ==> !(sx.block_comment is Some && matches_at(
                line.subrange(nc, line.len() as int),
                q,
                sx.block_start(),
            )),
{
    let rem = line.subrange(nc, line.len() as int);
    let ms = sx.multiline_strings@;
    assert forall|q: int| 0 <= q < rem.len() implies event_at(rem, sx, q) is None by {
        assert(no_opener_at(sx, line, nc + q));
        assert forall|i: int| 0 <= i < ms.len() implies !matches_at(rem, q, #[trigger] ms[i].open@) by {
            lemma_matches_shift(line, nc, q, ms[i].open@);
        }
        lemma_no_delim(rem, q, ms);
        lemma_matches_shift(line, nc, q, sx.block_start());
    }
    assert forall|q: int| 0 <= q < rem.len() implies !(sx.block_comment is Some && matches_at(
        rem,
        q,
        sx.block_start(),
    )) by {
        lemma_matches_shift(line, nc, q, sx.block_start());
        assert(no_opener_at(sx, line, nc + q));
    }
    lemma_first_visible(rem, sx, 0);
    if let Some(p) = first_visible_from(rem, sx, 0) {
        assert(visible_event(rem, sx, p));
    }
}

/// The scan of the rest of a line from `nc` in normal state, where no
/// multiline construct opens, stays in normal state and keeps what was seen.
proof fn lemma_scan_rest_normal(sx: LangSyntax, line: Seq<u8>, nc: int, code: bool, com: bool)
    requires
        0 <= nc <= line.len(),
        forall|q: int| nc <= q < line.len() ==> #[trigger] no_opener_at(sx, line, q),
    ensures
        ({
            let r = crate::count::scan(sx, line, ScanState::Normal, nc, false, code, com);
            r.0 == ScanState::Normal && (r.1 == code || r.1) && (code ==> r.1) && (r.2 == com
                || r.2) && (!code ==> (r.1 == (leading_ws(line.subrange(nc, line.len() as int))
                < line.len() - nc && !(sx.line_comment is Some && matches_at(
                line.subrange(nc, line.len() as int),
                leading_ws(line.subrange(nc, line.len() as int)) as int,
                sx.line_comment->0@,
            )))))
        }),
{
    lemma_rest_without_openers(sx, line, nc);
    lemma_leading_ws(line.subrange(nc, line.len() as int));
}

/// Outside block comments and strings, a line whose only content is a
/// docstring opened and closed on that line (with whitespace around it) is a
/// comment line, and the next line starts outside any string.
pub proof fn law_one_line_docstring(sx: LangSyntax, line: Seq<u8>, w: int, k: int, cp: int)
    requires
        0 <= w < line.len(),
        forall|j: int| 0 <= j < w ==> is_ascii_ws(#[trigger] line[j]),
        !is_ascii_ws(line[w]),
        !(sx.block_comment is Some && matches_at(line, w, sx.block_start())),
        !(sx.line_comment is Some && matches_at(line, w, sx.line_comment->0@)),
        0 <= k < sx.docstring_delimiters@.len(),
        matches_at(line, w, sx.docstring_delimiters@[k].open@),
        forall|i: int|
            0 <= i < k ==> !matches_at(line, w, #[trigger] sx.docstring_delimiters@[i].open@),
        w + sx.docstring_delimiters@[k].open@.len() <= cp,
        unescaped_at(
            line,
            cp,
            sx.docstring_delimiters@[k].close@,
            sx.docstring_delimiters@[k].backslash_escapes,
        ),
        forall|j: int|
            w + sx.docstring_delimiters@[k].open@.len() <= j < cp ==> !#[trigger] unescaped_at(
                line,
                j,
                sx.docstring_delimiters@[k].close@,
                sx.docstring_delimiters@[k].backslash_escapes,
            ),
        forall|j: int|
            cp + sx.docstring_delimiters@[k].close@.len() <= j < line.len() ==> is_ascii_ws(
                #[trigger] line[j],
            ),
    ensures
        classify(sx, ScanState::Normal, line) == (LineClass::Comment, ScanState::Normal),
{
    let d = sx.docstring_delimiters@[k];
    let after = w + d.open@.len();
    let nc = cp + d.close@.len();
    lemma_leading_ws_unique(line, w);
    assert(line.subrange(0, line.len() as int) =~= line);
    lemma_first_delim_is(line, w, sx.docstring_delimiters@, 0, k);
    lemma_close_skip(line, after, cp, d.close@, d.backslash_escapes);
    let rest = line.subrange(nc, line.len() as int);
    assert forall|j: int| 0 <= j < rest.len() implies is_ascii_ws(#[trigger] rest[j]) by {
        assert(rest[j] == line[nc + j]);
    }
    lemma_leading_ws_unique(rest, rest.len() as int);
    assert(crate::count::scan(sx, line, ScanState::Normal, nc, false, false, true) == (
        ScanState::Normal,
        false,
        true,
    ));
}

/// Outside block comments and strings, a line with code before a multiline
/// string that closes on the same line, after which nothing opens, is a code
/// line, and the next line starts outside any string: the closed string does
/// not carry over.
pub proof fn law_string_closed_on_its_line(
    sx: LangSyntax,
    line: Seq<u8>,
    w: int,
    pos: usize,
    k: usize,
    cp: int,
)
    requires
        line.len() <= usize::MAX,
        sx.multiline_strings@.len() <= usize::MAX,
        0 <= w < line.len(),
        forall|j: int| 0 <= j < w ==> is_ascii_ws(#[trigger] line[j]),
        !is_ascii_ws(line[w]),
        !(sx.block_comment is Some && matches_at(line, w, sx.block_start())),
        !(sx.line_comment is Some && matches_at(line, w, sx.line_comment->0@)),
        forall|i: int|
            0 <= i < sx.docstring_delimiters@.len() ==> !matches_at(
                line,
                w,
                #[trigger] sx.docstring_delimiters@[i].open@,
            ),
        next_event(line, sx) == Some(Event::MultilineString { pos, delim: k }),
        pos + sx.multiline_strings@[k as int].open@.len() <= cp,
        unescaped_at(
            line,
            cp,
            sx.multiline_strings@[k as int].close@,
            sx.multiline_strings@[k as int].backslash_escapes,
        ),
        forall|j: int|
            pos + sx.multiline_strings@[k as int].open@.len() <= j < cp ==> !#[trigger] unescaped_at(
                line,
                j,
                sx.multiline_strings@[k as int].close@,
                sx.multiline_strings@[k as int].backslash_escapes,
            ),
        forall|q: int|
            cp + sx.multiline_strings@[k as int].close@.len() <= q < line.len()
                ==> #[trigger] no_opener_at(sx, line, q),
    ensures
        classify(sx, ScanState::Normal, line) == (LineClass::Code, ScanState::Normal),
{
    let d = sx.multiline_strings@[k as int];
    let after = pos + d.open@.len();
    let nc = cp + d.close@.len();
    lemma_leading_ws_unique(line, w);
    assert(line.subrange(0, line.len() as int) =~= line);
    lemma_no_delim(line, w, sx.docstring_delimiters@);
    crate::count::lemma_next_event(line, sx);
    lemma_close_skip(line, after, cp, d.close@, d.backslash_escapes);
    lemma_scan_rest_normal(sx, line, nc, true, false);
}

/// Outside block comments and strings, a line with code before a block
/// comment that ends on the same line, after which nothing opens, is a code
/// line, and the next line starts outside any block comment.
pub proof fn law_block_comment_closed_on_its_line(
    sx: LangSyntax,
    line: Seq<u8>,
    w: int,
    pos: usize,
    e: int,
)
    requires
        line.len() <= usize::MAX,
        sx.multiline_strings@.len() <= usize::MAX,
        0 <= w < pos,
        forall|j: int| 0 <= j < w ==> is_ascii_ws(#[trigger] line[j]),
        !is_ascii_ws(line[w]),
        !(sx.block_comment is Some && matches_at(line, w, sx.block_start())),
        !(sx.line_comment is Some && matches_at(line, w, sx.line_comment->0@)),
        forall|i: int|
            0 <= i < sx.docstring_delimiters@.len() ==> !matches_at(
                line,
                w,
                #[trigger] sx.docstring_delimiters@[i].open@,
            ),
        next_event(line, sx) == Some(Event::BlockComment { pos }),
        pos + sx.block_start().len() <= e,
        matches_at(line, e, sx.block_end()),
        forall|j: int|
            pos + sx.block_start().len() <= j < e ==> !#[trigger] matches_at(
                line,
                j,
                sx.block_end(),
            ),
        forall|q: int|
            e + sx.block_end().len() <= q < line.len() ==> #[trigger] no_opener_at(sx, line, q),
    ensures
        classify(sx, ScanState::Normal, line) == (LineClass::Code, ScanState::Normal),
{
    let after = pos + sx.block_start().len();
    let nc = e + sx.block_end().len();
    lemma_leading_ws_unique(line, w);
    assert(line.subrange(0, line.len() as int) =~= line);
    lemma_no_delim(line, w, sx.docstring_delimiters@);
    crate::count::lemma_next_event(line, sx);
    let tail = line.subrange(after, line.len() as int);
    crate::bytes::lemma_first_occurrence(tail, sx.block_end());
    assert forall|j: int| 0 <= j < e - after implies !matches_at(tail, j, sx.block_end()) by {
        lemma_matches_shift(line, after, j, sx.block_end());
    }
    lemma_matches_shift(line, after, e - after, sx.block_end());
    let pre = line.subrange(0, pos as int);
    assert forall|j: int| 0 <= j < w implies is_ascii_ws(#[trigger] pre[j]) by {
        assert(pre[j] == line[j]);
    }
    assert(pre[w] == line[w]);
    lemma_leading_ws_unique(pre, w);
    lemma_scan_rest_normal(sx, line, nc, true, true);
}

/// Outside block comments and strings, a line whose only content starts
/// with a docstring that does not close on the line is a comment line, and
/// the next line starts inside that docstring.
pub proof fn law_docstring_left_open(sx: LangSyntax, line: Seq<u8>, w: int, k: int)
    requires
        0 <= w < line.len(),
        forall|j: int| 0 <= j < w ==> is_ascii_ws(#[trigger] line[j]),
        !is_ascii_ws(line[w]),
        !(sx.block_comment is Some && matches_at(line, w, sx.block_start())),
        !(sx.line_comment is Some && matches_at(line, w, sx.line_comment->0@)),
        0 <= k < sx.docstring_delimiters@.len(),
        k <= usize::MAX,
        matches_at(line, w, sx.docstring_delimiters@[k].open@),
        forall|i: int|
            0 <= i < k ==> !matches_at(line, w, #[trigger] sx.docstring_delimiters@[i].open@),
        forall|j: int|
            w + sx.docstring_delimiters@[k].open@.len() <= j ==> !#[trigger] unescaped_at(
                line,
                j,
                sx.docstring_delimiters@[k].close@,
                sx.docstring_delimiters@[k].backslash_escapes,
            ),
    ensures
        classify(sx, ScanState::Normal, line) == (
            LineClass::Comment,
            ScanState::InMultilineString { delim: k as usize, is_docstring: true },
        ),
{
    let d = sx.docstring_delimiters@[k];
    lemma_leading_ws_unique(line, w);
    assert(line.subrange(0, line.len() as int) =~= line);
    lemma_first_delim_is(line, w, sx.docstring_delimiters@, 0, k);
    crate::count::lemma_close_from(line, w + d.open@.len(), d.close@, d.backslash_escapes);
}

/// Outside block comments and strings, a line with code before a multiline
/// string that does not close on the line is a code line, and the next line
/// starts inside that string.
pub proof fn law_string_left_open(sx: LangSyntax, line: Seq<u8>, w: int, pos: usize, k: usize)
    requires
        line.len() <= usize::MAX,
        sx.multiline_strings@.len() <= usize::MAX,
        0 <= w < line.len(),
        forall|j: int| 0 <= j < w ==> is_ascii_ws(#[trigger] line[j]),
        !is_ascii_ws(line[w]),
        !(sx.block_comment is Some && matches_at(line, w, sx.block_start())),
        !(sx.line_comment is Some && matches_at(line, w, sx.line_comment->0@)),
        forall|i: int|
            0 <= i < sx.docstring_delimiters@.len() ==> !matches_at(
                line,
                w,
                #[trigger] sx.docstring_delimiters@[i].open@,
            ),
        next_event(line, sx) == Some(Event::MultilineString { pos, delim: k }),
        forall|j: int|
            pos + sx.multiline_strings@[k as int].open@.len() <= j ==> !#[trigger] unescaped_at(
                line,
                j,
                sx.multiline_strings@[k as int].close@,
                sx.multiline_strings@[k as int].backslash_escapes,
            ),
    ensures
        classify(sx, ScanState::Normal, line) == (
            LineClass::Code,
            ScanState::InMultilineString { delim: k, is_docstring: false },
        ),
{
    let d = sx.multiline_strings@[k as int];
    lemma_leading_ws_unique(line, w);
    assert(line.subrange(0, line.len() as int) =~= line);
    lemma_no_delim(line, w, sx.docstring_delimiters@);
    crate::count::lemma_next_event(line, sx);
    crate::count::lemma_close_from(line, pos + d.open@.len(), d.close@, d.backslash_escapes);
}

/// Outside block comments and strings, a line with code before a block
/// comment that does not end on the line is a code line, and the next line
/// starts inside the block comment.
pub proof fn law_block_comment_left_open(sx: LangSyntax, line: Seq<u8>, w: int, pos: usize)
    requires
        line.len() <= usize::MAX,
        sx.multiline_strings@.len() <= usize::MAX,
        0 <= w < pos,
        forall|j: int| 0 <= j < w ==> is_ascii_ws(#[trigger] line[j]),
        !is_ascii_ws(line[w]),
        !(sx.block_comment is Some && matches_at(line, w, sx.block_start())),
        !(sx.line_comment is Some && matches_at(line, w, sx.line_comment->0@)),
        forall|i: int|
            0 <= i < sx.docstring_delimiters@.len() ==> !matches_at(
                line,
                w,
                #[trigger] sx.docstring_delimiters@[i].open@,
            ),
        next_event(line, sx) == Some(Event::BlockComment { pos }),
        forall|j: int|
            pos + sx.block_start().len() <= j ==> !#[trigger] matches_at(line, j, sx.block_end()),
    ensures
        classify(sx, ScanState::Normal, line) == (LineClass::Code, ScanState::InBlockComment),
{
    let after = pos + sx.block_start().len();
    lemma_leading_ws_unique(line, w);
    assert(line.subrange(0, line.len() as int) =~= line);
    lemma_no_delim(line, w, sx.docstring_delimiters@);
    crate::count::lemma_next_event(line, sx);
    let tail = line.subrange(after, line.len() as int);
    crate::bytes::lemma_first_occurrence(tail, sx.block_end());
    if let Some(o) = crate::bytes::first_occurrence(tail, sx.block_end()) {
        lemma_matches_shift(line, after, o, sx.block_end());
    }
    let pre = line.subrange(0, pos as int);
    assert forall|j: int| 0 <= j < w implies is_ascii_ws(#[trigger] pre[j]) by {
        assert(pre[j] == line[j]);
    }
    assert(pre[w] == line[w]);
    lemma_leading_ws_unique(pre, w);
}

/// With backslash escapes, a closer that does not start with a backslash,
/// preceded by an even run of backslashes, is found right after them; after
/// an odd run it is escaped and not found there.
pub proof fn law_closer_after_backslashes(m: nat, close: Seq<u8>, q: Seq<u8>)
    requires
        close.len() > 0,
        close[0] != 0x5cu8,
    ensures
        m % 2 == 0 ==> close_from(backslashes(m) + close + q, 0, close, true) == Some(m as int),
        m % 2 == 1 ==> close_from(backslashes(m) + close + q, 0, close, true) != Some(m as int),
{
    let line = backslashes(m) + close + q;
    assert forall|j: int| 0 <= j < m implies !#[trigger] unescaped_at(line, j, close, true) by {
        if matches_at(line, j, close) {
            assert(line.subrange(j, j + close.len())[0] == line[j]);
        }
    }
    crate::count::lemma_close_skip(line, 0, m as int, close, true);
    law_escape_parity(Seq::empty(), m, close + q);
    assert(Seq::<u8>::empty() + backslashes(m) + (close + q) =~= line);
    assert(line.subrange(m as int, m + close.len() as int) =~= close);
    crate::count::lemma_close_from(line, m as int + 1, close, true);
}

} // verus!
