use loc::count::{count_lines_from_bytes, Counts, LineCounter};
use loc::languages::LanguageRegistry;

fn counts(lines: usize, blanks: usize, comments: usize, code: usize) -> Counts {
    Counts { lines, blanks, comments, code }
}

fn count_for(file: &str, content: &str) -> Counts {
    let registry = LanguageRegistry::new();
    let (_, syntax) = registry.get_language(file).expect("no language found");
    count_lines_from_bytes(content.as_bytes(), syntax)
}

#[test]
fn rust_basic() {
    let src = "// comment\nfn main() {\n\n    let x = 1; // trailing\n    /* block\n       still */\n}\n";
    assert_eq!(count_for("main.rs", src), counts(7, 1, 3, 3));
}

#[test]
fn python_docstring() {
    let src = "def f():\n    \"\"\"Doc\n    more\n    \"\"\"\n    return 1\n";
    assert_eq!(count_for("a.py", src), counts(5, 0, 3, 2));
}

#[test]
fn empty_input_has_no_lines() {
    assert_eq!(count_for("a.rs", ""), counts(0, 0, 0, 0));
}

#[test]
fn last_line_without_newline_is_counted() {
    assert_eq!(count_for("a.rs", "x"), counts(1, 0, 0, 1));
    assert_eq!(count_for("a.rs", "x\ny"), counts(2, 0, 0, 2));
}

#[test]
fn lone_newline_is_one_blank_line() {
    assert_eq!(count_for("a.rs", "\n"), counts(1, 1, 0, 0));
}

#[test]
fn whitespace_only_lines_are_blank() {
    assert_eq!(count_for("a.c", "  \t\n\n   \n"), counts(3, 3, 0, 0));
}

#[test]
fn carriage_returns_count_as_whitespace() {
    assert_eq!(count_for("a.c", "a\r\n\r\n"), counts(2, 1, 0, 1));
}

#[test]
fn block_opener_inside_string_is_ignored() {
    let src = "const files = glob(\"src/*.js\");\nconst x = 1;\n";
    assert_eq!(count_for("a.js", src), counts(2, 0, 0, 2));
}

#[test]
fn escaped_quote_keeps_string_open() {
    let src = "char *s = \"a\\\" /* not comment\";\nint y;\n";
    assert_eq!(count_for("a.c", src), counts(2, 0, 0, 2));
}

#[test]
fn block_comment_after_code() {
    let src = "int x = 1; /* start\n still comment\n end */ int y;\n";
    assert_eq!(count_for("a.c", src), counts(3, 0, 1, 2));
}

#[test]
fn block_comments_on_one_line() {
    let src = "/* a */ /* b */\n/* a */ x\n";
    assert_eq!(count_for("a.c", src), counts(2, 0, 1, 1));
}

#[test]
fn line_comment_after_code_is_code() {
    assert_eq!(count_for("a.go", "x := 1 // note\n"), counts(1, 0, 0, 1));
}

#[test]
fn lua_block_comment_before_line_comment() {
    let src = "--[[ block\ncomment ]]\nprint(\"hi\") -- trailing\n-- line\n";
    assert_eq!(count_for("a.lua", src), counts(4, 0, 3, 1));
}

#[test]
fn lua_long_string_lines_are_code() {
    let src = "local s = [[\nmulti\n]]\n";
    assert_eq!(count_for("a.lua", src), counts(3, 0, 0, 3));
}

#[test]
fn python_string_not_at_line_start_is_code() {
    let src = "x = \"\"\"abc\ndef\n\"\"\"\n";
    assert_eq!(count_for("a.py", src), counts(3, 0, 0, 3));
}

#[test]
fn python_hash_comment() {
    let src = "# top\nimport os\n\n  # indented\n";
    assert_eq!(count_for("a.py", src), counts(4, 1, 2, 1));
}

#[test]
fn html_comment_spanning_lines() {
    let src = "<!-- a\nb\n-->\n<p>x</p>\n";
    assert_eq!(count_for("index.html", src), counts(4, 0, 3, 1));
}

#[test]
fn go_raw_string_spans_lines() {
    let src = "s := `a\n// not a comment\n`\n";
    assert_eq!(count_for("a.go", src), counts(3, 0, 0, 3));
}

#[test]
fn lines_add_up() {
    let src = "// a\n\nx\n/* b\n*/\ny // c\n";
    let c = count_for("a.rs", src);
    assert_eq!(c.lines, c.blanks + c.comments + c.code);
    assert_eq!(c, counts(6, 1, 3, 2));
}

#[test]
fn blank_line_inside_block_comment_is_blank() {
    let src = "/*\n\n*/\n";
    assert_eq!(count_for("a.c", src), counts(3, 1, 2, 0));
}

#[test]
fn feeding_in_pieces_counts_the_same() {
    let registry = LanguageRegistry::new();
    let (_, syntax) = registry.get_language("a.rs").unwrap();
    let src = "// comment\nfn main() {\n    let s = \"multi\nline\";\n    /* c */\n}\n tail";
    let whole = count_lines_from_bytes(src.as_bytes(), syntax);
    for split in 0..src.len() {
        let mut counter = LineCounter::new(syntax);
        counter.feed(&src.as_bytes()[..split]);
        counter.feed(&src.as_bytes()[split..]);
        assert_eq!(counter.bytes_seen(), src.len() as u64);
        let (c, bytes) = counter.finish();
        assert_eq!(c, whole);
        assert_eq!(bytes, src.len() as u64);
    }
    assert_eq!(whole, counts(7, 0, 2, 5));
}

#[test]
fn feeding_byte_by_byte_counts_the_same() {
    let registry = LanguageRegistry::new();
    let (_, syntax) = registry.get_language("a.py").unwrap();
    let src = "def f():\n    \"\"\"Doc\n    more\n    \"\"\"\n    return 1\n";
    let mut counter = LineCounter::new(syntax);
    for b in src.as_bytes() {
        counter.feed(std::slice::from_ref(b));
    }
    let (c, bytes) = counter.finish();
    assert_eq!(c, counts(5, 0, 3, 2));
    assert_eq!(bytes, src.len() as u64);
}

#[test]
fn counts_add_field_by_field() {
    let mut a = counts(3, 1, 1, 1);
    a.add_assign(counts(4, 0, 2, 2));
    assert_eq!(a, counts(7, 1, 3, 3));
    assert_eq!(Counts::default(), counts(0, 0, 0, 0));
}

#[test]
fn opener_inside_string_after_false_trigger_is_ignored() {
    let src = "x = 'a/b /* c';\ny = 2;\n";
    assert_eq!(count_for("a.c", src), counts(2, 0, 0, 2));
}

#[test]
fn overlapping_closer_after_escaped_one_closes() {
    let src = "'''doc\n\\''''\nx = 1\n";
    assert_eq!(count_for("a.py", src), counts(3, 0, 2, 1));
}

#[test]
fn counts_add_over_files_in_single_line_syntax() {
    let a = "{\n  \"a\": 1,\n\n";
    let b = "  \"b\": \"// x\"\n}";
    let whole = count_for("a.json", &format!("{}{}", a, b));
    let mut sum = count_for("a.json", a);
    sum.add_assign(count_for("b.json", b));
    assert_eq!(whole, sum);
    assert_eq!(whole, counts(5, 1, 0, 4));
}

#[test]
fn lines_completed_counts_newlines() {
    let registry = LanguageRegistry::new();
    let (_, syntax) = registry.get_language("a.rs").unwrap();
    let mut counter = LineCounter::new(syntax);
    counter.feed(b"a\nb\nc");
    assert_eq!(counter.lines_completed(), 2);
    counter.feed(b"\n\n");
    assert_eq!(counter.lines_completed(), 4);
    assert_eq!(counter.finish().0, counts(4, 1, 0, 3));
}

#[test]
fn unclosed_docstring_lines_stay_comments() {
    let src = "\"\"\"doc\nstill \"quoted\" text\n\"\"\"\nx = 1\n";
    assert_eq!(count_for("a.py", src), counts(4, 0, 3, 1));
}
