//! The built-in language definitions.

use vstd::prelude::*;

use crate::count::{DelimView, LangSyntax, StringDelimiter, SyntaxView, triggers_upto};
use crate::languages::{string_views, LanguageDef};

verus! {

/// The bytes that the built-in syntaxes are written with.
pub const BANG: u8 = 0x21u8;
pub const QUOTE: u8 = 0x22u8;
pub const HASH: u8 = 0x23u8;
pub const APOSTROPHE: u8 = 0x27u8;
pub const STAR: u8 = 0x2au8;
pub const DASH: u8 = 0x2du8;
pub const SLASH: u8 = 0x2fu8;
pub const LT: u8 = 0x3cu8;
pub const GT: u8 = 0x3eu8;
pub const LBRACKET: u8 = 0x5bu8;
pub const RBRACKET: u8 = 0x5du8;
pub const BACKTICK: u8 = 0x60u8;
pub const LBRACE: u8 = 0x7bu8;
pub const RBRACE: u8 = 0x7du8;

/// A delimiter pair as bytes.
pub open spec fn dv(open: Seq<u8>, close: Seq<u8>, backslash_escapes: bool) -> DelimView {
    DelimView { open, close, backslash_escapes }
}

/// The syntax that `hash_syntax` builds.
pub open spec fn hash_syntax_view() -> SyntaxView {
    SyntaxView {
        line_comment: Some(seq![HASH]),
        block_comment: None,
        single_line_strings: seq![dv(seq![QUOTE], seq![QUOTE], true), dv(seq![APOSTROPHE], seq![APOSTROPHE], false)],
        multiline_strings: Seq::empty(),
        docstring_delimiters: Seq::empty(),
    }
}

/// The syntax that `hash_escaped_syntax` builds.
pub open spec fn hash_escaped_syntax_view() -> SyntaxView {
    SyntaxView {
        line_comment: Some(seq![HASH]),
        block_comment: None,
        single_line_strings: seq![dv(seq![QUOTE], seq![QUOTE], true), dv(seq![APOSTROPHE], seq![APOSTROPHE], true)],
        multiline_strings: Seq::empty(),
        docstring_delimiters: Seq::empty(),
    }
}

/// The syntax that `c_syntax` builds.
pub open spec fn c_syntax_view() -> SyntaxView {
    SyntaxView {
        line_comment: Some(seq![SLASH, SLASH]),
        block_comment: Some((seq![SLASH, STAR], seq![STAR, SLASH])),
        single_line_strings: seq![dv(seq![QUOTE], seq![QUOTE], true), dv(seq![APOSTROPHE], seq![APOSTROPHE], true)],
        multiline_strings: Seq::empty(),
        docstring_delimiters: Seq::empty(),
    }
}

/// The syntax that `css_syntax` builds.
pub open spec fn css_syntax_view() -> SyntaxView {
    SyntaxView {
        line_comment: None,
        block_comment: Some((seq![SLASH, STAR], seq![STAR, SLASH])),
        single_line_strings: seq![dv(seq![QUOTE], seq![QUOTE], true), dv(seq![APOSTROPHE], seq![APOSTROPHE], true)],
        multiline_strings: Seq::empty(),
        docstring_delimiters: Seq::empty(),
    }
}

/// The syntax that `go_syntax` builds.
pub open spec fn go_syntax_view() -> SyntaxView {
    SyntaxView {
        line_comment: Some(seq![SLASH, SLASH]),
        block_comment: Some((seq![SLASH, STAR], seq![STAR, SLASH])),
        single_line_strings: seq![dv(seq![QUOTE], seq![QUOTE], true), dv(seq![APOSTROPHE], seq![APOSTROPHE], true)],
        multiline_strings: seq![dv(seq![BACKTICK], seq![BACKTICK], false)],
        docstring_delimiters: Seq::empty(),
    }
}

/// The syntax that `java_syntax` builds.
pub open spec fn java_syntax_view() -> SyntaxView {
    SyntaxView {
        line_comment: Some(seq![SLASH, SLASH]),
        block_comment: Some((seq![SLASH, STAR], seq![STAR, SLASH])),
        single_line_strings: seq![dv(seq![QUOTE], seq![QUOTE], true), dv(seq![APOSTROPHE], seq![APOSTROPHE], true)],
        multiline_strings: seq![dv(seq![QUOTE, QUOTE, QUOTE], seq![QUOTE, QUOTE, QUOTE], true)],
        docstring_delimiters: Seq::empty(),
    }
}

/// The syntax that `javascript_syntax` builds.
pub open spec fn javascript_syntax_view() -> SyntaxView {
    SyntaxView {
        line_comment: Some(seq![SLASH, SLASH]),
        block_comment: Some((seq![SLASH, STAR], seq![STAR, SLASH])),
        single_line_strings: seq![dv(seq![QUOTE], seq![QUOTE], true), dv(seq![APOSTROPHE], seq![APOSTROPHE], true)],
        multiline_strings: seq![dv(seq![BACKTICK], seq![BACKTICK], true)],
        docstring_delimiters: Seq::empty(),
    }
}

/// The syntax that `rust_syntax` builds.
pub open spec fn rust_syntax_view() -> SyntaxView {
    SyntaxView {
        line_comment: Some(seq![SLASH, SLASH]),
        block_comment: Some((seq![SLASH, STAR], seq![STAR, SLASH])),
        single_line_strings: Seq::empty(),
        multiline_strings: seq![dv(seq![QUOTE], seq![QUOTE], true)],
        docstring_delimiters: Seq::empty(),
    }
}

/// The syntax that `markup_syntax` builds.
pub open spec fn markup_syntax_view() -> SyntaxView {
    SyntaxView {
        line_comment: None,
        block_comment: Some((seq![LT, BANG, DASH, DASH], seq![DASH, DASH, GT])),
        single_line_strings: Seq::empty(),
        multiline_strings: Seq::empty(),
        docstring_delimiters: Seq::empty(),
    }
}

/// The syntax that `haskell_syntax` builds.
pub open spec fn haskell_syntax_view() -> SyntaxView {
    SyntaxView {
        line_comment: Some(seq![DASH, DASH]),
        block_comment: Some((seq![LBRACE, DASH], seq![DASH, RBRACE])),
        single_line_strings: seq![dv(seq![QUOTE], seq![QUOTE], true)],
        multiline_strings: Seq::empty(),
        docstring_delimiters: Seq::empty(),
    }
}

/// The syntax that `lua_syntax` builds.
pub open spec fn lua_syntax_view() -> SyntaxView {
    SyntaxView {
        line_comment: Some(seq![DASH, DASH]),
        block_comment: Some((seq![DASH, DASH, LBRACKET, LBRACKET], seq![RBRACKET, RBRACKET])),
        single_line_strings: seq![dv(seq![QUOTE], seq![QUOTE], true), dv(seq![APOSTROPHE], seq![APOSTROPHE], true)],
        multiline_strings: seq![dv(seq![LBRACKET, LBRACKET], seq![RBRACKET, RBRACKET], false)],
        docstring_delimiters: Seq::empty(),
    }
}

/// The syntax that `sql_syntax` builds.
pub open spec fn sql_syntax_view() -> SyntaxView {
    SyntaxView {
        line_comment: Some(seq![DASH, DASH]),
        block_comment: Some((seq![SLASH, STAR], seq![STAR, SLASH])),
        single_line_strings: seq![dv(seq![APOSTROPHE], seq![APOSTROPHE], false)],
        multiline_strings: Seq::empty(),
        docstring_delimiters: Seq::empty(),
    }
}

/// The syntax that `json_syntax` builds.
pub open spec fn json_syntax_view() -> SyntaxView {
    SyntaxView {
        line_comment: None,
        block_comment: None,
        single_line_strings: seq![dv(seq![QUOTE], seq![QUOTE], true)],
        multiline_strings: Seq::empty(),
        docstring_delimiters: Seq::empty(),
    }
}

/// The syntax that `python_syntax` builds.
pub open spec fn python_syntax_view() -> SyntaxView {
    SyntaxView {
        line_comment: Some(seq![HASH]),
        block_comment: None,
        single_line_strings: seq![dv(seq![QUOTE], seq![QUOTE], true), dv(seq![APOSTROPHE], seq![APOSTROPHE], true)],
        multiline_strings: seq![dv(seq![QUOTE, QUOTE, QUOTE], seq![QUOTE, QUOTE, QUOTE], true), dv(seq![APOSTROPHE, APOSTROPHE, APOSTROPHE], seq![APOSTROPHE, APOSTROPHE, APOSTROPHE], true)],
        docstring_delimiters: seq![dv(seq![QUOTE, QUOTE, QUOTE], seq![QUOTE, QUOTE, QUOTE], true), dv(seq![APOSTROPHE, APOSTROPHE, APOSTROPHE], seq![APOSTROPHE, APOSTROPHE, APOSTROPHE], true)],
    }
}

/// The syntax that `toml_syntax` builds.
pub open spec fn toml_syntax_view() -> SyntaxView {
    SyntaxView {
        line_comment: Some(seq![HASH]),
        block_comment: None,
        single_line_strings: seq![dv(seq![QUOTE], seq![QUOTE], true), dv(seq![APOSTROPHE], seq![APOSTROPHE], false)],
        multiline_strings: seq![dv(seq![QUOTE, QUOTE, QUOTE], seq![QUOTE, QUOTE, QUOTE], true), dv(seq![APOSTROPHE, APOSTROPHE, APOSTROPHE], seq![APOSTROPHE, APOSTROPHE, APOSTROPHE], false)],
        docstring_delimiters: Seq::empty(),
    }
}

/// A string delimiter pair.
fn delim(open: Vec<u8>, close: Vec<u8>, backslash_escapes: bool) -> (d: StringDelimiter)
    ensures
        d.open@ == open@,
        d.close@ == close@,
        d.backslash_escapes == backslash_escapes,
{
    StringDelimiter { open, close, backslash_escapes }
}

/// `#` line comments; double-quoted strings with escapes, single-quoted strings without.
fn hash_syntax() -> (sx: LangSyntax)
    ensures
        sx.wf(),
        sx@ == hash_syntax_view(),
{
    let sx = LangSyntax {
        line_comment: Some(vec![HASH]),
        block_comment: None,
        single_line_strings: vec![delim(vec![QUOTE], vec![QUOTE], true), delim(vec![APOSTROPHE], vec![APOSTROPHE], false)],
        multiline_strings: Vec::new(),
        docstring_delimiters: Vec::new(),
    };
    proof {
        assert(sx@ =~~= hash_syntax_view());
        assert(triggers_upto(sx, 0) =~= Seq::<u8>::empty());
    }
    sx
}

/// `#` line comments; double- and single-quoted strings with escapes.
fn hash_escaped_syntax() -> (sx: LangSyntax)
    ensures
        sx.wf(),
        sx@ == hash_escaped_syntax_view(),
{
    let sx = LangSyntax {
        line_comment: Some(vec![HASH]),
        block_comment: None,
        single_line_strings: vec![delim(vec![QUOTE], vec![QUOTE], true), delim(vec![APOSTROPHE], vec![APOSTROPHE], true)],
        multiline_strings: Vec::new(),
        docstring_delimiters: Vec::new(),
    };
    proof {
        assert(sx@ =~~= hash_escaped_syntax_view());
        assert(triggers_upto(sx, 0) =~= Seq::<u8>::empty());
    }
    sx
}

/// `//` and `/* */` comments; double- and single-quoted literals with escapes.
fn c_syntax() -> (sx: LangSyntax)
    ensures
        sx.wf(),
        sx@ == c_syntax_view(),
{
    let sx = LangSyntax {
        line_comment: Some(vec![SLASH, SLASH]),
        block_comment: Some((vec![SLASH, STAR], vec![STAR, SLASH])),
        single_line_strings: vec![delim(vec![QUOTE], vec![QUOTE], true), delim(vec![APOSTROPHE], vec![APOSTROPHE], true)],
        multiline_strings: Vec::new(),
        docstring_delimiters: Vec::new(),
    };
    proof {
        assert(sx@ =~~= c_syntax_view());
        assert(triggers_upto(sx, 0) =~= seq![SLASH]);
    }
    sx
}

/// `/* */` comments; double- and single-quoted strings with escapes.
fn css_syntax() -> (sx: LangSyntax)
    ensures
        sx.wf(),
        sx@ == css_syntax_view(),
{
    let sx = LangSyntax {
        line_comment: None,
        block_comment: Some((vec![SLASH, STAR], vec![STAR, SLASH])),
        single_line_strings: vec![delim(vec![QUOTE], vec![QUOTE], true), delim(vec![APOSTROPHE], vec![APOSTROPHE], true)],
        multiline_strings: Vec::new(),
        docstring_delimiters: Vec::new(),
    };
    proof {
        assert(sx@ =~~= css_syntax_view());
        assert(triggers_upto(sx, 0) =~= seq![SLASH]);
    }
    sx
}

/// C comments and literals, and raw strings in backquotes that span lines.
fn go_syntax() -> (sx: LangSyntax)
    ensures
        sx.wf(),
        sx@ == go_syntax_view(),
{
    let sx = LangSyntax {
        line_comment: Some(vec![SLASH, SLASH]),
        block_comment: Some((vec![SLASH, STAR], vec![STAR, SLASH])),
        single_line_strings: vec![delim(vec![QUOTE], vec![QUOTE], true), delim(vec![APOSTROPHE], vec![APOSTROPHE], true)],
        multiline_strings: vec![delim(vec![BACKTICK], vec![BACKTICK], false)],
        docstring_delimiters: Vec::new(),
    };
    proof {
        assert(sx@ =~~= go_syntax_view());
        assert(triggers_upto(sx, 0) =~= seq![SLASH]);
        assert(triggers_upto(sx, 1) =~= seq![SLASH, BACKTICK]);
    }
    sx
}

/// C comments and literals, and `"""` text blocks that span lines.
fn java_syntax() -> (sx: LangSyntax)
    ensures
        sx.wf(),
        sx@ == java_syntax_view(),
{
    let sx = LangSyntax {
        line_comment: Some(vec![SLASH, SLASH]),
        block_comment: Some((vec![SLASH, STAR], vec![STAR, SLASH])),
        single_line_strings: vec![delim(vec![QUOTE], vec![QUOTE], true), delim(vec![APOSTROPHE], vec![APOSTROPHE], true)],
        multiline_strings: vec![delim(vec![QUOTE, QUOTE, QUOTE], vec![QUOTE, QUOTE, QUOTE], true)],
        docstring_delimiters: Vec::new(),
    };
    proof {
        assert(sx@ =~~= java_syntax_view());
        assert(triggers_upto(sx, 0) =~= seq![SLASH]);
        assert(triggers_upto(sx, 1) =~= seq![SLASH, QUOTE]);
    }
    sx
}

/// C comments and literals, and template strings in backquotes that span lines.
fn javascript_syntax() -> (sx: LangSyntax)
    ensures
        sx.wf(),
        sx@ == javascript_syntax_view(),
{
    let sx = LangSyntax {
        line_comment: Some(vec![SLASH, SLASH]),
        block_comment: Some((vec![SLASH, STAR], vec![STAR, SLASH])),
        single_line_strings: vec![delim(vec![QUOTE], vec![QUOTE], true), delim(vec![APOSTROPHE], vec![APOSTROPHE], true)],
        multiline_strings: vec![delim(vec![BACKTICK], vec![BACKTICK], true)],
        docstring_delimiters: Vec::new(),
    };
    proof {
        assert(sx@ =~~= javascript_syntax_view());
        assert(triggers_upto(sx, 0) =~= seq![SLASH]);
        assert(triggers_upto(sx, 1) =~= seq![SLASH, BACKTICK]);
    }
    sx
}

/// `//` and `/* */` comments; double-quoted strings with escapes, which may span lines.
fn rust_syntax() -> (sx: LangSyntax)
    ensures
        sx.wf(),
        sx@ == rust_syntax_view(),
{
    let sx = LangSyntax {
        line_comment: Some(vec![SLASH, SLASH]),
        block_comment: Some((vec![SLASH, STAR], vec![STAR, SLASH])),
        single_line_strings: Vec::new(),
        multiline_strings: vec![delim(vec![QUOTE], vec![QUOTE], true)],
        docstring_delimiters: Vec::new(),
    };
    proof {
        assert(sx@ =~~= rust_syntax_view());
        assert(triggers_upto(sx, 0) =~= seq![SLASH]);
        assert(triggers_upto(sx, 1) =~= seq![SLASH, QUOTE]);
    }
    sx
}

/// `<!-- -->` comments.
fn markup_syntax() -> (sx: LangSyntax)
    ensures
        sx.wf(),
        sx@ == markup_syntax_view(),
{
    let sx = LangSyntax {
        line_comment: None,
        block_comment: Some((vec![LT, BANG, DASH, DASH], vec![DASH, DASH, GT])),
        single_line_strings: Vec::new(),
        multiline_strings: Vec::new(),
        docstring_delimiters: Vec::new(),
    };
    proof {
        assert(sx@ =~~= markup_syntax_view());
        assert(triggers_upto(sx, 0) =~= seq![LT]);
    }
    sx
}

/// `--` and `{- -}` comments; double-quoted strings with escapes.
fn haskell_syntax() -> (sx: LangSyntax)
    ensures
        sx.wf(),
        sx@ == haskell_syntax_view(),
{
    let sx = LangSyntax {
        line_comment: Some(vec![DASH, DASH]),
        block_comment: Some((vec![LBRACE, DASH], vec![DASH, RBRACE])),
        single_line_strings: vec![delim(vec![QUOTE], vec![QUOTE], true)],
        multiline_strings: Vec::new(),
        docstring_delimiters: Vec::new(),
    };
    proof {
        assert(sx@ =~~= haskell_syntax_view());
        assert(triggers_upto(sx, 0) =~= seq![LBRACE]);
    }
    sx
}

/// `--` and `--[[ ]]` comments; quoted strings with escapes and `[[ ]]` long strings.
fn lua_syntax() -> (sx: LangSyntax)
    ensures
        sx.wf(),
        sx@ == lua_syntax_view(),
{
    let sx = LangSyntax {
        line_comment: Some(vec![DASH, DASH]),
        block_comment: Some((vec![DASH, DASH, LBRACKET, LBRACKET], vec![RBRACKET, RBRACKET])),
        single_line_strings: vec![delim(vec![QUOTE], vec![QUOTE], true), delim(vec![APOSTROPHE], vec![APOSTROPHE], true)],
        multiline_strings: vec![delim(vec![LBRACKET, LBRACKET], vec![RBRACKET, RBRACKET], false)],
        docstring_delimiters: Vec::new(),
    };
    proof {
        assert(sx@ =~~= lua_syntax_view());
        assert(triggers_upto(sx, 0) =~= seq![DASH]);
        assert(triggers_upto(sx, 1) =~= seq![DASH, LBRACKET]);
    }
    sx
}

/// `--` and `/* */` comments; single-quoted strings.
fn sql_syntax() -> (sx: LangSyntax)
    ensures
        sx.wf(),
        sx@ == sql_syntax_view(),
{
    let sx = LangSyntax {
        line_comment: Some(vec![DASH, DASH]),
        block_comment: Some((vec![SLASH, STAR], vec![STAR, SLASH])),
        single_line_strings: vec![delim(vec![APOSTROPHE], vec![APOSTROPHE], false)],
        multiline_strings: Vec::new(),
        docstring_delimiters: Vec::new(),
    };
    proof {
        assert(sx@ =~~= sql_syntax_view());
        assert(triggers_upto(sx, 0) =~= seq![SLASH]);
    }
    sx
}

/// No comments; double-quoted strings with escapes.
fn json_syntax() -> (sx: LangSyntax)
    ensures
        sx.wf(),
        sx@ == json_syntax_view(),
{
    let sx = LangSyntax {
        line_comment: None,
        block_comment: None,
        single_line_strings: vec![delim(vec![QUOTE], vec![QUOTE], true)],
        multiline_strings: Vec::new(),
        docstring_delimiters: Vec::new(),
    };
    proof {
        assert(sx@ =~~= json_syntax_view());
        assert(triggers_upto(sx, 0) =~= Seq::<u8>::empty());
    }
    sx
}

/// `#` comments; quoted strings, and triple-quoted strings that span lines and are docstrings when they start a line.
fn python_syntax() -> (sx: LangSyntax)
    ensures
        sx.wf(),
        sx@ == python_syntax_view(),
{
    let sx = LangSyntax {
        line_comment: Some(vec![HASH]),
        block_comment: None,
        single_line_strings: vec![delim(vec![QUOTE], vec![QUOTE], true), delim(vec![APOSTROPHE], vec![APOSTROPHE], true)],
        multiline_strings: vec![delim(vec![QUOTE, QUOTE, QUOTE], vec![QUOTE, QUOTE, QUOTE], true), delim(vec![APOSTROPHE, APOSTROPHE, APOSTROPHE], vec![APOSTROPHE, APOSTROPHE, APOSTROPHE], true)],
        docstring_delimiters: vec![delim(vec![QUOTE, QUOTE, QUOTE], vec![QUOTE, QUOTE, QUOTE], true), delim(vec![APOSTROPHE, APOSTROPHE, APOSTROPHE], vec![APOSTROPHE, APOSTROPHE, APOSTROPHE], true)],
    };
    proof {
        assert(sx@ =~~= python_syntax_view());
        assert(triggers_upto(sx, 0) =~= Seq::<u8>::empty());
        assert(triggers_upto(sx, 1) =~= seq![QUOTE]);
        assert(triggers_upto(sx, 2) =~= seq![QUOTE, APOSTROPHE]);
    }
    sx
}

/// `#` comments; basic and literal strings, single-line and multiline.
fn toml_syntax() -> (sx: LangSyntax)
    ensures
        sx.wf(),
        sx@ == toml_syntax_view(),
{
    let sx = LangSyntax {
        line_comment: Some(vec![HASH]),
        block_comment: None,
        single_line_strings: vec![delim(vec![QUOTE], vec![QUOTE], true), delim(vec![APOSTROPHE], vec![APOSTROPHE], false)],
        multiline_strings: vec![delim(vec![QUOTE, QUOTE, QUOTE], vec![QUOTE, QUOTE, QUOTE], true), delim(vec![APOSTROPHE, APOSTROPHE, APOSTROPHE], vec![APOSTROPHE, APOSTROPHE, APOSTROPHE], false)],
        docstring_delimiters: Vec::new(),
    };
    proof {
        assert(sx@ =~~= toml_syntax_view());
        assert(triggers_upto(sx, 0) =~= Seq::<u8>::empty());
        assert(triggers_upto(sx, 1) =~= seq![QUOTE]);
        assert(triggers_upto(sx, 2) =~= seq![QUOTE, APOSTROPHE]);
    }
    sx
}

/// The names of the built-in languages, in order.
pub open spec fn builtin_names() -> Seq<Seq<char>> {
    seq![
        "Bash"@,
        "C"@,
        "C++"@,
        "CSS"@,
        "Dockerfile"@,
        "Go"@,
        "HTML"@,
        "Haskell"@,
        "JSON"@,
        "Java"@,
        "JavaScript"@,
        "Lua"@,
        "Makefile"@,
        "Markdown"@,
        "Perl"@,
        "Python"@,
        "Ruby"@,
        "Rust"@,
        "SQL"@,
        "TOML"@,
        "TypeScript"@,
        "YAML"@,
    ]
}

/// The file-name patterns of each built-in language.
pub open spec fn builtin_patterns() -> Seq<Seq<Seq<char>>> {
    seq![
        seq!["*.sh"@, "*.bash"@],
        seq!["*.c"@, "*.h"@],
        seq!["*.cpp"@, "*.cc"@, "*.cxx"@, "*.hpp"@, "*.hh"@],
        seq!["*.css"@],
        seq!["Dockerfile*"@, "*.dockerfile"@],
        seq!["*.go"@],
        seq!["*.html"@, "*.htm"@],
        seq!["*.hs"@],
        seq!["*.json"@],
        seq!["*.java"@],
        seq!["*.js"@, "*.mjs"@, "*.cjs"@, "*.jsx"@],
        seq!["*.lua"@],
        seq!["Makefile"@, "makefile"@, "GNUmakefile"@, "*.mk"@],
        seq!["*.md"@, "*.markdown"@],
        seq!["*.pl"@, "*.pm"@],
        seq!["*.py"@, "*.pyi"@],
        seq!["*.rb"@, "Rakefile"@, "Gemfile"@],
        seq!["*.rs"@],
        seq!["*.sql"@],
        seq!["*.toml"@, "Cargo.lock"@],
        seq!["*.ts"@, "*.tsx"@, "*.mts"@, "*.cts"@],
        seq!["*.yml"@, "*.yaml"@],
    ]
}

/// The interpreters of each built-in language.
pub open spec fn builtin_interpreters() -> Seq<Seq<Seq<char>>> {
    seq![
        seq!["sh"@, "bash"@, "zsh"@],
        Seq::<Seq<char>>::empty(),
        Seq::<Seq<char>>::empty(),
        Seq::<Seq<char>>::empty(),
        Seq::<Seq<char>>::empty(),
        Seq::<Seq<char>>::empty(),
        Seq::<Seq<char>>::empty(),
        seq!["runhaskell"@],
        Seq::<Seq<char>>::empty(),
        Seq::<Seq<char>>::empty(),
        seq!["node"@],
        seq!["lua"@],
        seq!["make"@],
        Seq::<Seq<char>>::empty(),
        seq!["perl"@],
        seq!["python"@, "python2"@, "python3"@],
        seq!["ruby"@],
        Seq::<Seq<char>>::empty(),
        Seq::<Seq<char>>::empty(),
        Seq::<Seq<char>>::empty(),
        seq!["deno"@, "ts-node"@],
        Seq::<Seq<char>>::empty(),
    ]
}

/// The syntax of each built-in language.
pub open spec fn builtin_syntaxes() -> Seq<SyntaxView> {
    seq![
        hash_syntax_view(),
        c_syntax_view(),
        c_syntax_view(),
        css_syntax_view(),
        hash_syntax_view(),
        go_syntax_view(),
        markup_syntax_view(),
        haskell_syntax_view(),
        json_syntax_view(),
        java_syntax_view(),
        javascript_syntax_view(),
        lua_syntax_view(),
        hash_syntax_view(),
        markup_syntax_view(),
        hash_escaped_syntax_view(),
        python_syntax_view(),
        hash_escaped_syntax_view(),
        rust_syntax_view(),
        sql_syntax_view(),
        toml_syntax_view(),
        javascript_syntax_view(),
        hash_syntax_view(),
    ]
}

/// A language definition.
fn language(name: &str, patterns: Vec<String>, interpreters: Vec<String>, syntax: LangSyntax) -> (l:
    LanguageDef)
    ensures
        l.name@ == name@,
        l.patterns@ == patterns@,
        l.interpreters@ == interpreters@,
        l.syntax == syntax,
{
    LanguageDef { name: name.to_owned(), patterns, interpreters, syntax }
}

/// The languages known out of the box, in alphabetical order.
pub fn definitions() -> (defs: Vec<LanguageDef>)
    ensures
        defs@.len() == 22,
        forall|i: int| 0 <= i < defs@.len() ==> (#[trigger] defs@[i]).syntax.wf(),
        defs@.map_values(|l: LanguageDef| l.name@) == builtin_names(),
        defs@.map_values(|l: LanguageDef| string_views(l.patterns@)) == builtin_patterns(),
        defs@.map_values(|l: LanguageDef| string_views(l.interpreters@)) == builtin_interpreters(),
        defs@.map_values(|l: LanguageDef| l.syntax@) == builtin_syntaxes(),
{
    let mut defs: Vec<LanguageDef> = Vec::new();
    let l = language("Bash", vec!["*.sh".to_owned(), "*.bash".to_owned()], vec!["sh".to_owned(), "bash".to_owned(), "zsh".to_owned()], hash_syntax());
    proof {
        assert(string_views(l.patterns@) =~= seq!["*.sh"@, "*.bash"@]);
        assert(string_views(l.interpreters@) =~= seq!["sh"@, "bash"@, "zsh"@]);
    }
    defs.push(l);
    let l = language("C", vec!["*.c".to_owned(), "*.h".to_owned()], Vec::new(), c_syntax());
    proof {
        assert(string_views(l.patterns@) =~= seq!["*.c"@, "*.h"@]);
        assert(string_views(l.interpreters@) =~= Seq::<Seq<char>>::empty());
    }
    defs.push(l);
    let l = language("C++", vec!["*.cpp".to_owned(), "*.cc".to_owned(), "*.cxx".to_owned(), "*.hpp".to_owned(), "*.hh".to_owned()], Vec::new(), c_syntax());
    proof {
        assert(string_views(l.patterns@) =~= seq!["*.cpp"@, "*.cc"@, "*.cxx"@, "*.hpp"@, "*.hh"@]);
        assert(string_views(l.interpreters@) =~= Seq::<Seq<char>>::empty());
    }
    defs.push(l);
    let l = language("CSS", vec!["*.css".to_owned()], Vec::new(), css_syntax());
    proof {
        assert(string_views(l.patterns@) =~= seq!["*.css"@]);
        assert(string_views(l.interpreters@) =~= Seq::<Seq<char>>::empty());
    }
    defs.push(l);
    let l = language("Dockerfile", vec!["Dockerfile*".to_owned(), "*.dockerfile".to_owned()], Vec::new(), hash_syntax());
    proof {
        assert(string_views(l.patterns@) =~= seq!["Dockerfile*"@, "*.dockerfile"@]);
        assert(string_views(l.interpreters@) =~= Seq::<Seq<char>>::empty());
    }
    defs.push(l);
    let l = language("Go", vec!["*.go".to_owned()], Vec::new(), go_syntax());
    proof {
        assert(string_views(l.patterns@) =~= seq!["*.go"@]);
        assert(string_views(l.interpreters@) =~= Seq::<Seq<char>>::empty());
    }
    defs.push(l);
    let l = language("HTML", vec!["*.html".to_owned(), "*.htm".to_owned()], Vec::new(), markup_syntax());
    proof {
        assert(string_views(l.patterns@) =~= seq!["*.html"@, "*.htm"@]);
        assert(string_views(l.interpreters@) =~= Seq::<Seq<char>>::empty());
    }
    defs.push(l);
    let l = language("Haskell", vec!["*.hs".to_owned()], vec!["runhaskell".to_owned()], haskell_syntax());
    proof {
        assert(string_views(l.patterns@) =~= seq!["*.hs"@]);
        assert(string_views(l.interpreters@) =~= seq!["runhaskell"@]);
    }
    defs.push(l);
    let l = language("JSON", vec!["*.json".to_owned()], Vec::new(), json_syntax());
    proof {
        assert(string_views(l.patterns@) =~= seq!["*.json"@]);
        assert(string_views(l.interpreters@) =~= Seq::<Seq<char>>::empty());
    }
    defs.push(l);
    let l = language("Java", vec!["*.java".to_owned()], Vec::new(), java_syntax());
    proof {
        assert(string_views(l.patterns@) =~= seq!["*.java"@]);
        assert(string_views(l.interpreters@) =~= Seq::<Seq<char>>::empty());
    }
    defs.push(l);
    let l = language("JavaScript", vec!["*.js".to_owned(), "*.mjs".to_owned(), "*.cjs".to_owned(), "*.jsx".to_owned()], vec!["node".to_owned()], javascript_syntax());
    proof {
        assert(string_views(l.patterns@) =~= seq!["*.js"@, "*.mjs"@, "*.cjs"@, "*.jsx"@]);
        assert(string_views(l.interpreters@) =~= seq!["node"@]);
    }
    defs.push(l);
    let l = language("Lua", vec!["*.lua".to_owned()], vec!["lua".to_owned()], lua_syntax());
    proof {
        assert(string_views(l.patterns@) =~= seq!["*.lua"@]);
        assert(string_views(l.interpreters@) =~= seq!["lua"@]);
    }
    defs.push(l);
    let l = language("Makefile", vec!["Makefile".to_owned(), "makefile".to_owned(), "GNUmakefile".to_owned(), "*.mk".to_owned()], vec!["make".to_owned()], hash_syntax());
    proof {
        assert(string_views(l.patterns@) =~= seq!["Makefile"@, "makefile"@, "GNUmakefile"@, "*.mk"@]);
        assert(string_views(l.interpreters@) =~= seq!["make"@]);
    }
    defs.push(l);
    let l = language("Markdown", vec!["*.md".to_owned(), "*.markdown".to_owned()], Vec::new(), markup_syntax());
    proof {
        assert(string_views(l.patterns@) =~= seq!["*.md"@, "*.markdown"@]);
        assert(string_views(l.interpreters@) =~= Seq::<Seq<char>>::empty());
    }
    defs.push(l);
    let l = language("Perl", vec!["*.pl".to_owned(), "*.pm".to_owned()], vec!["perl".to_owned()], hash_escaped_syntax());
    proof {
        assert(string_views(l.patterns@) =~= seq!["*.pl"@, "*.pm"@]);
        assert(string_views(l.interpreters@) =~= seq!["perl"@]);
    }
    defs.push(l);
    let l = language("Python", vec!["*.py".to_owned(), "*.pyi".to_owned()], vec!["python".to_owned(), "python2".to_owned(), "python3".to_owned()], python_syntax());
    proof {
        assert(string_views(l.patterns@) =~= seq!["*.py"@, "*.pyi"@]);
        assert(string_views(l.interpreters@) =~= seq!["python"@, "python2"@, "python3"@]);
    }
    defs.push(l);
    let l = language("Ruby", vec!["*.rb".to_owned(), "Rakefile".to_owned(), "Gemfile".to_owned()], vec!["ruby".to_owned()], hash_escaped_syntax());
    proof {
        assert(string_views(l.patterns@) =~= seq!["*.rb"@, "Rakefile"@, "Gemfile"@]);
        assert(string_views(l.interpreters@) =~= seq!["ruby"@]);
    }
    defs.push(l);
    let l = language("Rust", vec!["*.rs".to_owned()], Vec::new(), rust_syntax());
    proof {
        assert(string_views(l.patterns@) =~= seq!["*.rs"@]);
        assert(string_views(l.interpreters@) =~= Seq::<Seq<char>>::empty());
    }
    defs.push(l);
    let l = language("SQL", vec!["*.sql".to_owned()], Vec::new(), sql_syntax());
    proof {
        assert(string_views(l.patterns@) =~= seq!["*.sql"@]);
        assert(string_views(l.interpreters@) =~= Seq::<Seq<char>>::empty());
    }
    defs.push(l);
    let l = language("TOML", vec!["*.toml".to_owned(), "Cargo.lock".to_owned()], Vec::new(), toml_syntax());
    proof {
        assert(string_views(l.patterns@) =~= seq!["*.toml"@, "Cargo.lock"@]);
        assert(string_views(l.interpreters@) =~= Seq::<Seq<char>>::empty());
    }
    defs.push(l);
    let l = language("TypeScript", vec!["*.ts".to_owned(), "*.tsx".to_owned(), "*.mts".to_owned(), "*.cts".to_owned()], vec!["deno".to_owned(), "ts-node".to_owned()], javascript_syntax());
    proof {
        assert(string_views(l.patterns@) =~= seq!["*.ts"@, "*.tsx"@, "*.mts"@, "*.cts"@]);
        assert(string_views(l.interpreters@) =~= seq!["deno"@, "ts-node"@]);
    }
    defs.push(l);
    let l = language("YAML", vec!["*.yml".to_owned(), "*.yaml".to_owned()], Vec::new(), hash_syntax());
    proof {
        assert(string_views(l.patterns@) =~= seq!["*.yml"@, "*.yaml"@]);
        assert(string_views(l.interpreters@) =~= Seq::<Seq<char>>::empty());
    }
    defs.push(l);
    defs
}

} // verus!
