# loc

`loc` counts lines of code in files, reporting blank, comment and code line
counts by language. It reads the paths of the files to count from stdin, so
tools such as `find` or `git ls-files` decide which files are counted:

```
git ls-files | loc
find src/ -name '*.rs' | loc
```

Each line is classified as exactly one of blank (empty or only whitespace),
comment (only comments and whitespace) or code (anything else). The
classifier remembers across lines whether it is inside a block comment or a
multiline string, and ignores comment openers inside string literals.

## Layout

The library under `src/` is verified with Verus; every public function states
its result in its contract.

- `bytes.rs`: substring and byte-set search (through `memchr`), escapes and
  leading whitespace.
- `count.rs`: the line classifier as a specification (`scan`, `classify`,
  `count_content`) and its implementation; `LineCounter` counts a stream fed
  in chunks of any size and gives the same counts as the whole content.
- `text.rs`: the character-level helpers of path and `#!` handling.
- `languages.rs`: the language registry: lookup by extension, file name,
  file-name prefix and interpreter, each key going to the first language
  that claims it.
- `builtin.rs`: the built-in language definitions.
- `report.rs`: per-language sums, report order and totals.
- `laws.rs`: properties of counting that hold for every syntax and input.

`app/` holds the command-line program: argument parsing, reading paths and
files, parallelism, and the formatted report.
