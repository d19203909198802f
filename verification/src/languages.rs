//! The language registry: language definitions, and the lookup tables that
//! map file extensions, file names, file-name prefixes and interpreters to them.

use vstd::prelude::*;

use crate::bytes::{byte_in_set_from, lemma_byte_in_set_from};
use crate::builtin::{builtin_interpreters, builtin_names, builtin_patterns, builtin_syntaxes};
use crate::count::{newline, LangSyntax};
use crate::text::{
    after_last_slash, chars_of, chars_start_with, copy_range, decode_utf8, extension_of,
    extension_of_name, file_name_of, find_first_word, find_last, first_word, last_index_of,
    lemma_last_index_upto, lowercase, path_file_name, same_chars, starts_with, to_lowercase,
    trim_chars, trimmed,
};

verus! {

/// A language's index in the registry.
#[derive(Debug, Clone, Copy, PartialEq, Eq, Hash, PartialOrd, Ord, Structural)]
pub struct LanguageId(usize);

impl LanguageId {
    /// The index of the language in its registry.
    pub closed spec fn index(self) -> nat {
        self.0 as nat
    }

    /// The id of the language at index `i`.
    pub closed spec fn from_index(i: int) -> LanguageId {
        LanguageId(i as usize)
    }

    /// Whether this id comes before `other` (is the smaller index).
    pub fn precedes(&self, other: &LanguageId) -> (r: bool)
        ensures
            r == (self.index() < other.index()),
    {
        self.0 < other.0
    }

    /// Distinct ids have distinct indices.
    pub broadcast proof fn lemma_index_injective(a: LanguageId, b: LanguageId)
        ensures
            (#[trigger] a.index() == #[trigger] b.index()) == (a == b),
    {
    }

    /// Ids and indices correspond.
    pub broadcast proof fn lemma_from_index(i: int)
        requires
            0 <= i <= usize::MAX,
        ensures
            #[trigger] LanguageId::from_index(i).index() == i,
    {
    }
}

/// The definition of a language: its name, the file-name patterns and
/// interpreters it is recognised by, and its syntax.
///
/// A pattern is `*.ext` (any file with that extension), `Name` (that exact
/// file name) or `Prefix*` (any file name starting with `Prefix`).
#[derive(Debug)]
pub struct LanguageDef {
    pub name: String,
    pub patterns: Vec<String>,
    pub interpreters: Vec<String>,
    pub syntax: LangSyntax,
}

/// The characters of each string of `v`.
pub open spec fn string_views(v: Seq<String>) -> Seq<Seq<char>> {
    v.map_values(|s: String| s@)
}

/// What to do with a file, decided from its path.
#[derive(Debug, Clone, Copy, PartialEq, Eq, Structural)]
pub enum FilePlan {
    /// Count it in this language.
    Count(LanguageId),
    /// Its `#!` line decides.
    Sniff,
    /// Leave it out.
    Skip,
}

/// The lookup tables of a registry.
#[derive(Debug, Clone, Copy, PartialEq, Eq, Structural)]
pub enum TableKind {
    Extension,
    Filename,
    Prefix,
    Interpreter,
}

/// The number of `*` characters in `p`.
pub open spec fn star_count(p: Seq<char>) -> nat
    decreases p.len(),
{
    if p.len() == 0 {
        0
    } else {
        star_count(p.drop_last()) + if p.last() == '*' {
            1nat
        } else {
            0nat
        }
    }
}

/// The key that the pattern `p` puts in the table `kind`, if any: a pattern
/// without `*` is a file name, `*.ext` an extension, `Prefix*` a prefix;
/// other patterns are unsupported and put no key anywhere.
pub open spec fn pattern_key(p: Seq<char>, kind: TableKind) -> Option<Seq<char>> {
    let n = star_count(p);
    match kind {
        TableKind::Filename => if n == 0 {
            Some(p)
        } else {
            None
        },
        TableKind::Extension => if n == 1 && starts_with(p, seq!['*', '.']) {
            Some(p.subrange(2, p.len() as int))
        } else {
            None
        },
        TableKind::Prefix => if n == 1 && !starts_with(p, seq!['*', '.']) && p.len() > 0
            && p.last() == '*' {
            Some(p.drop_last())
        } else {
            None
        },
        TableKind::Interpreter => None,
    }
}

/// The number of entries (patterns, or interpreters) a language has for a table.
pub open spec fn entry_count(lang: LanguageDef, kind: TableKind) -> int {
    if kind == TableKind::Interpreter {
        lang.interpreters@.len() as int
    } else {
        lang.patterns@.len() as int
    }
}

/// The key that entry `j` of a language puts in the table `kind`, if any;
/// interpreters are keyed in lowercase.
pub open spec fn entry_key(lang: LanguageDef, kind: TableKind, j: int) -> Option<Seq<char>> {
    if kind == TableKind::Interpreter {
        Some(lowercase(lang.interpreters@[j]@))
    } else {
        pattern_key(lang.patterns@[j]@, kind)
    }
}

/// The first index at or after `i` of `table` holding `key`.
pub open spec fn lookup_from(table: Seq<(Seq<char>, LanguageId)>, key: Seq<char>, i: int) -> Option<
    LanguageId,
>
    decreases table.len() - i,
{
    if i < 0 || i >= table.len() {
        None
    } else if table[i].0 == key {
        Some(table[i].1)
    } else {
        lookup_from(table, key, i + 1)
    }
}

/// The language that `table` maps `key` to: its first entry with that key.
pub open spec fn lookup(table: Seq<(Seq<char>, LanguageId)>, key: Seq<char>) -> Option<LanguageId> {
    lookup_from(table, key, 0)
}

/// `table` with `key` mapped to `id`, unless `key` is mapped already.
pub open spec fn insert_first(table: Seq<(Seq<char>, LanguageId)>, key: Seq<char>, id: LanguageId) -> Seq<
    (Seq<char>, LanguageId),
> {
    if lookup(table, key) is Some {
        table
    } else {
        table.push((key, id))
    }
}

/// `table` after inserting the keys of the first `j` entries of language `i`.
pub open spec fn insert_entries(
    table: Seq<(Seq<char>, LanguageId)>,
    langs: Seq<LanguageDef>,
    kind: TableKind,
    i: int,
    j: int,
) -> Seq<(Seq<char>, LanguageId)>
    decreases j,
{
    if j <= 0 {
        table
    } else {
        let t = insert_entries(table, langs, kind, i, j - 1);
        match entry_key(langs[i], kind, j - 1) {
            Some(key) => insert_first(t, key, LanguageId::from_index(i)),
            None => t,
        }
    }
}

/// The table `kind` built from the first `i` languages: each key maps to the
/// first language that claims it.
pub open spec fn table_upto(langs: Seq<LanguageDef>, kind: TableKind, i: int) -> Seq<
    (Seq<char>, LanguageId),
>
    decreases i,
{
    if i <= 0 {
        Seq::empty()
    } else {
        insert_entries(
            table_upto(langs, kind, i - 1),
            langs,
            kind,
            i - 1,
            entry_count(langs[i - 1], kind),
        )
    }
}

/// The table `kind` built from all of `langs`.
pub open spec fn build_table(langs: Seq<LanguageDef>, kind: TableKind) -> Seq<(Seq<char>, LanguageId)> {
    table_upto(langs, kind, langs.len() as int)
}

/// The character views of an executable table.
pub open spec fn table_view(t: Seq<(Vec<char>, LanguageId)>) -> Seq<(Seq<char>, LanguageId)> {
    t.map_values(|e: (Vec<char>, LanguageId)| (e.0@, e.1))
}

/// The language that the table maps `key` to.
fn table_get(table: &Vec<(Vec<char>, LanguageId)>, key: &[char]) -> (r: Option<LanguageId>)
    ensures
        r == lookup(table_view(table@), key@),
{
    let ghost tv = table_view(table@);
    let mut i: usize = 0;
    while i < table.len()
        invariant
            i <= table@.len(),
            tv == table_view(table@),
            lookup_from(tv, key@, i as int) == lookup(tv, key@),
        decreases table@.len() - i,
    {
        if same_chars(table[i].0.as_slice(), key) {
            return Some(table[i].1);
        }
        i = i + 1;
    }
    None
}


/// The number of `*` characters in `p`.
fn count_stars(p: &[char]) -> (n: usize)
    ensures
        n == star_count(p@),
{
    let mut n: usize = 0;
    let mut i: usize = 0;
    while i < p.len()
        invariant
            i <= p@.len(),
            n == star_count(p@.subrange(0, i as int)),
            n <= i,
        decreases p@.len() - i,
    {
        proof {
            assert(p@.subrange(0, i + 1).drop_last() =~= p@.subrange(0, i as int));
        }
        if p[i] == '*' {
            n = n + 1;
        }
        i = i + 1;
    }
    proof {
        assert(p@.subrange(0, p@.len() as int) =~= p@);
    }
    n
}

/// The key that the pattern `p` puts in the table `kind`.
fn pattern_key_of(p: &Vec<char>, kind: TableKind) -> (r: Option<Vec<char>>)
    ensures
        match r {
            Some(v) => pattern_key(p@, kind) == Some(v@),
            None => pattern_key(p@, kind) is None,
        },
{
    let n = count_stars(p.as_slice());
    let len = p.len();
    let ext_form = len >= 2 && p[0] == '*' && p[1] == '.';
    proof {
        if len >= 2 {
            assert(starts_with(p@, seq!['*', '.']) == (p@[0] == '*' && p@[1] == '.')) by {
                if p@[0] == '*' && p@[1] == '.' {
                    assert(p@.subrange(0, 2) =~= seq!['*', '.']);
                }
                if starts_with(p@, seq!['*', '.']) {
                    assert(p@.subrange(0, 2)[0] == '*');
                    assert(p@.subrange(0, 2)[1] == '.');
                }
            }
        }
    }
    match kind {
        TableKind::Filename => {
            if n == 0 {
                Some(p.clone())
            } else {
                None
            }
        },
        TableKind::Extension => {
            if n == 1 && ext_form {
                Some(copy_range(p.as_slice(), 2, len))
            } else {
                None
            }
        },
        TableKind::Prefix => {
            if n == 1 && !ext_form && len > 0 && p[len - 1] == '*' {
                let r = copy_range(p.as_slice(), 0, len - 1);
                proof {
                    assert(r@ =~= p@.drop_last());
                }
                Some(r)
            } else {
                None
            }
        },
        TableKind::Interpreter => None,
    }
}

/// The key that entry `j` of `lang` puts in the table `kind`.
fn entry_key_of(lang: &LanguageDef, kind: TableKind, j: usize) -> (r: Option<Vec<char>>)
    requires
        j < entry_count(*lang, kind),
    ensures
        match r {
            Some(v) => entry_key(*lang, kind, j as int) == Some(v@),
            None => entry_key(*lang, kind, j as int) is None,
        },
{
    if kind == TableKind::Interpreter {
        let name = chars_of(lang.interpreters[j].as_str());
        Some(to_lowercase(name.as_slice()))
    } else {
        let p = chars_of(lang.patterns[j].as_str());
        pattern_key_of(&p, kind)
    }
}

/// The number of entries `lang` has for the table `kind`.
fn entry_count_of(lang: &LanguageDef, kind: TableKind) -> (n: usize)
    ensures
        n == entry_count(*lang, kind),
{
    if kind == TableKind::Interpreter {
        lang.interpreters.len()
    } else {
        lang.patterns.len()
    }
}

/// Builds the table `kind` from `langs`: each key maps to the first language
/// that claims it.
fn build_table_of(langs: &Vec<LanguageDef>, kind: TableKind) -> (t: Vec<(Vec<char>, LanguageId)>)
    ensures
        table_view(t@) == build_table(langs@, kind),
{
    let mut t: Vec<(Vec<char>, LanguageId)> = Vec::new();
    let mut i: usize = 0;
    proof {
        assert(table_view(t@) =~= table_upto(langs@, kind, 0));
    }
    while i < langs.len()
        invariant
            i <= langs@.len(),
            table_view(t@) == table_upto(langs@, kind, i as int),
        decreases langs@.len() - i,
    {
        let lang = &langs[i];
        let count = entry_count_of(lang, kind);
        let mut j: usize = 0;
        while j < count
            invariant
                i < langs@.len(),
                *lang == langs@[i as int],
                count == entry_count(*lang, kind),
                j <= count,
                table_view(t@) == insert_entries(
                    table_upto(langs@, kind, i as int),
                    langs@,
                    kind,
                    i as int,
                    j as int,
                ),
            decreases count - j,
        {
            match entry_key_of(lang, kind, j) {
                Some(key) => {
                    if table_get(&t, key.as_slice()).is_none() {
                        let ghost before = t@;
                        t.push((key, LanguageId(i)));
                        proof {
                            assert(table_view(t@) =~= table_view(before).push(
                                (key@, LanguageId::from_index(i as int)),
                            ));
                        }
                    }
                },
                None => {},
            }
            j = j + 1;
        }
        i = i + 1;
    }
    t
}


/// Every entry of `table` names one of the first `n` languages.
pub open spec fn ids_below(table: Seq<(Seq<char>, LanguageId)>, n: int) -> bool {
    forall|j: int| 0 <= j < table.len() ==> (#[trigger] table[j]).1.index() < n
}

/// A language found in a table is one of its entries.
pub proof fn lemma_lookup_below(table: Seq<(Seq<char>, LanguageId)>, key: Seq<char>, i: int, n: int)
    requires
        ids_below(table, n),
        0 <= i,
    ensures
        lookup_from(table, key, i) matches Some(id) ==> id.index() < n,
    decreases table.len() - i,
{
    if i < table.len() && table[i].0 != key {
        lemma_lookup_below(table, key, i + 1, n);
    }
}

/// Tables built from languages name only those languages.
pub proof fn lemma_table_ids(langs: Seq<LanguageDef>, kind: TableKind, i: int)
    requires
        0 <= i <= langs.len() <= usize::MAX,
    ensures
        ids_below(table_upto(langs, kind, i), i),
    decreases i,
{
    if i > 0 {
        lemma_table_ids(langs, kind, i - 1);
        lemma_insert_ids(table_upto(langs, kind, i - 1), langs, kind, i - 1, entry_count(langs[i - 1], kind));
    }
}

/// Inserting the entries of language `i` keeps the ids below `i + 1`.
proof fn lemma_insert_ids(
    table: Seq<(Seq<char>, LanguageId)>,
    langs: Seq<LanguageDef>,
    kind: TableKind,
    i: int,
    j: int,
)
    requires
        ids_below(table, i),
        0 <= i < langs.len() <= usize::MAX,
    ensures
        ids_below(insert_entries(table, langs, kind, i, j), i + 1),
    decreases j,
{
    if j > 0 {
        lemma_insert_ids(table, langs, kind, i, j - 1);
        let t = insert_entries(table, langs, kind, i, j - 1);
        LanguageId::lemma_from_index(i);
        match entry_key(langs[i], kind, j - 1) {
            Some(key) => {
                let t2 = insert_first(t, key, LanguageId::from_index(i));
                assert forall|m: int| 0 <= m < t2.len() implies (#[trigger] t2[m]).1.index() < i + 1 by {
                    if m < t.len() {
                        assert(t2[m] == t[m]);
                    }
                }
            },
            None => {},
        }
    }
}

/// The entry of `table`, among the first `k`, whose key is the shortest
/// prefix of `name` (the earliest among equally short ones).
pub open spec fn best_prefix_upto(table: Seq<(Seq<char>, LanguageId)>, name: Seq<char>, k: int) -> Option<
    (Seq<char>, LanguageId),
>
    decreases k,
{
    if k <= 0 {
        None
    } else {
        let prev = best_prefix_upto(table, name, k - 1);
        let e = table[k - 1];
        if starts_with(name, e.0) {
            match prev {
                None => Some(e),
                Some(p) => if e.0.len() < p.0.len() {
                    Some(e)
                } else {
                    prev
                },
            }
        } else {
            prev
        }
    }
}

/// The language whose prefix `name` starts with: the shortest such prefix,
/// which is also the least in lexicographic order, since all prefixes of one
/// name are prefixes of one another.
pub open spec fn prefix_lookup(table: Seq<(Seq<char>, LanguageId)>, name: Seq<char>) -> Option<LanguageId> {
    match best_prefix_upto(table, name, table.len() as int) {
        Some(e) => Some(e.1),
        None => None,
    }
}

/// A prefix found is one of the table's entries.
pub proof fn lemma_best_prefix_below(table: Seq<(Seq<char>, LanguageId)>, name: Seq<char>, k: int, n: int)
    requires
        ids_below(table, n),
        k <= table.len(),
    ensures
        best_prefix_upto(table, name, k) matches Some(e) ==> e.1.index() < n,
    decreases k,
{
    if k > 0 {
        lemma_best_prefix_below(table, name, k - 1, n);
    }
}

/// The language whose prefix `name` starts with.
fn table_prefix_get(table: &Vec<(Vec<char>, LanguageId)>, name: &[char]) -> (r: Option<LanguageId>)
    ensures
        r == prefix_lookup(table_view(table@), name@),
{
    let ghost tv = table_view(table@);
    let mut best: Option<usize> = None;
    let mut k: usize = 0;
    while k < table.len()
        invariant
            k <= table@.len(),
            tv == table_view(table@),
            match best {
                Some(b) => b < k && best_prefix_upto(tv, name@, k as int) == Some(tv[b as int]),
                None => best_prefix_upto(tv, name@, k as int) is None,
            },
        decreases table@.len() - k,
    {
        if chars_start_with(name, table[k].0.as_slice()) {
            match best {
                None => {
                    best = Some(k);
                },
                Some(b) => {
                    if table[k].0.len() < table[b].0.len() {
                        best = Some(k);
                    }
                },
            }
        }
        k = k + 1;
    }
    match best {
        Some(b) => Some(table[b].1),
        None => None,
    }
}

/// The first line of `head`: the bytes before its first newline.
pub open spec fn first_line(head: Seq<u8>) -> Seq<u8> {
    match byte_in_set_from(head, seq![newline()], 0) {
        Some(k) => head.subrange(0, k),
        None => head,
    }
}

/// The first line of `head` as text: its characters when it is valid UTF-8,
/// otherwise empty.
pub open spec fn first_line_text(head: Seq<u8>) -> Seq<char> {
    if vstd::utf8::valid_utf8(first_line(head)) {
        vstd::utf8::decode_utf8(first_line(head))
    } else {
        Seq::empty()
    }
}

/// A registry of languages and the tables to find them by.
pub struct LanguageRegistry {
    languages: Vec<LanguageDef>,
    ext_map: Vec<(Vec<char>, LanguageId)>,
    filename_map: Vec<(Vec<char>, LanguageId)>,
    filename_prefix_list: Vec<(Vec<char>, LanguageId)>,
    interpreter_map: Vec<(Vec<char>, LanguageId)>,
}

impl LanguageRegistry {
    /// The languages, in the order of their ids.
    pub closed spec fn languages(self) -> Seq<LanguageDef> {
        self.languages@
    }

    /// The lookup table `kind`.
    pub closed spec fn table(self, kind: TableKind) -> Seq<(Seq<char>, LanguageId)> {
        match kind {
            TableKind::Extension => table_view(self.ext_map@),
            TableKind::Filename => table_view(self.filename_map@),
            TableKind::Prefix => table_view(self.filename_prefix_list@),
            TableKind::Interpreter => table_view(self.interpreter_map@),
        }
    }

    /// A registry is always well formed.
    #[verifier::type_invariant]
    spec fn registry_inv(self) -> bool {
        self.wf()
    }

    /// Every language has a scannable syntax, and every table is built from
    /// the languages, each key going to the first language that claims it.
    pub open spec fn wf(self) -> bool {
        &&& self.languages().len() <= usize::MAX
        &&& forall|i: int|
            0 <= i < self.languages().len() ==> (#[trigger] self.languages()[i]).syntax.wf()
        &&& forall|kind: TableKind| #[trigger]
            self.table(kind) == build_table(self.languages(), kind)
    }

    /// The syntax of the language `id`.
    pub open spec fn syntax_of(self, id: LanguageId) -> LangSyntax {
        self.languages()[id.index() as int].syntax
    }

    /// The language of the file at `path`: by extension first, then by exact
    /// file name, then by file-name prefix.
    pub open spec fn language_for_path(self, path: Seq<char>) -> Option<LanguageId> {
        let by_ext = match extension_of_name(path_file_name(path)) {
            Some(e) => lookup(self.table(TableKind::Extension), e),
            None => None,
        };
        if by_ext is Some {
            by_ext
        } else {
            match path_file_name(path) {
                None => None,
                Some(f) => {
                    let by_name = lookup(self.table(TableKind::Filename), f);
                    if by_name is Some {
                        by_name
                    } else {
                        prefix_lookup(self.table(TableKind::Prefix), f)
                    }
                },
            }
        }
    }

    /// The language a `#!` line names: the interpreter's base name in
    /// lowercase, or for `env`-style lines the next word in lowercase.
    pub open spec fn language_for_shebang(self, line: Seq<char>) -> Option<LanguageId> {
        if !starts_with(line, seq!['#', '!']) {
            None
        } else {
            let t = trimmed(line.subrange(2, line.len() as int));
            match first_word(t) {
                None => None,
                Some((a, b)) => {
                    let interps = self.table(TableKind::Interpreter);
                    let by_exe = lookup(interps, lowercase(after_last_slash(t.subrange(a, b))));
                    if by_exe is Some {
                        by_exe
                    } else {
                        let rest = t.subrange(b, t.len() as int);
                        match first_word(rest) {
                            None => None,
                            Some((c, d)) => lookup(interps, lowercase(rest.subrange(c, d))),
                        }
                    }
                },
            }
        }
    }

    /// The registry of the built-in languages: their names, file-name
    /// patterns, interpreters and syntaxes are those of `builtin_names`,
    /// `builtin_patterns`, `builtin_interpreters` and `builtin_syntaxes`.
    pub fn new() -> (r: Self)
        ensures
            r.wf(),
            r.languages().len() == 22,
            r.languages().map_values(|l: LanguageDef| l.name@) == builtin_names(),
            r.languages().map_values(|l: LanguageDef| string_views(l.patterns@))
                == builtin_patterns(),
            r.languages().map_values(|l: LanguageDef| string_views(l.interpreters@))
                == builtin_interpreters(),
            r.languages().map_values(|l: LanguageDef| l.syntax@) == builtin_syntaxes(),
    {
        Self::from_definitions(crate::builtin::definitions())
    }

    /// A registry of the given languages, in order; a key that several
    /// languages claim goes to the first of them, and patterns of another form
    /// than `*.ext`, `Name` or `Prefix*` are not entered anywhere.
    pub fn from_definitions(languages: Vec<LanguageDef>) -> (r: Self)
        requires
            forall|i: int| 0 <= i < languages@.len() ==> (#[trigger] languages@[i]).syntax.wf(),
        ensures
            r.wf(),
            r.languages() == languages@,
    {
        let ext_map = build_table_of(&languages, TableKind::Extension);
        let filename_map = build_table_of(&languages, TableKind::Filename);
        let filename_prefix_list = build_table_of(&languages, TableKind::Prefix);
        let interpreter_map = build_table_of(&languages, TableKind::Interpreter);
        proof {
            assert forall|kind: TableKind| #[trigger] build_table(languages@, kind) == (match kind {
                TableKind::Extension => table_view(ext_map@),
                TableKind::Filename => table_view(filename_map@),
                TableKind::Prefix => table_view(filename_prefix_list@),
                TableKind::Interpreter => table_view(interpreter_map@),
            }) by {
                match kind {
                    TableKind::Extension => {},
                    TableKind::Filename => {},
                    TableKind::Prefix => {},
                    TableKind::Interpreter => {},
                }
            }
        }
        let _n = languages.len();
        let r = LanguageRegistry {
            languages,
            ext_map,
            filename_map,
            filename_prefix_list,
            interpreter_map,
        };
        r
    }

    /// The language of the file at `path` and its syntax.
    pub fn get_language(&self, path: &str) -> (r: Option<(LanguageId, &LangSyntax)>)
        ensures
            match r {
                Some((id, syntax)) => self.language_for_path(path@) == Some(id) && id.index()
                    < self.languages().len() && *syntax == self.syntax_of(id),
                None => self.language_for_path(path@) is None,
            },
    {
        proof {
            use_type_invariant(self);
            self.lemma_tables_below();
        }
        // Fast path: extension lookup (case-sensitive).
        if let Some(ext) = extension_of(path) {
            if let Some(id) = table_get(&self.ext_map, ext.as_slice()) {
                proof {
                    lemma_lookup_below(self.table(TableKind::Extension), ext@, 0, self.languages@.len() as int);
                }
                return Some((id, &self.languages[id.0].syntax));
            }
        }
        // Fallback: exact filename and prefix pattern checks (case-sensitive).

        if let Some(filename) = file_name_of(path) {
            if let Some(id) = table_get(&self.filename_map, filename.as_slice()) {
                proof {
                    lemma_lookup_below(self.table(TableKind::Filename), filename@, 0, self.languages@.len() as int);
                }
                return Some((id, &self.languages[id.0].syntax));
            }
            if let Some(id) = table_prefix_get(&self.filename_prefix_list, filename.as_slice()) {
                proof {
                    lemma_best_prefix_below(
                        self.table(TableKind::Prefix),
                        filename@,
                        self.table(TableKind::Prefix).len() as int,
                        self.languages@.len() as int,
                    );
                }
                return Some((id, &self.languages[id.0].syntax));
            }
        }
        None
    }

    /// What to do with the file at `path`: count it in the language its path
    /// names; when the path names none and has no extension, look at the
    /// file's `#!` line; otherwise leave it out.
    pub fn plan_file(&self, path: &str) -> (r: FilePlan)
        ensures
            match r {
                FilePlan::Count(id) => self.language_for_path(path@) == Some(id) && id.index()
                    < self.languages().len(),
                FilePlan::Sniff => self.language_for_path(path@) is None && extension_of_name(
                    path_file_name(path@),
                ) is None,
                FilePlan::Skip => self.language_for_path(path@) is None && extension_of_name(
                    path_file_name(path@),
                ) is Some,
            },
    {
        match self.get_language(path) {
            Some((id, _)) => FilePlan::Count(id),
            None => match extension_of(path) {
                None => FilePlan::Sniff,
                Some(_) => FilePlan::Skip,
            },
        }
    }

    /// The syntax of the language `id`.
    pub fn syntax(&self, id: LanguageId) -> (r: &LangSyntax)
        requires
            id.index() < self.languages().len(),
        ensures
            *r == self.syntax_of(id),
    {
        &self.languages[id.0].syntax
    }

    /// Determine the language of a file from its first bytes, by the `#!`
    /// line they start with.
    pub fn sniff_language_from_shebang(&self, head: &[u8]) -> (r: Option<(LanguageId, &LangSyntax)>)
        ensures
            match r {
                Some((id, syntax)) => self.language_for_shebang(first_line_text(head@)) == Some(id)
                    && id.index() < self.languages().len() && *syntax == self.syntax_of(id),
                None => self.language_for_shebang(first_line_text(head@)) is None,
            },
    {
        let mut n: usize = 0;
        while n < head.len() && head[n] != 0x0au8
            invariant
                n <= head@.len(),
                forall|j: int| 0 <= j < n ==> head@[j] != newline(),
            decreases head@.len() - n,
        {
            n = n + 1;
        }
        proof {
            let set = seq![newline()];
            lemma_byte_in_set_from(head@, set, 0);
            assert(set[0] == newline());
            assert(forall|x: u8| set.contains(x) ==> x == newline());
            if n < head@.len() {
                assert(set.contains(head@[n as int]));
            }
            match byte_in_set_from(head@, set, 0) {
                Some(k) => {
                    assert(head@[k] == newline());
                },
                None => {
                    assert(head@.subrange(0, n as int) =~= head@);
                },
            }
        }
        let first = &head[0..n];
        let line = match decode_utf8(first) {
            Some(text) => chars_of(text),
            None => Vec::new(),
        };
        match self.detect_shebang(line.as_slice()) {
            Some(id) => Some((id, &self.languages[id.0].syntax)),
            None => None,
        }
    }

    /// Given a `#!` line, return the language id by looking up the interpreter
    /// basename (e.g. `python3` from `#!/usr/bin/python3`) and, for `env`-style
    /// shebangs, the next word (e.g. `ruby` from `#!/usr/bin/env ruby`).
    fn detect_shebang(&self, line: &[char]) -> (r: Option<LanguageId>)
        ensures
            r == self.language_for_shebang(line@),
            r matches Some(id) ==> id.index() < self.languages().len(),
    {
        proof {
            use_type_invariant(self);
            self.lemma_tables_below();
        }
        let ghost interps = self.table(TableKind::Interpreter);
        let n_langs = self.languages.len();
        if !chars_start_with(line, &['#', '!']) {
            return None;
        }
        let rest = copy_range(line, 2, line.len());
        let t = trim_chars(rest.as_slice());
        let (a, b) = match find_first_word(t.as_slice()) {
            Some(w) => w,
            None => return None,
        };
        let exe = copy_range(t.as_slice(), a, b);
        let basename = match find_last(exe.as_slice(), '/') {
            Some(k) => {
                proof {
                    lemma_last_index_upto(exe@, '/', exe@.len() as int);
                }
                copy_range(exe.as_slice(), k + 1, exe.len())
            },
            None => exe,
        };
        let key = to_lowercase(basename.as_slice());
        proof {
            lemma_lookup_below(interps, key@, 0, n_langs as int);
        }
        if let Some(id) = table_get(&self.interpreter_map, key.as_slice()) {
            return Some(id);
        }
        let rest2 = copy_range(t.as_slice(), b, t.len());
        let (c, d) = match find_first_word(rest2.as_slice()) {
            Some(w) => w,
            None => return None,
        };
        let second = to_lowercase(copy_range(rest2.as_slice(), c, d).as_slice());
        proof {
            lemma_lookup_below(interps, second@, 0, n_langs as int);
        }
        table_get(&self.interpreter_map, second.as_slice())
    }

    /// The languages with their names and file-name patterns, in id order.
    pub fn all_languages_with_patterns(&self) -> (r: Vec<(LanguageId, &str, &[String])>)
        ensures
            r@.len() == self.languages().len(),
            forall|i: int|
                0 <= i < r@.len() ==> {
                    &&& (#[trigger] r@[i]).0.index() == i
                    &&& r@[i].1@ == self.languages()[i].name@
                    &&& r@[i].2@ == self.languages()[i].patterns@
                },
    {
        let mut r: Vec<(LanguageId, &str, &[String])> = Vec::new();
        let mut i: usize = 0;
        while i < self.languages.len()
            invariant
                i <= self.languages@.len(),
                r@.len() == i,
                forall|j: int|
                    0 <= j < i ==> {
                        &&& (#[trigger] r@[j]).0.index() == j
                        &&& r@[j].1@ == self.languages@[j].name@
                        &&& r@[j].2@ == self.languages@[j].patterns@
                    },
            decreases self.languages@.len() - i,
        {
            let lang = &self.languages[i];
            r.push((LanguageId(i), lang.name.as_str(), lang.patterns.as_slice()));
            i = i + 1;
        }
        r
    }

    /// The name of the language `id`.
    pub fn language_name(&self, id: LanguageId) -> (r: &str)
        requires
            id.index() < self.languages().len(),
        ensures
            r@ == self.languages()[id.index() as int].name@,
    {
        self.languages[id.0].name.as_str()
    }

    /// Every table names only languages of the registry.
    proof fn lemma_tables_below(&self)
        requires
            self.wf(),
        ensures
            forall|kind: TableKind| ids_below(#[trigger] self.table(kind), self.languages().len() as int),
    {
        assert forall|kind: TableKind| ids_below(#[trigger] self.table(kind), self.languages().len() as int) by {
            lemma_table_ids(self.languages(), kind, self.languages().len() as int);
        }
    }
}

/// Language `lang` claims `key` for the table `kind`: one of its entries
/// puts that key there.
pub open spec fn claims(lang: LanguageDef, kind: TableKind, key: Seq<char>) -> bool {
    exists|j: int| 0 <= j < entry_count(lang, kind) && #[trigger] entry_key(lang, kind, j) == Some(key)
}

/// The first of the first `i` languages that claims `key` for the table `kind`.
pub open spec fn first_claimant(langs: Seq<LanguageDef>, kind: TableKind, key: Seq<char>, i: int) -> Option<
    LanguageId,
>
    decreases i,
{
    if i <= 0 {
        None
    } else {
        match first_claimant(langs, kind, key, i - 1) {
            Some(id) => Some(id),
            None => if claims(langs[i - 1], kind, key) {
                Some(LanguageId::from_index(i - 1))
            } else {
                None
            },
        }
    }
}

/// Looking up in a table with one more entry at the end.
pub proof fn lemma_lookup_push(
    t: Seq<(Seq<char>, LanguageId)>,
    e: (Seq<char>, LanguageId),
    key: Seq<char>,
    m: int,
)
    requires
        0 <= m <= t.len(),
    ensures
        lookup_from(t.push(e), key, m) == match lookup_from(t, key, m) {
            Some(x) => Some(x),
            None => if e.0 == key {
                Some(e.1)
            } else {
                None
            },
        },
    decreases t.len() - m,
{
    if m < t.len() {
        assert(t.push(e)[m] == t[m]);
        if t[m].0 != key {
            lemma_lookup_push(t, e, key, m + 1);
        }
    } else {
        assert(t.push(e)[m] == e);
        assert(lookup_from(t.push(e), key, m + 1) is None);
    }
}

/// Inserting the entries of language `i`: a key already in the table keeps
/// its language; a new key that the language claims maps to it.
pub proof fn lemma_insert_entries_lookup(
    t: Seq<(Seq<char>, LanguageId)>,
    langs: Seq<LanguageDef>,
    kind: TableKind,
    i: int,
    j: int,
    key: Seq<char>,
)
    requires
        0 <= i < langs.len(),
        0 <= j <= entry_count(langs[i], kind),
    ensures
        lookup(insert_entries(t, langs, kind, i, j), key) == match lookup(t, key) {
            Some(x) => Some(x),
            None => if exists|m: int| 0 <= m < j && #[trigger] entry_key(langs[i], kind, m) == Some(key) {
                Some(LanguageId::from_index(i))
            } else {
                None
            },
        },
    decreases j,
{
    if j > 0 {
        lemma_insert_entries_lookup(t, langs, kind, i, j - 1, key);
        let t1 = insert_entries(t, langs, kind, i, j - 1);
        match entry_key(langs[i], kind, j - 1) {
            Some(k2) => {
                if lookup(t1, k2) is None {
                    lemma_lookup_push(t1, (k2, LanguageId::from_index(i)), key, 0);
                }
                if k2 == key {
                    assert(entry_key(langs[i], kind, j - 1) == Some(key));
                }
                if lookup(t1, k2) is Some && k2 == key {
                }
            },
            None => {},
        }
        if exists|m: int| 0 <= m < j && #[trigger] entry_key(langs[i], kind, m) == Some(key) {
            let m = choose|m: int| 0 <= m < j && #[trigger] entry_key(langs[i], kind, m) == Some(key);
            if m < j - 1 {
                assert(exists|m2: int| 0 <= m2 < j - 1 && #[trigger] entry_key(langs[i], kind, m2) == Some(key));
            }
        }
    }
}

/// A key of a table built from languages maps to the first language that
/// claims it.
pub proof fn lemma_table_lookup(langs: Seq<LanguageDef>, kind: TableKind, key: Seq<char>, i: int)
    requires
        0 <= i <= langs.len(),
    ensures
        lookup(table_upto(langs, kind, i), key) == first_claimant(langs, kind, key, i),
    decreases i,
{
    if i > 0 {
        lemma_table_lookup(langs, kind, key, i - 1);
        lemma_insert_entries_lookup(
            table_upto(langs, kind, i - 1),
            langs,
            kind,
            i - 1,
            entry_count(langs[i - 1], kind),
            key,
        );
    }
}

impl Default for LanguageRegistry {
    fn default() -> (r: Self)
        ensures
            r.wf(),
            r.languages().len() == 22,
            r.languages().map_values(|l: LanguageDef| l.name@) == builtin_names(),
            r.languages().map_values(|l: LanguageDef| string_views(l.patterns@))
                == builtin_patterns(),
            r.languages().map_values(|l: LanguageDef| string_views(l.interpreters@))
                == builtin_interpreters(),
            r.languages().map_values(|l: LanguageDef| l.syntax@) == builtin_syntaxes(),
    {
        Self::new()
    }
}

} // verus!
