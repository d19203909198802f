use loc::languages::{FilePlan, LanguageDef, LanguageRegistry};

fn name_of(registry: &LanguageRegistry, path: &str) -> Option<String> {
    registry
        .get_language(path)
        .map(|(id, _)| registry.language_name(id).to_string())
}

fn sniffed(registry: &LanguageRegistry, head: &[u8]) -> Option<String> {
    registry
        .sniff_language_from_shebang(head)
        .map(|(id, _)| registry.language_name(id).to_string())
}

#[test]
fn language_by_extension() {
    let r = LanguageRegistry::new();
    assert_eq!(name_of(&r, "src/main.rs").as_deref(), Some("Rust"));
    assert_eq!(name_of(&r, "lib/app.tsx").as_deref(), Some("TypeScript"));
    assert_eq!(name_of(&r, "a/b/c.py").as_deref(), Some("Python"));
    assert_eq!(name_of(&r, "x.hpp").as_deref(), Some("C++"));
}

#[test]
fn extension_lookup_is_case_sensitive() {
    let r = LanguageRegistry::new();
    assert_eq!(name_of(&r, "FOO.RS"), None);
}

#[test]
fn language_by_file_name() {
    let r = LanguageRegistry::new();
    assert_eq!(name_of(&r, "Makefile").as_deref(), Some("Makefile"));
    assert_eq!(name_of(&r, "sub/dir/GNUmakefile").as_deref(), Some("Makefile"));
    assert_eq!(name_of(&r, "dir/Rakefile").as_deref(), Some("Ruby"));
    assert_eq!(name_of(&r, "Cargo.lock").as_deref(), Some("TOML"));
}

#[test]
fn language_by_file_name_prefix() {
    let r = LanguageRegistry::new();
    assert_eq!(name_of(&r, "Dockerfile").as_deref(), Some("Dockerfile"));
    assert_eq!(name_of(&r, "build/Dockerfile.dev").as_deref(), Some("Dockerfile"));
    assert_eq!(name_of(&r, "app.dockerfile").as_deref(), Some("Dockerfile"));
}

#[test]
fn unknown_files_have_no_language() {
    let r = LanguageRegistry::new();
    assert_eq!(name_of(&r, "notes.txt"), None);
    assert_eq!(name_of(&r, ".bashrc"), None);
    assert_eq!(name_of(&r, "script"), None);
    assert_eq!(name_of(&r, ""), None);
}

#[test]
fn shebang_names_interpreter() {
    let r = LanguageRegistry::new();
    assert_eq!(sniffed(&r, b"#!/bin/bash\necho hi\n").as_deref(), Some("Bash"));
    assert_eq!(sniffed(&r, b"#!/usr/bin/perl -w\n").as_deref(), Some("Perl"));
    assert_eq!(sniffed(&r, b"#!/usr/bin/Python3\n").as_deref(), Some("Python"));
    assert_eq!(sniffed(&r, b"#!  /bin/sh").as_deref(), Some("Bash"));
}

#[test]
fn shebang_through_env() {
    let r = LanguageRegistry::new();
    assert_eq!(sniffed(&r, b"#!/usr/bin/env python3\nprint(1)\n").as_deref(), Some("Python"));
    assert_eq!(sniffed(&r, b"#!/usr/bin/env node\n").as_deref(), Some("JavaScript"));
    assert_eq!(sniffed(&r, b"#!/usr/bin/env RUBY\n").as_deref(), Some("Ruby"));
}

#[test]
fn shebang_without_known_interpreter() {
    let r = LanguageRegistry::new();
    assert_eq!(sniffed(&r, b"#!/usr/bin/env\n"), None);
    assert_eq!(sniffed(&r, b"#!/usr/bin/env -S node\n"), None);
    assert_eq!(sniffed(&r, b"#!/opt/unknown\n"), None);
    assert_eq!(sniffed(&r, b"#!\n"), None);
    assert_eq!(sniffed(&r, b"print('no shebang')\n"), None);
    assert_eq!(sniffed(&r, b" #!/bin/sh\n"), None);
    assert_eq!(sniffed(&r, b""), None);
}

#[test]
fn shebang_line_must_be_utf8() {
    let r = LanguageRegistry::new();
    assert_eq!(sniffed(&r, b"#!/bin/sh \xff\n"), None);
    assert_eq!(sniffed(&r, b"#!/bin/sh\n\xff\n").as_deref(), Some("Bash"));
}

#[test]
fn plan_for_each_kind_of_path() {
    let r = LanguageRegistry::new();
    match r.plan_file("src/lib.rs") {
        FilePlan::Count(id) => assert_eq!(r.language_name(id), "Rust"),
        other => panic!("unexpected plan {:?}", other),
    }
    assert_eq!(r.plan_file("bin/tool"), FilePlan::Sniff);
    assert_eq!(r.plan_file(".bashrc"), FilePlan::Sniff);
    assert_eq!(r.plan_file("notes.txt"), FilePlan::Skip);
}

#[test]
fn syntax_matches_lookup() {
    let r = LanguageRegistry::new();
    let (id, syntax) = r.get_language("a.lua").unwrap();
    let again = r.syntax(id);
    assert_eq!(again.line_comment, syntax.line_comment);
    assert_eq!(again.line_comment, Some(b"--".to_vec()));
}

#[test]
fn all_languages_are_listed_in_order() {
    let r = LanguageRegistry::new();
    let all = r.all_languages_with_patterns();
    assert_eq!(all.len(), 22);
    assert_eq!(all[0].1, "Bash");
    assert_eq!(all[0].2, &["*.sh".to_string(), "*.bash".to_string()][..]);
    assert_eq!(all[21].1, "YAML");
    for (id, name, _) in &all {
        assert_eq!(r.language_name(*id), *name);
    }
    let names: Vec<&str> = all.iter().map(|e| e.1).collect();
    let mut sorted = names.clone();
    sorted.sort();
    assert_eq!(names, sorted);
}

#[test]
fn default_registry_is_the_builtin_one() {
    let r = LanguageRegistry::default();
    assert_eq!(r.all_languages_with_patterns().len(), 22);
}

#[test]
fn first_language_claiming_a_key_wins() {
    let builtin = LanguageRegistry::new();
    let (_, sx) = builtin.get_language("a.sh").unwrap();
    let def = |name: &str, patterns: &[&str], interpreters: &[&str]| LanguageDef {
        name: name.to_string(),
        patterns: patterns.iter().map(|p| p.to_string()).collect(),
        interpreters: interpreters.iter().map(|p| p.to_string()).collect(),
        syntax: sx.clone(),
    };
    let r = LanguageRegistry::from_definitions(vec![
        def("First", &["*.x", "Build*", "a*b"], &["tool"]),
        def("Second", &["*.x", "*.y", "Buildfile", "Build*"], &["tool", "other"]),
    ]);
    assert_eq!(name_of(&r, "f.x").as_deref(), Some("First"));
    assert_eq!(name_of(&r, "f.y").as_deref(), Some("Second"));
    assert_eq!(name_of(&r, "Buildfile").as_deref(), Some("Second"));
    assert_eq!(name_of(&r, "Build.cfg").as_deref(), Some("First"));
    assert_eq!(name_of(&r, "Buildscript").as_deref(), Some("First"));
    assert_eq!(name_of(&r, "aXb"), None);
    assert_eq!(sniffed(&r, b"#!/usr/bin/tool\n").as_deref(), Some("First"));
    assert_eq!(sniffed(&r, b"#!/usr/bin/env other\n").as_deref(), Some("Second"));
}

#[test]
fn builtin_patterns_are_supported_and_claimed_once() {
    let r = LanguageRegistry::new();
    let mut seen: Vec<(String, String)> = Vec::new();
    for (id, _, patterns) in r.all_languages_with_patterns() {
        for p in patterns {
            let stars = p.matches('*').count();
            let key = if stars == 0 {
                ("name".to_string(), p.clone())
            } else if stars == 1 && p.starts_with("*.") {
                ("ext".to_string(), p[2..].to_string())
            } else if stars == 1 && p.ends_with('*') {
                ("prefix".to_string(), p[..p.len() - 1].to_string())
            } else {
                panic!("unsupported pattern {}", p);
            };
            assert!(!seen.contains(&key), "{:?} claimed twice", key);
            seen.push(key);
        }
        assert!(r.language_name(id).len() > 0);
    }
}
