use loc::count::Counts;
use loc::languages::{LanguageId, LanguageRegistry};
use loc::report::{aggregate, byte_unit, sort_for_report, sum_stats, ByteUnit, Stats};

fn stats(files: usize, bytes: u64, lines: usize, blanks: usize, comments: usize, code: usize) -> Stats {
    Stats { files, bytes, counts: Counts { lines, blanks, comments, code } }
}

fn id_of(registry: &LanguageRegistry, path: &str) -> LanguageId {
    registry.get_language(path).unwrap().0
}

#[test]
fn stats_add_field_by_field() {
    let mut a = stats(1, 100, 10, 1, 2, 7);
    a.add_assign(&stats(2, 50, 5, 0, 1, 4));
    assert_eq!(a, stats(3, 150, 15, 1, 3, 11));
    assert_eq!(Stats::default(), stats(0, 0, 0, 0, 0, 0));
}

#[test]
fn aggregate_sums_each_language() {
    let r = LanguageRegistry::new();
    let rust = id_of(&r, "a.rs");
    let py = id_of(&r, "a.py");
    let results = vec![
        (rust, stats(1, 10, 4, 1, 1, 2)),
        (py, stats(1, 20, 6, 2, 0, 4)),
        (rust, stats(1, 30, 8, 0, 3, 5)),
    ];
    let g = aggregate(&results);
    assert_eq!(g.len(), 2);
    let rust_entry = g.iter().find(|e| e.0 == rust).unwrap();
    let py_entry = g.iter().find(|e| e.0 == py).unwrap();
    assert_eq!(rust_entry.1, stats(2, 40, 12, 1, 4, 7));
    assert_eq!(py_entry.1, stats(1, 20, 6, 2, 0, 4));
}

#[test]
fn aggregate_of_nothing_is_empty() {
    assert!(aggregate(&Vec::new()).is_empty());
}

#[test]
fn report_orders_by_code_then_language() {
    let r = LanguageRegistry::new();
    let rust = id_of(&r, "a.rs");
    let py = id_of(&r, "a.py");
    let c = id_of(&r, "a.c");
    let toml = id_of(&r, "a.toml");
    let g = vec![
        (toml, stats(1, 1, 26, 0, 0, 26)),
        (rust, stats(3, 3, 900, 0, 0, 834)),
        (py, stats(2, 2, 30, 0, 0, 26)),
        (c, stats(1, 1, 1000, 0, 0, 1000)),
    ];
    let sorted = sort_for_report(g);
    let names: Vec<&str> = sorted.iter().map(|e| r.language_name(e.0)).collect();
    assert_eq!(names, vec!["C", "Rust", "Python", "TOML"]);
}

#[test]
fn total_sums_every_row() {
    let r = LanguageRegistry::new();
    let rows = vec![
        (id_of(&r, "a.ts"), stats(13, 78540, 2819, 325, 62, 2432)),
        (id_of(&r, "a.rs"), stats(3, 33280, 1019, 146, 39, 834)),
        (id_of(&r, "a.css"), stats(1, 10240, 562, 86, 10, 466)),
        (id_of(&r, "a.toml"), stats(1, 801, 28, 2, 0, 26)),
    ];
    assert_eq!(sum_stats(&rows), Some(stats(18, 122861, 4428, 559, 111, 3758)));
    assert_eq!(sum_stats(&Vec::new()), Some(stats(0, 0, 0, 0, 0, 0)));
}

#[test]
fn total_overflow_is_reported() {
    let r = LanguageRegistry::new();
    let rs = id_of(&r, "a.rs");
    let rows = vec![(rs, stats(1, u64::MAX, 1, 0, 0, 1)), (rs, stats(1, 1, 1, 0, 0, 1))];
    assert_eq!(sum_stats(&rows), None);
    let rows = vec![(rs, stats(usize::MAX, 0, 0, 0, 0, 0)), (rs, stats(1, 0, 0, 0, 0, 0))];
    assert_eq!(sum_stats(&rows), None);
}

#[test]
fn aggregated_and_sorted_total_matches_results() {
    let r = LanguageRegistry::new();
    let results = vec![
        (id_of(&r, "a.rs"), stats(1, 5, 3, 1, 1, 1)),
        (id_of(&r, "a.go"), stats(1, 7, 9, 2, 2, 5)),
        (id_of(&r, "b.rs"), stats(1, 11, 6, 0, 0, 6)),
    ];
    let total = sum_stats(&results);
    let report = sort_for_report(aggregate(&results));
    assert_eq!(sum_stats(&report), total);
    assert_eq!(total, Some(stats(3, 23, 18, 3, 3, 12)));
    assert_eq!(r.language_name(report[0].0), "Rust");
}

#[test]
fn byte_units_switch_at_powers_of_1024() {
    assert_eq!(byte_unit(0), ByteUnit::Bytes);
    assert_eq!(byte_unit(1023), ByteUnit::Bytes);
    assert_eq!(byte_unit(1024), ByteUnit::Kilobytes);
    assert_eq!(byte_unit(1024 * 1024 - 1), ByteUnit::Kilobytes);
    assert_eq!(byte_unit(1024 * 1024), ByteUnit::Megabytes);
    assert_eq!(byte_unit(u64::MAX), ByteUnit::Megabytes);
}

#[test]
fn entries_in_the_same_place_keep_their_order() {
    let r = LanguageRegistry::new();
    let rust = id_of(&r, "a.rs");
    let go = id_of(&r, "a.go");
    let g = vec![
        (rust, stats(1, 1, 5, 0, 0, 5)),
        (go, stats(1, 1, 9, 0, 0, 9)),
        (rust, stats(2, 2, 6, 1, 0, 5)),
    ];
    let sorted = sort_for_report(g);
    assert_eq!(sorted[0].0, go);
    assert_eq!(sorted[1].1, stats(1, 1, 5, 0, 0, 5));
    assert_eq!(sorted[2].1, stats(2, 2, 6, 1, 0, 5));
}
