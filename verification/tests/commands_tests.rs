use scout::commands::{
    find, has_room, is_selected, list, parse_extensions, room_left, scan, scan_file, search,
    to_record, try_find, wants_content, wants_entry, FileScan, SourceFile,
};
use scout::format::OutputFormat;
use scout::types::{Entry, FileInfo, SearchResult, TraversalConfig};

fn file(path: &str, size: u64) -> Entry {
    Entry { path: String::from(path), is_file: true, ignored: false, size: Some(size) }
}

fn dir(path: &str) -> Entry {
    Entry { path: String::from(path), is_file: false, ignored: false, size: Some(4096) }
}

fn config(limit: usize) -> TraversalConfig {
    TraversalConfig {
        root: String::from("."),
        respect_ignore_rules: true,
        include_hidden: true,
        exclude_substrings: Vec::new(),
        result_limit: limit,
        output_format: OutputFormat::Plain,
        streaming: false,
    }
}

fn info(path: &str, size: u64) -> FileInfo {
    FileInfo { path: String::from(path), size }
}

fn source(path: &str, content: Option<&str>) -> SourceFile {
    SourceFile { entry: file(path, 0), content: content.map(String::from) }
}

fn hit(path: &str, line: usize, content: &str) -> SearchResult {
    SearchResult { path: String::from(path), line, content: String::from(content) }
}

fn paths(records: &[FileInfo]) -> Vec<String> {
    let mut out: Vec<String> = records.iter().map(|r| r.path.clone()).collect();
    out.sort();
    out
}

fn tree() -> Vec<Entry> {
    vec![
        dir("a"),
        file("a/b.txt", 10),
        file("a/.hidden.txt", 5),
        dir("src"),
        file("src/main.rs", 1524),
        file("src/lib.rs", 300),
        file("src/deep/mod.rs", 7),
        file("README.md", 42),
    ]
}

#[test]
fn list_without_hidden_files_gives_the_visible_one() {
    let walk = vec![dir("a"), file("a/b.txt", 10), file("a/.hidden.txt", 5)];
    let mut cfg = config(100);
    cfg.include_hidden = false;
    assert_eq!(list(&walk, &cfg), vec![info("a/b.txt", 10)]);
}

#[test]
fn list_with_hidden_files_gives_both() {
    let walk = vec![dir("a"), file("a/b.txt", 10), file("a/.hidden.txt", 5)];
    assert_eq!(list(&walk, &config(100)), vec![info("a/b.txt", 10), info("a/.hidden.txt", 5)]);
}

#[test]
fn search_finds_the_needle_on_line_three() {
    let files = vec![
        source("src/main.x", Some("first\nsecond\n  needle found here  \nfourth\n")),
        source("src/other.y", Some("needle in a file with another extension\n")),
    ];
    let got = search(&files, "needle", Some("x"), &config(50));
    assert_eq!(got, vec![hit("src/main.x", 3, "needle found here")]);
}

#[test]
fn find_never_gives_more_than_the_limit_nor_a_directory() {
    let walk = tree();
    for limit in 0..8 {
        let got = find(&walk, "**", &config(limit));
        assert!(got.len() <= limit);
        assert_eq!(got.len(), limit.min(6));
        for record in &got {
            assert!(walk.iter().any(|e| e.is_file && e.path == record.path));
        }
    }
}

#[test]
fn find_keeps_the_order_of_the_walk_and_stops_at_the_limit() {
    let walk = tree();
    assert_eq!(
        find(&walk, "src/**/*.rs", &config(100)),
        vec![info("src/main.rs", 1524), info("src/lib.rs", 300), info("src/deep/mod.rs", 7)]
    );
    assert_eq!(
        find(&walk, "src/**/*.rs", &config(2)),
        vec![info("src/main.rs", 1524), info("src/lib.rs", 300)]
    );
    assert_eq!(find(&walk, "src/*.rs", &config(100)).len(), 2);
    assert!(find(&walk, "*.py", &config(100)).is_empty());
}

#[test]
fn find_everything_and_list_give_the_same_paths() {
    let walk = tree();
    for hidden in [false, true] {
        for limit in [0, 1, 3, 100] {
            let mut cfg = config(limit);
            cfg.include_hidden = hidden;
            cfg.exclude_substrings = vec![String::from("deep")];
            assert_eq!(paths(&find(&walk, "**", &cfg)), paths(&list(&walk, &cfg)));
        }
    }
}

#[test]
fn exclusion_only_removes_results() {
    let walk = tree();
    let open = config(100);
    let mut narrow = config(100);
    narrow.exclude_substrings = vec![String::from("src/"), String::from(".hidden")];
    let all = list(&walk, &open);
    let kept = list(&walk, &narrow);
    assert_eq!(kept, vec![info("a/b.txt", 10), info("README.md", 42)]);
    for record in &kept {
        assert!(all.contains(record));
    }
    let found = find(&walk, "**/*.rs", &narrow);
    assert!(found.is_empty());
}

#[test]
fn exclusion_under_a_tight_limit_lets_later_files_in() {
    let walk = vec![file("a", 1), file("b", 2)];
    let mut narrow = config(1);
    narrow.exclude_substrings = vec![String::from("a")];
    assert_eq!(list(&walk, &config(1)), vec![info("a", 1)]);
    assert_eq!(list(&walk, &narrow), vec![info("b", 2)]);
}

#[test]
fn running_twice_gives_the_same_results() {
    let walk = tree();
    let cfg = config(4);
    assert_eq!(find(&walk, "**/*.rs", &cfg), find(&walk, "**/*.rs", &cfg));
    assert_eq!(list(&walk, &cfg), list(&walk, &cfg));
    let files = vec![source("a.txt", Some("x\ny x\n")), source("b.txt", Some("x"))];
    assert_eq!(search(&files, "x", None, &cfg), search(&files, "x", None, &cfg));
}

#[test]
fn a_limit_of_zero_gives_nothing() {
    let walk = tree();
    let cfg = config(0);
    assert!(find(&walk, "**", &cfg).is_empty());
    assert!(list(&walk, &cfg).is_empty());
    let files = vec![source("a.txt", Some("needle\n"))];
    assert!(search(&files, "needle", None, &cfg).is_empty());
    assert!(!wants_content(&files[0].entry, &[], &cfg, 0));
    assert!(scan_file("a.txt", "needle\n", "needle", 0).is_empty());
}

#[test]
fn ignored_entries_are_skipped_only_while_the_rules_are_respected() {
    let mut ignored = file("target/out.bin", 9);
    ignored.ignored = true;
    let walk = vec![ignored, file("src/main.rs", 1)];
    let mut cfg = config(10);
    assert_eq!(list(&walk, &cfg), vec![info("src/main.rs", 1)]);
    cfg.respect_ignore_rules = false;
    assert_eq!(list(&walk, &cfg), vec![info("target/out.bin", 9), info("src/main.rs", 1)]);
}

#[test]
fn unreadable_metadata_counts_as_size_zero() {
    let entry = Entry { path: String::from("gone"), is_file: true, ignored: false, size: None };
    assert_eq!(to_record(&entry), info("gone", 0));
    assert_eq!(list(&vec![entry], &config(10)), vec![info("gone", 0)]);
}

#[test]
fn selection_checks_policy_then_pattern() {
    let cfg = config(10);
    assert!(is_selected(&file("a.rs", 1), Some("*.rs"), &cfg));
    assert!(!is_selected(&file("a.rs", 1), Some("*.txt"), &cfg));
    assert!(is_selected(&file("a.rs", 1), None, &cfg));
    assert!(!is_selected(&dir("a.rs"), Some("*.rs"), &cfg));
}

#[test]
fn scan_file_numbers_lines_from_one_and_trims_the_content() {
    let got = scan_file("f", "  foo  \nbar\n\tfoo bar\r\nbaz foo", "foo", 10);
    assert_eq!(got, vec![hit("f", 1, "foo"), hit("f", 3, "foo bar"), hit("f", 4, "baz foo")]);
}

#[test]
fn scan_file_stops_when_the_room_is_full() {
    let got = scan_file("f", "x1\nx2\nx3\nx4\n", "x", 2);
    assert_eq!(got, vec![hit("f", 1, "x1"), hit("f", 2, "x2")]);
}

#[test]
fn scan_file_matches_literally_and_by_case() {
    assert!(scan_file("f", "abc\n", "a.c", 10).is_empty());
    assert!(scan_file("f", "abc\n", "ABC", 10).is_empty());
    assert_eq!(scan_file("f", "a.c\n", "a.c", 10), vec![hit("f", 1, "a.c")]);
}

#[test]
fn scan_tells_unreadable_from_unmatched() {
    assert_eq!(scan("f", &None, "x", 10), FileScan::Unreadable);
    assert_eq!(scan("f", &Some(String::from("abc")), "x", 10), FileScan::NotMatched);
    assert_eq!(scan("f", &Some(String::from("x")), "x", 0), FileScan::NotMatched);
    assert_eq!(
        scan("f", &Some(String::from("a\nx y\n")), "x", 10),
        FileScan::Matched(vec![hit("f", 2, "x y")])
    );
}

#[test]
fn search_goes_through_the_files_in_order_and_truncates_mid_file() {
    let files = vec![
        source("a.txt", Some("x1\nno\nx2\n")),
        source("b.bin", None),
        source("c.txt", Some("x3\nx4\nx5\n")),
        source("d.txt", Some("x6\n")),
    ];
    let all = search(&files, "x", None, &config(100));
    assert_eq!(
        all,
        vec![
            hit("a.txt", 1, "x1"),
            hit("a.txt", 3, "x2"),
            hit("c.txt", 1, "x3"),
            hit("c.txt", 2, "x4"),
            hit("c.txt", 3, "x5"),
            hit("d.txt", 1, "x6"),
        ]
    );
    for limit in 0..8 {
        let got = search(&files, "x", None, &config(limit));
        assert_eq!(got, all[..limit.min(all.len())].to_vec());
    }
}

#[test]
fn search_applies_exclusion_and_policy_before_reading() {
    let files = vec![
        source("keep/a.txt", Some("x\n")),
        source("skip/b.txt", Some("x\n")),
        source(".hid/c.txt", Some("x\n")),
        SourceFile { entry: dir("d.txt"), content: Some(String::from("x\n")) },
    ];
    let mut cfg = config(10);
    cfg.include_hidden = false;
    cfg.exclude_substrings = vec![String::from("skip")];
    assert_eq!(search(&files, "x", None, &cfg), vec![hit("keep/a.txt", 1, "x")]);
    assert!(wants_content(&files[0].entry, &[], &cfg, 9));
    assert!(!wants_content(&files[0].entry, &[], &cfg, 10));
    assert!(!wants_content(&files[1].entry, &[], &cfg, 0));
    assert!(!wants_content(&files[2].entry, &[], &cfg, 0));
    assert!(!wants_content(&files[3].entry, &[], &cfg, 0));
}

#[test]
fn extension_filter_is_a_trimmed_comma_list() {
    assert_eq!(parse_extensions(Some("rs, x ,md")), vec!["rs", "x", "md"]);
    assert!(parse_extensions(None).is_empty());
    let files = vec![
        source("a.rs", Some("x\n")),
        source("b.md", Some("x\n")),
        source("c.txt", Some("x\n")),
        source("noext", Some("x\n")),
    ];
    let got = search(&files, "x", Some("rs, md"), &config(10));
    assert_eq!(got, vec![hit("a.rs", 1, "x"), hit("b.md", 1, "x")]);
}

#[test]
fn try_find_gives_what_find_gives_on_ordinary_paths() {
    let walk = tree();
    let cfg = config(2);
    assert_eq!(try_find(&walk, "**/*.rs", &cfg), Some(find(&walk, "**/*.rs", &cfg)));
    assert_eq!(try_find(&Vec::new(), "*", &cfg), Some(Vec::new()));
}

#[test]
fn an_entry_is_wanted_while_there_is_room_and_it_is_selected() {
    let cfg = config(2);
    assert!(wants_entry(&file("a.rs", 1), Some("*.rs"), &cfg, 0));
    assert!(wants_entry(&file("a.rs", 1), Some("*.rs"), &cfg, 1));
    assert!(!wants_entry(&file("a.rs", 1), Some("*.rs"), &cfg, 2));
    assert!(!wants_entry(&file("a.rs", 1), Some("*.rs"), &cfg, 3));
    assert!(!wants_entry(&file("a.rs", 1), Some("*.txt"), &cfg, 0));
    assert!(!wants_entry(&dir("a.rs"), None, &cfg, 0));
    assert!(wants_entry(&file("a.rs", 1), None, &cfg, 1));
    assert!(!wants_entry(&file("a.rs", 1), None, &config(0), 0));
}

#[test]
fn room_is_what_the_limit_leaves() {
    let cfg = config(3);
    assert!(has_room(&cfg, 0));
    assert!(has_room(&cfg, 2));
    assert!(!has_room(&cfg, 3));
    assert!(!has_room(&cfg, 4));
    assert_eq!(room_left(&cfg, 0), 3);
    assert_eq!(room_left(&cfg, 2), 1);
    assert_eq!(room_left(&cfg, 3), 0);
    assert_eq!(room_left(&cfg, 9), 0);
    assert!(!has_room(&config(0), 0));
}

#[test]
fn stepping_with_wants_entry_gives_what_find_gives() {
    let walk = tree();
    for limit in 0..8 {
        let cfg = config(limit);
        let mut stepped = Vec::new();
        for entry in &walk {
            if !has_room(&cfg, stepped.len()) {
                break;
            }
            if wants_entry(entry, Some("**/*.rs"), &cfg, stepped.len()) {
                stepped.push(to_record(entry));
            }
        }
        assert_eq!(stepped, find(&walk, "**/*.rs", &cfg));
    }
}

#[test]
fn an_unreadable_file_changes_nothing() {
    let with = vec![
        source("a.txt", Some("x\n")),
        source("b.bin", None),
        source("c.txt", Some("x\n")),
    ];
    let without = vec![source("a.txt", Some("x\n")), source("c.txt", Some("x\n"))];
    let cfg = config(10);
    assert_eq!(search(&with, "x", None, &cfg), search(&without, "x", None, &cfg));
    assert!(search(&vec![source("b.bin", None)], "x", None, &cfg).is_empty());
}
