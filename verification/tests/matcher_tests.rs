use scout::matcher::{extension_in, extension_of, fits, is_hidden, last_position, path_matches, same_text};

fn cs(s: &str) -> Vec<char> {
    s.chars().collect()
}

#[test]
fn star_stays_within_a_segment() {
    assert!(path_matches("*.rs", "main.rs"));
    assert!(!path_matches("*.rs", "dir/main.rs"));
}

#[test]
fn double_star_spans_segments() {
    assert!(path_matches("**/*.rs", "main.rs"));
    assert!(path_matches("**/*.rs", "dir/main.rs"));
    assert!(path_matches("**/*.rs", "a/b/c/main.rs"));
    assert!(!path_matches("**/*.rs", "a/b/c/main.txt"));
}

#[test]
fn double_star_alone_accepts_every_path() {
    for path in ["", "a", "a/b.txt", "a/.hidden.txt", "x/y/z", "with space/ü.rs"] {
        assert!(path_matches("**", path));
    }
}

#[test]
fn question_mark_is_one_character() {
    assert!(path_matches("a?c", "abc"));
    assert!(!path_matches("a?c", "ac"));
    assert!(!path_matches("a?c", "a/c"));
}

#[test]
fn matching_is_anchored_at_both_ends() {
    assert!(path_matches("src/main.rs", "src/main.rs"));
    assert!(!path_matches("main.rs", "src/main.rs"));
    assert!(!path_matches("src", "src/main.rs"));
    assert!(!path_matches("main", "main.rs"));
}

#[test]
fn ordinary_paths_fit_the_matcher() {
    assert!(fits(""));
    assert!(fits("src/main.rs"));
}

#[test]
fn hidden_is_a_segment_that_begins_with_a_dot() {
    assert!(is_hidden(".git"));
    assert!(is_hidden("a/.hidden.txt"));
    assert!(is_hidden(".config/app/settings"));
    assert!(!is_hidden("a/b.txt"));
    assert!(!is_hidden("a.b/c.d"));
    assert!(!is_hidden(""));
}

#[test]
fn extension_follows_the_last_dot_of_the_file_name() {
    assert_eq!(extension_of("src/main.x"), Some(cs("x")));
    assert_eq!(extension_of("a/b.tar.gz"), Some(cs("gz")));
    assert_eq!(extension_of("a.d/noext"), None);
    assert_eq!(extension_of("a/.hidden"), None);
    assert_eq!(extension_of("a/.hidden.txt"), Some(cs("txt")));
    assert_eq!(extension_of("a/trailing."), Some(cs("")));
    assert_eq!(extension_of(".."), None);
    assert_eq!(extension_of("a/.."), None);
    assert_eq!(extension_of(""), None);
}

#[test]
fn extension_agrees_with_the_standard_library() {
    for path in ["main.rs", "a/b.c.d", "a/.x", "a/.x.y", "noext", "dir.d/file", "x.", "a/b/.."] {
        let want = std::path::Path::new(path)
            .extension()
            .and_then(|e| e.to_str())
            .map(|e| e.chars().collect::<Vec<char>>());
        assert_eq!(extension_of(path), want);
    }
}

#[test]
fn extension_filter_compares_letter_for_letter() {
    let exts = vec![String::from("rs"), String::from("x")];
    assert!(extension_in("src/main.x", &exts));
    assert!(extension_in("lib.rs", &exts));
    assert!(!extension_in("lib.RS", &exts));
    assert!(!extension_in("lib.txt", &exts));
    assert!(!extension_in("rs", &exts));
    assert!(!extension_in("lib.rs", &[]));
}

#[test]
fn last_position_finds_the_last_occurrence() {
    assert_eq!(last_position(&cs("a/b/c"), 0, '/'), Some(3));
    assert_eq!(last_position(&cs("a/b/c"), 2, '/'), Some(3));
    assert_eq!(last_position(&cs("a/b/c"), 4, '/'), None);
    assert_eq!(last_position(&cs("abc"), 0, '/'), None);
}

#[test]
fn same_text_compares_every_character() {
    assert!(same_text(&cs("abc"), &cs("abc")));
    assert!(same_text(&cs(""), &cs("")));
    assert!(!same_text(&cs("abc"), &cs("abd")));
    assert!(!same_text(&cs("abc"), &cs("ab")));
}
