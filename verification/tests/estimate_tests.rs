use scout::estimate::{count_extensions, count_files, estimate, rank, sum_sizes, take_sample, ExtCount};
use scout::types::Entry;

fn file(path: &str, size: u64) -> Entry {
    Entry { path: String::from(path), is_file: true, ignored: false, size: Some(size) }
}

fn dir(path: &str) -> Entry {
    Entry { path: String::from(path), is_file: false, ignored: false, size: Some(4096) }
}

fn ext(name: &str, count: usize) -> ExtCount {
    ExtCount { ext: String::from(name), count }
}

#[test]
fn a_tenth_of_a_hundred_files_is_extrapolated_tenfold() {
    let mut walk = Vec::new();
    for i in 0..100 {
        let size = if i < 10 { 100 } else { 7_000_000 };
        walk.push(file(&format!("dir/file{}.dat", i), size));
    }
    let got = estimate(&walk, 10);
    assert_eq!(got.file_count, 100);
    assert_eq!(got.sampled, 10);
    assert_eq!(got.sampled_size, 1000);
    assert_eq!(got.estimated_total_size, 10000);
    assert_eq!(got.top_extensions, vec![ext("dat", 10)]);
}

#[test]
fn the_estimate_is_rounded_down() {
    let walk = vec![file("a", 1), file("b", 1), file("c", 3), file("d", 1000), file("e", 1000)];
    let got = estimate(&walk, 3);
    assert_eq!(got.sampled_size, 5);
    assert_eq!(got.estimated_total_size, 8);
}

#[test]
fn an_empty_sample_estimates_nothing() {
    let walk = vec![file("a", 10), file("b", 20)];
    let got = estimate(&walk, 0);
    assert_eq!(got.file_count, 2);
    assert_eq!(got.sampled, 0);
    assert_eq!(got.sampled_size, 0);
    assert_eq!(got.estimated_total_size, 0);
    assert!(got.top_extensions.is_empty());
    let none = estimate(&Vec::new(), 10);
    assert_eq!(none.file_count, 0);
    assert_eq!(none.estimated_total_size, 0);
}

#[test]
fn a_sample_larger_than_the_tree_is_exact() {
    let walk = vec![dir("d"), file("d/a.rs", 10), file("d/b.rs", 20), file("c", 5)];
    let got = estimate(&walk, 1000);
    assert_eq!(got.file_count, 3);
    assert_eq!(got.sampled, 3);
    assert_eq!(got.sampled_size, 35);
    assert_eq!(got.estimated_total_size, 35);
}

#[test]
fn the_largest_sizes_do_not_overflow() {
    let walk = vec![file("a", u64::MAX), file("b", u64::MAX), file("c", 0)];
    let got = estimate(&walk, 2);
    assert_eq!(got.sampled_size, 2 * (u64::MAX as u128));
    assert_eq!(got.estimated_total_size, 3 * (u64::MAX as u128));
}

#[test]
fn directories_and_unreadable_sizes() {
    let unreadable = Entry { path: String::from("x.rs"), is_file: true, ignored: true, size: None };
    let walk = vec![dir("a.rs"), unreadable, file(".hidden.rs", 4)];
    assert_eq!(count_files(&walk), 2);
    let sample = take_sample(&walk, 5);
    assert_eq!(sample.len(), 2);
    assert_eq!(sample[0].path, "x.rs");
    assert_eq!(sum_sizes(&sample), 4);
    let got = estimate(&walk, 5);
    assert_eq!(got.file_count, 2);
    assert_eq!(got.top_extensions, vec![ext("rs", 2)]);
}

#[test]
fn the_sample_is_the_first_files_of_the_walk() {
    let walk = vec![file("a", 1), dir("d"), file("b", 2), file("c", 3)];
    let sample = take_sample(&walk, 2);
    assert_eq!(sample, vec![file("a", 1), file("b", 2)]);
}

#[test]
fn extensions_are_counted_in_first_seen_order() {
    let walk = vec![
        file("a.rs", 1),
        file("b.md", 1),
        file("c.rs", 1),
        file("noext", 1),
        file(".hidden", 1),
        file("d.RS", 1),
        file("e.md", 1),
        file("f.rs", 1),
    ];
    assert_eq!(count_extensions(&walk), vec![ext("rs", 3), ext("md", 2), ext("RS", 1)]);
}

#[test]
fn ranking_is_by_falling_count_and_keeps_ties_in_order() {
    let counts = vec![ext("a", 1), ext("b", 3), ext("c", 1), ext("d", 3), ext("e", 2)];
    assert_eq!(rank(&counts), vec![ext("b", 3), ext("d", 3), ext("e", 2), ext("a", 1), ext("c", 1)]);
    assert!(rank(&Vec::new()).is_empty());
}

#[test]
fn only_the_five_most_frequent_extensions_are_reported() {
    let mut walk = Vec::new();
    for (name, n) in [("a", 1), ("b", 4), ("c", 2), ("d", 4), ("e", 1), ("f", 3), ("g", 5)] {
        for i in 0..n {
            walk.push(file(&format!("f{}.{}", i, name), 1));
        }
    }
    let got = estimate(&walk, 1000);
    assert_eq!(
        got.top_extensions,
        vec![ext("g", 5), ext("b", 4), ext("d", 4), ext("f", 3), ext("c", 2)]
    );
}

#[test]
fn one_walk_gives_one_estimate() {
    let walk = vec![file("a.x", 3), file("b.y", 4), file("c.x", 5)];
    assert_eq!(estimate(&walk, 2), estimate(&walk, 2));
}
