//! Exclusion of paths by literal substrings, and the policy on hidden and
//! ignored entries.

use vstd::prelude::*;
use crate::text::{chars_of, contains, is_substring, rows, split, split_on, text_of, trim, trimmed};
use crate::matcher::{hidden_path, is_hidden};
use crate::types::{texts, ConfigView, Entry, EntryView, TraversalConfig};

verus! {

/// The items of a comma-separated list, each without the whitespace at its
/// ends. The empty text lists one empty item.
pub open spec fn comma_list(s: Seq<char>) -> Seq<Seq<char>> {
    Seq::new(split_on(s, ',').len(), |i: int| trimmed(split_on(s, ',')[i]))
}

/// The items of a comma-separated list.
pub fn parse_comma_list(s: &str) -> (r: Vec<String>)
    ensures
        texts(r@) == comma_list(s@),
{
    let chars = chars_of(s);
    let pieces = split(&chars, ',');
    let ghost want = split_on(s@, ',');
    let mut out: Vec<String> = Vec::new();
    let mut i: usize = 0;
    while i < pieces.len()
        invariant
            i <= pieces.len(),
            rows(pieces@) == want,
            texts(out@) == Seq::new(i as nat, |k: int| trimmed(want[k])),
        decreases pieces.len() - i,
    {
        proof {
            assert(rows(pieces@)[i as int] == pieces@[i as int]@);
        }
        let item = trim(&pieces[i]);
        let ghost before = texts(out@);
        out.push(text_of(&item));
        proof {
            assert(texts(out@) =~= before.push(trimmed(want[i as int])));
            assert(texts(out@) =~= Seq::new((i + 1) as nat, |k: int| trimmed(want[k])));
        }
        i += 1;
    }
    proof {
        assert(texts(out@) =~= comma_list(s@));
    }
    out
}

/// The exclusion substrings that an optional comma-separated list names:
/// none where the list is absent.
pub open spec fn exclude_patterns(exclude: Option<String>) -> Seq<Seq<char>> {
    match exclude {
        Some(s) => comma_list(s@),
        None => Seq::empty(),
    }
}

/// The exclusion substrings that an optional comma-separated list names.
pub fn build_exclude_patterns(exclude: &Option<String>) -> (r: Vec<String>)
    ensures
        texts(r@) == exclude_patterns(*exclude),
{
    match exclude {
        Some(s) => parse_comma_list(s.as_str()),
        None => {
            let out: Vec<String> = Vec::new();
            proof {
                assert(texts(out@) =~= Seq::<Seq<char>>::empty());
            }
            out
        },
    }
}

/// The path holds one of the exclusion substrings as a literal substring.
pub open spec fn excluded(path: Seq<char>, excludes: Seq<Seq<char>>) -> bool {
    exists|k: int| 0 <= k < excludes.len() && is_substring(path, #[trigger] excludes[k])
}

/// Whether the path holds one of the exclusion substrings.
pub fn should_exclude(path: &str, excludes: &[String]) -> (r: bool)
    ensures
        r == excluded(path@, texts(excludes@)),
{
    let hay = chars_of(path);
    let mut k: usize = 0;
    while k < excludes.len()
        invariant
            k <= excludes.len(),
            hay@ == path@,
            forall|j: int| 0 <= j < k ==> !is_substring(path@, #[trigger] texts(excludes@)[j]),
        decreases excludes.len() - k,
    {
        let needle = chars_of(excludes[k].as_str());
        proof {
            assert(texts(excludes@)[k as int] == needle@);
        }
        if contains(&hay, &needle) {
            return true;
        }
        k += 1;
    }
    false
}

/// The entry passes the policy of the configuration: it is a regular file,
/// it is not hidden unless hidden files are included, the ignore rules do not
/// match it unless they are switched off, and no exclusion substring stands
/// in its path.
pub open spec fn admits(entry: EntryView, config: ConfigView) -> bool {
    &&& entry.is_file
    &&& (config.include_hidden || !hidden_path(entry.path))
    &&& !(config.respect_ignore_rules && entry.ignored)
    &&& !excluded(entry.path, config.exclude_substrings)
}

/// Whether the entry passes the policy of the configuration.
pub fn is_admitted(entry: &Entry, config: &TraversalConfig) -> (r: bool)
    ensures
        r == admits(entry@, config@),
{
    if !entry.is_file {
        return false;
    }
    if config.respect_ignore_rules && entry.ignored {
        return false;
    }
    if !config.include_hidden && is_hidden(entry.path.as_str()) {
        return false;
    }
    !should_exclude(entry.path.as_str(), config.exclude_substrings.as_slice())
}

} // verus!
