//! The operations of the engine: `find`, `list` and `search` over the entries
//! that a walk produced, each capped by the result limit.

use vstd::prelude::*;
use crate::filter::{admits, comma_list, is_admitted, parse_comma_list};
use crate::matcher::{
    extension_in, fits, fits_matcher, has_extension, match_all, matches_pattern, path_matches,
};
use crate::text::{chars_of, contains, is_substring, lines, lines_of, rows, text_of, trim, trimmed};
use crate::types::{
    capped, entries, hits, records, texts, ConfigView, Entry, EntryView, FileInfo, FileRecord,
    SearchHit, SearchResult, TraversalConfig,
};

verus! {

/// The hits among the given lines of one file: one for each line that holds
/// the query as a literal substring, in the order of the lines, each with its
/// number counted from 1 and its text without the whitespace at its ends.
pub open spec fn line_hits(path: Seq<char>, lines: Seq<Seq<char>>, query: Seq<char>) -> Seq<
    SearchHit,
>
    decreases lines.len(),
{
    if lines.len() == 0 {
        Seq::empty()
    } else {
        let before = line_hits(path, lines.drop_last(), query);
        if is_substring(lines.last(), query) {
            before.push(
                SearchHit { path: path, line: lines.len(), content: trimmed(lines.last()) },
            )
        } else {
            before
        }
    }
}

/// The hits in the content of one file.
pub open spec fn file_hits(path: Seq<char>, content: Seq<char>, query: Seq<char>) -> Seq<
    SearchHit,
> {
    line_hits(path, lines_of(content), query)
}

/// The hits among the first lines of a file are the first hits of the file.
pub proof fn lemma_line_hits_prefix(
    path: Seq<char>,
    lines: Seq<Seq<char>>,
    query: Seq<char>,
    i: int,
)
    requires
        0 <= i <= lines.len(),
    ensures
        line_hits(path, lines.take(i), query).len() <= line_hits(path, lines, query).len(),
        line_hits(path, lines.take(i), query) == line_hits(path, lines, query).take(
            line_hits(path, lines.take(i), query).len() as int,
        ),
    decreases lines.len(),
{
    let all = line_hits(path, lines, query);
    if i == lines.len() {
        assert(lines.take(i) =~= lines);
        assert(all.take(all.len() as int) =~= all);
    } else {
        let shorter = lines.drop_last();
        lemma_line_hits_prefix(path, shorter, query, i);
        assert(shorter.take(i) =~= lines.take(i));
        let part = line_hits(path, lines.take(i), query);
        let before = line_hits(path, shorter, query);
        assert(part == before.take(part.len() as int));
        if is_substring(lines.last(), query) {
            assert(before.take(part.len() as int) =~= all.take(part.len() as int));
        }
    }
}

/// The hits of one file carry its path, and their line numbers rise: each
/// lies between 1 and the number of lines, and above that of the hit before.
pub proof fn lemma_line_hits_rise(path: Seq<char>, lines: Seq<Seq<char>>, query: Seq<char>)
    ensures
        forall|k: int|
            0 <= k < line_hits(path, lines, query).len() ==> {
                let hit = #[trigger] line_hits(path, lines, query)[k];
                hit.path == path && 1 <= hit.line <= lines.len()
            },
        forall|a: int, b: int|
            0 <= a < b < line_hits(path, lines, query).len() ==> (#[trigger] line_hits(
                path,
                lines,
                query,
            )[a]).line < (#[trigger] line_hits(path, lines, query)[b]).line,
    decreases lines.len(),
{
    if lines.len() > 0 {
        lemma_line_hits_rise(path, lines.drop_last(), query);
        let before = line_hits(path, lines.drop_last(), query);
        let all = line_hits(path, lines, query);
        assert forall|k: int| 0 <= k < all.len() implies {
            let hit = #[trigger] all[k];
            hit.path == path && 1 <= hit.line <= lines.len()
        } by {
            if k < before.len() {
                assert(all[k] == before[k]);
            }
        }
        assert forall|a: int, b: int| 0 <= a < b < all.len() implies (#[trigger] all[a]).line < (
        #[trigger] all[b]).line by {
            assert(all[a] == before[a]);
            if b < before.len() {
                assert(all[b] == before[b]);
            }
        }
    }
}

/// The hits of one file's content, as far as there is room for them.
///
/// The scan stops at the line that fills the room; the lines that follow it
/// are not searched.
pub fn scan_file(path: &str, content: &str, query: &str, room: usize) -> (r: Vec<SearchResult>)
    ensures
        hits(r@) == capped(file_hits(path@, content@, query@), room as nat),
{
    let text = chars_of(content);
    let ls = lines(&text);
    let q = chars_of(query);
    let ghost all = rows(ls@);
    let mut out: Vec<SearchResult> = Vec::new();
    let mut i: usize = 0;
    proof {
        assert(all.take(0) =~= Seq::<Seq<char>>::empty());
        assert(hits(out@) =~= Seq::<SearchHit>::empty());
    }
    while i < ls.len() && out.len() < room
        invariant
            i <= ls.len(),
            out.len() <= room,
            all == rows(ls@),
            all == lines_of(content@),
            q@ == query@,
            hits(out@) == line_hits(path@, all.take(i as int), query@),
        decreases ls.len() - i,
    {
        let line = &ls[i];
        proof {
            let next = all.take(i + 1);
            assert(next.drop_last() =~= all.take(i as int));
            assert(next.last() == line@);
        }
        if contains(line, &q) {
            let shown = trim(line);
            let ghost before = hits(out@);
            let hit = SearchResult {
                path: path.to_owned(),
                line: i + 1,
                content: text_of(&shown),
            };
            out.push(hit);
            proof {
                assert(hits(out@) =~= before.push(hit@));
            }
        }
        i += 1;
    }
    proof {
        lemma_line_hits_prefix(path@, all, query@, i as int);
        if i == ls.len() {
            assert(all.take(i as int) =~= all);
        }
    }
    out
}

/// One entry of the walk together with its content, as a value of the model.
pub struct SourceView {
    pub entry: EntryView,
    pub content: Option<Seq<char>>,
}

/// One entry of the walk together with its content as text, or `None` where
/// the content could not be read or is no text.
#[derive(Debug, Clone, PartialEq, Eq)]
pub struct SourceFile {
    pub entry: Entry,
    pub content: Option<String>,
}

impl View for SourceFile {
    type V = SourceView;

    open spec fn view(&self) -> SourceView {
        SourceView {
            entry: self.entry@,
            content: match self.content {
                Some(c) => Some(c@),
                None => None,
            },
        }
    }
}

/// The sources that a sequence of files holds.
pub open spec fn sources(v: Seq<SourceFile>) -> Seq<SourceView> {
    Seq::new(v.len(), |i: int| v[i]@)
}

/// What the scan of one file came to.
#[derive(Debug, Clone, PartialEq, Eq)]
pub enum FileScan {
    /// The content was read and these lines matched; there is at least one.
    Matched(Vec<SearchResult>),
    /// The content was read and no line matched, or there was no room.
    NotMatched,
    /// The content could not be read.
    Unreadable,
}

/// The extensions that an optional comma-separated filter names: none where
/// the filter is absent, and then every extension passes.
pub open spec fn extension_list(ext_filter: Option<&str>) -> Seq<Seq<char>> {
    match ext_filter {
        Some(s) => comma_list(s@),
        None => Seq::empty(),
    }
}

/// The extensions that an optional comma-separated filter names.
pub fn parse_extensions(ext_filter: Option<&str>) -> (r: Vec<String>)
    ensures
        texts(r@) == extension_list(ext_filter),
{
    match ext_filter {
        Some(s) => parse_comma_list(s),
        None => {
            let out: Vec<String> = Vec::new();
            proof {
                assert(texts(out@) =~= Seq::<Seq<char>>::empty());
            }
            out
        },
    }
}

/// The content of the entry is to be searched: the entry passes the policy,
/// and its extension is one of those asked for, where any are.
pub open spec fn searchable(entry: EntryView, exts: Seq<Seq<char>>, config: ConfigView) -> bool {
    &&& admits(entry, config)
    &&& (exts.len() == 0 || has_extension(entry.path, exts))
}

/// Whether the content of the entry must be read: there is room for a hit
/// after the `found` hits so far, and the entry is to be searched.
pub fn wants_content(entry: &Entry, exts: &[String], config: &TraversalConfig, found: usize) -> (r:
    bool)
    ensures
        r == (found < config.result_limit && searchable(entry@, texts(exts@), config@)),
{
    if found >= config.result_limit {
        return false;
    }
    if !is_admitted(entry, config) {
        return false;
    }
    exts.len() == 0 || extension_in(entry.path.as_str(), exts)
}

/// The hits of one source, as far as there is room: an unreadable source is
/// told apart from one in which nothing matched.
pub fn scan(path: &str, content: &Option<String>, query: &str, room: usize) -> (r: FileScan)
    ensures
        match r {
            FileScan::Unreadable => *content is None,
            FileScan::NotMatched => match *content {
                Some(c) => capped(file_hits(path@, c@, query@), room as nat).len() == 0,
                None => false,
            },
            FileScan::Matched(found) => match *content {
                Some(c) => found.len() > 0 && hits(found@) == capped(
                    file_hits(path@, c@, query@),
                    room as nat,
                ),
                None => false,
            },
        },
{
    match content {
        None => FileScan::Unreadable,
        Some(c) => {
            let found = scan_file(path, c.as_str(), query, room);
            if found.len() == 0 {
                FileScan::NotMatched
            } else {
                FileScan::Matched(found)
            }
        },
    }
}

/// The hits that one source contributes: those of its content where the
/// entry is to be searched and the content could be read, else none.
pub open spec fn source_hits(
    source: SourceView,
    query: Seq<char>,
    exts: Seq<Seq<char>>,
    config: ConfigView,
) -> Seq<SearchHit> {
    match source.content {
        Some(c) => if searchable(source.entry, exts, config) {
            file_hits(source.entry.path, c, query)
        } else {
            Seq::empty()
        },
        None => Seq::empty(),
    }
}

/// All the hits of a run, without regard to the limit: those of each source
/// in the order of the walk, and within one source in the order of its lines.
pub open spec fn all_hits(
    files: Seq<SourceView>,
    query: Seq<char>,
    exts: Seq<Seq<char>>,
    config: ConfigView,
) -> Seq<SearchHit>
    decreases files.len(),
{
    if files.len() == 0 {
        Seq::empty()
    } else {
        all_hits(files.drop_last(), query, exts, config) + source_hits(
            files.last(),
            query,
            exts,
            config,
        )
    }
}

/// The hits of a run.
pub open spec fn search_result(
    files: Seq<SourceView>,
    query: Seq<char>,
    exts: Seq<Seq<char>>,
    config: ConfigView,
) -> Seq<SearchHit> {
    capped(all_hits(files, query, exts, config), config.result_limit)
}

/// Capping a sequence that was put together from two: the first part is
/// capped, and the second gets the room that is left.
pub proof fn lemma_capped_concat<T>(a: Seq<T>, b: Seq<T>, limit: nat)
    ensures
        a.len() >= limit ==> capped(a + b, limit) == capped(a, limit),
        a.len() <= limit ==> capped(a + b, limit) == a + capped(b, (limit - a.len()) as nat),
{
    if a.len() >= limit {
        assert(capped(a + b, limit) =~= capped(a, limit));
    } else {
        assert(capped(a + b, limit) =~= a + capped(b, (limit - a.len()) as nat));
    }
}

/// The hits among the first sources of a walk are the first hits of the walk.
pub proof fn lemma_all_hits_prefix(
    files: Seq<SourceView>,
    query: Seq<char>,
    exts: Seq<Seq<char>>,
    config: ConfigView,
    i: int,
)
    requires
        0 <= i <= files.len(),
    ensures
        all_hits(files.take(i), query, exts, config).len() <= all_hits(
            files,
            query,
            exts,
            config,
        ).len(),
        all_hits(files.take(i), query, exts, config) == all_hits(files, query, exts, config).take(
            all_hits(files.take(i), query, exts, config).len() as int,
        ),
    decreases files.len(),
{
    let all = all_hits(files, query, exts, config);
    if i == files.len() {
        assert(files.take(i) =~= files);
        assert(all.take(all.len() as int) =~= all);
    } else {
        let shorter = files.drop_last();
        lemma_all_hits_prefix(shorter, query, exts, config, i);
        assert(shorter.take(i) =~= files.take(i));
        let part = all_hits(files.take(i), query, exts, config);
        let before = all_hits(shorter, query, exts, config);
        assert(before.take(part.len() as int) =~= all.take(part.len() as int));
    }
}

/// A file whose content could not be read gives no hits, wherever it stands
/// in the walk: the hits are those of the walk without it.
pub proof fn lemma_unreadable_file_gives_nothing(
    files: Seq<SourceView>,
    unreadable: SourceView,
    query: Seq<char>,
    exts: Seq<Seq<char>>,
    config: ConfigView,
)
    requires
        unreadable.content is None,
    ensures
        source_hits(unreadable, query, exts, config).len() == 0,
        all_hits(files.push(unreadable), query, exts, config) == all_hits(
            files,
            query,
            exts,
            config,
        ),
{
    assert(files.push(unreadable).drop_last() =~= files);
    assert(all_hits(files.push(unreadable), query, exts, config) =~= all_hits(
        files,
        query,
        exts,
        config,
    ));
}

/// Searches the contents of the walked files for the query.
///
/// Gives, in the order of the walk and within a file in the order of its
/// lines, the lines that hold the query as a literal substring, of the files
/// that pass the policy and the extension filter; a file whose content could
/// not be read gives none. The run stops at the hit that reaches the limit.
pub fn search(
    files: &Vec<SourceFile>,
    query: &str,
    ext_filter: Option<&str>,
    config: &TraversalConfig,
) -> (r: Vec<SearchResult>)
    ensures
        hits(r@) == search_result(sources(files@), query@, extension_list(ext_filter), config@),
        r.len() <= config.result_limit,
{
    let exts = parse_extensions(ext_filter);
    let limit: usize = config.result_limit;
    let ghost all = sources(files@);
    let ghost ex = texts(exts@);
    let mut out: Vec<SearchResult> = Vec::new();
    let mut i: usize = 0;
    proof {
        assert(all.take(0) =~= Seq::<SourceView>::empty());
        assert(hits(out@) =~= Seq::<SearchHit>::empty());
    }
    while i < files.len() && out.len() < limit
        invariant
            i <= files.len(),
            out.len() <= limit,
            limit == config.result_limit,
            all == sources(files@),
            ex == texts(exts@),
            hits(out@) == capped(
                all_hits(all.take(i as int), query@, ex, config@),
                limit as nat,
            ),
        decreases files.len() - i,
    {
        let file = &files[i];
        proof {
            let next = all.take(i + 1);
            assert(next.drop_last() =~= all.take(i as int));
            assert(next.last() == file@);
            lemma_capped_concat(
                all_hits(all.take(i as int), query@, ex, config@),
                source_hits(file@, query@, ex, config@),
                limit as nat,
            );
        }
        if wants_content(&file.entry, exts.as_slice(), config, out.len()) {
            match scan(file.entry.path.as_str(), &file.content, query, limit - out.len()) {
                FileScan::Matched(mut found) => {
                    let ghost before = hits(out@);
                    let ghost more = hits(found@);
                    out.append(&mut found);
                    proof {
                        assert(hits(out@) =~= before + more);
                    }
                },
                FileScan::NotMatched => {},
                FileScan::Unreadable => {},
            }
        }
        i += 1;
    }
    proof {
        lemma_all_hits_prefix(all, query@, ex, config@, i as int);
        let part = all_hits(all.take(i as int), query@, ex, config@);
        let whole = all_hits(all, query@, ex, config@);
        if i == files.len() {
            assert(all.take(i as int) =~= all);
        } else {
            assert(part.take(limit as int) =~= whole.take(limit as int));
        }
    }
    out
}

/// The record of an entry: its path, and its size, which is 0 where the
/// metadata could not be read.
pub open spec fn record_of(entry: EntryView) -> FileRecord {
    FileRecord {
        path: entry.path,
        size: match entry.size {
            Some(n) => n,
            None => 0,
        },
    }
}

/// The entry is selected: it passes the policy and, where a pattern is given,
/// its path matches the pattern.
pub open spec fn selects(entry: EntryView, pattern: Option<Seq<char>>, config: ConfigView) -> bool {
    &&& admits(entry, config)
    &&& match pattern {
        Some(p) => matches_pattern(p, entry.path),
        None => true,
    }
}

/// The records of all selected entries, in the order of the walk, without
/// regard to the limit.
pub open spec fn selected(
    walk: Seq<EntryView>,
    pattern: Option<Seq<char>>,
    config: ConfigView,
) -> Seq<FileRecord>
    decreases walk.len(),
{
    if walk.len() == 0 {
        Seq::empty()
    } else {
        let before = selected(walk.drop_last(), pattern, config);
        if selects(walk.last(), pattern, config) {
            before.push(record_of(walk.last()))
        } else {
            before
        }
    }
}

/// The records that `find` gives for a pattern.
pub open spec fn find_result(walk: Seq<EntryView>, pattern: Seq<char>, config: ConfigView) -> Seq<
    FileRecord,
> {
    capped(selected(walk, Some(pattern), config), config.result_limit)
}

/// The records that `list` gives.
pub open spec fn list_result(walk: Seq<EntryView>, config: ConfigView) -> Seq<FileRecord> {
    capped(selected(walk, None, config), config.result_limit)
}

/// The records selected among the first entries of a walk are the first
/// records selected in the walk.
pub proof fn lemma_selected_prefix(
    walk: Seq<EntryView>,
    pattern: Option<Seq<char>>,
    config: ConfigView,
    i: int,
)
    requires
        0 <= i <= walk.len(),
    ensures
        selected(walk.take(i), pattern, config).len() <= selected(walk, pattern, config).len(),
        selected(walk.take(i), pattern, config) == selected(walk, pattern, config).take(
            selected(walk.take(i), pattern, config).len() as int,
        ),
    decreases walk.len(),
{
    let all = selected(walk, pattern, config);
    if i == walk.len() {
        assert(walk.take(i) =~= walk);
        assert(all.take(all.len() as int) =~= all);
    } else {
        let shorter = walk.drop_last();
        lemma_selected_prefix(shorter, pattern, config, i);
        assert(shorter.take(i) =~= walk.take(i));
        let part = selected(walk.take(i), pattern, config);
        let before = selected(shorter, pattern, config);
        assert(before.take(part.len() as int) =~= all.take(part.len() as int));
    }
}

/// Every selected record is the record of a regular file of the walk that
/// passes the policy and matches the pattern.
pub proof fn lemma_selected_origin(
    walk: Seq<EntryView>,
    pattern: Option<Seq<char>>,
    config: ConfigView,
    k: int,
) -> (i: int)
    requires
        0 <= k < selected(walk, pattern, config).len(),
    ensures
        0 <= i < walk.len(),
        walk[i].is_file,
        selects(walk[i], pattern, config),
        selected(walk, pattern, config)[k] == record_of(walk[i]),
    decreases walk.len(),
{
    let before = selected(walk.drop_last(), pattern, config);
    if k < before.len() {
        lemma_selected_origin(walk.drop_last(), pattern, config, k)
    } else {
        walk.len() - 1
    }
}

/// The record is that of a regular file of the walk: never that of a
/// directory.
pub open spec fn is_file_of(walk: Seq<EntryView>, record: FileRecord) -> bool {
    exists|i: int| 0 <= i < walk.len() && (#[trigger] walk[i]).is_file && record == record_of(walk[i])
}

/// No path occurs twice among the entries.
pub open spec fn distinct_paths(walk: Seq<EntryView>) -> bool {
    forall|i: int, j: int|
        0 <= i < j < walk.len() ==> (#[trigger] walk[i]).path != (#[trigger] walk[j]).path
}

/// Where no path occurs twice in the walk, none occurs twice among the
/// selected records.
pub proof fn lemma_selected_paths_distinct(
    walk: Seq<EntryView>,
    pattern: Option<Seq<char>>,
    config: ConfigView,
)
    requires
        distinct_paths(walk),
    ensures
        forall|a: int, b: int|
            0 <= a < b < selected(walk, pattern, config).len() ==> (#[trigger] selected(
                walk,
                pattern,
                config,
            )[a]).path != (#[trigger] selected(walk, pattern, config)[b]).path,
    decreases walk.len(),
{
    if walk.len() > 0 {
        let shorter = walk.drop_last();
        assert(distinct_paths(shorter)) by {
            assert forall|i: int, j: int| 0 <= i < j < shorter.len() implies (
            #[trigger] shorter[i]).path != (#[trigger] shorter[j]).path by {
                assert(walk[i].path != walk[j].path);
            }
        }
        lemma_selected_paths_distinct(shorter, pattern, config);
        let before = selected(shorter, pattern, config);
        let all = selected(walk, pattern, config);
        assert forall|a: int, b: int| 0 <= a < b < all.len() implies (#[trigger] all[a]).path != (
        #[trigger] all[b]).path by {
            assert(all[a] == before[a]);
            if b < before.len() {
                assert(all[b] == before[b]);
            } else {
                let i = lemma_selected_origin(shorter, pattern, config, a);
                assert(shorter[i] == walk[i]);
                assert(walk[i].path != walk[walk.len() - 1].path);
            }
        }
    }
}

/// Whether the entry is selected.
pub fn is_selected(entry: &Entry, pattern: Option<&str>, config: &TraversalConfig) -> (r: bool)
    requires
        pattern is Some ==> fits_matcher(entry.path@),
    ensures
        r == selects(
            entry@,
            match pattern {
                Some(p) => Some(p@),
                None => None,
            },
            config@,
        ),
{
    if !is_admitted(entry, config) {
        return false;
    }
    match pattern {
        Some(p) => path_matches(p, entry.path.as_str()),
        None => true,
    }
}

/// Whether there is room for one more result after the `found` so far.
pub fn has_room(config: &TraversalConfig, found: usize) -> (r: bool)
    ensures
        r == (found < config.result_limit),
{
    found < config.result_limit
}

/// The number of results for which there is room after the `found` so far.
pub fn room_left(config: &TraversalConfig, found: usize) -> (r: usize)
    ensures
        r == if found < config.result_limit {
            config.result_limit - found
        } else {
            0
        },
{
    if found < config.result_limit {
        config.result_limit - found
    } else {
        0
    }
}

/// Whether the entry is the next result of a run that has `found` results so
/// far: there is room for it, and the entry is selected.
pub fn wants_entry(
    entry: &Entry,
    pattern: Option<&str>,
    config: &TraversalConfig,
    found: usize,
) -> (r: bool)
    requires
        pattern is Some ==> fits_matcher(entry.path@),
    ensures
        r == (found < config.result_limit && selects(
            entry@,
            match pattern {
                Some(p) => Some(p@),
                None => None,
            },
            config@,
        )),
{
    if found >= config.result_limit {
        return false;
    }
    is_selected(entry, pattern, config)
}

/// The record of an entry.
pub fn to_record(entry: &Entry) -> (r: FileInfo)
    ensures
        r@ == record_of(entry@),
{
    let size: u64 = match entry.size {
        Some(n) => n,
        None => 0,
    };
    FileInfo { path: entry.path.clone(), size: size }
}

/// The records of the selected entries of the walk, up to the limit.
fn collect(walk: &Vec<Entry>, pattern: Option<&str>, config: &TraversalConfig) -> (r: Vec<FileInfo>)
    requires
        pattern is Some ==> forall|i: int|
            0 <= i < walk.len() ==> fits_matcher(#[trigger] walk[i].path@),
    ensures
        records(r@) == capped(
            selected(
                entries(walk@),
                match pattern {
                    Some(p) => Some(p@),
                    None => None,
                },
                config@,
            ),
            config.result_limit as nat,
        ),
{
    let limit: usize = config.result_limit;
    let ghost all = entries(walk@);
    let ghost pat: Option<Seq<char>> = match pattern {
        Some(p) => Some(p@),
        None => None,
    };
    let mut out: Vec<FileInfo> = Vec::new();
    let mut i: usize = 0;
    proof {
        assert(all.take(0) =~= Seq::<EntryView>::empty());
        assert(records(out@) =~= Seq::<FileRecord>::empty());
    }
    while i < walk.len() && out.len() < limit
        invariant
            i <= walk.len(),
            out.len() <= limit,
            limit == config.result_limit,
            all == entries(walk@),
            pat == match pattern {
                Some(p) => Some(p@),
                None => None::<Seq<char>>,
            },
            pattern is Some ==> forall|j: int|
                0 <= j < walk.len() ==> fits_matcher(#[trigger] walk[j].path@),
            records(out@) == selected(all.take(i as int), pat, config@),
        decreases walk.len() - i,
    {
        let entry = &walk[i];
        proof {
            let next = all.take(i + 1);
            assert(next.drop_last() =~= all.take(i as int));
            assert(next.last() == entry@);
        }
        if is_selected(entry, pattern, config) {
            let ghost before = records(out@);
            let record = to_record(entry);
            out.push(record);
            proof {
                assert(records(out@) =~= before.push(record_of(entry@)));
            }
        }
        i += 1;
    }
    proof {
        lemma_selected_prefix(all, pat, config@, i as int);
        if i == walk.len() {
            assert(all.take(i as int) =~= all);
        }
    }
    out
}

/// Finds the files of the walk whose path matches the glob pattern.
///
/// Gives the records of the regular files that pass the policy and match, in
/// the order of the walk, and stops at the record that reaches the limit.
pub fn find(walk: &Vec<Entry>, pattern: &str, config: &TraversalConfig) -> (r: Vec<FileInfo>)
    requires
        forall|i: int| 0 <= i < walk.len() ==> fits_matcher(#[trigger] walk[i].path@),
    ensures
        records(r@) == find_result(entries(walk@), pattern@, config@),
        r.len() <= config.result_limit,
        forall|k: int| 0 <= k < r.len() ==> is_file_of(entries(walk@), #[trigger] r[k]@),
{
    let out = collect(walk, Some(pattern), config);
    proof {
        let all = selected(entries(walk@), Some(pattern@), config@);
        assert(records(out@).len() == out.len());
        assert forall|k: int| 0 <= k < out.len() implies is_file_of(
            entries(walk@),
            #[trigger] out[k]@,
        ) by {
            assert(records(out@)[k] == out[k]@);
            assert(capped(all, config.result_limit as nat)[k] == all[k]);
            let i = lemma_selected_origin(entries(walk@), Some(pattern@), config@, k);
        }
    }
    out
}

/// Every path of the walk is short enough for the matcher.
pub open spec fn all_fit(walk: Seq<EntryView>) -> bool {
    forall|i: int| 0 <= i < walk.len() ==> fits_matcher(#[trigger] walk[i].path)
}

/// Finds the files of the walk whose path matches the glob pattern, as
/// [`find`] does, after making sure that every path of the walk is short
/// enough for the matcher; gives `None` where one is not.
pub fn try_find(walk: &Vec<Entry>, pattern: &str, config: &TraversalConfig) -> (r: Option<
    Vec<FileInfo>,
>)
    ensures
        r is Some <==> all_fit(entries(walk@)),
        r matches Some(found) ==> records(found@) == find_result(
            entries(walk@),
            pattern@,
            config@,
        ),
{
    let mut i: usize = 0;
    while i < walk.len()
        invariant
            i <= walk.len(),
            forall|j: int| 0 <= j < i ==> fits_matcher(#[trigger] walk[j].path@),
        decreases walk.len() - i,
    {
        if !fits(walk[i].path.as_str()) {
            proof {
                assert(entries(walk@)[i as int].path == walk[i as int].path@);
            }
            return None;
        }
        i += 1;
    }
    proof {
        assert forall|j: int| 0 <= j < entries(walk@).len() implies fits_matcher(
            #[trigger] entries(walk@)[j].path,
        ) by {
            assert(fits_matcher(walk[j].path@));
        }
    }
    Some(find(walk, pattern, config))
}

/// Lists the files of the walk.
///
/// Gives the records of the regular files that pass the policy, in the order
/// of the walk, and stops at the record that reaches the limit.
pub fn list(walk: &Vec<Entry>, config: &TraversalConfig) -> (r: Vec<FileInfo>)
    ensures
        records(r@) == list_result(entries(walk@), config@),
        r.len() <= config.result_limit,
        forall|k: int| 0 <= k < r.len() ==> is_file_of(entries(walk@), #[trigger] r[k]@),
{
    let out = collect(walk, None, config);
    proof {
        let all = selected(entries(walk@), None, config@);
        assert(records(out@).len() == out.len());
        assert forall|k: int| 0 <= k < out.len() implies is_file_of(
            entries(walk@),
            #[trigger] out[k]@,
        ) by {
            assert(records(out@)[k] == out[k]@);
            assert(capped(all, config.result_limit as nat)[k] == all[k]);
            let i = lemma_selected_origin(entries(walk@), None, config@, k);
        }
    }
    out
}

/// Finding with the pattern that accepts every path is listing: on one walk
/// and one configuration the two give the same records in the same order,
/// and so the same set of paths.
pub proof fn lemma_find_everything_is_list(walk: Seq<EntryView>, config: ConfigView)
    ensures
        selected(walk, Some(match_all()), config) == selected(walk, None, config),
        find_result(walk, match_all(), config) == list_result(walk, config),
    decreases walk.len(),
{
    if walk.len() > 0 {
        lemma_find_everything_is_list(walk.drop_last(), config);
    }
}

/// The configuration with its exclusion substrings taken away.
pub open spec fn without_excludes(config: ConfigView) -> ConfigView {
    ConfigView { exclude_substrings: Seq::empty(), ..config }
}

/// Exclusion only removes: every record selected under a configuration is
/// selected under the same configuration without its exclusion substrings.
pub proof fn lemma_exclusion_only_removes(
    walk: Seq<EntryView>,
    pattern: Option<Seq<char>>,
    config: ConfigView,
    record: FileRecord,
)
    requires
        selected(walk, pattern, config).contains(record),
    ensures
        selected(walk, pattern, without_excludes(config)).contains(record),
    decreases walk.len(),
{
    let open = without_excludes(config);
    let here = selected(walk, pattern, config);
    let there = selected(walk, pattern, open);
    let k = choose|k: int| 0 <= k < here.len() && here[k] == record;
    let before = selected(walk.drop_last(), pattern, config);
    if k < before.len() {
        assert(before[k] == record);
        lemma_exclusion_only_removes(walk.drop_last(), pattern, config, record);
        let wide = selected(walk.drop_last(), pattern, open);
        let j = choose|j: int| 0 <= j < wide.len() && wide[j] == record;
        assert(there[j] == record);
    } else {
        assert(selects(walk.last(), pattern, open));
        assert(there.last() == record);
    }
}

/// Exclusion is a filter on the results of `find` and `list` (the latter with
/// no pattern): where the run without exclusion substrings is not cut short
/// by the limit, every record of the run with them is a record of the run
/// without them.
pub proof fn lemma_excluding_run_is_subset(
    walk: Seq<EntryView>,
    pattern: Option<Seq<char>>,
    config: ConfigView,
    record: FileRecord,
)
    requires
        selected(walk, pattern, without_excludes(config)).len() <= config.result_limit,
        capped(selected(walk, pattern, config), config.result_limit).contains(record),
    ensures
        capped(selected(walk, pattern, without_excludes(config)), config.result_limit).contains(
            record,
        ),
{
    let here = selected(walk, pattern, config);
    let cut = capped(here, config.result_limit);
    let k = choose|k: int| 0 <= k < cut.len() && cut[k] == record;
    assert(here[k] == record);
    lemma_exclusion_only_removes(walk, pattern, config, record);
}

/// Exclusion only removes hits: every hit found under a configuration is
/// found under the same configuration without its exclusion substrings.
pub proof fn lemma_exclusion_only_removes_hits(
    files: Seq<SourceView>,
    query: Seq<char>,
    exts: Seq<Seq<char>>,
    config: ConfigView,
    hit: SearchHit,
)
    requires
        all_hits(files, query, exts, config).contains(hit),
    ensures
        all_hits(files, query, exts, without_excludes(config)).contains(hit),
    decreases files.len(),
{
    let open = without_excludes(config);
    let here = all_hits(files, query, exts, config);
    let there = all_hits(files, query, exts, open);
    let k = choose|k: int| 0 <= k < here.len() && here[k] == hit;
    let before = all_hits(files.drop_last(), query, exts, config);
    let wide = all_hits(files.drop_last(), query, exts, open);
    if k < before.len() {
        assert(before[k] == hit);
        lemma_exclusion_only_removes_hits(files.drop_last(), query, exts, config, hit);
        let j = choose|j: int| 0 <= j < wide.len() && wide[j] == hit;
        assert(there[j] == hit);
    } else {
        let last = source_hits(files.last(), query, exts, config);
        assert(last[k - before.len()] == hit);
        assert(searchable(files.last().entry, exts, open));
        assert(there[wide.len() + (k - before.len())] == hit);
    }
}

/// Exclusion is a filter on the results of `search`: where the run without
/// exclusion substrings is not cut short by the limit, every hit of the run
/// with them is a hit of the run without them.
pub proof fn lemma_excluding_search_is_subset(
    files: Seq<SourceView>,
    query: Seq<char>,
    exts: Seq<Seq<char>>,
    config: ConfigView,
    hit: SearchHit,
)
    requires
        all_hits(files, query, exts, without_excludes(config)).len() <= config.result_limit,
        search_result(files, query, exts, config).contains(hit),
    ensures
        search_result(files, query, exts, without_excludes(config)).contains(hit),
{
    let here = all_hits(files, query, exts, config);
    let cut = capped(here, config.result_limit);
    let k = choose|k: int| 0 <= k < cut.len() && cut[k] == hit;
    assert(here[k] == hit);
    lemma_exclusion_only_removes_hits(files, query, exts, config, hit);
}

/// Two runs of `find` on one walk, one pattern and one configuration give
/// the same records.
pub proof fn lemma_find_repeats(
    walk: Seq<EntryView>,
    pattern: Seq<char>,
    config: ConfigView,
    first: Seq<FileInfo>,
    second: Seq<FileInfo>,
)
    requires
        records(first) == find_result(walk, pattern, config),
        records(second) == find_result(walk, pattern, config),
    ensures
        records(first) == records(second),
        first.len() == second.len(),
        forall|k: int| 0 <= k < first.len() ==> (#[trigger] first[k])@ == second[k]@,
{
    assert(records(first).len() == first.len());
    assert(records(second).len() == second.len());
    assert forall|k: int| 0 <= k < first.len() implies (#[trigger] first[k])@ == second[k]@ by {
        assert(records(first)[k] == first[k]@);
        assert(records(second)[k] == second[k]@);
    }
}

/// Two runs of `list` on one walk and one configuration give the same
/// records.
pub proof fn lemma_list_repeats(
    walk: Seq<EntryView>,
    config: ConfigView,
    first: Seq<FileInfo>,
    second: Seq<FileInfo>,
)
    requires
        records(first) == list_result(walk, config),
        records(second) == list_result(walk, config),
    ensures
        records(first) == records(second),
        first.len() == second.len(),
        forall|k: int| 0 <= k < first.len() ==> (#[trigger] first[k])@ == second[k]@,
{
    assert(records(first).len() == first.len());
    assert(records(second).len() == second.len());
    assert forall|k: int| 0 <= k < first.len() implies (#[trigger] first[k])@ == second[k]@ by {
        assert(records(first)[k] == first[k]@);
        assert(records(second)[k] == second[k]@);
    }
}

/// Two runs of `search` on the same files, query, extensions and
/// configuration give the same hits.
pub proof fn lemma_search_repeats(
    files: Seq<SourceView>,
    query: Seq<char>,
    exts: Seq<Seq<char>>,
    config: ConfigView,
    first: Seq<SearchResult>,
    second: Seq<SearchResult>,
)
    requires
        hits(first) == search_result(files, query, exts, config),
        hits(second) == search_result(files, query, exts, config),
    ensures
        hits(first) == hits(second),
        first.len() == second.len(),
        forall|k: int| 0 <= k < first.len() ==> (#[trigger] first[k])@ == second[k]@,
{
    assert(hits(first).len() == first.len());
    assert(hits(second).len() == second.len());
    assert forall|k: int| 0 <= k < first.len() implies (#[trigger] first[k])@ == second[k]@ by {
        assert(hits(first)[k] == first[k]@);
        assert(hits(second)[k] == second[k]@);
    }
}

/// With a limit of zero no operation gives anything.
pub proof fn lemma_zero_limit_gives_nothing(
    walk: Seq<EntryView>,
    files: Seq<SourceView>,
    pattern: Seq<char>,
    query: Seq<char>,
    exts: Seq<Seq<char>>,
    config: ConfigView,
)
    requires
        config.result_limit == 0,
    ensures
        find_result(walk, pattern, config).len() == 0,
        list_result(walk, config).len() == 0,
        search_result(files, query, exts, config).len() == 0,
{
}

} // verus!
