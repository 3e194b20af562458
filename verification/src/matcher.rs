//! Matching of relative paths: glob patterns, file extensions, hidden segments.

use vstd::prelude::*;
use crate::text::chars_of;
use crate::types::texts;

verus! {

/// Whether the glob pattern accepts the whole path, in the dialect of the
/// `glob_match` crate: `*` stays within a segment, `**` spans segments, `?` is
/// one character, and the pattern is held against the entire path. What
/// parts the segments is what `std::path::is_separator` accepts: `/`, and on
/// a Windows build `\` as well.
pub uninterp spec fn glob_accepts(pattern: Seq<char>, path: Seq<char>) -> bool;

/// The pattern that accepts every path.
pub open spec fn match_all() -> Seq<char> {
    seq!['*', '*']
}

/// The path is short enough for the matcher, which keeps positions in the
/// path's bytes as 32-bit numbers.
pub open spec fn fits_matcher(path: Seq<char>) -> bool {
    vstd::utf8::encode_utf8(path).len() < 0xFFFF_FFFF
}

/// `glob_match::glob_match` decides whether the pattern accepts the whole
/// path. Its answer depends on the two texts alone and is named
/// [`glob_accepts`]; the pattern `**` accepts every path. The matcher adds one
/// to a 32-bit position in the path, so the path must be shorter than that
/// range.
pub assume_specification[ glob_match::glob_match ](glob: &str, path: &str) -> (r: bool)
    requires
        fits_matcher(path@),
    ensures
        r == glob_accepts(glob@, path@),
        glob@ == match_all() ==> r,
;

/// The path matches the pattern.
pub open spec fn matches_pattern(pattern: Seq<char>, path: Seq<char>) -> bool {
    pattern == match_all() || glob_accepts(pattern, path)
}

/// Whether the path matches the glob pattern.
pub fn path_matches(pattern: &str, path: &str) -> (r: bool)
    requires
        fits_matcher(path@),
    ensures
        r == matches_pattern(pattern@, path@),
{
    glob_match::glob_match(pattern, path)
}

/// Whether the path is short enough for the matcher.
pub fn fits(path: &str) -> (r: bool)
    ensures
        r == fits_matcher(path@),
{
    path.as_bytes().len() < 0xFFFF_FFFF
}

/// A segment of the path begins with a dot.
pub open spec fn hidden_path(path: Seq<char>) -> bool {
    exists|i: int| dot_leads(path, i)
}

/// At position `i` of the path a segment begins with a dot.
pub open spec fn dot_leads(path: Seq<char>, i: int) -> bool {
    &&& 0 <= i < path.len()
    &&& path[i] == '.'
    &&& (i == 0 || path[i - 1] == '/')
}

/// Whether a segment of the path begins with a dot.
pub fn is_hidden(path: &str) -> (r: bool)
    ensures
        r == hidden_path(path@),
{
    let v = chars_of(path);
    let mut i: usize = 0;
    while i < v.len()
        invariant
            i <= v.len(),
            v@ == path@,
            forall|j: int| 0 <= j < i ==> !dot_leads(path@, j),
        decreases v.len() - i,
    {
        if v[i] == '.' && (i == 0 || v[i - 1] == '/') {
            proof {
                assert(dot_leads(path@, i as int));
            }
            return true;
        }
        i += 1;
    }
    false
}

/// What follows the last occurrence of `c` in `s`, if `c` occurs.
pub open spec fn after_last(s: Seq<char>, c: char) -> Option<Seq<char>>
    decreases s.len(),
{
    if s.len() == 0 {
        None
    } else if s.last() == c {
        Some(Seq::<char>::empty())
    } else {
        match after_last(s.drop_last(), c) {
            Some(t) => Some(t.push(s.last())),
            None => None,
        }
    }
}

/// The last segment of a path: what follows its last `/`.
pub open spec fn file_name(path: Seq<char>) -> Seq<char> {
    match after_last(path, '/') {
        Some(t) => t,
        None => path,
    }
}

/// The extension of a path: what follows the last dot of its file name,
/// without the dot. A name without a dot has none, nor has a name whose only
/// dot is its first character, nor the name `..`.
pub open spec fn extension(path: Seq<char>) -> Option<Seq<char>> {
    let name = file_name(path);
    if name == seq!['.', '.'] {
        None
    } else {
        match after_last(name, '.') {
            Some(ext) => if ext.len() + 1 == name.len() {
                None
            } else {
                Some(ext)
            },
            None => None,
        }
    }
}

/// The position of the last occurrence of `c` in `v[from..]`, if `c` occurs there.
pub fn last_position(v: &[char], from: usize, c: char) -> (r: Option<usize>)
    requires
        from <= v.len(),
    ensures
        match r {
            Some(p) => from <= p < v.len() && after_last(v@.skip(from as int), c) == Some(
                v@.skip(p + 1),
            ),
            None => after_last(v@.skip(from as int), c) is None,
        },
{
    let mut pos: Option<usize> = None;
    let mut i: usize = from;
    proof {
        assert(v@.subrange(from as int, from as int) =~= Seq::<char>::empty());
    }
    while i < v.len()
        invariant
            from <= i <= v.len(),
            match pos {
                Some(p) => from <= p < i && after_last(v@.subrange(from as int, i as int), c)
                    == Some(v@.subrange(p + 1, i as int)),
                None => after_last(v@.subrange(from as int, i as int), c) is None,
            },
        decreases v.len() - i,
    {
        proof {
            let next = v@.subrange(from as int, i + 1);
            assert(next.drop_last() =~= v@.subrange(from as int, i as int));
            assert(next.last() == v@[i as int]);
            match pos {
                Some(p) => {
                    assert(v@.subrange(p + 1, i as int).push(v@[i as int]) =~= v@.subrange(
                        p + 1,
                        i + 1,
                    ));
                },
                None => {},
            }
            assert(v@.subrange(i + 1, i + 1) =~= Seq::<char>::empty());
        }
        if v[i] == c {
            pos = Some(i);
        }
        i += 1;
    }
    proof {
        assert(v@.subrange(from as int, i as int) =~= v@.skip(from as int));
        match pos {
            Some(p) => {
                assert(v@.subrange(p + 1, i as int) =~= v@.skip(p + 1));
            },
            None => {},
        }
    }
    pos
}

/// The extension of the path, if it has one.
pub fn extension_of(path: &str) -> (r: Option<Vec<char>>)
    ensures
        match r {
            Some(e) => extension(path@) == Some(e@),
            None => extension(path@) is None,
        },
{
    let v = chars_of(path);
    let n: usize = v.len();
    proof {
        assert(v@.skip(0) =~= v@);
    }
    let start: usize = match last_position(&v, 0, '/') {
        Some(p) => p + 1,
        None => 0,
    };
    proof {
        assert(file_name(path@) == v@.skip(start as int));
    }
    let ghost name = v@.skip(start as int);
    if n - start == 2 && v[start] == '.' && v[start + 1] == '.' {
        proof {
            assert(name =~= seq!['.', '.']);
        }
        return None;
    }
    proof {
        if name == seq!['.', '.'] {
            assert(name.len() == 2);
            assert(name[0] == '.' && name[1] == '.');
            assert(false);
        }
    }
    match last_position(&v, start, '.') {
        Some(p) => {
            if p == start {
                None
            } else {
                let ext = crate::text::slice_of(&v, p + 1, n);
                proof {
                    assert(v@.subrange(p + 1, n as int) =~= v@.skip(p + 1));
                }
                Some(ext)
            }
        },
        None => None,
    }
}

/// The path has one of the given extensions, compared letter for letter.
pub open spec fn has_extension(path: Seq<char>, exts: Seq<Seq<char>>) -> bool {
    match extension(path) {
        Some(e) => exists|k: int| 0 <= k < exts.len() && #[trigger] exts[k] == e,
        None => false,
    }
}

/// Whether two texts are the same.
pub fn same_text(a: &[char], b: &[char]) -> (r: bool)
    ensures
        r == (a@ == b@),
{
    if a.len() != b.len() {
        return false;
    }
    let mut i: usize = 0;
    while i < a.len()
        invariant
            i <= a.len(),
            a.len() == b.len(),
            forall|j: int| 0 <= j < i ==> a@[j] == b@[j],
        decreases a.len() - i,
    {
        if a[i] != b[i] {
            return false;
        }
        i += 1;
    }
    proof {
        assert(a@ =~= b@);
    }
    true
}

/// Whether the path has one of the given extensions.
pub fn extension_in(path: &str, exts: &[String]) -> (r: bool)
    ensures
        r == has_extension(path@, texts(exts@)),
{
    match extension_of(path) {
        Some(e) => {
            let mut k: usize = 0;
            while k < exts.len()
                invariant
                    k <= exts.len(),
                    extension(path@) == Some(e@),
                    forall|j: int| 0 <= j < k ==> #[trigger] texts(exts@)[j] != e@,
                decreases exts.len() - k,
            {
                let candidate = chars_of(exts[k].as_str());
                proof {
                    assert(texts(exts@)[k as int] == candidate@);
                }
                if same_text(&candidate, &e) {
                    return true;
                }
                k += 1;
            }
            false
        },
        None => false,
    }
}

} // verus!
