//! The estimator: it samples the first files of a walk and extrapolates the
//! size of the whole tree from them.

use vstd::prelude::*;
use crate::commands::record_of;
use crate::matcher::{extension, extension_of, same_text};
use crate::text::{chars_of, text_of};
use crate::types::{capped, entries, Entry, EntryView};

verus! {

/// The regular files of a walk, in its order.
pub open spec fn regular_files(walk: Seq<EntryView>) -> Seq<EntryView>
    decreases walk.len(),
{
    if walk.len() == 0 {
        Seq::empty()
    } else {
        let before = regular_files(walk.drop_last());
        if walk.last().is_file {
            before.push(walk.last())
        } else {
            before
        }
    }
}

/// The sample of a walk: its first `cap` regular files, or all of them where
/// there are no more.
pub open spec fn sample_of(walk: Seq<EntryView>, cap: nat) -> Seq<EntryView> {
    capped(regular_files(walk), cap)
}

/// The bytes that the files hold together, a file whose size could not be
/// read counting as empty.
pub open spec fn total_size(files: Seq<EntryView>) -> nat
    decreases files.len(),
{
    if files.len() == 0 {
        0
    } else {
        total_size(files.drop_last()) + record_of(files.last()).size as nat
    }
}

/// The size of the whole tree as the sample suggests it: the mean size of a
/// sampled file times the number of files, rounded down to whole bytes. An
/// empty sample suggests nothing, which counts as 0.
pub open spec fn extrapolated(sampled_size: nat, sampled: nat, file_count: nat) -> nat {
    if sampled == 0 {
        0
    } else {
        (sampled_size * file_count) / sampled
    }
}

/// The regular files among the first entries of a walk are the first regular
/// files of the walk.
pub proof fn lemma_regular_files_prefix(walk: Seq<EntryView>, i: int)
    requires
        0 <= i <= walk.len(),
    ensures
        regular_files(walk.take(i)).len() <= regular_files(walk).len(),
        regular_files(walk.take(i)) == regular_files(walk).take(
            regular_files(walk.take(i)).len() as int,
        ),
    decreases walk.len(),
{
    let all = regular_files(walk);
    if i == walk.len() {
        assert(walk.take(i) =~= walk);
        assert(all.take(all.len() as int) =~= all);
    } else {
        let shorter = walk.drop_last();
        lemma_regular_files_prefix(shorter, i);
        assert(shorter.take(i) =~= walk.take(i));
        let part = regular_files(walk.take(i));
        let before = regular_files(shorter);
        assert(before.take(part.len() as int) =~= all.take(part.len() as int));
    }
}

/// No file holds more than `u64::MAX` bytes, so a sample holds no more than
/// that many times its length.
pub proof fn lemma_total_size_bound(files: Seq<EntryView>)
    ensures
        total_size(files) <= files.len() * 0xFFFF_FFFF_FFFF_FFFF,
    decreases files.len(),
{
    if files.len() > 0 {
        lemma_total_size_bound(files.drop_last());
        assert((files.len() - 1) * 0xFFFF_FFFF_FFFF_FFFF + 0xFFFF_FFFF_FFFF_FFFF == files.len()
            * 0xFFFF_FFFF_FFFF_FFFF) by (nonlinear_arith);
    }
}

/// The number of regular files in the walk.
pub fn count_files(walk: &Vec<Entry>) -> (r: usize)
    ensures
        r == regular_files(entries(walk@)).len(),
{
    let ghost all = entries(walk@);
    let mut n: usize = 0;
    let mut i: usize = 0;
    proof {
        assert(all.take(0) =~= Seq::<EntryView>::empty());
    }
    while i < walk.len()
        invariant
            i <= walk.len(),
            all == entries(walk@),
            n == regular_files(all.take(i as int)).len(),
            n <= i,
        decreases walk.len() - i,
    {
        proof {
            let next = all.take(i + 1);
            assert(next.drop_last() =~= all.take(i as int));
            assert(next.last() == walk[i as int]@);
        }
        if walk[i].is_file {
            n += 1;
        }
        i += 1;
    }
    proof {
        assert(all.take(i as int) =~= all);
    }
    n
}

/// The sample of the walk: clones of its first `cap` regular files.
pub fn take_sample(walk: &Vec<Entry>, cap: usize) -> (r: Vec<Entry>)
    ensures
        entries(r@) == sample_of(entries(walk@), cap as nat),
{
    let ghost all = entries(walk@);
    let mut out: Vec<Entry> = Vec::new();
    let mut i: usize = 0;
    proof {
        assert(all.take(0) =~= Seq::<EntryView>::empty());
        assert(entries(out@) =~= Seq::<EntryView>::empty());
    }
    while i < walk.len() && out.len() < cap
        invariant
            i <= walk.len(),
            out.len() <= cap,
            all == entries(walk@),
            entries(out@) == regular_files(all.take(i as int)),
        decreases walk.len() - i,
    {
        let entry = &walk[i];
        proof {
            let next = all.take(i + 1);
            assert(next.drop_last() =~= all.take(i as int));
            assert(next.last() == entry@);
        }
        if entry.is_file {
            let ghost before = entries(out@);
            let copy = Entry {
                path: entry.path.clone(),
                is_file: entry.is_file,
                ignored: entry.ignored,
                size: entry.size,
            };
            out.push(copy);
            proof {
                assert(entries(out@) =~= before.push(entry@));
            }
        }
        i += 1;
    }
    proof {
        lemma_regular_files_prefix(all, i as int);
        if i == walk.len() {
            assert(all.take(i as int) =~= all);
        }
    }
    out
}

/// The bytes that the files hold together.
pub fn sum_sizes(files: &Vec<Entry>) -> (r: u128)
    ensures
        r == total_size(entries(files@)),
{
    let ghost all = entries(files@);
    let mut sum: u128 = 0;
    let mut i: usize = 0;
    proof {
        assert(all.take(0) =~= Seq::<EntryView>::empty());
    }
    while i < files.len()
        invariant
            i <= files.len(),
            all == entries(files@),
            sum == total_size(all.take(i as int)),
        decreases files.len() - i,
    {
        let size: u64 = match files[i].size {
            Some(n) => n,
            None => 0,
        };
        proof {
            let next = all.take(i + 1);
            assert(next.drop_last() =~= all.take(i as int));
            assert(next.last() == files[i as int]@);
            lemma_total_size_bound(next);
            assert(next.len() * 0xFFFF_FFFF_FFFF_FFFF <= 0xFFFF_FFFF_FFFF_FFFF
                * 0xFFFF_FFFF_FFFF_FFFF) by (nonlinear_arith)
                requires
                    next.len() <= 0xFFFF_FFFF_FFFF_FFFF,
            ;
        }
        sum = sum + size as u128;
        i += 1;
    }
    proof {
        assert(all.take(i as int) =~= all);
    }
    sum
}

/// The size of the whole tree as a sample suggests it.
fn extrapolate(sampled_size: u128, sampled: usize, file_count: usize) -> (r: u128)
    requires
        sampled_size <= sampled * 0xFFFF_FFFF_FFFF_FFFF,
    ensures
        r == extrapolated(sampled_size as nat, sampled as nat, file_count as nat),
{
    if sampled == 0 {
        return 0;
    }
    let n: u128 = sampled as u128;
    let count: u128 = file_count as u128;
    let whole: u128 = sampled_size / n;
    let rest: u128 = sampled_size % n;
    proof {
        assert(whole <= 0xFFFF_FFFF_FFFF_FFFF) by (nonlinear_arith)
            requires
                whole == sampled_size / n,
                n > 0,
                sampled_size <= n * 0xFFFF_FFFF_FFFF_FFFF,
        ;
        assert(whole * count <= 0xFFFF_FFFF_FFFF_FFFF * 0xFFFF_FFFF_FFFF_FFFF)
            by (nonlinear_arith)
            requires
                whole <= 0xFFFF_FFFF_FFFF_FFFF,
                count <= 0xFFFF_FFFF_FFFF_FFFF,
        ;
        assert(rest * count <= 0xFFFF_FFFF_FFFF_FFFF * 0xFFFF_FFFF_FFFF_FFFF)
            by (nonlinear_arith)
            requires
                rest < n,
                n <= 0xFFFF_FFFF_FFFF_FFFF,
                count <= 0xFFFF_FFFF_FFFF_FFFF,
        ;
        assert((rest * count) / (n as int) <= count) by (nonlinear_arith)
            requires
                rest < n,
                n > 0,
                count >= 0,
        ;
    }
    let r: u128 = whole * count + (rest * count) / n;
    proof {
        let s = sampled_size as int;
        let d = n as int;
        let c = count as int;
        vstd::arithmetic::div_mod::lemma_fundamental_div_mod(s, d);
        assert(s * c == (whole * count) * d + rest * count) by (nonlinear_arith)
            requires
                s == d * (whole as int) + (rest as int),
                c == count as int,
        ;
        vstd::arithmetic::div_mod::lemma_hoist_over_denominator(
            (rest * count) as int,
            (whole * count) as int,
            d as nat,
        );
    }
    r
}

/// An extension and the number of sampled files that have it, as a value of
/// the model.
pub struct Tally {
    pub ext: Seq<char>,
    pub count: nat,
}

/// An extension and the number of sampled files that have it.
#[derive(Debug, Clone, PartialEq, Eq)]
pub struct ExtCount {
    pub ext: String,
    pub count: usize,
}

impl View for ExtCount {
    type V = Tally;

    open spec fn view(&self) -> Tally {
        Tally { ext: self.ext@, count: self.count as nat }
    }
}

/// The tallies that a sequence of counts holds.
pub open spec fn tallies(v: Seq<ExtCount>) -> Seq<Tally> {
    Seq::new(v.len(), |i: int| v[i]@)
}

/// The position of the extension among the tallies, or their number where it
/// is not among them.
pub open spec fn position_of(t: Seq<Tally>, ext: Seq<char>) -> int
    decreases t.len(),
{
    if t.len() == 0 {
        0
    } else if t.first().ext == ext {
        0
    } else {
        1 + position_of(t.drop_first(), ext)
    }
}

/// The tallies after one more file with the extension: its count goes up by
/// one, or it joins the end with a count of one.
pub open spec fn bump(t: Seq<Tally>, ext: Seq<char>) -> Seq<Tally> {
    let i = position_of(t, ext);
    if i < t.len() {
        t.update(i, Tally { ext: ext, count: t[i].count + 1 })
    } else {
        t.push(Tally { ext: ext, count: 1 })
    }
}

/// The histogram of the extensions of the files: each extension once, in the
/// order in which it was first seen, with the number of files that have it.
/// A file without extension counts nowhere.
pub open spec fn histogram(files: Seq<EntryView>) -> Seq<Tally>
    decreases files.len(),
{
    if files.len() == 0 {
        Seq::empty()
    } else {
        let before = histogram(files.drop_last());
        match extension(files.last().path) {
            Some(ext) => bump(before, ext),
            None => before,
        }
    }
}

/// A position is that of the extension where no earlier tally has the
/// extension and the tally there has it, or the position is the end.
pub proof fn lemma_position_found(t: Seq<Tally>, ext: Seq<char>, i: int)
    requires
        0 <= i <= t.len(),
        forall|j: int| 0 <= j < i ==> (#[trigger] t[j]).ext != ext,
        i < t.len() ==> t[i].ext == ext,
    ensures
        position_of(t, ext) == i,
    decreases t.len(),
{
    if t.len() > 0 && i > 0 {
        let rest = t.drop_first();
        assert(t[0].ext != ext);
        assert forall|j: int| 0 <= j < i - 1 implies (#[trigger] rest[j]).ext != ext by {
            assert(rest[j] == t[j + 1]);
        }
        if i < t.len() {
            assert(rest[i - 1] == t[i]);
        }
        lemma_position_found(rest, ext, i - 1);
    }
}

/// A histogram has no more tallies than there are files, and no count in it
/// is larger than their number.
pub proof fn lemma_histogram_bounds(files: Seq<EntryView>)
    ensures
        histogram(files).len() <= files.len(),
        forall|k: int|
            0 <= k < histogram(files).len() ==> (#[trigger] histogram(files)[k]).count
                <= files.len(),
    decreases files.len(),
{
    if files.len() > 0 {
        lemma_histogram_bounds(files.drop_last());
        let before = histogram(files.drop_last());
        match extension(files.last().path) {
            Some(ext) => {
                lemma_position_range(before, ext);
            },
            None => {},
        }
    }
}

/// The position of an extension lies between 0 and the number of tallies.
pub proof fn lemma_position_range(t: Seq<Tally>, ext: Seq<char>)
    ensures
        0 <= position_of(t, ext) <= t.len(),
    decreases t.len(),
{
    if t.len() > 0 && t.first().ext != ext {
        lemma_position_range(t.drop_first(), ext);
    }
}

/// Counts one more file with the extension.
fn bump_count(counts: &mut Vec<ExtCount>, ext: &Vec<char>)
    requires
        forall|k: int| 0 <= k < old(counts).len() ==> (#[trigger] old(counts)[k]).count < usize::MAX,
    ensures
        tallies(final(counts)@) == bump(tallies(old(counts)@), ext@),
{
    let ghost before = tallies(counts@);
    let mut i: usize = 0;
    while i < counts.len()
        invariant
            i <= counts.len(),
            counts@ == old(counts)@,
            before == tallies(counts@),
            forall|k: int|
                0 <= k < old(counts).len() ==> (#[trigger] old(counts)[k]).count < usize::MAX,
            forall|j: int| 0 <= j < i ==> (#[trigger] before[j]).ext != ext@,
        decreases counts.len() - i,
    {
        let name = chars_of(counts[i].ext.as_str());
        proof {
            assert(before[i as int] == counts[i as int]@);
        }
        if same_text(&name, ext) {
            proof {
                lemma_position_found(before, ext@, i as int);
                assert(old(counts)[i as int].count < usize::MAX);
            }
            let raised = ExtCount { ext: text_of(ext), count: counts[i].count + 1 };
            counts.set(i, raised);
            proof {
                assert(tallies(counts@) =~= bump(before, ext@));
            }
            return ;
        }
        i += 1;
    }
    proof {
        lemma_position_found(before, ext@, i as int);
    }
    counts.push(ExtCount { ext: text_of(ext), count: 1 });
    proof {
        assert(tallies(counts@) =~= bump(before, ext@));
    }
}

/// The histogram of the extensions of the files.
pub fn count_extensions(files: &Vec<Entry>) -> (r: Vec<ExtCount>)
    ensures
        tallies(r@) == histogram(entries(files@)),
{
    let ghost all = entries(files@);
    let mut counts: Vec<ExtCount> = Vec::new();
    let mut i: usize = 0;
    proof {
        assert(all.take(0) =~= Seq::<EntryView>::empty());
        assert(tallies(counts@) =~= Seq::<Tally>::empty());
    }
    while i < files.len()
        invariant
            i <= files.len(),
            all == entries(files@),
            tallies(counts@) == histogram(all.take(i as int)),
        decreases files.len() - i,
    {
        proof {
            let next = all.take(i + 1);
            assert(next.drop_last() =~= all.take(i as int));
            assert(next.last() == files[i as int]@);
            lemma_histogram_bounds(all.take(i as int));
            assert forall|k: int| 0 <= k < counts.len() implies (#[trigger] counts[k]).count
                < usize::MAX by {
                assert(tallies(counts@)[k] == counts[k]@);
            }
        }
        match extension_of(files[i].path.as_str()) {
            Some(ext) => {
                bump_count(&mut counts, &ext);
            },
            None => {},
        }
        i += 1;
    }
    proof {
        assert(all.take(i as int) =~= all);
    }
    counts
}

/// The tallies with one more put in its place: behind every tally that
/// counts at least as much, before every tally that counts less.
pub open spec fn place(sorted: Seq<Tally>, item: Tally) -> Seq<Tally>
    decreases sorted.len(),
{
    if sorted.len() == 0 {
        seq![item]
    } else if sorted.last().count >= item.count {
        sorted.push(item)
    } else {
        place(sorted.drop_last(), item).push(sorted.last())
    }
}

/// The tallies by falling count; of two that count the same, the one that
/// came first stays first.
pub open spec fn ranked(t: Seq<Tally>) -> Seq<Tally>
    decreases t.len(),
{
    if t.len() == 0 {
        Seq::empty()
    } else {
        place(ranked(t.drop_last()), t.last())
    }
}

/// No tally counts more than one before it.
pub open spec fn descending(t: Seq<Tally>) -> bool {
    forall|i: int, j: int| 0 <= i < j < t.len() ==> (#[trigger] t[i]).count >= (#[trigger] t[j]).count
}

/// The most frequent extensions of the files: the first five of the ranked
/// histogram, or all of it where it holds no more.
pub open spec fn top_extensions(files: Seq<EntryView>) -> Seq<Tally> {
    capped(ranked(histogram(files)), 5)
}

/// Where every tally from position `p` on counts less than the new one, and
/// the tally before `p` does not, the new tally's place is `p`.
pub proof fn lemma_place_at(sorted: Seq<Tally>, item: Tally, p: int)
    requires
        0 <= p <= sorted.len(),
        forall|j: int| p <= j < sorted.len() ==> (#[trigger] sorted[j]).count < item.count,
        p > 0 ==> sorted[p - 1].count >= item.count,
    ensures
        place(sorted, item) == sorted.insert(p, item),
    decreases sorted.len(),
{
    if sorted.len() == 0 {
        assert(place(sorted, item) =~= sorted.insert(p, item));
    } else if p == sorted.len() {
        assert(place(sorted, item) =~= sorted.insert(p, item));
    } else {
        let shorter = sorted.drop_last();
        assert(sorted.last().count < item.count);
        assert forall|j: int| p <= j < shorter.len() implies (#[trigger] shorter[j]).count
            < item.count by {
            assert(shorter[j] == sorted[j]);
        }
        if p > 0 {
            assert(shorter[p - 1] == sorted[p - 1]);
        }
        lemma_place_at(shorter, item, p);
        assert(shorter.insert(p, item).push(sorted.last()) =~= sorted.insert(p, item));
    }
}

/// Putting a tally in its place keeps every tally, adds the new one, and
/// keeps the counts falling.
pub proof fn lemma_place_keeps_order(sorted: Seq<Tally>, item: Tally)
    requires
        descending(sorted),
    ensures
        place(sorted, item).len() == sorted.len() + 1,
        descending(place(sorted, item)),
        forall|k: int|
            0 <= k < place(sorted, item).len() ==> (#[trigger] place(sorted, item)[k]) == item
                || sorted.contains(place(sorted, item)[k]),
    decreases sorted.len(),
{
    let out = place(sorted, item);
    if sorted.len() == 0 {
    } else if sorted.last().count >= item.count {
        assert forall|i: int, j: int| 0 <= i < j < out.len() implies (#[trigger] out[i]).count >= (
        #[trigger] out[j]).count by {
            if j == sorted.len() {
                assert(sorted[i].count >= sorted[sorted.len() - 1].count || i == sorted.len() - 1);
            } else {
                assert(sorted[i].count >= sorted[j].count);
            }
        }
        assert forall|k: int| 0 <= k < out.len() implies (#[trigger] out[k]) == item
            || sorted.contains(out[k]) by {
            if k < sorted.len() {
                assert(sorted[k] == out[k]);
            }
        }
    } else {
        let shorter = sorted.drop_last();
        assert(descending(shorter)) by {
            assert forall|i: int, j: int| 0 <= i < j < shorter.len() implies (
            #[trigger] shorter[i]).count >= (#[trigger] shorter[j]).count by {
                assert(sorted[i].count >= sorted[j].count);
            }
        }
        lemma_place_keeps_order(shorter, item);
        let inner = place(shorter, item);
        assert forall|k: int| 0 <= k < inner.len() implies (#[trigger] inner[k]).count
            >= sorted.last().count by {
            if inner[k] == item {
            } else {
                assert(shorter.contains(inner[k]));
                let m = choose|m: int| 0 <= m < shorter.len() && shorter[m] == inner[k];
                assert(sorted[m].count >= sorted[sorted.len() - 1].count);
            }
        }
        assert forall|i: int, j: int| 0 <= i < j < out.len() implies (#[trigger] out[i]).count >= (
        #[trigger] out[j]).count by {
            if j == inner.len() {
                assert(out[i] == inner[i]);
            } else {
                assert(inner[i].count >= inner[j].count);
            }
        }
        assert forall|k: int| 0 <= k < out.len() implies (#[trigger] out[k]) == item
            || sorted.contains(out[k]) by {
            if k < inner.len() {
                assert(out[k] == inner[k]);
                if inner[k] != item {
                    let m = choose|m: int| 0 <= m < shorter.len() && shorter[m] == inner[k];
                    assert(sorted[m] == out[k]);
                }
            } else {
                assert(sorted[sorted.len() - 1] == out[k]);
            }
        }
    }
}

/// Ranking keeps the number of tallies, gives only tallies that were there,
/// and lets the counts fall.
pub proof fn lemma_ranked_order(t: Seq<Tally>)
    ensures
        ranked(t).len() == t.len(),
        descending(ranked(t)),
        forall|k: int| 0 <= k < ranked(t).len() ==> t.contains(#[trigger] ranked(t)[k]),
    decreases t.len(),
{
    if t.len() > 0 {
        let shorter = t.drop_last();
        lemma_ranked_order(shorter);
        lemma_place_keeps_order(ranked(shorter), t.last());
        let out = ranked(t);
        assert forall|k: int| 0 <= k < out.len() implies t.contains(#[trigger] out[k]) by {
            if out[k] == t.last() {
                assert(t[t.len() - 1] == out[k]);
            } else {
                assert(ranked(shorter).contains(out[k]));
                let m = choose|m: int| 0 <= m < ranked(shorter).len() && ranked(shorter)[m] == out[k];
                assert(shorter.contains(ranked(shorter)[m]));
                let n = choose|n: int| 0 <= n < shorter.len() && shorter[n] == out[k];
                assert(t[n] == out[k]);
            }
        }
    }
}

/// The counts by falling count, one that came first staying before its
/// equals.
pub fn rank(counts: &Vec<ExtCount>) -> (r: Vec<ExtCount>)
    ensures
        tallies(r@) == ranked(tallies(counts@)),
{
    let ghost all = tallies(counts@);
    let mut sorted: Vec<ExtCount> = Vec::new();
    let mut i: usize = 0;
    proof {
        assert(all.take(0) =~= Seq::<Tally>::empty());
        assert(tallies(sorted@) =~= Seq::<Tally>::empty());
    }
    while i < counts.len()
        invariant
            i <= counts.len(),
            all == tallies(counts@),
            sorted.len() == i,
            tallies(sorted@) == ranked(all.take(i as int)),
        decreases counts.len() - i,
    {
        let item = ExtCount { ext: counts[i].ext.clone(), count: counts[i].count };
        let ghost before = tallies(sorted@);
        proof {
            let next = all.take(i + 1);
            assert(next.drop_last() =~= all.take(i as int));
            assert(next.last() == item@);
        }
        let mut p: usize = sorted.len();
        while p > 0 && sorted[p - 1].count < item.count
            invariant
                p <= sorted.len(),
                before == tallies(sorted@),
                forall|j: int| p <= j < before.len() ==> (#[trigger] before[j]).count < item@.count,
            decreases p,
        {
            proof {
                assert(before[p - 1] == sorted[p - 1]@);
            }
            p -= 1;
        }
        proof {
            if p > 0 {
                assert(before[p - 1] == sorted[p - 1]@);
            }
            lemma_place_at(before, item@, p as int);
        }
        sorted.insert(p, item);
        proof {
            assert(tallies(sorted@) =~= before.insert(p as int, item@));
        }
        i += 1;
    }
    proof {
        assert(all.take(i as int) =~= all);
    }
    sorted
}

/// What the estimator reports of a tree.
#[derive(Debug, Clone, PartialEq, Eq)]
pub struct Estimate {
    /// The number of regular files in the walk.
    pub file_count: usize,
    /// The number of files in the sample.
    pub sampled: usize,
    /// The size of the whole tree as the sample suggests it, in bytes.
    pub estimated_total_size: u128,
    /// The bytes that the sampled files hold together.
    pub sampled_size: u128,
    /// The most frequent extensions of the sample, at most five, by falling
    /// count.
    pub top_extensions: Vec<ExtCount>,
}

/// Estimates the size of a tree from the first `sample_limit` regular files
/// of its walk.
///
/// The walk is taken as it is: neither the ignore rules nor hidden segments
/// nor exclusion substrings remove a file from it. The sample is the first
/// `sample_limit` regular files in the order of the walk, so one walk always
/// gives one estimate.
pub fn estimate(walk: &Vec<Entry>, sample_limit: usize) -> (r: Estimate)
    ensures
        r.file_count == regular_files(entries(walk@)).len(),
        r.sampled == sample_of(entries(walk@), sample_limit as nat).len(),
        r.sampled <= sample_limit,
        r.sampled <= r.file_count,
        r.sampled_size == total_size(sample_of(entries(walk@), sample_limit as nat)),
        r.estimated_total_size == extrapolated(
            r.sampled_size as nat,
            r.sampled as nat,
            r.file_count as nat,
        ),
        tallies(r.top_extensions@) == top_extensions(
            sample_of(entries(walk@), sample_limit as nat),
        ),
        r.top_extensions.len() <= 5,
        descending(tallies(r.top_extensions@)),
{
    let file_count = count_files(walk);
    let sample = take_sample(walk, sample_limit);
    let sampled: usize = sample.len();
    let ghost chosen = sample_of(entries(walk@), sample_limit as nat);
    proof {
        assert(entries(sample@).len() == sample.len());
        lemma_total_size_bound(chosen);
    }
    let sampled_size = sum_sizes(&sample);
    let estimated_total_size = extrapolate(sampled_size, sampled, file_count);
    let counts = count_extensions(&sample);
    let mut top = rank(&counts);
    let ghost all = tallies(top@);
    top.truncate(5);
    proof {
        lemma_ranked_order(histogram(chosen));
        assert(tallies(top@) =~= capped(all, 5));
        assert(tallies(top@).len() == top.len());
        assert forall|i: int, j: int| 0 <= i < j < tallies(top@).len() implies (
        #[trigger] tallies(top@)[i]).count >= (#[trigger] tallies(top@)[j]).count by {
            assert(all[i].count >= all[j].count);
        }
    }
    Estimate {
        file_count: file_count,
        sampled: sampled,
        estimated_total_size: estimated_total_size,
        sampled_size: sampled_size,
        top_extensions: top,
    }
}

} // verus!
