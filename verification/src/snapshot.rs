//! Filesystem snapshots and their diff, used to see which files a game
//! changed. Walking the folder is the application's part; it records each
//! file it finds here.
use vstd::prelude::*;

use crate::strmap::{StrMap, as_map, sorted_keys, has_key, lookup};

verus! {

/// File metadata used to detect changes.
#[derive(Debug, Clone, Copy, PartialEq, Eq, Structural)]
pub struct Entry {
    pub size: u64,
    /// Modification time in milliseconds since the Unix epoch (0 if unknown).
    pub mtime_ms: u64,
}

/// A snapshot of file metadata under one root, keyed by `/`-separated
/// relative path.
pub struct Snapshot {
    pub entries: StrMap<Entry>,
}

impl Snapshot {
    /// An empty snapshot.
    pub fn new() -> (s: Self)
        ensures
            s.entries@ == Map::<Seq<char>, Entry>::empty(),
    {
        Snapshot { entries: StrMap::new() }
    }

    /// Record (or replace) the metadata of the file at `rel`.
    pub fn record(&mut self, rel: String, entry: Entry)
        ensures
            final(self).entries@ == old(self).entries@.insert(rel@, entry),
    {
        self.entries.insert(rel, entry);
    }
}

/// Whether a walk that is `current_depth` directory levels below the root
/// records the files it finds there: a file there sits `current_depth + 1`
/// components deep, which must be at most `max_depth`.
pub fn records_files_at(current_depth: usize, max_depth: usize) -> (r: bool)
    ensures
        r == (current_depth < max_depth),
{
    current_depth < max_depth
}

/// Whether a walk descends into a subdirectory found `current_depth` levels
/// below the root: only when files inside it could still be in range.
pub fn descends_at(current_depth: usize, max_depth: usize) -> (r: bool)
    ensures
        r == (current_depth + 1 < max_depth),
{
    current_depth < max_depth && current_depth + 1 < max_depth
}

/// The paths of `after` (in order) that are new or whose metadata differs
/// from `before`.
pub open spec fn changed_paths(after: Seq<(String, Entry)>, before: Map<Seq<char>, Entry>) -> Seq<
    Seq<char>,
>
    decreases after.len(),
{
    if after.len() == 0 {
        seq![]
    } else {
        let rest = changed_paths(after.drop_last(), before);
        let (p, e) = after.last();
        if before.dom().contains(p@) && before[p@] == e {
            rest
        } else {
            rest.push(p@)
        }
    }
}

/// Return the relative paths that are new in `after` or differ from `before`
/// (by size or mtime), in path order.
pub fn diff(before: &Snapshot, after: &Snapshot) -> (r: Vec<String>)
    ensures
        r@.map_values(|s: String| s@) == changed_paths(after.entries.entry_seq(), before.entries@),
{
    let es = after.entries.entries();
    let mut changed: Vec<String> = Vec::new();
    let mut i: usize = 0;
    while i < es.len()
        invariant
            i <= es@.len(),
            es@ == after.entries.entry_seq(),
            changed@.map_values(|s: String| s@) == changed_paths(es@.take(i as int), before.entries@),
        decreases es@.len() - i,
    {
        let path = &es[i].0;
        let entry = es[i].1;
        let ghost before_changed = changed@;
        assert(es@.take(i + 1).drop_last() =~= es@.take(i as int));
        match before.entries.get(path.as_str()) {
            Some(old) if *old == entry => {},
            _ => {
                changed.push(path.clone());
                assert(changed@.map_values(|s: String| s@) =~= before_changed.map_values(
                    |s: String| s@,
                ).push(path@));
            },
        }
        i = i + 1;
    }
    assert(es@.take(es@.len() as int) =~= es@);
    changed
}

/// Diffing a snapshot against itself reports nothing: every path of the
/// snapshot holds the same metadata on both sides.
pub proof fn law_diff_of_same_snapshot_is_empty(s: Snapshot)
    requires
        sorted_keys(s.entries.entry_seq()),
    ensures
        changed_paths(s.entries.entry_seq(), s.entries@) == Seq::<Seq<char>>::empty(),
{
    s.entries.lemma_view_of_entries();
    let e = s.entries.entry_seq();
    lemma_changed_paths_of_own_map(e, e.len() as int);
    assert(e.take(e.len() as int) =~= e);
}

proof fn lemma_changed_paths_of_own_map(e: Seq<(String, Entry)>, n: int)
    requires
        sorted_keys(e),
        0 <= n <= e.len(),
    ensures
        changed_paths(e.take(n), as_map(e)) == Seq::<Seq<char>>::empty(),
    decreases n,
{
    if n > 0 {
        lemma_changed_paths_of_own_map(e, n - 1);
        assert(e.take(n).drop_last() =~= e.take(n - 1));
        assert(e.take(n).last() == e[n - 1]);
        crate::strmap::lemma_lookup_at(e, n - 1);
        assert(has_key(e, e[n - 1].0@));
    } else {
        assert(e.take(0) =~= Seq::<(String, Entry)>::empty());
    }
}

/// A path is reported by the diff exactly when `after` holds it with
/// metadata that `before` does not have for it: new in `after`, or with a
/// different size or modification time.
pub proof fn law_diff_reports_changed_entries(after: Seq<(String, Entry)>, before: Map<Seq<char>, Entry>, p: Seq<char>)
    ensures
        changed_paths(after, before).contains(p) <==> exists|i: int|
            0 <= i < after.len() && #[trigger] after[i].0@ == p && !(before.dom().contains(p) && before[p]
                == after[i].1),
    decreases after.len(),
{
    if after.len() > 0 {
        let init = after.drop_last();
        law_diff_reports_changed_entries(init, before, p);
        let rest = changed_paths(init, before);
        let (q, e) = after.last();
        let n = after.len() - 1;
        assert forall|i: int| 0 <= i < init.len() implies after[i] == #[trigger] init[i] by {}
        if exists|i: int|
            0 <= i < after.len() && #[trigger] after[i].0@ == p && !(before.dom().contains(p) && before[p]
                == after[i].1) {
            let i = choose|i: int|
                0 <= i < after.len() && #[trigger] after[i].0@ == p && !(before.dom().contains(p)
                    && before[p] == after[i].1);
            if i < n {
                assert(init[i].0@ == p);
                assert(rest.contains(p));
                if !(before.dom().contains(q@) && before[q@] == e) {
                    assert(rest.push(q@)[rest.index_of(p)] == p);
                }
            } else {
                assert(q@ == p);
                assert(rest.push(q@)[rest.len() as int] == p);
            }
        }
        if changed_paths(after, before).contains(p) {
            if rest.contains(p) {
                let i = choose|i: int|
                    0 <= i < init.len() && #[trigger] init[i].0@ == p && !(before.dom().contains(p)
                        && before[p] == init[i].1);
                assert(after[i].0@ == p);
            } else {
                let k = choose|k: int| 0 <= k < changed_paths(after, before).len() && changed_paths(after, before)[k] == p;
                assert(after[n].0@ == p);
            }
        }
    }
}

/// With its keys sorted, a snapshot's diff against `before` holds a path
/// exactly when the snapshot has the path and `before` lacks it or holds
/// other metadata (size or modification time) for it.
pub proof fn law_diff_reports_changed_files(before: Snapshot, after: Snapshot, p: Seq<char>)
    requires
        sorted_keys(after.entries.entry_seq()),
    ensures
        changed_paths(after.entries.entry_seq(), before.entries@).contains(p) <==> (after.entries@.dom().contains(p)
            && !(before.entries@.dom().contains(p) && before.entries@[p] == after.entries@[p])),
{
    let e = after.entries.entry_seq();
    let b = before.entries@;
    after.entries.lemma_view_of_entries();
    law_diff_reports_changed_entries(e, b, p);
    if exists|i: int| 0 <= i < e.len() && #[trigger] e[i].0@ == p {
        let i = choose|i: int| 0 <= i < e.len() && #[trigger] e[i].0@ == p;
        crate::strmap::lemma_lookup_at(e, i);
        assert(has_key(e, p));
        assert(after.entries@[p] == e[i].1);
        assert forall|j: int| 0 <= j < e.len() && #[trigger] e[j].0@ == p implies j == i by {
            if j < i {
                crate::strmap::lemma_lt_irreflexive(p);
            } else if j > i {
                crate::strmap::lemma_lt_irreflexive(p);
            }
        }
    }
}

} // verus!
