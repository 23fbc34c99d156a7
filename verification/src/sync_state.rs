//! Per-game last-synced version state.
//!
//! Loading and saving the state file is the application's part; it hands
//! the library the entries it read and takes the entries to write.
use vstd::prelude::*;

use crate::strmap::{as_map, lookup, map_get, map_insert, sorted_keys, has_key};

verus! {

/// The highest version number this device has pulled or pushed, per game.
pub struct SyncState {
    last_synced: Vec<(String, u64)>,
}

impl SyncState {
    #[verifier::type_invariant]
    spec fn keys_sorted(self) -> bool {
        sorted_keys(self.last_synced@)
    }

    /// The state as a map from game id to last-synced version.
    pub closed spec fn view(&self) -> Map<Seq<char>, u64> {
        as_map(self.last_synced@)
    }

    /// An empty state: nothing synced yet.
    pub fn new() -> (s: Self)
        ensures
            s@ == Map::<Seq<char>, u64>::empty(),
    {
        let s = SyncState { last_synced: Vec::new() };
        assert(s@ =~= Map::<Seq<char>, u64>::empty());
        s
    }

    /// The last-synced version of `game_id`, if any.
    pub fn get(&self, game_id: &str) -> (r: Option<u64>)
        ensures
            r == synced_version(self@, game_id@),
    {
        proof {
            use_type_invariant(self);
        }
        match map_get(&self.last_synced, game_id) {
            Some(v) => Some(*v),
            None => None,
        }
    }

    /// Record the last-synced version of `game_id`.
    pub fn set(&mut self, game_id: &str, version: u64)
        ensures
            final(self)@ == old(self)@.insert(game_id@, version),
    {
        proof {
            use_type_invariant(&*self);
        }
        let mut entries: Vec<(String, u64)> = Vec::new();
        std::mem::swap(&mut entries, &mut self.last_synced);
        map_insert(&mut entries, game_id.to_string(), version);
        self.last_synced = entries;
    }

    /// The recorded (game id, version) pairs, in game-id order.
    pub fn entries(&self) -> (r: Vec<(String, u64)>)
        ensures
            sorted_keys(r@),
            as_map(r@) == self@,
    {
        proof {
            use_type_invariant(self);
        }
        let mut out: Vec<(String, u64)> = Vec::new();
        let mut i: usize = 0;
        while i < self.last_synced.len()
            invariant
                i <= self.last_synced@.len(),
                out@.len() == i,
                forall|j: int| 0 <= j < i ==> (#[trigger] out@[j]).0@ == self.last_synced@[j].0@
                    && out@[j].1 == self.last_synced@[j].1,
            decreases self.last_synced@.len() - i,
        {
            let (k, v) = (&self.last_synced[i].0, self.last_synced[i].1);
            out.push((k.clone(), v));
            i = i + 1;
        }
        proof {
            assert(forall|j: int| 0 <= j < out@.len() ==> #[trigger] out@[j].0@ == self.last_synced@[j].0@);
            assert forall|k: Seq<char>| has_key(out@, k) == has_key(self.last_synced@, k) by {
                if has_key(out@, k) {
                    let j = choose|j: int| 0 <= j < out@.len() && #[trigger] out@[j].0@ == k;
                    assert(self.last_synced@[j].0@ == k);
                }
                if has_key(self.last_synced@, k) {
                    let j = choose|j: int| 0 <= j < self.last_synced@.len() && #[trigger] self.last_synced@[j].0@ == k;
                    assert(out@[j].0@ == k);
                }
            }
            assert forall|k: Seq<char>| has_key(out@, k) implies lookup(out@, k) == lookup(self.last_synced@, k) by {
                let j = choose|j: int| 0 <= j < out@.len() && #[trigger] out@[j].0@ == k;
                crate::strmap::lemma_lookup_at(out@, j);
                crate::strmap::lemma_lookup_at(self.last_synced@, j);
            }
            assert(as_map(out@) =~= as_map(self.last_synced@));
        }
        out
    }

    /// Rebuild a state from the entries read back from storage; a game id
    /// that occurs twice keeps its last version.
    pub fn from_entries(entries: Vec<(String, u64)>) -> (s: Self)
        ensures
            s@ == entries_map(entries@),
    {
        let mut s = SyncState::new();
        let mut i: usize = 0;
        while i < entries.len()
            invariant
                i <= entries@.len(),
                s@ == entries_map(entries@.take(i as int)),
            decreases entries@.len() - i,
        {
            s.set(entries[i].0.as_str(), entries[i].1);
            assert(entries@.take(i + 1).drop_last() =~= entries@.take(i as int));
            i = i + 1;
        }
        assert(entries@.take(entries@.len() as int) =~= entries@);
        s
    }
}

/// The last-synced version recorded for `game` in `m`.
pub open spec fn synced_version(m: Map<Seq<char>, u64>, game: Seq<char>) -> Option<u64> {
    if m.dom().contains(game) {
        Some(m[game])
    } else {
        None
    }
}

/// The map that inserting `entries` in order builds (later ones win).
pub open spec fn entries_map(entries: Seq<(String, u64)>) -> Map<Seq<char>, u64>
    decreases entries.len(),
{
    if entries.len() == 0 {
        Map::empty()
    } else {
        entries_map(entries.drop_last()).insert(entries.last().0@, entries.last().1)
    }
}

impl Default for SyncState {
    fn default() -> (s: Self)
        ensures
            s@ == Map::<Seq<char>, u64>::empty(),
    {
        SyncState::new()
    }
}

/// What `get` reads back after `set`: the version just recorded for that
/// game, and the earlier answer for every other game.
pub proof fn law_get_after_set(m: Map<Seq<char>, u64>, game: Seq<char>, version: u64, other: Seq<char>)
    ensures
        synced_version(m.insert(game, version), game) == Some(version),
        other != game ==> synced_version(m.insert(game, version), other) == synced_version(m, other),
{
}

} // verus!
