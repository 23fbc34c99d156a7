//! The agent's decisions around game open and close events: which group a
//! game belongs to, what to report, and when to persist the sync state.
//! Polling processes, driving the engine and writing state files are the
//! application's part.
use vstd::prelude::*;

use crate::config::GroupConfig;
use crate::engine::{PullOutcome, PushOutcome};
use crate::marker::PlayingRecord;
use crate::version::SaveVersion;
use crate::error::copy_str;
use crate::text::str_eq;

verus! {

/// What the agent did in response to a game event.
#[derive(Debug)]
pub enum AgentOutcome {
    /// Game opened: the pull result, plus the display names of other members
    /// currently playing this game (a warning to surface).
    Opened { pull: PullOutcome, others_playing: Vec<String> },
    /// Game closed: the push result (which may be a conflict for the UI).
    Closed { push: PushOutcome },
    /// The game is not configured in any group (detected but ignored).
    NotConfigured,
    /// The configured save folder does not exist, so there was nothing to push.
    NoFolder,
    /// A past version was restored into the save folder.
    Restored { version: SaveVersion },
}

/// The first group (index) that has a save folder configured for `game_id`.
pub open spec fn group_for(groups: Seq<GroupConfig>, game_id: Seq<char>) -> Option<int>
    decreases groups.len(),
{
    if groups.len() == 0 {
        None
    } else {
        match group_for(groups.drop_last(), game_id) {
            Some(i) => Some(i),
            None => if groups.last().game_paths@.dom().contains(game_id) {
                Some(groups.len() - 1)
            } else {
                None
            },
        }
    }
}

/// Find the group and configured save folder for `game_id`: the first group
/// that has one.
pub fn resolve_game(groups: &[GroupConfig], game_id: &str) -> (r: Option<(usize, String)>)
    ensures
        match group_for(groups@, game_id@) {
            None => r is None,
            Some(i) => r matches Some((j, folder)) && j == i && folder@
                == groups@[i].game_paths@[game_id@]@,
        },
{
    let mut i: usize = 0;
    while i < groups.len()
        invariant
            i <= groups@.len(),
            group_for(groups@.take(i as int), game_id@) is None,
        decreases groups@.len() - i,
    {
        assert(groups@.take(i + 1).drop_last() =~= groups@.take(i as int));
        assert(groups@.take(i + 1).last() == groups@[i as int]);
        match groups[i].game_path(game_id) {
            Some(folder) => {
                proof {
                    lemma_group_for_prefix(groups@, game_id@, i as int);
                }
                return Some((i, folder));
            },
            None => {},
        }
        i = i + 1;
    }
    assert(groups@.take(groups@.len() as int) =~= groups@);
    None
}

proof fn lemma_group_for_prefix(gs: Seq<GroupConfig>, game_id: Seq<char>, i: int)
    requires
        0 <= i < gs.len(),
        group_for(gs.take(i), game_id) is None,
        gs[i].game_paths@.dom().contains(game_id),
    ensures
        group_for(gs, game_id) == Some(i),
    decreases gs.len(),
{
    if i == gs.len() - 1 {
        assert(gs.drop_last() =~= gs.take(i));
    } else {
        let t = gs.drop_last();
        assert(t.take(i) =~= gs.take(i));
        lemma_group_for_prefix(t, game_id, i);
    }
}

/// Whether the sync state is written after closing a game: a conflict did
/// not advance the synced version, so only other outcomes are persisted.
pub fn persists_after_close(push: &PushOutcome) -> (r: bool)
    ensures
        r == !(push is Conflict),
{
    match push {
        PushOutcome::Conflict { .. } => false,
        _ => true,
    }
}

/// Whether a polled pull actually applied a newer save (and so is reported
/// and persisted).
pub fn was_applied(pull: &PullOutcome) -> (r: bool)
    ensures
        r == (pull is Applied),
{
    match pull {
        PullOutcome::Applied(_) => true,
        _ => false,
    }
}

/// The display names of the members in a list of markers, in order.
pub fn member_names(records: &Vec<PlayingRecord>) -> (r: Vec<String>)
    ensures
        r@.len() == records@.len(),
        forall|i: int| 0 <= i < r@.len() ==> #[trigger] r@[i]@ == records@[i].member@,
{
    let mut out: Vec<String> = Vec::new();
    let mut i: usize = 0;
    while i < records.len()
        invariant
            i <= records@.len(),
            out@.len() == i,
            forall|j: int| 0 <= j < i ==> #[trigger] out@[j]@ == records@[j].member@,
        decreases records@.len() - i,
    {
        out.push(records[i].member.clone());
        i = i + 1;
    }
    out
}

/// Whether `game_id` is among the running games.
pub open spec fn is_running(running: Seq<String>, game_id: Seq<char>) -> bool {
    exists|i: int| 0 <= i < running.len() && #[trigger] running[i]@ == game_id
}

/// The (game, folder) pairs of `entries` whose game is not running, in order.
pub open spec fn poll_spec(entries: Seq<(String, String)>, running: Seq<String>) -> Seq<(Seq<char>, Seq<char>)>
    decreases entries.len(),
{
    if entries.len() == 0 {
        seq![]
    } else {
        let rest = poll_spec(entries.drop_last(), running);
        if is_running(running, entries.last().0@) {
            rest
        } else {
            rest.push((entries.last().0@, entries.last().1@))
        }
    }
}

fn running_contains(running: &Vec<String>, game_id: &str) -> (r: bool)
    ensures
        r == is_running(running@, game_id@),
{
    let mut i: usize = 0;
    while i < running.len()
        invariant
            i <= running@.len(),
            forall|j: int| 0 <= j < i ==> #[trigger] running@[j]@ != game_id@,
        decreases running@.len() - i,
    {
        if str_eq(running[i].as_str(), game_id) {
            return true;
        }
        i = i + 1;
    }
    false
}

/// The configured games of `group` to poll for newer saves, with their save
/// folders, in game-id order: those not currently running (a pull under a
/// running game would clobber the save it is writing).
pub fn poll_targets(group: &GroupConfig, running: &Vec<String>) -> (r: Vec<(String, String)>)
    ensures
        r@.map_values(|p: (String, String)| (p.0@, p.1@)) == poll_spec(group.game_paths.entry_seq(), running@),
{
    let es = group.game_paths.entries();
    let mut out: Vec<(String, String)> = Vec::new();
    let mut i: usize = 0;
    while i < es.len()
        invariant
            i <= es@.len(),
            es@ == group.game_paths.entry_seq(),
            out@.map_values(|p: (String, String)| (p.0@, p.1@)) == poll_spec(es@.take(i as int), running@),
        decreases es@.len() - i,
    {
        assert(es@.take(i + 1).drop_last() =~= es@.take(i as int));
        assert(es@.take(i + 1).last() == es@[i as int]);
        let ghost before = out@;
        if !running_contains(running, es[i].0.as_str()) {
            out.push((copy_str(es[i].0.as_str()), copy_str(es[i].1.as_str())));
            assert(out@.map_values(|p: (String, String)| (p.0@, p.1@)) =~= before.map_values(
                |p: (String, String)| (p.0@, p.1@),
            ).push((es@[i as int].0@, es@[i as int].1@)));
        }
        i = i + 1;
    }
    assert(es@.take(es@.len() as int) =~= es@);
    out
}

/// What closing a configured game does once its "playing" marker is
/// removed.
#[derive(Debug, Clone, Copy, PartialEq, Eq, Structural)]
pub enum CloseStep {
    /// The save folder does not exist: report `NoFolder`, push nothing.
    NoFolder,
    /// Push the save folder, then persist the state unless it conflicted.
    Push,
}

/// The step after removing the marker of a closed game: a push when its save
/// folder exists, else nothing to push.
pub fn close_step(folder_exists: bool) -> (r: CloseStep)
    ensures
        folder_exists ==> r == CloseStep::Push,
        !folder_exists ==> r == CloseStep::NoFolder,
{
    if folder_exists {
        CloseStep::Push
    } else {
        CloseStep::NoFolder
    }
}

} // verus!
