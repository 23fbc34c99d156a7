//! The sync engine's decisions: pull, push and conflict resolution against
//! the latest version in the vault, the "currently playing" markers, and
//! the names of backup files.
//!
//! Talking to the vault (listing versions, downloading, uploading, posting
//! and deleting markers) and touching the save folder are the application's
//! part: it asks the functions here what to do, does it, and reports back.
use vstd::prelude::*;

use crate::error::{SyncError, VaultError, copy_str, prefixed};
use crate::marker::{PLAYING_MARKER, PlayingRecord};
use crate::sync_state::{SyncState, synced_version};
use crate::text::{char_alnum, chars_of, is_alphanumeric, str_eq, string_from_chars};
use crate::version::SaveVersion;

verus! {

/// How long a "currently playing" marker stays active (10 minutes).
pub const PLAYING_TTL_MS: u64 = 600_000;

/// How many channel messages one page of a marker scan holds.
pub const SCAN_PAGE: u16 = 100;

/// Result of a pull.
#[derive(Debug)]
pub enum PullOutcome {
    /// The game has no save in the vault yet.
    NoRemoteSave,
    /// Local already has the latest version (number).
    AlreadyUpToDate(u64),
    /// Downloaded and applied this version.
    Applied(SaveVersion),
}

/// Result of a push or of resolving a conflict.
#[derive(Debug)]
pub enum PushOutcome {
    /// Local content matches the latest version (number); nothing uploaded.
    NoChange(u64),
    /// Uploaded a new version.
    Pushed(SaveVersion),
    /// A newer version exists in the vault than what we last synced, and our
    /// content differs: the caller must resolve before overwriting.
    Conflict { remote: SaveVersion },
}

/// How to resolve a conflict.
#[derive(Debug, Clone, Copy, PartialEq, Eq, Structural)]
pub enum Resolution {
    /// Upload local content as a new version (the remote stays in history).
    PushLocal,
    /// Discard local content and take the remote version.
    TakeRemote,
}

/// What a pull does next.
pub enum PullStep {
    /// Nothing to download: this is the outcome.
    Done(PullOutcome),
    /// Download this version, back up and replace the save folder, then
    /// record it with [`applied`].
    Apply(SaveVersion),
}

/// The step a pull takes for `game` in state `s`, given the latest version
/// in the vault: nothing when the vault is empty or the latest version is the
/// one last synced here, else apply it.
pub open spec fn pull_plan(s: Map<Seq<char>, u64>, game: Seq<char>, latest: Option<SaveVersion>) -> PullStep {
    match latest {
        None => PullStep::Done(PullOutcome::NoRemoteSave),
        Some(l) => if synced_version(s, game) == Some(l.number) {
            PullStep::Done(PullOutcome::AlreadyUpToDate(l.number))
        } else {
            PullStep::Apply(l)
        },
    }
}

/// Decide a pull of `game_id` given the latest version in the vault.
pub fn pull_step(state: &SyncState, game_id: &str, latest: Option<SaveVersion>) -> (r: PullStep)
    ensures
        r == pull_plan(state@, game_id@, latest),
{
    match latest {
        None => PullStep::Done(PullOutcome::NoRemoteSave),
        Some(l) => {
            if state.get(game_id) == Some(l.number) {
                PullStep::Done(PullOutcome::AlreadyUpToDate(l.number))
            } else {
                PullStep::Apply(l)
            }
        },
    }
}

/// Record that `version` of `game_id` was applied to the save folder.
pub fn applied(state: &mut SyncState, game_id: &str, version: SaveVersion) -> (r: PullOutcome)
    ensures
        final(state)@ == old(state)@.insert(game_id@, version.number),
        r == PullOutcome::Applied(version),
{
    state.set(game_id, version.number);
    PullOutcome::Applied(version)
}

/// What a push (or a push-local resolution) does next.
pub enum PushStep {
    /// Upload the packed folder as a new version, then record it with
    /// [`pushed`].
    Upload,
    /// Nothing to upload: this is the outcome.
    Done(PushOutcome),
}

/// The step a push of content hashing to `local` takes for `game` in state
/// `s`, given the latest version in the vault: nothing when the content is
/// the latest version's; an upload when the vault is empty or its latest
/// version is the one last synced here; otherwise a conflict.
pub open spec fn push_plan(s: Map<Seq<char>, u64>, game: Seq<char>, local: Seq<char>, latest: Option<SaveVersion>) -> PushStep {
    match latest {
        None => PushStep::Upload,
        Some(l) => if l.content_hash@ == local {
            PushStep::Done(PushOutcome::NoChange(l.number))
        } else if synced_version(s, game) == Some(l.number) {
            PushStep::Upload
        } else {
            PushStep::Done(PushOutcome::Conflict { remote: l })
        },
    }
}

/// The state a push decision leaves: the latest version recorded when the
/// content already matches it, else unchanged.
pub open spec fn push_plan_state(s: Map<Seq<char>, u64>, game: Seq<char>, local: Seq<char>, latest: Option<SaveVersion>) -> Map<Seq<char>, u64> {
    match latest {
        Some(l) => if l.content_hash@ == local {
            s.insert(game, l.number)
        } else {
            s
        },
        None => s,
    }
}

/// Decide a push of `game_id` whose packed folder hashes to `local_hash`,
/// given the latest version in the vault. Uploads only when there is no
/// remote version, or when the remote is the one last synced here; a newer
/// remote with other content is a conflict.
pub fn push_step(state: &mut SyncState, game_id: &str, local_hash: &str, latest: Option<SaveVersion>) -> (r: PushStep)
    ensures
        r == push_plan(old(state)@, game_id@, local_hash@, latest),
        final(state)@ == push_plan_state(old(state)@, game_id@, local_hash@, latest),
{
    match latest {
        None => PushStep::Upload,
        Some(l) => {
            if str_eq(l.content_hash.as_str(), local_hash) {
                state.set(game_id, l.number);
                PushStep::Done(PushOutcome::NoChange(l.number))
            } else if state.get(game_id) == Some(l.number) {
                PushStep::Upload
            } else {
                PushStep::Done(PushOutcome::Conflict { remote: l })
            }
        },
    }
}

/// Record that `version` of `game_id` was uploaded.
pub fn pushed(state: &mut SyncState, game_id: &str, version: SaveVersion) -> (r: PushOutcome)
    ensures
        final(state)@ == old(state)@.insert(game_id@, version.number),
        r == PushOutcome::Pushed(version),
{
    state.set(game_id, version.number);
    PushOutcome::Pushed(version)
}

/// Decide a push-local resolution: nothing to upload when local content
/// already equals the latest remote version, else upload.
pub fn push_local_step(state: &mut SyncState, game_id: &str, local_hash: &str, latest: Option<SaveVersion>) -> (r: PushStep)
    ensures
        match latest {
            Some(l) => if l.content_hash@ == local_hash@ {
                r matches PushStep::Done(PushOutcome::NoChange(n)) && n == l.number && final(state)@
                    == old(state)@.insert(game_id@, l.number)
            } else {
                r is Upload && final(state)@ == old(state)@
            },
            None => r is Upload && final(state)@ == old(state)@,
        },
{
    match latest {
        Some(l) => {
            if str_eq(l.content_hash.as_str(), local_hash) {
                state.set(game_id, l.number);
                PushStep::Done(PushOutcome::NoChange(l.number))
            } else {
                PushStep::Upload
            }
        },
        None => PushStep::Upload,
    }
}

/// The version a take-remote resolution applies: the latest, or an error
/// when the vault has none.
pub fn take_remote_target(latest: Option<SaveVersion>) -> (r: Result<SaveVersion, SyncError>)
    ensures
        match latest {
            Some(l) => r == Ok::<SaveVersion, SyncError>(l),
            None => r matches Err(SyncError::Vault(VaultError::NotFound)),
        },
{
    match latest {
        Some(l) => Ok(l),
        None => Err(SyncError::Vault(VaultError::NotFound)),
    }
}

/// Record that the remote `version` replaced local content in a take-remote
/// resolution.
pub fn took_remote(state: &mut SyncState, game_id: &str, version: &SaveVersion) -> (r: PushOutcome)
    ensures
        final(state)@ == old(state)@.insert(game_id@, version.number),
        r == PushOutcome::NoChange(version.number),
{
    state.set(game_id, version.number);
    PushOutcome::NoChange(version.number)
}

/// The index of the first version numbered `number`, if any.
pub open spec fn version_index(vs: Seq<SaveVersion>, number: u64) -> Option<int>
    decreases vs.len(),
{
    if vs.len() == 0 {
        None
    } else {
        match version_index(vs.drop_last(), number) {
            Some(i) => Some(i),
            None => if vs.last().number == number {
                Some(vs.len() - 1)
            } else {
                None
            },
        }
    }
}

/// The version numbered `number` among the stored versions, or an error
/// when there is none.
pub fn find_version(versions: &Vec<SaveVersion>, number: u64) -> (r: Result<SaveVersion, SyncError>)
    ensures
        match version_index(versions@, number) {
            Some(i) => 0 <= i < versions@.len() && r == Ok::<SaveVersion, SyncError>(versions@[i]),
            None => r matches Err(SyncError::Vault(VaultError::NotFound)),
        },
{
    let mut i: usize = 0;
    while i < versions.len()
        invariant
            i <= versions@.len(),
            version_index(versions@.take(i as int), number) is None,
        decreases versions@.len() - i,
    {
        assert(versions@.take(i + 1).drop_last() =~= versions@.take(i as int));
        assert(versions@.take(i + 1).last() == versions@[i as int]);
        if versions[i].number == number {
            proof {
                lemma_version_index_prefix(versions@, number, i as int);
            }
            return Ok(versions[i].copy());
        }
        i = i + 1;
    }
    assert(versions@.take(versions@.len() as int) =~= versions@);
    Err(SyncError::Vault(VaultError::NotFound))
}

proof fn lemma_version_index_prefix(vs: Seq<SaveVersion>, number: u64, i: int)
    requires
        0 <= i < vs.len(),
        version_index(vs.take(i), number) is None,
        vs[i].number == number,
    ensures
        version_index(vs, number) == Some(i),
    decreases vs.len(),
{
    if i == vs.len() - 1 {
        assert(vs.drop_last() =~= vs.take(i));
    } else {
        let t = vs.drop_last();
        assert(t.take(i) =~= vs.take(i));
        lemma_version_index_prefix(t, number, i);
    }
}

/// The marker record this device posts when it starts playing `game_id`.
pub fn playing_record(game_id: &str, member: &str, device_id: &str, now_ms: u64) -> (r: PlayingRecord)
    requires
        now_ms <= u64::MAX - PLAYING_TTL_MS,
    ensures
        r.marker@ == PLAYING_MARKER@,
        r.game_id@ == game_id@,
        r.member@ == member@,
        r.device_id@ == device_id@,
        r.expires_at_ms == now_ms + PLAYING_TTL_MS,
{
    PlayingRecord {
        marker: copy_str(PLAYING_MARKER),
        game_id: copy_str(game_id),
        member: copy_str(member),
        device_id: copy_str(device_id),
        expires_at_ms: now_ms + PLAYING_TTL_MS,
    }
}

/// Whether a page of `len` messages was full, so the scan reads the next
/// (older) page.
pub fn page_is_full(len: usize) -> (r: bool)
    ensures
        r == (len == SCAN_PAGE as usize),
{
    len == 100
}

/// A marker of another device, for `game_id`, still active at `now_ms`.
pub open spec fn other_active(r: PlayingRecord, game_id: Seq<char>, device_id: Seq<char>, now_ms: u64) -> bool {
    r.game_id@ == game_id && r.device_id@ != device_id && r.expires_at_ms > now_ms
}

/// The records of `rs` that `keep` accepts, in order.
pub open spec fn others_spec(rs: Seq<PlayingRecord>, game_id: Seq<char>, device_id: Seq<char>, now_ms: u64) -> Seq<PlayingRecord>
    decreases rs.len(),
{
    if rs.len() == 0 {
        seq![]
    } else {
        let rest = others_spec(rs.drop_last(), game_id, device_id, now_ms);
        if other_active(rs.last(), game_id, device_id, now_ms) {
            rest.push(rs.last())
        } else {
            rest
        }
    }
}

/// The active "playing" markers for `game_id` posted by other devices,
/// among the decoded markers of a page, in order.
pub fn others_playing(records: Vec<PlayingRecord>, game_id: &str, device_id: &str, now_ms: u64) -> (r: Vec<PlayingRecord>)
    ensures
        r@ == others_spec(records@, game_id@, device_id@, now_ms),
{
    let ghost all = records@;
    let mut rest = records;
    let mut out: Vec<PlayingRecord> = Vec::new();
    let n = rest.len();
    let mut i: usize = 0;
    while i < n
        invariant
            n == all.len(),
            i <= n,
            rest@ == all.skip(i as int),
            out@ == others_spec(all.take(i as int), game_id@, device_id@, now_ms),
        decreases n - i,
    {
        let rec = rest.remove(0);
        assert(rec == all[i as int]);
        assert(rest@ =~= all.skip(i + 1));
        assert(all.take(i + 1).drop_last() =~= all.take(i as int));
        assert(all.take(i + 1).last() == all[i as int]);
        if str_eq(rec.game_id.as_str(), game_id) && !str_eq(rec.device_id.as_str(), device_id)
            && rec.is_active(now_ms) {
            out.push(rec);
        }
        i = i + 1;
    }
    assert(all.take(n as int) =~= all);
    out
}

/// The ids of this device's markers for `game_id` among a page's decoded
/// markers (id, record), in order: the ones to delete when it stops playing.
pub open spec fn own_ids_spec(page: Seq<(u64, PlayingRecord)>, game_id: Seq<char>, device_id: Seq<char>) -> Seq<u64>
    decreases page.len(),
{
    if page.len() == 0 {
        seq![]
    } else {
        let rest = own_ids_spec(page.drop_last(), game_id, device_id);
        let (id, r) = page.last();
        if r.game_id@ == game_id && r.device_id@ == device_id {
            rest.push(id)
        } else {
            rest
        }
    }
}

/// The ids of this device's markers for `game_id` in a page, in order.
pub fn own_marker_ids(page: &Vec<(u64, PlayingRecord)>, game_id: &str, device_id: &str) -> (r: Vec<u64>)
    ensures
        r@ == own_ids_spec(page@, game_id@, device_id@),
{
    let mut out: Vec<u64> = Vec::new();
    let mut i: usize = 0;
    while i < page.len()
        invariant
            i <= page@.len(),
            out@ == own_ids_spec(page@.take(i as int), game_id@, device_id@),
        decreases page@.len() - i,
    {
        assert(page@.take(i + 1).drop_last() =~= page@.take(i as int));
        assert(page@.take(i + 1).last() == page@[i as int]);
        if str_eq(page[i].1.game_id.as_str(), game_id) && str_eq(page[i].1.device_id.as_str(), device_id) {
            out.push(page[i].0);
        }
        i = i + 1;
    }
    assert(page@.take(page@.len() as int) =~= page@);
    out
}

/// A character kept as is in a path component: alphanumeric, `-`, `_` or
/// `.`; every other character becomes `_`.
pub open spec fn safe_char(c: char) -> char {
    if char_alnum(c) || c == '-' || c == '_' || c == '.' {
        c
    } else {
        '_'
    }
}

/// Make a game id safe to use as a single filesystem path component. Real
/// ids like `steam:892970` contain `:`, which is illegal in Windows path
/// names, so any character that is not alphanumeric, `-`, `_`, or `.`
/// becomes `_`.
pub fn sanitize_component(id: &str) -> (r: String)
    ensures
        r@ == id@.map_values(|c: char| safe_char(c)),
{
    let c = chars_of(id);
    let mut out: Vec<char> = Vec::new();
    let mut i: usize = 0;
    while i < c.len()
        invariant
            i <= c@.len(),
            c@ == id@,
            out@ == c@.take(i as int).map_values(|x: char| safe_char(x)),
        decreases c@.len() - i,
    {
        let x = c[i];
        let y = if is_alphanumeric(x) || x == '-' || x == '_' || x == '.' {
            x
        } else {
            '_'
        };
        out.push(y);
        i = i + 1;
        assert(out@ =~= c@.take(i as int).map_values(|x: char| safe_char(x)));
    }
    assert(c@.take(c@.len() as int) =~= c@);
    string_from_chars(out.as_slice())
}

/// The decimal digit character for `d` (below 10).
pub open spec fn digit_char(d: nat) -> char {
    (48 + d) as char
}

/// The decimal form of `n`, without leading zeros.
pub open spec fn decimal(n: nat) -> Seq<char>
    decreases n,
{
    if n < 10 {
        seq![digit_char(n)]
    } else {
        decimal(n / 10) + seq![digit_char(n % 10)]
    }
}

/// The decimal form of `n`.
pub fn decimal_string(n: u64) -> (r: String)
    ensures
        r@ == decimal(n as nat),
{
    let mut rev: Vec<char> = Vec::new();
    let mut v: u64 = n;
    assert(rev@.reverse() =~= Seq::<char>::empty());
    assert(decimal(n as nat) =~= decimal(v as nat) + rev@.reverse());
    while v >= 10
        invariant
            decimal(n as nat) == decimal(v as nat) + rev@.reverse(),
        decreases v,
    {
        let d = (v % 10) as u8;
        let ch = (48u8 + d) as char;
        assert(ch == digit_char((v % 10) as nat));
        let ghost before = rev@;
        rev.push(ch);
        assert(rev@.reverse() =~= seq![ch] + before.reverse());
        assert(decimal(v as nat) == decimal((v / 10) as nat) + seq![ch]);
        v = v / 10;
        assert(decimal(n as nat) =~= decimal(v as nat) + rev@.reverse());
    }
    let d = v as u8;
    let ch = (48u8 + d) as char;
    assert(decimal(v as nat) == seq![ch]);
    let ghost before = rev@;
    rev.push(ch);
    assert(rev@.reverse() =~= seq![ch] + before.reverse());
    assert(decimal(n as nat) =~= rev@.reverse());
    let mut out: Vec<char> = Vec::new();
    let mut j: usize = rev.len();
    while j > 0
        invariant
            j <= rev@.len(),
            out@ == rev@.reverse().take(rev@.len() - j),
        decreases j,
    {
        out.push(rev[j - 1]);
        j = j - 1;
        assert(out@ =~= rev@.reverse().take(rev@.len() - j));
    }
    assert(rev@.reverse().take(rev@.len() as int) =~= rev@.reverse());
    string_from_chars(out.as_slice())
}

/// The name of the backup file written at `now_ms`: `<now_ms>.svpk`.
pub fn backup_file_name(now_ms: u64) -> (r: String)
    ensures
        r@ == decimal(now_ms as nat) + ".svpk"@,
{
    let mut s = decimal_string(now_ms);
    s.append(".svpk");
    s
}

/// Once a version of a game is recorded as synced here (by `applied`,
/// `pushed` or `took_remote`, which all record its number), a pull finds the
/// game up to date while that version is the latest, and a push never
/// reports a conflict against it: nothing to do when the content is that
/// version's, an upload otherwise.
pub proof fn law_sync_after_recording(s: Map<Seq<char>, u64>, game: Seq<char>, v: SaveVersion, local: Seq<char>)
    ensures
        pull_plan(s.insert(game, v.number), game, Some(v)) == PullStep::Done(
            PullOutcome::AlreadyUpToDate(v.number),
        ),
        push_plan(s.insert(game, v.number), game, local, Some(v)) == (if v.content_hash@ == local {
            PushStep::Done(PushOutcome::NoChange(v.number))
        } else {
            PushStep::Upload
        }),
{
}

/// A push never overwrites a version this device has not seen: it reports a
/// conflict exactly when the vault's latest version is not the one last
/// synced here and holds other content, and it uploads exactly when the
/// vault is empty or its latest version is the one last synced here with
/// other content.
pub proof fn law_push_never_overwrites_unseen(
    s: Map<Seq<char>, u64>,
    game: Seq<char>,
    local: Seq<char>,
    latest: Option<SaveVersion>,
)
    ensures
        (push_plan(s, game, local, latest) matches PushStep::Done(PushOutcome::Conflict { .. })) <==> (
        latest matches Some(l) && l.content_hash@ != local && synced_version(s, game) != Some(l.number)),
        (push_plan(s, game, local, latest) is Upload) <==> (latest is None || (latest matches Some(l)
            && l.content_hash@ != local && synced_version(s, game) == Some(l.number))),
{
}

/// A pull replaces the save folder exactly when the vault holds a version
/// that is not the one last synced here, and then it applies the latest.
pub proof fn law_pull_applies_only_unsynced(s: Map<Seq<char>, u64>, game: Seq<char>, latest: Option<SaveVersion>)
    ensures
        (pull_plan(s, game, latest) is Apply) <==> (latest matches Some(l) && synced_version(s, game) != Some(
            l.number,
        )),
        pull_plan(s, game, latest) matches PullStep::Apply(v) ==> latest == Some(v),
{
}

/// `r` is a marker for `game_id` posted by `device_id`.
pub open spec fn posted_by(r: PlayingRecord, game_id: Seq<char>, device_id: Seq<char>) -> bool {
    r.game_id@ == game_id && r.device_id@ == device_id
}

/// The markers deleted when this device stops playing a game are exactly
/// its own markers for that game: every id returned belongs to a marker of
/// that game posted by this device, and every such marker's id is returned.
pub proof fn law_own_marker_ids_are_this_devices_for_the_game(
    page: Seq<(u64, PlayingRecord)>,
    game_id: Seq<char>,
    device_id: Seq<char>,
)
    ensures
        forall|k: int|
            #![trigger own_ids_spec(page, game_id, device_id)[k]]
            0 <= k < own_ids_spec(page, game_id, device_id).len() ==> exists|i: int|
                0 <= i < page.len() && #[trigger] page[i].0 == own_ids_spec(page, game_id, device_id)[k]
                    && posted_by(page[i].1, game_id, device_id),
        forall|i: int|
            0 <= i < page.len() && posted_by(page[i].1, game_id, device_id)
                ==> own_ids_spec(page, game_id, device_id).contains(#[trigger] page[i].0),
    decreases page.len(),
{
    if page.len() > 0 {
        let init = page.drop_last();
        law_own_marker_ids_are_this_devices_for_the_game(init, game_id, device_id);
        let rest = own_ids_spec(init, game_id, device_id);
        let out = own_ids_spec(page, game_id, device_id);
        let n = page.len() - 1;
        assert forall|i: int| 0 <= i < init.len() implies page[i] == #[trigger] init[i] by {}
        assert forall|k: int| #![trigger out[k]] 0 <= k < out.len() implies exists|i: int|
            0 <= i < page.len() && #[trigger] page[i].0 == out[k] && page[i].1.game_id@ == game_id
                && page[i].1.device_id@ == device_id by {
            if k < rest.len() {
                assert(out[k] == rest[k]);
                let i = choose|i: int|
                    0 <= i < init.len() && #[trigger] init[i].0 == rest[k] && posted_by(init[i].1, game_id, device_id);
                assert(page[i] == init[i]);
            } else {
                assert(page.last() == page[n]);
                if posted_by(page[n].1, game_id, device_id) {
                    assert(out == rest.push(page[n].0));
                } else {
                    assert(out == rest);
                }
                assert(page[n].0 == out[k]);
            }
        }
        assert forall|i: int|
            0 <= i < page.len() && posted_by(page[i].1, game_id, device_id)
            implies out.contains(#[trigger] page[i].0) by {
            if i < n {
                assert(init[i] == page[i]);
                assert(rest.contains(init[i].0));
                let k = choose|k: int| 0 <= k < rest.len() && rest[k] == init[i].0;
                assert(out[k] == rest[k]);
            } else {
                assert(out[out.len() - 1] == page[n].0);
            }
        }
    } else {
        assert(own_ids_spec(page, game_id, device_id).len() == 0);
    }
}

} // verus!
