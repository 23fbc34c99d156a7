use salvae::chunk::{join, split};
use salvae::engine::{
    applied, backup_file_name, find_version, others_playing, own_marker_ids, page_is_full,
    playing_record, pull_step, push_local_step, push_step, pushed, sanitize_component,
    take_remote_target, took_remote, PullOutcome, PullStep, PushOutcome, PushStep, PLAYING_TTL_MS,
};
use salvae::error::{SyncError, VaultError};
use salvae::hash::content_hash;
use salvae::seal::{open, seal};
use salvae::marker::{PlayingRecord, PLAYING_MARKER};
use salvae::pack::{encode_pack, is_unsafe_path, pack_files, sort_files, unpack_entries};
use salvae::sync_state::SyncState;
use salvae::version::SaveVersion;

fn files(list: &[(&str, &[u8])]) -> Vec<(String, Vec<u8>)> {
    list.iter().map(|(p, d)| (p.to_string(), d.to_vec())).collect()
}

#[test]
fn pack_then_unpack_reproduces_files() {
    let blob = pack_files(files(&[("world.db", b"main save"), ("meta/info.txt", b"v=3")]));
    let out = unpack_entries(&blob);
    assert!(out.error.is_none());
    assert_eq!(out.files, files(&[("meta/info.txt", b"v=3"), ("world.db", b"main save")]));
}

#[test]
fn packing_is_deterministic() {
    let first = pack_files(files(&[("b.txt", b"bbb"), ("a.txt", b"aaa"), ("sub/c.txt", b"ccc")]));
    let second = pack_files(files(&[("sub/c.txt", b"ccc"), ("a.txt", b"aaa"), ("b.txt", b"bbb")]));
    assert_eq!(first, second);
}

#[test]
fn pack_format_is_exact() {
    let blob = encode_pack(&files(&[("a", b"xy")]));
    let mut want = b"SVPK1\n".to_vec();
    want.extend_from_slice(&1u32.to_le_bytes());
    want.extend_from_slice(&1u32.to_le_bytes());
    want.extend_from_slice(b"a");
    want.extend_from_slice(&2u64.to_le_bytes());
    want.extend_from_slice(b"xy");
    assert_eq!(blob, want);
}

#[test]
fn sort_is_by_path_bytes_and_stable() {
    let sorted = sort_files(files(&[("b", b"1"), ("B", b"2"), ("a", b"3"), ("b", b"4")]));
    let paths: Vec<(&str, &[u8])> = sorted.iter().map(|(p, d)| (p.as_str(), d.as_slice())).collect();
    assert_eq!(paths, vec![("B", &b"2"[..]), ("a", &b"3"[..]), ("b", &b"1"[..]), ("b", &b"4"[..])]);
}

#[test]
fn bad_magic_is_rejected() {
    let out = unpack_entries(b"NOPE");
    assert!(out.files.is_empty());
    assert!(matches!(out.error, Some(SyncError::Pack(_))));
}

#[test]
fn path_traversal_is_rejected() {
    // Hand-craft a blob with one entry whose path escapes the destination.
    let mut blob = Vec::new();
    blob.extend_from_slice(b"SVPK1\n");
    blob.extend_from_slice(&1u32.to_le_bytes());
    let evil = b"../escape.txt";
    blob.extend_from_slice(&(evil.len() as u32).to_le_bytes());
    blob.extend_from_slice(evil);
    blob.extend_from_slice(&3u64.to_le_bytes());
    blob.extend_from_slice(b"bad");

    let out = unpack_entries(&blob);
    assert!(out.files.is_empty());
    match out.error {
        Some(SyncError::Pack(m)) => assert_eq!(m, "unsafe path in archive: \"../escape.txt\""),
        _ => panic!("expected a pack error"),
    }
}

#[test]
fn truncated_archive_keeps_earlier_entries() {
    let mut blob = encode_pack(&files(&[("a", b"1"), ("b", b"22")]));
    blob.truncate(blob.len() - 1);
    let out = unpack_entries(&blob);
    assert_eq!(out.files, files(&[("a", b"1")]));
    match out.error {
        Some(SyncError::Pack(m)) => assert_eq!(m, "unexpected end of archive"),
        _ => panic!("expected a pack error"),
    }
}

#[test]
fn unsafe_paths() {
    assert!(is_unsafe_path("/etc/passwd"));
    assert!(is_unsafe_path("a/../b"));
    assert!(is_unsafe_path(".."));
    assert!(!is_unsafe_path("a/..b/c"));
    assert!(!is_unsafe_path("./a"));
}

#[test]
fn windows_escapes_are_unsafe() {
    assert!(is_unsafe_path("..\\escape.txt"));
    assert!(is_unsafe_path("sub\\..\\..\\x"));
    assert!(is_unsafe_path("a/..\\b"));
    assert!(is_unsafe_path("C:\\x"));
    assert!(is_unsafe_path("C:/x"));
    assert!(is_unsafe_path("C:..\\x"));
    assert!(is_unsafe_path("\\\\server\\share\\x"));
    assert!(!is_unsafe_path("saves\\slot1.sav"));
    assert!(!is_unsafe_path("a..\\b"));
    // Neither absolute nor with a `..` component, on Unix or on Windows.
    assert!(!is_unsafe_path("c:x"));
    assert!(!is_unsafe_path("a:b"));
    assert!(!is_unsafe_path("\\x"));
    assert!(!is_unsafe_path("1:x"));
}

#[test]
fn windows_path_traversal_is_rejected() {
    let mut blob = Vec::new();
    blob.extend_from_slice(b"SVPK1\n");
    blob.extend_from_slice(&1u32.to_le_bytes());
    let evil = b"..\\escape.txt";
    blob.extend_from_slice(&(evil.len() as u32).to_le_bytes());
    blob.extend_from_slice(evil);
    blob.extend_from_slice(&3u64.to_le_bytes());
    blob.extend_from_slice(b"bad");
    let out = unpack_entries(&blob);
    assert!(out.files.is_empty());
    assert!(matches!(out.error, Some(SyncError::Pack(_))));
}

#[test]
fn get_set_round_trip() {
    let mut s = SyncState::default();
    assert_eq!(s.get("g1"), None);
    s.set("g1", 5);
    assert_eq!(s.get("g1"), Some(5));
}

#[test]
fn set_replaces_and_entries_are_sorted() {
    let mut s = SyncState::new();
    s.set("zeta", 1);
    s.set("alpha", 2);
    s.set("zeta", 3);
    assert_eq!(s.entries(), vec![("alpha".to_string(), 2), ("zeta".to_string(), 3)]);
    let back = SyncState::from_entries(vec![("x".into(), 1), ("x".into(), 9)]);
    assert_eq!(back.get("x"), Some(9));
}

fn rec(expires: u64) -> PlayingRecord {
    PlayingRecord {
        marker: PLAYING_MARKER.into(),
        game_id: "valheim".into(),
        member: "Gabriel".into(),
        device_id: "dev-1".into(),
        expires_at_ms: expires,
    }
}

const KEY: [u8; 32] = [6u8; 32];

fn json_of(r: &PlayingRecord) -> Vec<u8> {
    format!(
        "{{\"marker\":\"{}\",\"game_id\":\"{}\",\"member\":\"{}\",\"device_id\":\"{}\",\"expires_at_ms\":{}}}",
        r.marker, r.game_id, r.member, r.device_id, r.expires_at_ms
    )
    .into_bytes()
}

#[test]
fn active_until_expiry() {
    let r = rec(1000);
    assert!(r.is_active(999));
    assert!(!r.is_active(1000));
    assert!(!r.is_active(1001));
}

#[test]
fn encode_then_decode_round_trips() {
    let r = rec(5000);
    let json = json_of(&r);
    let content = r.encode(&KEY, "Valheim", &json).unwrap();
    assert_eq!(PlayingRecord::decode_payload(&content, &KEY).unwrap(), json);
    assert!(PlayingRecord::accept(r).is_some());
}

#[test]
fn encoded_message_is_friendly_and_hides_the_marker() {
    let r = rec(5000);
    let content = r.encode(&KEY, "Valheim", &json_of(&r)).unwrap();
    assert!(content.starts_with("Gabriel está jogando: Valheim"));
    assert!(!content.contains("salvae-playing-v1"));
    let untitled = r.encode(&KEY, "", &json_of(&r)).unwrap();
    assert!(untitled.starts_with("Gabriel está jogando: valheim\n\nSeed: "));
}

#[test]
fn decode_rejects_other_messages() {
    assert!(PlayingRecord::decode_payload("hello chat", &KEY).is_none());
    assert!(PlayingRecord::decode_payload("Seed: garbage!!", &KEY).is_none());
    // A valid token sealed with another key is not readable.
    let r = rec(5000);
    let content = r.encode(&KEY, "Valheim", &json_of(&r)).unwrap();
    assert!(PlayingRecord::decode_payload(&content, &[0u8; 32]).is_none());
    let mut other = rec(1);
    other.marker = "something-else".into();
    assert!(PlayingRecord::accept(other).is_none());
}

fn version(number: u64, hash: &str) -> SaveVersion {
    SaveVersion {
        number,
        content_hash: hash.into(),
        created_at_ms: 100,
        author: "owner".into(),
        device_id: "dev-owner".into(),
        size_bytes: 10,
        chunk_count: 1,
    }
}

#[test]
fn pull_no_remote_save() {
    let state = SyncState::new();
    assert!(matches!(pull_step(&state, "valheim", None), PullStep::Done(PullOutcome::NoRemoteSave)));
}

#[test]
fn pull_applies_then_is_up_to_date() {
    let mut state = SyncState::new();
    let step = pull_step(&state, "valheim", Some(version(1, "h1")));
    let v = match step {
        PullStep::Apply(v) => v,
        _ => panic!("expected to apply"),
    };
    assert!(matches!(applied(&mut state, "valheim", v), PullOutcome::Applied(x) if x.number == 1));
    assert!(matches!(
        pull_step(&state, "valheim", Some(version(1, "h1"))),
        PullStep::Done(PullOutcome::AlreadyUpToDate(1))
    ));
}

#[test]
fn push_creates_first_version_then_detects_conflict() {
    let mut state = SyncState::new();
    assert!(matches!(push_step(&mut state, "valheim", "local-1", None), PushStep::Upload));
    assert!(matches!(pushed(&mut state, "valheim", version(1, "local-1")), PushOutcome::Pushed(_)));
    // Same content again: nothing to upload.
    assert!(matches!(
        push_step(&mut state, "valheim", "local-1", Some(version(1, "local-1"))),
        PushStep::Done(PushOutcome::NoChange(1))
    ));
    // Our own newer content over the version we synced: upload.
    assert!(matches!(push_step(&mut state, "valheim", "local-2", Some(version(1, "local-1"))), PushStep::Upload));
    // A teammate pushed version 2 meanwhile: conflict, state untouched.
    match push_step(&mut state, "valheim", "local-3", Some(version(2, "theirs"))) {
        PushStep::Done(PushOutcome::Conflict { remote }) => assert_eq!(remote.number, 2),
        _ => panic!("expected a conflict"),
    }
    assert_eq!(state.get("valheim"), Some(1));
}

#[test]
fn resolve_steps() {
    let mut state = SyncState::new();
    assert!(matches!(push_local_step(&mut state, "g", "h", Some(version(4, "other"))), PushStep::Upload));
    assert!(matches!(
        push_local_step(&mut state, "g", "same", Some(version(4, "same"))),
        PushStep::Done(PushOutcome::NoChange(4))
    ));
    assert!(matches!(take_remote_target(None), Err(SyncError::Vault(VaultError::NotFound))));
    let v = take_remote_target(Some(version(7, "x"))).unwrap();
    assert!(matches!(took_remote(&mut state, "g", &v), PushOutcome::NoChange(7)));
    assert_eq!(state.get("g"), Some(7));
}

#[test]
fn restore_missing_version_is_not_found() {
    let versions = vec![version(1, "a"), version(2, "b")];
    assert_eq!(find_version(&versions, 2).unwrap().content_hash, "b");
    assert!(matches!(find_version(&versions, 9), Err(SyncError::Vault(VaultError::NotFound))));
}

#[test]
fn who_is_playing_excludes_self() {
    let mut mine = rec(5000);
    mine.device_id = "me".into();
    let mut stale = rec(100);
    stale.device_id = "other".into();
    let mut theirs = rec(5000);
    theirs.device_id = "other".into();
    let mut other_game = rec(5000);
    other_game.game_id = "terraria".into();
    other_game.device_id = "other".into();
    let out = others_playing(vec![mine, stale, theirs, other_game], "valheim", "me", 1000);
    assert_eq!(out.len(), 1);
    assert_eq!(out[0].device_id, "other");
    assert_eq!(out[0].expires_at_ms, 5000);
}

#[test]
fn own_markers_are_found_for_deletion() {
    let mut mine = rec(5000);
    mine.device_id = "me".into();
    let page = vec![(10u64, mine), (11u64, rec(5000))];
    assert_eq!(own_marker_ids(&page, "valheim", "me"), vec![10]);
    assert!(page_is_full(100));
    assert!(!page_is_full(99));
}

#[test]
fn playing_record_expires_after_ttl() {
    let r = playing_record("valheim", "Gabriel", "dev-1", 1_000);
    assert_eq!(r.marker, PLAYING_MARKER);
    assert_eq!(r.expires_at_ms, 1_000 + PLAYING_TTL_MS);
    assert_eq!(PLAYING_TTL_MS, 600_000);
}

#[test]
fn backup_names_are_safe_path_components() {
    assert_eq!(sanitize_component("steam:892970"), "steam_892970");
    assert_eq!(sanitize_component("a-b_c.d/é"), "a-b_c.d_é");
    assert_eq!(backup_file_name(1234), "1234.svpk");
    assert_eq!(backup_file_name(0), "0.svpk");
}

/// The playing markers of a channel's messages (id, content) readable with `KEY`.
fn markers_in(channel: &[(u64, String)]) -> Vec<(u64, PlayingRecord)> {
    let mut out = Vec::new();
    for (id, content) in channel {
        let Some(bytes) = PlayingRecord::decode_payload(content, &KEY) else { continue };
        let v: serde_json::Value = serde_json::from_slice(&bytes).unwrap();
        let rec = PlayingRecord {
            marker: v["marker"].as_str().unwrap().into(),
            game_id: v["game_id"].as_str().unwrap().into(),
            member: v["member"].as_str().unwrap().into(),
            device_id: v["device_id"].as_str().unwrap().into(),
            expires_at_ms: v["expires_at_ms"].as_u64().unwrap(),
        };
        if let Some(r) = PlayingRecord::accept(rec) {
            out.push((*id, r));
        }
    }
    out
}

fn playing_seen_by_me(channel: &[(u64, String)], now_ms: u64) -> Vec<PlayingRecord> {
    let records = markers_in(channel).into_iter().map(|(_, r)| r).collect();
    others_playing(records, "valheim", "dev-me", now_ms)
}

#[test]
fn marker_lifecycle_across_two_members() {
    let mut channel: Vec<(u64, String)> = vec![(1, "unrelated chat".to_string())];
    // Friend starts playing at t=1000 (marker active until 1000 + TTL).
    let friend = playing_record("valheim", "friend", "dev-friend", 1000);
    channel.push((2, friend.encode(&KEY, "Valheim", &json_of(&friend)).unwrap()));

    // I see the friend playing (and not myself).
    let playing = playing_seen_by_me(&channel, 1000);
    assert_eq!(playing.len(), 1);
    assert_eq!(playing[0].member, "friend");

    // After the TTL, the marker is no longer active.
    assert!(playing_seen_by_me(&channel, 1000 + PLAYING_TTL_MS).is_empty());

    // Friend stops; their marker is removed.
    let ids = own_marker_ids(&markers_in(&channel), "valheim", "dev-friend");
    assert_eq!(ids, vec![2]);
    channel.retain(|(id, _)| !ids.contains(id));
    assert!(playing_seen_by_me(&channel, 1000).is_empty());
    assert_eq!(channel.len(), 1);
}

/// A vault kept in memory: each stored version with the sealed chunks of its
/// packed folder.
struct Vault {
    versions: Vec<(SaveVersion, Vec<Vec<u8>>)>,
}

const GROUP_KEY: [u8; 32] = [7u8; 32];

impl Vault {
    fn latest(&self) -> Option<SaveVersion> {
        self.versions.last().map(|(v, _)| v.copy())
    }

    /// One push of `files` by `author`, as the engine's steps direct it.
    fn push(&mut self, state: &mut SyncState, files: &[(&str, &[u8])], author: &str, now_ms: u64) -> PushOutcome {
        let packed = pack_files(self::files(files));
        let hash = content_hash(&packed);
        match push_step(state, "valheim", &hash, self.latest()) {
            PushStep::Done(outcome) => outcome,
            PushStep::Upload => {
                let chunks = split(&seal(&GROUP_KEY, &packed).unwrap(), 64).unwrap();
                let version = SaveVersion {
                    number: self.versions.len() as u64 + 1,
                    content_hash: hash,
                    created_at_ms: now_ms,
                    author: author.into(),
                    device_id: format!("dev-{author}"),
                    size_bytes: packed.len() as u64,
                    chunk_count: chunks.len() as u32,
                };
                self.versions.push((version.copy(), chunks));
                pushed(state, "valheim", version)
            }
        }
    }

    /// The files of a stored version.
    fn download(&self, v: &SaveVersion) -> Vec<(String, Vec<u8>)> {
        let chunks = &self.versions[(v.number - 1) as usize].1;
        let packed = open(&GROUP_KEY, &join(chunks)).unwrap();
        let unpacked = unpack_entries(&packed);
        assert!(unpacked.error.is_none());
        unpacked.files
    }

    /// One pull, as the engine's steps direct it: the outcome and the files
    /// written, if any.
    fn pull(&self, state: &mut SyncState) -> (PullOutcome, Option<Vec<(String, Vec<u8>)>>) {
        match pull_step(state, "valheim", self.latest()) {
            PullStep::Done(outcome) => (outcome, None),
            PullStep::Apply(v) => {
                let written = self.download(&v);
                (applied(state, "valheim", v), Some(written))
            }
        }
    }
}

#[test]
fn coop_session_round_trip_and_conflict() {
    let mut vault = Vault { versions: Vec::new() };

    // Owner hosts day 1 and pushes.
    let mut owner = SyncState::new();
    let day1: &[(&str, &[u8])] = &[("world.db", b"day 1 progress")];
    assert!(matches!(vault.push(&mut owner, day1, "Gabriel", 1_000), PushOutcome::Pushed(v) if v.number == 1));

    // Friend pulls the latest before hosting.
    let mut friend = SyncState::new();
    let (outcome, written) = vault.pull(&mut friend);
    assert!(matches!(outcome, PullOutcome::Applied(v) if v.number == 1));
    assert_eq!(written.unwrap(), files(day1));

    // Friend advances the save and pushes v2.
    let day2: &[(&str, &[u8])] = &[("world.db", b"day 2 progress")];
    assert!(matches!(vault.push(&mut friend, day2, "Ana", 2_500), PushOutcome::Pushed(v) if v.number == 2));

    // Owner (still on v1) edits and tries to push: conflict.
    let diverged: &[(&str, &[u8])] = &[("world.db", b"owner diverged")];
    assert!(matches!(
        vault.push(&mut owner, diverged, "Gabriel", 3_000),
        PushOutcome::Conflict { remote } if remote.number == 2
    ));
    assert_eq!(owner.get("valheim"), Some(1));

    // Owner takes the remote: local now holds the friend's day-2 save.
    let target = take_remote_target(vault.latest()).unwrap();
    assert_eq!(vault.download(&target), files(day2));
    assert!(matches!(took_remote(&mut owner, "valheim", &target), PushOutcome::NoChange(2)));

    // Both are now in sync: nothing to pull, nothing new to push.
    assert!(matches!(vault.pull(&mut owner).0, PullOutcome::AlreadyUpToDate(2)));
    assert!(matches!(vault.push(&mut owner, day2, "Gabriel", 3_200), PushOutcome::NoChange(2)));
}

#[test]
fn marker_with_a_given_nonce_is_exact() {
    let r = rec(5000);
    let nonce = [3u8; 12];
    let a = r.encode_with_nonce(&KEY, &nonce, "Valheim", &json_of(&r)).unwrap();
    assert_eq!(a, r.encode_with_nonce(&KEY, &nonce, "Valheim", &json_of(&r)).unwrap());
    let token = salvae::seed::seal_to_token_with_nonce(&KEY, &nonce, &json_of(&r)).unwrap();
    assert_eq!(a, format!("Gabriel está jogando: Valheim\n\nSeed: {token}"));
    assert_eq!(PlayingRecord::decode_payload(&a, &KEY).unwrap(), json_of(&r));
}
