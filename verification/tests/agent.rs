use salvae::agent::{
    close_step, member_names, persists_after_close, poll_targets, resolve_game, was_applied, AgentOutcome,
    CloseStep,
};
use salvae::config::{GroupConfig, DEFAULT_MAX_VERSIONS};
use salvae::engine::{PullOutcome, PushOutcome};
use salvae::marker::{PlayingRecord, PLAYING_MARKER};
use salvae::strmap::StrMap;
use salvae::version::SaveVersion;

fn group(id: &str, paths: &[(&str, &str)]) -> GroupConfig {
    let mut game_paths = StrMap::new();
    for (g, p) in paths {
        game_paths.insert(g.to_string(), p.to_string());
    }
    GroupConfig {
        id: id.into(),
        name: "Crew".into(),
        guild_id: 1,
        channel_id: 2,
        salt: "00".into(),
        max_versions: DEFAULT_MAX_VERSIONS,
        game_paths,
    }
}

#[test]
fn resolve_finds_configured_game_and_folder() {
    let groups = vec![group("g0", &[]), group("g1", &[("steam:1", "/saves/valheim")])];
    assert_eq!(resolve_game(&groups, "steam:1"), Some((1, "/saves/valheim".to_string())));
    assert_eq!(resolve_game(&groups, "steam:999"), None);
}

#[test]
fn first_configured_group_wins() {
    let groups = vec![group("a", &[("steam:1", "/a")]), group("b", &[("steam:1", "/b")])];
    assert_eq!(resolve_game(&groups, "steam:1"), Some((0, "/a".to_string())));
}

fn version(n: u64) -> SaveVersion {
    SaveVersion {
        number: n,
        content_hash: "h".into(),
        created_at_ms: 0,
        author: "a".into(),
        device_id: "d".into(),
        size_bytes: 0,
        chunk_count: 1,
    }
}

#[test]
fn close_surfaces_conflict_without_overwriting() {
    assert!(!persists_after_close(&PushOutcome::Conflict { remote: version(2) }));
    assert!(persists_after_close(&PushOutcome::NoChange(1)));
    assert!(persists_after_close(&PushOutcome::Pushed(version(3))));
    let outcome = AgentOutcome::Closed { push: PushOutcome::Conflict { remote: version(2) } };
    assert!(matches!(outcome, AgentOutcome::Closed { push: PushOutcome::Conflict { .. } }));
}

#[test]
fn poll_reports_only_applied_pulls() {
    assert!(was_applied(&PullOutcome::Applied(version(1))));
    assert!(!was_applied(&PullOutcome::AlreadyUpToDate(1)));
    assert!(!was_applied(&PullOutcome::NoRemoteSave));
}

#[test]
fn others_playing_are_reported_by_name() {
    let r = |m: &str| PlayingRecord {
        marker: PLAYING_MARKER.into(),
        game_id: "g".into(),
        member: m.into(),
        device_id: "d".into(),
        expires_at_ms: 1,
    };
    assert_eq!(member_names(&vec![r("Milana"), r("Gabriel")]), vec!["Milana", "Gabriel"]);
}

#[test]
fn poll_remote_skips_a_currently_running_game() {
    let g = group("g1", &[("steam:1", "/saves/a"), ("steam:2", "/saves/b"), ("epic:x", "/saves/c")]);
    let running = vec!["steam:1".to_string()];
    assert_eq!(
        poll_targets(&g, &running),
        vec![
            ("epic:x".to_string(), "/saves/c".to_string()),
            ("steam:2".to_string(), "/saves/b".to_string()),
        ]
    );
    assert_eq!(poll_targets(&g, &Vec::new()).len(), 3);
    assert!(poll_targets(&group("g2", &[]), &running).is_empty());
}

#[test]
fn close_with_missing_folder_is_no_folder() {
    assert_eq!(close_step(false), CloseStep::NoFolder);
    assert_eq!(close_step(true), CloseStep::Push);
}
