use salvae::discord::{
    attachment_url, on_status, parse_guilds, parse_me, parse_message, parse_messages,
    parse_snowflake, parse_text_channels, AttachmentRef, Json, RetryAction,
};
use salvae::error::VaultError;

fn s(x: &str) -> Json {
    Json::Str(x.to_string())
}

fn obj(fields: Vec<(&str, Json)>) -> Json {
    Json::Object(fields.into_iter().map(|(k, v)| (k.to_string(), v)).collect())
}

fn msg_json() -> Json {
    obj(vec![
        ("id", s("100")),
        ("content", s("the header")),
        (
            "attachments",
            Json::Array(vec![obj(vec![
                ("id", s("9001")),
                ("filename", s("chunk_0.bin")),
                ("url", s("https://cdn.example/chunk_0.bin?ex=abc")),
            ])]),
        ),
    ])
}

#[test]
fn parses_a_message_with_attachments() {
    let m = parse_message(&msg_json()).unwrap();
    assert_eq!(m.id, 100);
    assert_eq!(m.content, "the header");
    assert_eq!(
        m.attachments,
        vec![AttachmentRef { id: 9001, filename: "chunk_0.bin".into() }]
    );
}

#[test]
fn parses_an_array_of_messages() {
    let arr = Json::Array(vec![
        obj(vec![("id", s("2")), ("content", s("b")), ("attachments", Json::Array(vec![]))]),
        obj(vec![("id", s("1")), ("content", s("a")), ("attachments", Json::Array(vec![]))]),
    ]);
    let msgs = parse_messages(&arr).unwrap();
    assert_eq!(msgs.len(), 2);
    assert_eq!(msgs[0].id, 2);
    assert_eq!(msgs[1].id, 1);
}

#[test]
fn missing_or_bad_id_is_a_transport_error() {
    assert!(matches!(parse_snowflake("not-a-number"), Err(VaultError::Transport(_))));
    let bad = obj(vec![("content", s("x")), ("attachments", Json::Array(vec![]))]);
    assert!(matches!(parse_message(&bad), Err(VaultError::Transport(_))));
}

#[test]
fn snowflakes_parse_like_u64() {
    assert_eq!(parse_snowflake("18446744073709551615").unwrap(), u64::MAX);
    assert_eq!(parse_snowflake("+42").unwrap(), 42);
    assert!(parse_snowflake("18446744073709551616").is_err());
    assert!(parse_snowflake("").is_err());
    assert!(parse_snowflake("+").is_err());
    assert!(parse_snowflake("-1").is_err());
    match parse_snowflake("x1") {
        Err(VaultError::Transport(m)) => assert_eq!(m, "invalid Discord id: \"x1\""),
        _ => panic!("expected a transport error"),
    }
}

#[test]
fn parse_messages_requires_an_array() {
    let not_array = obj(vec![("id", s("1"))]);
    assert!(matches!(parse_messages(&not_array), Err(VaultError::Transport(_))));
}

#[test]
fn message_defaults_and_attachment_errors() {
    let bare = obj(vec![("id", s("5"))]);
    let m = parse_message(&bare).unwrap();
    assert_eq!(m.content, "");
    assert!(m.attachments.is_empty());
    let bad_att = obj(vec![("id", s("5")), ("attachments", Json::Array(vec![obj(vec![("filename", s("x"))])]))]);
    match parse_message(&bad_att) {
        Err(VaultError::Transport(t)) => assert_eq!(t, "attachment JSON missing string `id`"),
        _ => panic!("expected a transport error"),
    }
}

#[test]
fn attachment_url_looks_up_by_filename() {
    let v = msg_json();
    assert_eq!(
        attachment_url(&v, "chunk_0.bin").as_deref(),
        Some("https://cdn.example/chunk_0.bin?ex=abc")
    );
    assert_eq!(attachment_url(&v, "missing.bin"), None);
}

#[test]
fn parse_me_reads_id_and_username() {
    let me = parse_me(&obj(vec![("id", s("77")), ("username", s("salvae-bot"))])).unwrap();
    assert_eq!(me.id, 77);
    assert_eq!(me.name, "salvae-bot");
    assert!(matches!(parse_me(&obj(vec![("username", s("x"))])), Err(VaultError::Transport(_))));
}

#[test]
fn parse_guilds_reads_id_and_name() {
    let v = Json::Array(vec![obj(vec![("id", s("1")), ("name", s("Crew"))]), obj(vec![("id", s("2"))])]);
    let gs = parse_guilds(&v).unwrap();
    assert_eq!(gs.len(), 2);
    assert_eq!(gs[0].id, 1);
    assert_eq!(gs[0].name, "Crew");
    assert_eq!(gs[1].name, "");
}

#[test]
fn parse_guilds_requires_an_array() {
    match parse_guilds(&obj(vec![])) {
        Err(VaultError::Transport(t)) => assert_eq!(t, "expected a JSON array of guilds"),
        _ => panic!("expected a transport error"),
    }
}

#[test]
fn parse_text_channels_keeps_only_text() {
    let v = Json::Array(vec![
        obj(vec![("id", s("10")), ("type", Json::Number(Some(0))), ("name", s("saves"))]),
        obj(vec![("id", s("11")), ("type", Json::Number(Some(2))), ("name", s("voice"))]),
        obj(vec![("type", Json::Number(Some(4)))]),
        obj(vec![("id", s("12")), ("name", s("untyped"))]),
    ]);
    let cs = parse_text_channels(&v).unwrap();
    assert_eq!(cs.len(), 1);
    assert_eq!(cs[0].id, 10);
    assert_eq!(cs[0].name, "saves");
}

#[test]
fn maps_404_to_not_found_without_retry() {
    assert!(matches!(on_status(0, 3, 404, false), RetryAction::Fail(VaultError::NotFound)));
}

#[test]
fn maps_other_status_to_transport_without_retry() {
    match on_status(0, 3, 500, false) {
        RetryAction::Fail(VaultError::Transport(m)) => assert_eq!(m, "Discord returned HTTP 500"),
        _ => panic!("expected a transport error"),
    }
}

#[test]
fn retries_on_429_then_gives_up() {
    assert!(matches!(on_status(0, 3, 429, true), RetryAction::Retry { attempts: 1 }));
    assert!(matches!(on_status(2, 3, 429, true), RetryAction::Retry { attempts: 3 }));
    match on_status(3, 3, 429, true) {
        RetryAction::Fail(VaultError::Transport(m)) => assert_eq!(m, "Discord returned HTTP 429"),
        _ => panic!("expected to give up"),
    }
}

/// Run scripted responses (success, or a status code and whether it asks for
/// a delay) through `on_status` the way the request loop does; the outcome
/// and how many calls were made.
fn drive(max_retries: u32, script: &[Result<(), (u16, bool)>]) -> (Result<(), VaultError>, usize) {
    let mut attempts = 0u32;
    let mut calls = 0usize;
    loop {
        let step = script[calls.min(script.len() - 1)];
        calls += 1;
        match step {
            Ok(()) => return (Ok(()), calls),
            Err((code, has_delay)) => match on_status(attempts, max_retries, code, has_delay) {
                RetryAction::Retry { attempts: next } => attempts = next,
                RetryAction::Fail(e) => return (Err(e), calls),
            },
        }
    }
}

#[test]
fn returns_ok_on_first_success() {
    let (r, calls) = drive(3, &[Ok(())]);
    assert!(r.is_ok());
    assert_eq!(calls, 1);
}

#[test]
fn retries_on_429_then_succeeds() {
    let (r, calls) = drive(3, &[Err((429, true)), Ok(())]);
    assert!(r.is_ok());
    assert_eq!(calls, 2);
}

#[test]
fn gives_up_after_max_retries_on_persistent_429() {
    let (r, calls) = drive(2, &[Err((429, true))]);
    assert!(matches!(r, Err(VaultError::Transport(_))));
    assert_eq!(calls, 3);
}
