use salvae::config::{
    encode_invite, encode_invite_with_nonce, open_invite, random_id, AppConfig, ConfigStore, DecodedInvite, GroupConfig,
    secret_from_answer, GroupSecret, InMemorySecretStore, SecretStore, DEFAULT_MAX_VERSIONS,
};
use salvae::error::ConfigError;
use salvae::kdf::{derive_key, generate_salt, KEY_LEN};
use salvae::strmap::StrMap;

fn secret() -> GroupSecret {
    GroupSecret { token: "tok".into(), key: [7u8; KEY_LEN] }
}

#[test]
fn set_get_remove_round_trip() {
    let mut store = InMemorySecretStore::new();
    assert_eq!(store.get("g1").unwrap(), None);
    store.set("g1", secret()).unwrap();
    assert_eq!(store.get("g1").unwrap(), Some(secret()));
    store.remove("g1").unwrap();
    assert_eq!(store.get("g1").unwrap(), None);
}

#[test]
fn remove_absent_is_ok() {
    let mut store = InMemorySecretStore::new();
    assert!(store.remove("nope").is_ok());
}

#[test]
fn setting_one_group_leaves_another() {
    let mut store = InMemorySecretStore::new();
    store.set("a", secret()).unwrap();
    store.set("b", GroupSecret { token: "other".into(), key: [1u8; KEY_LEN] }).unwrap();
    store.set("a", GroupSecret { token: "new".into(), key: [2u8; KEY_LEN] }).unwrap();
    assert_eq!(store.get("a").unwrap().unwrap().token, "new");
    assert_eq!(store.get("b").unwrap().unwrap().token, "other");
}

fn group(id: &str, salt: &str) -> GroupConfig {
    GroupConfig {
        id: id.into(),
        name: "Co-op Crew".into(),
        guild_id: 111,
        channel_id: 222,
        salt: salt.into(),
        max_versions: DEFAULT_MAX_VERSIONS,
        game_paths: StrMap::new(),
    }
}

#[test]
fn salt_bytes_decodes_hex() {
    let g = group("g1", "00112233445566778899aabbccddeeff");
    assert_eq!(g.salt_bytes().unwrap().len(), 16);
    assert_eq!(g.salt_bytes().unwrap()[0], 0x00);
    assert_eq!(g.salt_bytes().unwrap()[15], 0xff);
}

#[test]
fn bad_salt_hex_is_a_serde_error() {
    match group("g1", "abc").salt_bytes() {
        Err(ConfigError::Serde(m)) => assert_eq!(m, "bad salt hex: Odd number of digits"),
        _ => panic!("expected a serde error"),
    }
}

#[test]
fn random_id_is_hex_and_unique() {
    let a = random_id(8).unwrap();
    let b = random_id(8).unwrap();
    assert_eq!(a.len(), 16);
    assert!(a.chars().all(|c| c.is_ascii_hexdigit()));
    assert_ne!(a, b);
}

fn payload(name: &str, token: &str, guild: u64, channel: u64) -> Vec<u8> {
    format!("{{\"name\":\"{name}\",\"token\":\"{token}\",\"guild_id\":{guild},\"channel_id\":{channel}}}")
        .into_bytes()
}

fn decode_invite(password: &str, invite: &str) -> Result<DecodedInvite, ConfigError> {
    let opened = open_invite(password, invite)?;
    let v: serde_json::Value = serde_json::from_slice(&opened.payload).unwrap();
    Ok(DecodedInvite {
        name: v["name"].as_str().unwrap().to_string(),
        token: v["token"].as_str().unwrap().to_string(),
        guild_id: v["guild_id"].as_u64().unwrap(),
        channel_id: v["channel_id"].as_u64().unwrap(),
        salt: opened.salt,
        key: opened.key,
    })
}

#[test]
fn encode_then_decode_recovers_info_and_key() {
    let salt = generate_salt().unwrap();
    let invite = encode_invite("group-pw", &salt, &payload("Crew", "bot-token", 111, 222)).unwrap();
    let decoded = decode_invite("group-pw", &invite).unwrap();
    assert_eq!(decoded.name, "Crew");
    assert_eq!(decoded.token, "bot-token");
    assert_eq!(decoded.guild_id, 111);
    assert_eq!(decoded.channel_id, 222);
    assert_eq!(decoded.salt, salt);
    // The decoded key equals deriving from the same password + salt.
    assert_eq!(decoded.key, derive_key("group-pw", &salt).unwrap());
}

#[test]
fn wrong_password_fails() {
    let salt = generate_salt().unwrap();
    let invite = encode_invite("right", &salt, &payload("Crew", "tok", 1, 2)).unwrap();
    assert!(matches!(decode_invite("wrong", &invite), Err(ConfigError::WrongPassword)));
}

#[test]
fn garbage_invite_is_invalid() {
    assert!(matches!(decode_invite("pw", "not base64!!!"), Err(ConfigError::Invite(_))));
    // Valid base64 but too short to contain a salt.
    match decode_invite("pw", "AQID") {
        Err(ConfigError::Invite(m)) => assert_eq!(m, "invite too short"),
        _ => panic!("expected an invalid invite"),
    }
}

fn fresh_store() -> ConfigStore<InMemorySecretStore> {
    ConfigStore::new(
        "config.toml".to_string(),
        AppConfig { device_id: "dev-abc".into(), display_name: String::new(), groups: Vec::new() },
        InMemorySecretStore::new(),
    )
}

fn create(store: &mut ConfigStore<InMemorySecretStore>, name: &str, pw: &str, token: &str, guild: u64, channel: u64) -> (GroupConfig, String) {
    let id = random_id(8).unwrap();
    let salt = generate_salt().unwrap();
    store
        .create_group(&id, &salt, name, pw, token, guild, channel, &payload(name, token, guild, channel))
        .unwrap()
}

fn join(store: &mut ConfigStore<InMemorySecretStore>, pw: &str, invite: &str) -> Result<GroupConfig, ConfigError> {
    let decoded = decode_invite(pw, invite)?;
    let id = random_id(8).unwrap();
    store.join_group(&id, decoded)
}

#[test]
fn create_group_persists_and_yields_a_working_invite() {
    let mut store = fresh_store();
    let (group, invite) = create(&mut store, "Crew", "pw123", "bot-token", 111, 222);
    assert_eq!(group.name, "Crew");
    assert_eq!(store.groups().len(), 1);

    // The group's secret is stored (token + key).
    let secret = store.group_secret(&group.id).unwrap();
    assert_eq!(secret.token, "bot-token");

    // The produced invite decodes (with the password) to the same info+key.
    let decoded = decode_invite("pw123", &invite).unwrap();
    assert_eq!(decoded.token, "bot-token");
    assert_eq!(decoded.guild_id, 111);
    assert_eq!(decoded.key, secret.key);
}

#[test]
fn join_group_from_invite_adds_group_and_secret() {
    let mut owner = fresh_store();
    let (_g, invite) = create(&mut owner, "Crew", "pw123", "bot-token", 111, 222);

    let mut friend = fresh_store();
    let joined = join(&mut friend, "pw123", &invite).unwrap();
    assert_eq!(joined.name, "Crew");
    assert_eq!(joined.guild_id, 111);
    assert_eq!(joined.channel_id, 222);
    let secret = friend.group_secret(&joined.id).unwrap();
    assert_eq!(secret.token, "bot-token");
}

#[test]
fn join_with_wrong_password_fails() {
    let mut owner = fresh_store();
    let (_g, invite) = create(&mut owner, "Crew", "right", "tok", 1, 2);
    let mut friend = fresh_store();
    assert!(matches!(join(&mut friend, "wrong", &invite), Err(ConfigError::WrongPassword)));
    assert!(friend.groups().is_empty());
}

#[test]
fn owner_and_friend_share_the_same_group_key() {
    let mut owner = fresh_store();
    let (owner_group, invite) = create(&mut owner, "Valheim Crew", "shared-secret", "BOT.TOKEN.XYZ", 9001, 9002);
    let owner_secret = owner.group_secret(&owner_group.id).unwrap();

    let mut friend = fresh_store();
    let friend_group = join(&mut friend, "shared-secret", &invite).unwrap();
    let friend_secret = friend.group_secret(&friend_group.id).unwrap();

    assert_eq!(friend_group.guild_id, 9001);
    assert_eq!(friend_group.channel_id, 9002);
    assert_eq!(friend_secret.token, owner_secret.token);
    assert_eq!(friend_secret.key, owner_secret.key);
    assert_ne!(owner_group.id, friend_group.id);
}

#[test]
fn remove_group_drops_config_and_secret() {
    let mut store = fresh_store();
    let (group, _invite) = create(&mut store, "Crew", "pw", "tok", 1, 2);
    store.remove_group(&group.id).unwrap();
    assert!(store.groups().is_empty());
    assert!(matches!(store.group_secret(&group.id), Err(ConfigError::GroupNotFound(_))));
}

#[test]
fn set_game_path_records_the_folder() {
    let mut store = fresh_store();
    let g = create(&mut store, "Crew", "pw", "tok", 1, 2).0;
    store
        .set_game_path(&g.id, "steam:892970", "C:/Users/me/AppData/LocalLow/Valheim")
        .unwrap();
    let stored = store.groups().iter().find(|x| x.id == g.id).unwrap();
    assert_eq!(
        stored.game_path("steam:892970").as_deref(),
        Some("C:/Users/me/AppData/LocalLow/Valheim")
    );
}

#[test]
fn set_game_path_for_unknown_group_errors() {
    let mut store = fresh_store();
    assert!(matches!(
        store.set_game_path("nope", "steam:1", "C:/x"),
        Err(ConfigError::GroupNotFound(_))
    ));
}

#[test]
fn device_id_and_path_are_kept() {
    let store = fresh_store();
    assert_eq!(store.device_id(), "dev-abc");
    assert_eq!(store.config_path(), "config.toml");
}

#[test]
fn secret_from_the_store_answer() {
    let s = GroupSecret { token: "tok".to_string(), key: [3u8; 32] };
    match secret_from_answer("g1", Ok(Some(s))) {
        Ok(got) => {
            assert_eq!(got.token, "tok");
            assert_eq!(got.key, [3u8; 32]);
        }
        Err(_) => panic!("expected the stored secret"),
    }
    match secret_from_answer("g1", Ok(None)) {
        Err(ConfigError::GroupNotFound(g)) => assert_eq!(g, "g1"),
        _ => panic!("expected GroupNotFound"),
    }
    match secret_from_answer("g1", Err(ConfigError::Secret("locked".to_string()))) {
        Err(ConfigError::Secret(m)) => assert_eq!(m, "locked"),
        _ => panic!("expected the store's error"),
    }
}

#[test]
fn salt_hex_accepts_either_case_and_refuses_other_characters() {
    assert_eq!(group("g1", "0aFf").salt_bytes().unwrap(), vec![0x0a, 0xff]);
    assert!(group("g1", "").salt_bytes().unwrap().is_empty());
    match group("g1", "zz").salt_bytes() {
        Err(ConfigError::Serde(m)) => assert_eq!(m, "bad salt hex: Invalid character 'z' at position 0"),
        _ => panic!("expected a serde error"),
    }
}

#[test]
fn invite_with_a_given_nonce_is_exact_and_opens() {
    let salt = [1u8; 16];
    let nonce = [2u8; 12];
    let body = payload("Crew", "tok", 1, 2);
    let a = encode_invite_with_nonce("pw", &salt, &nonce, &body).unwrap();
    assert_eq!(a, encode_invite_with_nonce("pw", &salt, &nonce, &body).unwrap());
    let opened = open_invite("pw", &a).unwrap();
    assert_eq!(opened.payload, body);
    assert_eq!(opened.salt, salt.to_vec());

    let mut store = fresh_store();
    let (g, invite) = store
        .create_group_with_nonce("id1", &salt, &nonce, "Crew", "pw", "tok", 1, 2, &body)
        .unwrap();
    assert_eq!(invite, a);
    assert_eq!(g.id, "id1");
    assert_eq!(store.groups().len(), 1);
    assert_eq!(store.group_secret("id1").unwrap().token, "tok");
}
