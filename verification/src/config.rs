//! Local configuration: groups (non-secret settings), their secrets (bot
//! token and group key), the store tying them together, and invites.
//!
//! Reading and writing `config.toml`, the JSON of invite payloads and the
//! platform secret store are the application's part.
use vstd::prelude::*;

use crate::cipher::{decrypt, encrypt, encrypt_with_nonce, encrypts, gcm_max_plaintext, sealed_with, NONCE_LEN};
use crate::error::{ConfigError, CoreError, copy_str, prefixed};
use crate::kdf::{argon2_accepts, argon2_refusal, argon2id_key, derive_key};
use crate::cipher::os_random;
use crate::chunk::copy_range;
use crate::seed::{base64_decode, base64_decoded, base64_encode, base64_encoded};
use crate::strmap::StrMap;
use crate::text::{chars_of, str_eq, string_from_chars, trim_chars, trim_spec};
use vstd::utf8::encode_utf8;

verus! {

/// Default number of save versions to retain per game.
pub const DEFAULT_MAX_VERSIONS: usize = 10;

/// The lowercase hexadecimal digit for `n` (below 16).
pub open spec fn hex_digit(n: nat) -> char {
    if n < 10 {
        (48 + n) as char
    } else {
        (87 + n) as char
    }
}

/// Lowercase hex of `b`, two digits per byte, high nibble first.
pub open spec fn hex_spec(b: Seq<u8>) -> Seq<char>
    decreases b.len(),
{
    if b.len() == 0 {
        seq![]
    } else {
        seq![hex_digit((b[0] / 16) as nat), hex_digit((b[0] % 16) as nat)] + hex_spec(b.drop_first())
    }
}

/// The value of a hexadecimal digit, in either case, if `c` is one.
pub open spec fn hex_value(c: char) -> Option<int> {
    if '0' <= c && c <= '9' {
        Some(c as int - 48)
    } else if 'a' <= c && c <= 'f' {
        Some(c as int - 87)
    } else if 'A' <= c && c <= 'F' {
        Some(c as int - 55)
    } else {
        None
    }
}

/// What `hex::decode` gives back when it succeeds: for text of an even
/// number of hexadecimal digits (either case), the byte of each pair, high
/// digit first; for any other text, nothing (it fails).
pub open spec fn hex_bytes(text: Seq<char>) -> Option<Seq<u8>> {
    if text.len() % 2 == 0 && forall|i: int| 0 <= i < text.len() ==> #[trigger] hex_value(text[i]) is Some {
        Some(
            Seq::new(
                (text.len() / 2) as nat,
                |i: int| (hex_value(text[2 * i])->0 * 16 + hex_value(text[2 * i + 1])->0) as u8,
            ),
        )
    } else {
        None
    }
}

/// The text of the error `hex::decode` reports for `text`.
pub uninterp spec fn hex_error_text(text: Seq<char>) -> Seq<char>;

/// `hex::encode`: lowercase hex, two digits per byte, high nibble first, as
/// the crate's source writes it.
#[verifier::external_body]
fn hex_encode(bytes: &[u8]) -> (r: String)
    ensures
        r@ == hex_spec(bytes@),
{
    hex::encode(bytes)
}

/// `hex::decode`, with the error turned into its text. The contract claims
/// what the crate's source shows: the call succeeds exactly on text of an
/// even number of hexadecimal digits, either case, and then gives the byte
/// of each pair; its error text is a function of the text.
#[verifier::external_body]
fn hex_decode(text: &str) -> (r: Result<Vec<u8>, String>)
    ensures
        r is Ok <==> hex_bytes(text@) is Some,
        r matches Ok(v) ==> hex_bytes(text@) == Some(v@),
        r matches Err(m) ==> m@ == hex_error_text(text@),
{
    match hex::decode(text) {
        Ok(v) => Ok(v),
        Err(e) => Err(e.to_string()),
    }
}

proof fn lemma_hex_spec_digits(b: Seq<u8>)
    ensures
        hex_spec(b).len() == 2 * b.len(),
        forall|i: int|
            0 <= i < b.len() ==> hex_spec(b)[2 * i] == hex_digit((b[i] / 16) as nat) && hex_spec(b)[2 * i
                + 1] == hex_digit((b[i] % 16) as nat),
    decreases b.len(),
{
    if b.len() > 0 {
        lemma_hex_spec_digits(b.drop_first());
        let t = b.drop_first();
        assert forall|i: int| 0 < i < b.len() implies hex_spec(b)[2 * i] == hex_digit((b[i] / 16) as nat)
            && hex_spec(b)[2 * i + 1] == hex_digit((b[i] % 16) as nat) by {
            assert(b[i] == t[i - 1]);
            assert(hex_spec(b)[2 * i] == hex_spec(t)[2 * (i - 1)]);
            assert(hex_spec(b)[2 * i + 1] == hex_spec(t)[2 * (i - 1) + 1]);
        }
    }
}

proof fn lemma_hex_digit_value(n: nat)
    requires
        n < 16,
    ensures
        hex_value(hex_digit(n)) == Some(n as int),
{
}

/// Decoding the hex text of some bytes gives back those bytes.
pub proof fn law_hex_round_trip(b: Seq<u8>)
    ensures
        hex_bytes(hex_spec(b)) == Some(b),
{
    lemma_hex_spec_digits(b);
    let t = hex_spec(b);
    assert forall|i: int| 0 <= i < t.len() implies #[trigger] hex_value(t[i]) is Some by {
        let j = i / 2;
        lemma_hex_digit_value((b[j] / 16) as nat);
        lemma_hex_digit_value((b[j] % 16) as nat);
        if i % 2 == 0 {
            assert(i == 2 * j);
        } else {
            assert(i == 2 * j + 1);
        }
    }
    let d = Seq::new(
        (t.len() / 2) as nat,
        |i: int| (hex_value(t[2 * i])->0 * 16 + hex_value(t[2 * i + 1])->0) as u8,
    );
    assert forall|i: int| 0 <= i < b.len() implies d[i] == b[i] by {
        lemma_hex_digit_value((b[i] / 16) as nat);
        lemma_hex_digit_value((b[i] % 16) as nat);
    }
    assert(d =~= b);
}

/// A random lowercase-hex id of `bytes` random bytes, or `None` when the OS
/// random source fails.
pub fn random_id(bytes: usize) -> (r: Option<String>)
    ensures
        r matches Some(s) ==> exists|b: Seq<u8>| b.len() == bytes && s@ == #[trigger] hex_spec(b),
{
    match os_random(bytes) {
        Some(buf) => Some(hex_encode(buf.as_slice())),
        None => None,
    }
}

/// One group's non-secret configuration (the bot token and key live in the
/// secret store, never here).
pub struct GroupConfig {
    /// Local identifier for this group (random; not shared).
    pub id: String,
    /// Human-friendly group name.
    pub name: String,
    /// Discord server (guild) id.
    pub guild_id: u64,
    /// Discord channel id used as the save vault.
    pub channel_id: u64,
    /// Per-group Argon2 salt, hex-encoded (not secret).
    pub salt: String,
    /// How many versions to keep per game.
    pub max_versions: usize,
    /// This device's resolved local save folder per game id.
    pub game_paths: StrMap<String>,
}

impl GroupConfig {
    /// Decode the hex salt into raw bytes.
    pub fn salt_bytes(&self) -> (r: Result<Vec<u8>, ConfigError>)
        ensures
            match hex_bytes(self.salt@) {
                Some(b) => r matches Ok(v) && v@ == b,
                None => r matches Err(ConfigError::Serde(t)) && t@ == "bad salt hex: "@ + hex_error_text(
                    self.salt@,
                ),
            },
    {
        match hex_decode(self.salt.as_str()) {
            Ok(v) => Ok(v),
            Err(m) => Err(ConfigError::Serde(prefixed("bad salt hex: ", m.as_str()))),
        }
    }

    /// The save folder configured for `game_id`, if any.
    pub fn game_path(&self, game_id: &str) -> (r: Option<String>)
        ensures
            r matches Some(p) ==> self.game_paths@.dom().contains(game_id@) && p@
                == self.game_paths@[game_id@]@,
            r is None ==> !self.game_paths@.dom().contains(game_id@),
    {
        match self.game_paths.get(game_id) {
            Some(p) => Some(p.clone()),
            None => None,
        }
    }
}

/// The whole local app configuration.
pub struct AppConfig {
    /// Stable per-install device id (used by the sync engine for authorship).
    pub device_id: String,
    /// Human display name shown as the author of saves this person pushes.
    pub display_name: String,
    /// All groups this install belongs to.
    pub groups: Vec<GroupConfig>,
}

/// The per-group secrets: the Discord bot token and the derived group key.
#[derive(Debug, PartialEq, Eq)]
pub struct GroupSecret {
    pub token: String,
    pub key: [u8; 32],
}

impl GroupSecret {
    /// A copy of this secret.
    pub fn copy(&self) -> (r: GroupSecret)
        ensures
            r == *self,
    {
        GroupSecret { token: self.token.clone(), key: self.key }
    }
}

/// The secret stored for `group_id`, if any.
pub open spec fn secret_lookup(m: Map<Seq<char>, GroupSecret>, group_id: Seq<char>) -> Option<
    GroupSecret,
> {
    if m.dom().contains(group_id) {
        Some(m[group_id])
    } else {
        None
    }
}

/// A group's secret from the secret store's answer for it: the secret when
/// the store has one, `GroupNotFound` when it has none, and the store's own
/// error passed on.
pub fn secret_from_answer(group_id: &str, answer: Result<Option<GroupSecret>, ConfigError>) -> (r: Result<
    GroupSecret,
    ConfigError,
>)
    ensures
        match answer {
            Ok(Some(s)) => r == Ok::<GroupSecret, ConfigError>(s),
            Ok(None) => r matches Err(ConfigError::GroupNotFound(g)) && g@ == group_id@,
            Err(e) => r == Err::<GroupSecret, ConfigError>(e),
        },
{
    match answer {
        Ok(Some(s)) => Ok(s),
        Ok(None) => Err(ConfigError::GroupNotFound(copy_str(group_id))),
        Err(e) => Err(e),
    }
}

/// Storage for per-group secrets. Implementations protect secrets at rest
/// (the production one uses the platform's protected storage).
pub trait SecretStore {
    /// The secrets held, by group id.
    spec fn stored(&self) -> Map<Seq<char>, GroupSecret>;

    /// Whether the store answers every request without error (true of a
    /// store kept in memory; a store backed by the platform may fail).
    spec fn never_fails(&self) -> bool;

    /// Fetch a group's secret, or `None` if absent (absence is `Ok(None)`,
    /// never an error).
    fn get(&self, group_id: &str) -> (r: Result<Option<GroupSecret>, ConfigError>)
        ensures
            r matches Ok(o) ==> o == secret_lookup(self.stored(), group_id@),
            r matches Err(e) ==> !(e is GroupNotFound),
            self.never_fails() ==> r is Ok,
    ;

    /// Store (or replace) a group's secret.
    fn set(&mut self, group_id: &str, secret: GroupSecret) -> (r: Result<(), ConfigError>)
        ensures
            r is Ok ==> final(self).stored() == old(self).stored().insert(group_id@, secret),
            old(self).never_fails() ==> r is Ok,
            final(self).never_fails() == old(self).never_fails(),
    ;

    /// Remove a group's secret (no error if absent).
    fn remove(&mut self, group_id: &str) -> (r: Result<(), ConfigError>)
        ensures
            r is Ok ==> final(self).stored() == old(self).stored().remove(group_id@),
            old(self).never_fails() ==> r is Ok,
            final(self).never_fails() == old(self).never_fails(),
    ;
}

/// A non-persistent secret store for tests and downstream use.
pub struct InMemorySecretStore {
    map: StrMap<GroupSecret>,
}

impl InMemorySecretStore {
    /// An empty store.
    pub fn new() -> (s: Self)
        ensures
            s.stored() == Map::<Seq<char>, GroupSecret>::empty(),
    {
        InMemorySecretStore { map: StrMap::new() }
    }
}

impl SecretStore for InMemorySecretStore {
    closed spec fn stored(&self) -> Map<Seq<char>, GroupSecret> {
        self.map@
    }

    open spec fn never_fails(&self) -> bool {
        true
    }

    fn get(&self, group_id: &str) -> (r: Result<Option<GroupSecret>, ConfigError>)
        ensures
            r is Ok,
    {
        match self.map.get(group_id) {
            Some(s) => Ok(Some(s.copy())),
            None => Ok(None),
        }
    }

    fn set(&mut self, group_id: &str, secret: GroupSecret) -> (r: Result<(), ConfigError>)
        ensures
            r is Ok,
    {
        self.map.insert(group_id.to_string(), secret);
        Ok(())
    }

    fn remove(&mut self, group_id: &str) -> (r: Result<(), ConfigError>)
        ensures
            r is Ok,
    {
        self.map.remove(group_id);
        Ok(())
    }
}

/// What `set` then `get` gives on a secret store: the secret just stored
/// under that group, and the earlier answer for every other group; after
/// `remove`, nothing.
pub proof fn law_secret_round_trip(
    m: Map<Seq<char>, GroupSecret>,
    group: Seq<char>,
    secret: GroupSecret,
    other: Seq<char>,
)
    ensures
        secret_lookup(m.insert(group, secret), group) == Some(secret),
        other != group ==> secret_lookup(m.insert(group, secret), other) == secret_lookup(m, other),
        secret_lookup(m.remove(group), group) is None,
        other != group ==> secret_lookup(m.remove(group), other) == secret_lookup(m, other),
{
}

/// The groups of `s` other than those with id `id`, in order.
pub open spec fn without_group(s: Seq<GroupConfig>, id: Seq<char>) -> Seq<GroupConfig>
    decreases s.len(),
{
    if s.len() == 0 {
        s
    } else {
        (if s[0].id@ == id {
            Seq::<GroupConfig>::empty()
        } else {
            seq![s[0]]
        }) + without_group(s.drop_first(), id)
    }
}

/// The index of the first group with id `id`, if any.
pub open spec fn group_index(s: Seq<GroupConfig>, id: Seq<char>) -> Option<int>
    decreases s.len(),
{
    if s.len() == 0 {
        None
    } else if s[0].id@ == id {
        Some(0)
    } else {
        match group_index(s.drop_first(), id) {
            Some(i) => Some(i + 1),
            None => None,
        }
    }
}

proof fn lemma_group_index(s: Seq<GroupConfig>, id: Seq<char>, i: int)
    requires
        0 <= i <= s.len(),
        forall|j: int| 0 <= j < i ==> #[trigger] s[j].id@ != id,
        i < s.len() ==> s[i].id@ == id,
    ensures
        group_index(s, id) == (if i < s.len() {
            Some(i)
        } else {
            None::<int>
        }),
    decreases i,
{
    if i > 0 {
        let t = s.drop_first();
        assert forall|j: int| 0 <= j < i - 1 implies #[trigger] t[j].id@ != id by {
            assert(t[j] == s[j + 1]);
        }
        lemma_group_index(t, id, i - 1);
    }
}

/// The same group, its save folder for `game` set to `folder`.
pub open spec fn with_game_path(a: GroupConfig, b: GroupConfig, game: Seq<char>, folder: Seq<char>) -> bool {
    &&& b.id == a.id
    &&& b.name == a.name
    &&& b.guild_id == a.guild_id
    &&& b.channel_id == a.channel_id
    &&& b.salt == a.salt
    &&& b.max_versions == a.max_versions
    &&& b.game_paths@.dom() == a.game_paths@.dom().insert(game)
    &&& b.game_paths@[game]@ == folder
    &&& forall|k: Seq<char>| k != game ==> #[trigger] b.game_paths@[k] == a.game_paths@[k]
}

/// Ties the local app configuration (stored at `config_path`) to a secret
/// store. Writing the configuration after a change is the application's part.
pub struct ConfigStore<S: SecretStore> {
    config_path: String,
    config: AppConfig,
    secrets: S,
}

impl<S: SecretStore> ConfigStore<S> {
    /// The configuration held.
    pub closed spec fn app(&self) -> AppConfig {
        self.config
    }

    /// The secrets held.
    pub closed spec fn secret_map(&self) -> Map<Seq<char>, GroupSecret> {
        self.secrets.stored()
    }

    /// Whether the secret store answers every request without error.
    pub closed spec fn store_never_fails(&self) -> bool {
        self.secrets.never_fails()
    }

    /// The path the configuration is stored at.
    pub closed spec fn path(&self) -> Seq<char> {
        self.config_path@
    }

    /// A store over a configuration the application read (or a fresh one).
    pub fn new(config_path: String, config: AppConfig, secrets: S) -> (r: Self)
        ensures
            r.app() == config,
            r.secret_map() == secrets.stored(),
            r.store_never_fails() == secrets.never_fails(),
            r.path() == config_path@,
    {
        ConfigStore { config_path, config, secrets }
    }

    /// The path the configuration is stored at.
    pub fn config_path(&self) -> (r: &str)
        ensures
            r@ == self.path(),
    {
        self.config_path.as_str()
    }

    /// The configuration, for writing it out.
    pub fn config(&self) -> (r: &AppConfig)
        ensures
            *r == self.app(),
    {
        &self.config
    }

    /// Borrow the device id.
    pub fn device_id(&self) -> (r: &str)
        ensures
            r@ == self.app().device_id@,
    {
        self.config.device_id.as_str()
    }

    /// All groups this install belongs to.
    pub fn groups(&self) -> (r: &[GroupConfig])
        ensures
            r@ == self.app().groups@,
    {
        self.config.groups.as_slice()
    }

    /// Fetch a group's secret (token and key) for the sync engine.
    pub fn group_secret(&self, group_id: &str) -> (r: Result<GroupSecret, ConfigError>)
        ensures
            r matches Ok(s) ==> secret_lookup(self.secret_map(), group_id@) == Some(s),
            secret_lookup(self.secret_map(), group_id@) is None ==> r is Err,
            r matches Err(ConfigError::GroupNotFound(g)) ==> g@ == group_id@ && secret_lookup(
                self.secret_map(),
                group_id@,
            ) is None,
            self.store_never_fails() ==> match secret_lookup(self.secret_map(), group_id@) {
                Some(s) => r == Ok::<GroupSecret, ConfigError>(s),
                None => r matches Err(ConfigError::GroupNotFound(g)) && g@ == group_id@,
            },
    {
        let answer = self.secrets.get(group_id);
        secret_from_answer(group_id, answer)
    }

    /// Remove a group and its secret.
    pub fn remove_group(&mut self, group_id: &str) -> (r: Result<(), ConfigError>)
        ensures
            final(self).app().groups@ == without_group(old(self).app().groups@, group_id@),
            final(self).app().device_id == old(self).app().device_id,
            final(self).app().display_name == old(self).app().display_name,
            final(self).path() == old(self).path(),
            final(self).store_never_fails() == old(self).store_never_fails(),
            r is Ok ==> final(self).secret_map() == old(self).secret_map().remove(group_id@),
            old(self).store_never_fails() ==> r is Ok,
    {
        let ghost old_groups = self.config.groups@;
        let mut rest: Vec<GroupConfig> = Vec::new();
        std::mem::swap(&mut rest, &mut self.config.groups);
        let mut kept: Vec<GroupConfig> = Vec::new();
        assert(kept@ + without_group(rest@, group_id@) =~= without_group(old_groups, group_id@));
        while rest.len() > 0
            invariant
                kept@ + without_group(rest@, group_id@) == without_group(old_groups, group_id@),
            decreases rest@.len(),
        {
            let ghost r0 = rest@;
            let g = rest.remove(0);
            assert(rest@ =~= r0.drop_first());
            if !str_eq(g.id.as_str(), group_id) {
                kept.push(g);
                assert(kept@ + without_group(rest@, group_id@) =~= without_group(old_groups, group_id@));
            } else {
                assert(kept@ + without_group(rest@, group_id@) =~= without_group(old_groups, group_id@));
            }
        }
        assert(kept@ =~= without_group(old_groups, group_id@));
        self.config.groups = kept;
        self.secrets.remove(group_id)
    }

    /// Set (or replace) the local save folder for `game_id` in `group_id`.
    /// Errors if the group is unknown.
    pub fn set_game_path(&mut self, group_id: &str, game_id: &str, folder: &str) -> (r: Result<
        (),
        ConfigError,
    >)
        ensures
            final(self).secret_map() == old(self).secret_map(),
            final(self).app().device_id == old(self).app().device_id,
            final(self).app().display_name == old(self).app().display_name,
            final(self).path() == old(self).path(),
            final(self).store_never_fails() == old(self).store_never_fails(),
            group_index(old(self).app().groups@, group_id@) is None ==> (r matches Err(
                ConfigError::GroupNotFound(g),
            ) && g@ == group_id@ && final(self).app().groups@ == old(self).app().groups@),
            group_index(old(self).app().groups@, group_id@) is Some ==> r is Ok,
            group_index(old(self).app().groups@, group_id@) matches Some(i) ==> final(self).app().groups@.len()
                == old(self).app().groups@.len(),
            group_index(old(self).app().groups@, group_id@) matches Some(i) ==> forall|j: int|
                0 <= j < old(self).app().groups@.len() && j != i ==> final(self).app().groups@[j]
                    == #[trigger] old(self).app().groups@[j],
            group_index(old(self).app().groups@, group_id@) matches Some(i) ==> with_game_path(
                old(self).app().groups@[i],
                final(self).app().groups@[i],
                game_id@,
                folder@,
            ),
    {
        let ghost old_groups = self.config.groups@;
        let mut i: usize = 0;
        while i < self.config.groups.len() && !str_eq(self.config.groups[i].id.as_str(), group_id)
            invariant
                i <= self.config.groups@.len(),
                self.config.groups@ == old_groups,
                forall|j: int| 0 <= j < i ==> #[trigger] old_groups[j].id@ != group_id@,
            decreases self.config.groups@.len() - i,
        {
            i = i + 1;
        }
        proof {
            lemma_group_index(old_groups, group_id@, i as int);
        }
        if i == self.config.groups.len() {
            return Err(ConfigError::GroupNotFound(copy_str(group_id)));
        }
        let mut g = self.config.groups.remove(i);
        let ghost o1 = self.config.groups@;
        let ghost g0 = g;
        assert(o1 == old_groups.remove(i as int));
        assert(g0 == old_groups[i as int]);
        let f = copy_str(folder);
        let k = copy_str(game_id);
        g.game_paths.insert(k, f);
        let ghost g1 = g;
        assert(g1.game_paths@ == g0.game_paths@.insert(k@, f));
        assert(with_game_path(g0, g1, game_id@, folder@));
        self.config.groups.insert(i, g);
        proof {
            assert(self.config.groups@ == o1.insert(i as int, g1));
            assert forall|j: int| 0 <= j < old_groups.len() && j != i implies self.config.groups@[j]
                == #[trigger] old_groups[j] by {
                if j < i {
                    assert(self.config.groups@[j] == o1[j]);
                    assert(o1[j] == old_groups[j]);
                } else {
                    assert(self.config.groups@[j] == o1[j - 1]);
                    assert(o1[j - 1] == old_groups[j]);
                }
            }
            assert(self.config.groups@[i as int] == g1);
            assert(with_game_path(old_groups[i as int], self.config.groups@[i as int], game_id@, folder@));
            assert(f@ == folder@);

            assert(group_index(old_groups, group_id@) == Some(i as int));
            assert(self.config.groups@.len() == old_groups.len());
        }
        Ok(())
    }

    /// Add a group with its secret (the step shared by creating and joining).
    pub fn add_group(&mut self, group: GroupConfig, secret: GroupSecret) -> (r: Result<(), ConfigError>)
        ensures
            final(self).path() == old(self).path(),
            final(self).store_never_fails() == old(self).store_never_fails(),
            final(self).app().device_id == old(self).app().device_id,
            final(self).app().display_name == old(self).app().display_name,
            r is Ok ==> final(self).secret_map() == old(self).secret_map().insert(group.id@, secret)
                && final(self).app().groups@ == old(self).app().groups@.push(group),
            r is Err ==> final(self).app().groups@ == old(self).app().groups@,
            old(self).store_never_fails() ==> r is Ok,
    {
        match self.secrets.set(group.id.as_str(), secret) {
            Ok(()) => {
                self.config.groups.push(group);
                Ok(())
            },
            Err(e) => Err(e),
        }
    }
}

/// A fresh group's configuration: no save folders yet, the default number
/// of versions kept.
pub open spec fn fresh_group(g: GroupConfig, id: Seq<char>, name: Seq<char>, guild_id: u64, channel_id: u64, salt: Seq<u8>) -> bool {
    &&& g.id@ == id
    &&& g.name@ == name
    &&& g.guild_id == guild_id
    &&& g.channel_id == channel_id
    &&& g.salt@ == hex_spec(salt)
    &&& g.max_versions == DEFAULT_MAX_VERSIONS
    &&& g.game_paths@ == Map::<Seq<char>, String>::empty()
}

fn new_group(id: &str, name: &str, guild_id: u64, channel_id: u64, salt: &[u8]) -> (g: GroupConfig)
    ensures
        fresh_group(g, id@, name@, guild_id, channel_id, salt@),
{
    GroupConfig {
        id: copy_str(id),
        name: copy_str(name),
        guild_id,
        channel_id,
        salt: hex_encode(salt),
        max_versions: DEFAULT_MAX_VERSIONS,
        game_paths: StrMap::new(),
    }
}

impl<S: SecretStore> ConfigStore<S> {
    /// Create a new group under the random `id` and `salt` the caller drew:
    /// derive its key from `password`, store the secret, add the group, and
    /// return the group plus a shareable invite carrying `payload` (the
    /// group's name, token and ids, as JSON).
    pub fn create_group(
        &mut self,
        id: &str,
        salt: &[u8],
        name: &str,
        password: &str,
        token: &str,
        guild_id: u64,
        channel_id: u64,
        payload: &[u8],
    ) -> (r: Result<(GroupConfig, String), ConfigError>)
        requires
            salt@.len() == 16,
        ensures
            final(self).path() == old(self).path(),
            final(self).store_never_fails() == old(self).store_never_fails(),
            final(self).app().device_id == old(self).app().device_id,
            final(self).app().display_name == old(self).app().display_name,
            r matches Ok((g, inv)) ==> {
                &&& fresh_group(g, id@, name@, guild_id, channel_id, salt@)
                &&& final(self).app().groups@.len() == old(self).app().groups@.len() + 1
                &&& final(self).app().groups@.take(old(self).app().groups@.len() as int) == old(self).app().groups@
                &&& fresh_group(final(self).app().groups@.last(), id@, name@, guild_id, channel_id, salt@)
                &&& final(self).secret_map().remove(id@) == old(self).secret_map().remove(id@)
                &&& final(self).secret_map()[id@].token@ == token@
                &&& final(self).secret_map()[id@].key@ == argon2id_key(encode_utf8(password@), salt@)
                &&& final(self).secret_map().dom().contains(id@)
                &&& exists|b: Seq<u8>|
                    #[trigger] invite_blob(password@, payload@, b) && b.take(16) == salt@ && inv@
                        == base64_encoded(b)
                &&& invite_for(password@, inv@, payload@, salt@)
            },
            !argon2_accepts(encode_utf8(password@), salt@) ==> {
                &&& r matches Err(ConfigError::Core(CoreError::Kdf(m)))
                &&& m@ == argon2_refusal(encode_utf8(password@), salt@)
                &&& final(self).app() == old(self).app()
                &&& final(self).secret_map() == old(self).secret_map()
            },
            old(self).store_never_fails() && argon2_accepts(encode_utf8(password@), salt@) ==> {
                &&& final(self).app().groups@.len() == old(self).app().groups@.len() + 1
                &&& final(self).app().groups@.take(old(self).app().groups@.len() as int) == old(self).app().groups@
                &&& fresh_group(final(self).app().groups@.last(), id@, name@, guild_id, channel_id, salt@)
                &&& final(self).secret_map().remove(id@) == old(self).secret_map().remove(id@)
                &&& final(self).secret_map().dom().contains(id@)
                &&& final(self).secret_map()[id@].token@ == token@
                &&& final(self).secret_map()[id@].key@ == argon2id_key(encode_utf8(password@), salt@)
                &&& (r matches Err(e) ==> e matches ConfigError::Core(CoreError::Encrypt))
            },
    {
        let key = match derive_key(password, salt) {
            Ok(k) => k,
            Err(e) => {
                return Err(ConfigError::Core(e));
            },
        };
        let secret = GroupSecret { token: copy_str(token), key };
        let stored = new_group(id, name, guild_id, channel_id, salt);
        let ghost old_groups = self.config.groups@;
        let ghost old_secrets = self.secrets.stored();
        match self.add_group(stored, secret) {
            Ok(()) => {},
            Err(e) => {
                return Err(e);
            },
        }
        proof {
            assert(self.config.groups@.take(old_groups.len() as int) =~= old_groups);
            assert(self.secrets.stored().remove(id@) =~= old_secrets.remove(id@));
        }
        let invite = match encode_invite(password, salt, payload) {
            Ok(t) => t,
            Err(e) => {
                return Err(e);
            },
        };
        Ok((new_group(id, name, guild_id, channel_id, salt), invite))
    }

    /// [`create_group`](Self::create_group) with the given 12-byte `nonce`
    /// for the invite's encryption in place of a random one. Create a new
    /// group under the random `id` and `salt` the caller drew:
    /// derive its key from `password`, store the secret, add the group, and
    /// return the group plus a shareable invite carrying `payload` (the
    /// group's name, token and ids, as JSON).
    pub fn create_group_with_nonce(
        &mut self,
        id: &str,
        salt: &[u8],
        nonce: &[u8],
        name: &str,
        password: &str,
        token: &str,
        guild_id: u64,
        channel_id: u64,
        payload: &[u8],
    ) -> (r: Result<(GroupConfig, String), ConfigError>)
        requires
            salt@.len() == 16,
            nonce@.len() == NONCE_LEN,
        ensures
            final(self).path() == old(self).path(),
            final(self).store_never_fails() == old(self).store_never_fails(),
            final(self).app().device_id == old(self).app().device_id,
            final(self).app().display_name == old(self).app().display_name,
            r matches Ok((g, inv)) ==> {
                &&& fresh_group(g, id@, name@, guild_id, channel_id, salt@)
                &&& final(self).app().groups@.len() == old(self).app().groups@.len() + 1
                &&& final(self).app().groups@.take(old(self).app().groups@.len() as int) == old(self).app().groups@
                &&& fresh_group(final(self).app().groups@.last(), id@, name@, guild_id, channel_id, salt@)
                &&& final(self).secret_map().remove(id@) == old(self).secret_map().remove(id@)
                &&& final(self).secret_map()[id@].token@ == token@
                &&& final(self).secret_map()[id@].key@ == argon2id_key(encode_utf8(password@), salt@)
                &&& final(self).secret_map().dom().contains(id@)
                &&& exists|b: Seq<u8>|
                    #[trigger] invite_blob(password@, payload@, b) && b.take(16) == salt@ && inv@
                        == base64_encoded(b)
                &&& invite_for(password@, inv@, payload@, salt@)
            },
            !argon2_accepts(encode_utf8(password@), salt@) ==> {
                &&& r matches Err(ConfigError::Core(CoreError::Kdf(m)))
                &&& m@ == argon2_refusal(encode_utf8(password@), salt@)
                &&& final(self).app() == old(self).app()
                &&& final(self).secret_map() == old(self).secret_map()
            },
            old(self).store_never_fails() && argon2_accepts(encode_utf8(password@), salt@) ==> {
                &&& final(self).app().groups@.len() == old(self).app().groups@.len() + 1
                &&& final(self).app().groups@.take(old(self).app().groups@.len() as int) == old(self).app().groups@
                &&& fresh_group(final(self).app().groups@.last(), id@, name@, guild_id, channel_id, salt@)
                &&& final(self).secret_map().remove(id@) == old(self).secret_map().remove(id@)
                &&& final(self).secret_map().dom().contains(id@)
                &&& final(self).secret_map()[id@].token@ == token@
                &&& final(self).secret_map()[id@].key@ == argon2id_key(encode_utf8(password@), salt@)
                &&& (r matches Err(e) ==> e matches ConfigError::Core(CoreError::Encrypt))
                &&& payload@.len() <= gcm_max_plaintext() ==> (r matches Ok((g, inv)) && fresh_group(
                    g,
                    id@,
                    name@,
                    guild_id,
                    channel_id,
                    salt@,
                ) && inv@ == invite_with(password@, salt@, nonce@, payload@))
                &&& payload@.len() > gcm_max_plaintext() ==> (r matches Err(
                    ConfigError::Core(CoreError::Encrypt),
                ))
            },
    {
        let key = match derive_key(password, salt) {
            Ok(k) => k,
            Err(e) => {
                return Err(ConfigError::Core(e));
            },
        };
        let secret = GroupSecret { token: copy_str(token), key };
        let stored = new_group(id, name, guild_id, channel_id, salt);
        let ghost old_groups = self.config.groups@;
        let ghost old_secrets = self.secrets.stored();
        match self.add_group(stored, secret) {
            Ok(()) => {},
            Err(e) => {
                return Err(e);
            },
        }
        proof {
            assert(self.config.groups@.take(old_groups.len() as int) =~= old_groups);
            assert(self.secrets.stored().remove(id@) =~= old_secrets.remove(id@));
        }
        let invite = match encode_invite_with_nonce(password, salt, nonce, payload) {
            Ok(t) => t,
            Err(e) => {
                return Err(e);
            },
        };
        Ok((new_group(id, name, guild_id, channel_id, salt), invite))
    }

    /// Join a group from an opened invite and its decoded payload, under the
    /// random `id` the caller drew: store its secret and add the group.
    pub fn join_group(&mut self, id: &str, invite: DecodedInvite) -> (r: Result<GroupConfig, ConfigError>)
        ensures
            final(self).path() == old(self).path(),
            final(self).store_never_fails() == old(self).store_never_fails(),
            final(self).app().device_id == old(self).app().device_id,
            final(self).app().display_name == old(self).app().display_name,
            r is Err ==> final(self).app().groups@ == old(self).app().groups@,
            r matches Ok(g) ==> {
                &&& fresh_group(g, id@, invite.name@, invite.guild_id, invite.channel_id, invite.salt@)
                &&& fresh_group(final(self).app().groups@.last(), id@, invite.name@, invite.guild_id, invite.channel_id, invite.salt@)
                &&& final(self).app().groups@.len() == old(self).app().groups@.len() + 1
                &&& final(self).app().groups@.take(old(self).app().groups@.len() as int) == old(self).app().groups@
                &&& final(self).secret_map() == old(self).secret_map().insert(
                    id@,
                    GroupSecret { token: invite.token, key: invite.key },
                )
            },
            old(self).store_never_fails() ==> r is Ok,
    {
        let stored = new_group(id, invite.name.as_str(), invite.guild_id, invite.channel_id, invite.salt.as_slice());
        let out = new_group(id, invite.name.as_str(), invite.guild_id, invite.channel_id, invite.salt.as_slice());
        let secret = GroupSecret { token: invite.token, key: invite.key };
        let ghost old_groups = self.config.groups@;
        match self.add_group(stored, secret) {
            Ok(()) => {
                assert(self.config.groups@.take(old_groups.len() as int) =~= old_groups);
                Ok(out)
            },
            Err(e) => Err(e),
        }
    }
}

/// The invite blob behind an invite: `salt || nonce || ciphertext || tag`,
/// where the payload is encrypted with the key derived from the password and
/// salt.
pub open spec fn invite_blob(password: Seq<char>, payload: Seq<u8>, blob: Seq<u8>) -> bool {
    &&& blob.len() > 16
    &&& argon2_accepts(encode_utf8(password), blob.take(16))
    &&& encrypts(argon2id_key(encode_utf8(password), blob.take(16)), payload, blob.skip(16))
}

/// `invite` opens, under `password`, to `payload` and `salt`: trimmed, it is
/// the base64 of an invite blob whose salt is `salt` and whose ciphertext
/// seals `payload`.
pub open spec fn invite_for(password: Seq<char>, invite: Seq<char>, payload: Seq<u8>, salt: Seq<u8>) -> bool {
    exists|b: Seq<u8>|
        #[trigger] invite_blob(password, payload, b) && b.take(16) == salt && trim_spec(invite)
            == base64_encoded(b)
}

/// Build an invite string: derive the group key from `password` and `salt`,
/// encrypt the payload (the group's name, token and ids, as JSON) with it,
/// and base64 `salt || ciphertext`.
pub fn encode_invite(password: &str, salt: &[u8], payload: &[u8]) -> (r: Result<String, ConfigError>)
    requires
        salt@.len() == 16,
    ensures
        r matches Ok(t) ==> exists|b: Seq<u8>|
            #[trigger] invite_blob(password@, payload@, b) && b.take(16) == salt@ && t@
                == base64_encoded(b),
        r matches Ok(t) ==> trim_spec(t@) == t@,
        r matches Ok(t) ==> invite_for(password@, t@, payload@, salt@),
        r matches Err(e) ==> e matches ConfigError::Core(c) && (c is Kdf || c is Encrypt),
        !argon2_accepts(encode_utf8(password@), salt@) ==> (r matches Err(ConfigError::Core(CoreError::Kdf(m)))
            && m@ == argon2_refusal(encode_utf8(password@), salt@)),
        argon2_accepts(encode_utf8(password@), salt@) ==> (r matches Err(e) ==> e matches ConfigError::Core(
            CoreError::Encrypt,
        )),
{
    let key = match derive_key(password, salt) {
        Ok(k) => k,
        Err(e) => {
            return Err(ConfigError::Core(e));
        },
    };
    let ct = match encrypt(&key, payload) {
        Ok(c) => c,
        Err(e) => {
            return Err(ConfigError::Core(e));
        },
    };
    let t = invite_text(salt, ct.as_slice());
    proof {
        assert((salt@ + ct@).take(16) =~= salt@);
        assert((salt@ + ct@).skip(16) =~= ct@);
        assert(invite_blob(password@, payload@, salt@ + ct@));
    }
    Ok(t)
}

/// The invite text of a salt and a ciphertext: base64 of `salt || ct`.
fn invite_text(salt: &[u8], ct: &[u8]) -> (t: String)
    ensures
        t@ == base64_encoded(salt@ + ct@),
        trim_spec(t@) == t@,
{
    let mut blob: Vec<u8> = Vec::new();
    let mut i: usize = 0;
    while i < salt.len()
        invariant
            i <= salt@.len(),
            blob@ == salt@.take(i as int),
        decreases salt@.len() - i,
    {
        blob.push(salt[i]);
        i = i + 1;
        assert(blob@ =~= salt@.take(i as int));
    }
    let mut j: usize = 0;
    while j < ct.len()
        invariant
            j <= ct@.len(),
            blob@ == salt@ + ct@.take(j as int),
        decreases ct@.len() - j,
    {
        blob.push(ct[j]);
        j = j + 1;
        assert(blob@ =~= salt@ + ct@.take(j as int));
    }
    assert(salt@.take(salt@.len() as int) =~= salt@);
    assert(ct@.take(ct@.len() as int) =~= ct@);
    let t = base64_encode(blob.as_slice());
    proof {
        crate::seed::lemma_trim_no_ws(t@);
    }
    t
}

/// What [`encode_invite_with_nonce`] gives when key derivation and
/// encryption succeed: base64 of `salt || nonce || ciphertext || tag`.
pub open spec fn invite_with(password: Seq<char>, salt: Seq<u8>, nonce: Seq<u8>, payload: Seq<u8>) -> Seq<char> {
    base64_encoded(salt + sealed_with(argon2id_key(encode_utf8(password), salt), nonce, payload))
}

/// [`encode_invite`] with the given 12-byte `nonce` in place of a random one.
pub fn encode_invite_with_nonce(password: &str, salt: &[u8], nonce: &[u8], payload: &[u8]) -> (r: Result<String, ConfigError>)
    requires
        salt@.len() == 16,
        nonce@.len() == NONCE_LEN,
    ensures
        !argon2_accepts(encode_utf8(password@), salt@) ==> (r matches Err(ConfigError::Core(CoreError::Kdf(m)))
            && m@ == argon2_refusal(encode_utf8(password@), salt@)),
        argon2_accepts(encode_utf8(password@), salt@) && payload@.len() <= gcm_max_plaintext() ==> (r matches Ok(
            t,
        ) && t@ == invite_with(password@, salt@, nonce@, payload@)),
        argon2_accepts(encode_utf8(password@), salt@) && payload@.len() > gcm_max_plaintext() ==> (r matches Err(
            ConfigError::Core(CoreError::Encrypt),
        )),
        r matches Ok(t) ==> invite_for(password@, t@, payload@, salt@) && trim_spec(t@) == t@,
{
    let key = match derive_key(password, salt) {
        Ok(k) => k,
        Err(e) => {
            return Err(ConfigError::Core(e));
        },
    };
    let ct = match encrypt_with_nonce(&key, nonce, payload) {
        Ok(c) => c,
        Err(e) => {
            return Err(ConfigError::Core(e));
        },
    };
    let t = invite_text(salt, ct.as_slice());
    proof {
        assert((salt@ + ct@).take(16) =~= salt@);
        assert((salt@ + ct@).skip(16) =~= ct@);
        assert(invite_blob(password@, payload@, salt@ + ct@));
    }
    Ok(t)
}

/// What opening an invite yields: the salt, the derived group key and the
/// decrypted payload (JSON of the group's name, token and ids).
pub struct OpenedInvite {
    pub salt: Vec<u8>,
    pub key: [u8; 32],
    pub payload: Vec<u8>,
}

/// A decoded invite: the group info plus the salt and derived key.
pub struct DecodedInvite {
    pub name: String,
    pub token: String,
    pub guild_id: u64,
    pub channel_id: u64,
    pub salt: Vec<u8>,
    pub key: [u8; 32],
}

/// Open an invite string with the shared password: base64-decode it (after
/// trimming), split off the salt, derive the key and decrypt the payload.
pub fn open_invite(password: &str, invite: &str) -> (r: Result<OpenedInvite, ConfigError>)
    ensures
        match base64_decoded(trim_spec(invite@)) {
            Err(m) => r matches Err(ConfigError::Invite(t)) && t@ == "bad base64: "@ + m,
            Ok(b) => if b.len() <= 16 {
                r matches Err(ConfigError::Invite(t)) && t@ == "invite too short"@
            } else if !argon2_accepts(encode_utf8(password@), b.take(16)) {
                r matches Err(ConfigError::Core(CoreError::Kdf(t))) && t@ == argon2_refusal(
                    encode_utf8(password@),
                    b.take(16),
                )
            } else {
                match r {
                    Ok(o) => o.salt@ == b.take(16) && o.key@ == argon2id_key(
                        encode_utf8(password@),
                        b.take(16),
                    ) && crate::cipher::decrypted(o.key@, b.skip(16)) == Some(o.payload@),
                    Err(e) => e is WrongPassword && crate::cipher::decrypted(
                        argon2id_key(encode_utf8(password@), b.take(16)),
                        b.skip(16),
                    ) is None,
                }
            },
        },
        forall|b: Seq<u8>, p: Seq<u8>|
            #[trigger] invite_blob(password@, p, b) && trim_spec(invite@) == #[trigger] base64_encoded(b)
                ==> (r matches Ok(o) && o.payload@ == p && o.salt@ == b.take(16)),
        forall|p: Seq<u8>, salt: Seq<u8>|
            #[trigger] invite_for(password@, invite@, p, salt) ==> (r matches Ok(o) && o.payload@ == p
                && o.salt@ == salt),
{
    let chars = chars_of(invite);
    let tc = trim_chars(chars.as_slice());
    let trimmed = string_from_chars(tc.as_slice());
    let blob = match base64_decode(trimmed.as_str()) {
        Ok(b) => b,
        Err(m) => {
            return Err(ConfigError::Invite(prefixed("bad base64: ", m.as_str())));
        },
    };
    if blob.len() <= 16 {
        return Err(ConfigError::Invite(copy_str("invite too short")));
    }
    let salt = copy_range(blob.as_slice(), 0, 16);
    let rest = copy_range(blob.as_slice(), 16, blob.len());
    assert(salt@ =~= blob@.take(16));
    assert(rest@ =~= blob@.skip(16));
    let key = match derive_key(password, salt.as_slice()) {
        Ok(k) => k,
        Err(e) => {
            return Err(ConfigError::Core(e));
        },
    };
    let payload = match decrypt(&key, rest.as_slice()) {
        Ok(p) => p,
        Err(_) => {
            return Err(ConfigError::WrongPassword);
        },
    };
    Ok(OpenedInvite { salt, key, payload })
}

} // verus!
