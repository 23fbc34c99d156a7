//! "Currently playing" presence marker.
//!
//! Posted as a friendly line plus an encrypted `Seed:` token in the group
//! channel (a distinct marker string inside, so the vault ignores it).
//! Advisory only, with a TTL so stale markers (from a crash) expire on their
//! own. The record's JSON form is written and read by the application.
use vstd::prelude::*;

use crate::error::{CoreError, copy_str, prefixed};
use crate::compress::zstd_encoded;
use crate::seal::{opened, seals};
use crate::seed::{base64_decoded, base64_encoded, bytes_of, lines_spec, open_from_token,
    seal_to_token, seal_to_token_with_nonce, seed_from_message, seed_in_lines, token_with};
use crate::cipher::NONCE_LEN;
use crate::paths::split_on;
use crate::seed::strip_cr;
use crate::text::{is_ws, str_eq, trim_spec, trim_start_spec};
use vstd::string::StringExecFns;

verus! {

/// Marker string identifying a "currently playing" message.
pub const PLAYING_MARKER: &'static str = "salvae-playing-v1";

/// A presence record: who is playing which game, until when.
#[derive(Debug, Clone)]
pub struct PlayingRecord {
    pub marker: String,
    pub game_id: String,
    pub member: String,
    pub device_id: String,
    pub expires_at_ms: u64,
}

/// The channel message announcing `member` playing `title`, carrying `token`.
pub open spec fn playing_message(member: Seq<char>, title: Seq<char>, token: Seq<char>) -> Seq<char> {
    member + " está jogando: "@ + title + "\n\nSeed: "@ + token
}

impl PlayingRecord {
    /// The title shown for the game: `game_name`, or the id when that is empty.
    pub open spec fn title(&self, game_name: Seq<char>) -> Seq<char> {
        if game_name.len() == 0 {
            self.game_id@
        } else {
            game_name
        }
    }

    /// Build the channel message: a friendly line plus the encrypted `Seed:`
    /// token carrying `json`, this record's JSON form. `game_name` is the
    /// human title (the id stands in when it is empty).
    pub fn encode(&self, key: &[u8; 32], game_name: &str, json: &[u8]) -> (r: Result<String, CoreError>)
        ensures
            r matches Ok(m) ==> exists|b: Seq<u8>|
                #[trigger] seals(key@, json@, b) && trim_spec(base64_encoded(b)) == base64_encoded(b)
                    && m@ == playing_message(self.member@, self.title(game_name@), base64_encoded(b)),
            r matches Err(e) ==> match zstd_encoded(json@, 3) {
                Err(m) => e matches CoreError::Compress(x) && x@ == m,
                Ok(_) => e is Encrypt,
            },
    {
        let token = match seal_to_token(key, json) {
            Ok(t) => t,
            Err(e) => {
                return Err(e);
            },
        };
        Ok(self.message_with_token(game_name, token.as_str()))
    }

    /// The channel message carrying `token`: the friendly line, then the
    /// `Seed:` line.
    fn message_with_token(&self, game_name: &str, token: &str) -> (r: String)
        ensures
            r@ == playing_message(self.member@, self.title(game_name@), token@),
    {
        let title: &str = if game_name.is_empty() {
            self.game_id.as_str()
        } else {
            game_name
        };
        let mut out = prefixed(self.member.as_str(), " está jogando: ");
        out.append(title);
        out.append("\n\nSeed: ");
        out.append(token);
        out
    }

    /// [`encode`](Self::encode) with the given 12-byte `nonce` in place of a
    /// random one: the message carries exactly the token of `json` sealed
    /// with that nonce.
    pub fn encode_with_nonce(&self, key: &[u8; 32], nonce: &[u8], game_name: &str, json: &[u8]) -> (r: Result<
        String,
        CoreError,
    >)
        requires
            nonce@.len() == NONCE_LEN,
        ensures
            match token_with(key@, nonce@, json@) {
                Err(m) => r matches Err(CoreError::Compress(x)) && x@ == m,
                Ok(Some(t)) => r matches Ok(v) && v@ == playing_message(self.member@, self.title(game_name@), t),
                Ok(None) => r matches Err(CoreError::Encrypt),
            },
    {
        let token = match seal_to_token_with_nonce(key, nonce, json) {
            Ok(t) => t,
            Err(e) => {
                return Err(e);
            },
        };
        Ok(self.message_with_token(game_name, token.as_str()))
    }

    /// The JSON bytes a message carries, if it is a Seed message readable
    /// with `key`: the token after `Seed:` opened with the group key.
    pub fn decode_payload(content: &str, key: &[u8; 32]) -> (r: Option<Vec<u8>>)
        ensures
            bytes_of(r) == match seed_in_lines(lines_spec(content@)) {
                None => None,
                Some(t) => match base64_decoded(trim_spec(t)) {
                    Err(_) => None,
                    Ok(b) => opened(key@, b),
                },
            },
        forall|b: Seq<u8>, p: Seq<u8>|
            #[trigger] seals(key@, p, b) && seed_in_lines(lines_spec(content@)) == Some(
                #[trigger] base64_encoded(b),
            ) && trim_spec(base64_encoded(b)) == base64_encoded(b) ==> bytes_of(r) == Some(p),
    {
        let token = match seed_from_message(content) {
            Some(t) => t,
            None => {
                return None;
            },
        };
        open_from_token(key, token.as_str())
    }

    /// Keep a decoded record only if it carries the playing marker.
    pub fn accept(rec: PlayingRecord) -> (r: Option<PlayingRecord>)
        ensures
            r matches Some(x) ==> x == rec,
            r is Some <==> rec.marker@ == PLAYING_MARKER@,
    {
        if str_eq(rec.marker.as_str(), PLAYING_MARKER) {
            Some(rec)
        } else {
            None
        }
    }

    /// Whether this marker is still active at `now_ms`.
    pub fn is_active(&self, now_ms: u64) -> (r: bool)
        ensures
            r == (self.expires_at_ms > now_ms),
    {
        self.expires_at_ms > now_ms
    }
}

/// `s` holds no line feed and no carriage return.
pub open spec fn single_line(s: Seq<char>) -> bool {
    forall|i: int| 0 <= i < s.len() ==> #[trigger] s[i] != '\n' && s[i] != '\r'
}

/// `s` starts with the `Seed:` label.
pub open spec fn starts_with_seed(s: Seq<char>) -> bool {
    s.len() >= 5 && s.take(5) == "Seed:"@
}

proof fn lemma_split_single(a: Seq<char>, c: char)
    requires
        forall|i: int| 0 <= i < a.len() ==> #[trigger] a[i] != c,
    ensures
        split_on(a, c) == seq![a],
    decreases a.len(),
{
    if a.len() > 0 {
        let t = a.drop_first();
        assert forall|i: int| 0 <= i < t.len() implies #[trigger] t[i] != c by {
            assert(t[i] == a[i + 1]);
        }
        lemma_split_single(t, c);
        assert(a.drop_first() == t);
        assert(a[0] != c);
        assert(seq![a[0]] + t =~= a);
        assert(split_on(a, c) =~= seq![a]);
    } else {
        assert(a =~= Seq::<char>::empty());
    }
}

proof fn lemma_split_after(a: Seq<char>, b: Seq<char>, c: char)
    requires
        forall|i: int| 0 <= i < a.len() ==> #[trigger] a[i] != c,
    ensures
        split_on(a + seq![c] + b, c) == seq![a] + split_on(b, c),
    decreases a.len(),
{
    let s = a + seq![c] + b;
    if a.len() == 0 {
        assert(s.drop_first() =~= b);
        assert(s[0] == c);
        assert(a =~= Seq::<char>::empty());
        assert(split_on(s, c) =~= seq![a] + split_on(b, c));
    } else {
        let t = a.drop_first();
        assert forall|i: int| 0 <= i < t.len() implies #[trigger] t[i] != c by {
            assert(t[i] == a[i + 1]);
        }
        lemma_split_after(t, b, c);
        assert(s.drop_first() =~= t + seq![c] + b);
        assert(s[0] == a[0]);
        assert(a[0] != c);
        assert(seq![a[0]] + t =~= a);
        assert(split_on(s, c) =~= seq![a] + split_on(b, c));
    }
}

proof fn lemma_trim_after_space(t: Seq<char>)
    requires
        trim_spec(t) == t,
    ensures
        trim_spec(seq![' '] + t) == t,
{
    let s = seq![' '] + t;
    assert(s.drop_first() =~= t);
    assert(is_ws(' '));
    assert(trim_start_spec(s) == trim_start_spec(t));
}

/// The message `encode` builds gives back its token: the `Seed:` line is the
/// first line starting with the label, provided the member name and title
/// hold no line break and the first line does not itself start with
/// `Seed:`.
pub proof fn law_seed_of_playing_message(member: Seq<char>, title: Seq<char>, token: Seq<char>)
    requires
        single_line(member),
        single_line(title),
        !starts_with_seed(trim_start_spec(member + " está jogando: "@ + title)),
        forall|i: int| 0 <= i < token.len() ==> #[trigger] token[i] != '\n',
        trim_spec(token) == token,
    ensures
        seed_in_lines(lines_spec(playing_message(member, title, token))) == Some(token),
{
    reveal_strlit(" está jogando: ");
    reveal_strlit("\n\nSeed: ");
    reveal_strlit("Seed:");
    let l1 = member + " está jogando: "@ + title;
    let l3 = "Seed: "@ + token;
    reveal_strlit("Seed: ");
    assert forall|i: int| 0 <= i < l1.len() implies #[trigger] l1[i] != '\n' && l1[i] != '\r' by {
        if i < member.len() {
            assert(l1[i] == member[i]);
        } else if i < member.len() + 15 {
            assert(l1[i] == " está jogando: "@[i - member.len()]);
        } else {
            assert(l1[i] == title[i - member.len() - 15]);
        }
    }
    assert forall|i: int| 0 <= i < l3.len() implies #[trigger] l3[i] != '\n' by {
        if i >= 6 {
            assert(l3[i] == token[i - 6]);
        }
    }
    let msg = playing_message(member, title, token);
    assert(msg =~= l1 + seq!['\n'] + (Seq::<char>::empty() + seq!['\n'] + l3));
    lemma_split_after(l1, Seq::<char>::empty() + seq!['\n'] + l3, '\n');
    lemma_split_after(Seq::<char>::empty(), l3, '\n');
    lemma_split_single(l3, '\n');
    let p = split_on(msg, '\n');
    assert(p =~= seq![l1, Seq::<char>::empty(), l3]);
    assert(l1.len() > 0 ==> l1.last() != '\r');
    assert(strip_cr(l1) == l1);
    assert(strip_cr(Seq::<char>::empty()) == Seq::<char>::empty());
    let ls = lines_spec(msg);
    assert(l3.len() > 0);
    assert(ls =~= seq![l1, Seq::<char>::empty(), l3]);
    assert(trim_start_spec(Seq::<char>::empty()) == Seq::<char>::empty());
    assert(ls.drop_first().drop_first() =~= seq![l3]);
    assert(trim_start_spec(l3) == l3);
    assert(l3.take(5) =~= "Seed:"@);
    assert(l3.skip(5) =~= seq![' '] + token);
    lemma_trim_after_space(token);
    assert(seed_in_lines(seq![l3]) == Some(token));
    assert(seed_in_lines(ls.drop_first()) == seed_in_lines(seq![l3]));
}

} // verus!
