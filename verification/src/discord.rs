//! Reading Discord's JSON responses: messages and their attachments, the
//! bot's identity, guilds and text channels, and what to do when a request
//! answers with an error status.
//!
//! Making the HTTP requests and decoding their JSON text are the
//! application's part: it turns each response into a [`Json`] value.
use vstd::prelude::*;

use crate::debug_text::{debug_str, str_debug};
use crate::engine::{decimal, decimal_string};
use crate::error::{VaultError, copy_str, prefixed};
use crate::text::{chars_of, str_eq};

verus! {

/// A JSON value, holding what the parsers read: numbers as their `u64`
/// value when they are one, objects as their (key, value) entries.
#[derive(Debug)]
pub enum Json {
    Null,
    Bool(bool),
    Number(Option<u64>),
    Str(String),
    Array(Vec<Json>),
    Object(Vec<(String, Json)>),
}

/// The value of the first entry with key `k`.
pub open spec fn first_field(es: Seq<(String, Json)>, k: Seq<char>) -> Option<Json>
    decreases es.len(),
{
    if es.len() == 0 {
        None
    } else if es[0].0@ == k {
        Some(es[0].1)
    } else {
        first_field(es.drop_first(), k)
    }
}

/// The value under `k` of an object.
pub open spec fn field(v: Json, k: Seq<char>) -> Option<Json> {
    match v {
        Json::Object(es) => first_field(es@, k),
        _ => None,
    }
}

/// The text under `k` of an object, if it is a string.
pub open spec fn str_field(v: Json, k: Seq<char>) -> Option<Seq<char>> {
    match field(v, k) {
        Some(Json::Str(s)) => Some(s@),
        _ => None,
    }
}

/// The text under `k`, or the empty text.
pub open spec fn str_or_empty(v: Json, k: Seq<char>) -> Seq<char> {
    match str_field(v, k) {
        Some(s) => s,
        None => Seq::empty(),
    }
}

impl Json {
    /// The value under `key`, if this is an object with that key.
    pub fn get(&self, key: &str) -> (r: Option<&Json>)
        ensures
            match field(*self, key@) {
                Some(x) => r == Some(&x),
                None => r is None,
            },
    {
        match self {
            Json::Object(es) => {
                let mut i: usize = 0;
                assert(es@.skip(0) =~= es@);
                while i < es.len()
                    invariant
                        i <= es@.len(),
                        field(*self, key@) == first_field(es@, key@),
                        first_field(es@, key@) == first_field(es@.skip(i as int), key@),
                    decreases es@.len() - i,
                {
                    assert(es@.skip(i as int)[0] == es@[i as int]);
                    if str_eq(es[i].0.as_str(), key) {
                        assert(first_field(es@.skip(i as int), key@) == Some(es@[i as int].1));
                        return Some(&es[i].1);
                    }
                    assert(es@.skip(i as int).drop_first() =~= es@.skip(i + 1));
                    i = i + 1;
                }
                None
            },
            _ => None,
        }
    }

    /// The text, if this is a string.
    pub fn as_str(&self) -> (r: Option<&str>)
        ensures
            match self {
                Json::Str(s) => r matches Some(x) && x@ == s@,
                _ => r is None,
            },
    {
        match self {
            Json::Str(s) => Some(s.as_str()),
            _ => None,
        }
    }
}

fn text_field(v: &Json, key: &str) -> (r: Option<String>)
    ensures
        match r {
            Some(s) => str_field(*v, key@) == Some(s@),
            None => str_field(*v, key@) is None,
        },
{
    match v.get(key) {
        Some(x) => match x.as_str() {
            Some(s) => Some(copy_str(s)),
            None => None,
        },
        None => None,
    }
}

fn text_or_empty(v: &Json, key: &str) -> (r: String)
    ensures
        r@ == str_or_empty(*v, key@),
{
    match text_field(v, key) {
        Some(s) => s,
        None => String::new(),
    }
}

/// A decimal digit.
pub open spec fn is_digit(c: char) -> bool {
    '0' <= c && c <= '9'
}

/// The number the decimal digits `ds` spell.
pub open spec fn digits_value(ds: Seq<char>) -> nat
    decreases ds.len(),
{
    if ds.len() == 0 {
        0
    } else {
        digits_value(ds.drop_last()) * 10 + ((ds.last() as nat) - 48) as nat
    }
}

/// Every character is a decimal digit.
pub open spec fn all_digits(ds: Seq<char>) -> bool {
    forall|i: int| 0 <= i < ds.len() ==> is_digit(#[trigger] ds[i])
}

/// What `str::parse::<u64>` accepts: an optional `+`, then one or more
/// decimal digits, of a value that fits.
pub open spec fn parse_u64_spec(s: Seq<char>) -> Option<u64> {
    let ds = if s.len() > 0 && s[0] == '+' {
        s.drop_first()
    } else {
        s
    };
    if ds.len() == 0 || !all_digits(ds) {
        None
    } else if digits_value(ds) > u64::MAX {
        None
    } else {
        Some(digits_value(ds) as u64)
    }
}

proof fn lemma_digits_grow(ds: Seq<char>, i: int)
    requires
        0 <= i <= ds.len(),
        forall|j: int| 0 <= j < ds.len() ==> is_digit(#[trigger] ds[j]),
    ensures
        digits_value(ds.take(i)) <= digits_value(ds),
    decreases ds.len() - i,
{
    if i < ds.len() {
        let t = ds.drop_last();
        assert forall|j: int| 0 <= j < t.len() implies is_digit(#[trigger] t[j]) by {
            assert(t[j] == ds[j]);
        }
        if i == ds.len() - 1 {
            assert(ds.take(i) =~= t);
        } else {
            lemma_digits_grow(t, i);
            assert(t.take(i) =~= ds.take(i));
        }
    } else {
        assert(ds.take(i) =~= ds);
    }
}

/// The `u64` a decimal text spells (see [`parse_u64_spec`]).
fn parse_u64(s: &str) -> (r: Option<u64>)
    ensures
        r == parse_u64_spec(s@),
{
    let c = chars_of(s);
    let start: usize = if c.len() > 0 && c[0] == '+' {
        1
    } else {
        0
    };
    let ghost ds = if s@.len() > 0 && s@[0] == '+' {
        s@.drop_first()
    } else {
        s@
    };
    assert(ds =~= c@.skip(start as int));
    if start >= c.len() {
        return None;
    }
    let mut v: u64 = 0;
    let mut i: usize = start;
    while i < c.len()
        invariant
            start <= i <= c@.len(),
            c@ == s@,
            ds == (if s@.len() > 0 && s@[0] == '+' {
                s@.drop_first()
            } else {
                s@
            }),
            ds == c@.skip(start as int),
            ds.len() > 0,
            forall|j: int| 0 <= j < i - start ==> is_digit(#[trigger] ds[j]),
            v == digits_value(ds.take(i - start)),
        decreases c@.len() - i,
    {
        let ch = c[i];
        assert(ds[i - start] == ch);
        if !('0' <= ch && ch <= '9') {
            assert(!is_digit(ds[i - start]));
            proof {
                lemma_spec_cases(s@, ds);
            }
            return None;
        }
        let d = (ch as u32 - 48) as u64;
        assert(ds.take(i - start + 1).drop_last() =~= ds.take(i - start));
        assert(ds.take(i - start + 1).last() == ch);
        let ghost next = digits_value(ds.take(i - start + 1));
        assert(next == v * 10 + d);
        match v.checked_mul(10) {
            Some(m) => match m.checked_add(d) {
                Some(n) => {
                    v = n;
                },
                None => {
                    proof {
                        lemma_overflow_is_none(s@, ds, i - start + 1);
                    }
                    return None;
                },
            },
            None => {
                proof {
                    lemma_overflow_is_none(s@, ds, i - start + 1);
                }
                return None;
            },
        }
        i = i + 1;
    }
    assert(ds.take(ds.len() as int) =~= ds);
    Some(v)
}

proof fn lemma_overflow_is_none(s: Seq<char>, ds: Seq<char>, k: int)
    requires
        ds == (if s.len() > 0 && s[0] == '+' {
            s.drop_first()
        } else {
            s
        }),
        0 < k <= ds.len(),
        digits_value(ds.take(k)) > u64::MAX,
    ensures
        parse_u64_spec(s) is None,
{
    if all_digits(ds) {
        lemma_digits_grow(ds, k);
        assert(digits_value(ds) > u64::MAX);
    }
    lemma_spec_cases(s, ds);
}

proof fn lemma_spec_cases(s: Seq<char>, ds: Seq<char>)
    requires
        ds == (if s.len() > 0 && s[0] == '+' {
            s.drop_first()
        } else {
            s
        }),
    ensures
        (ds.len() == 0 || !all_digits(ds) || digits_value(ds) > u64::MAX) ==> parse_u64_spec(s) is None,
        !(ds.len() == 0 || !all_digits(ds) || digits_value(ds) > u64::MAX) ==> parse_u64_spec(s)
            == Some(digits_value(ds) as u64),
{
}

/// The message of an invalid Discord id.
pub open spec fn bad_id_message(s: Seq<char>) -> Seq<char> {
    "invalid Discord id: "@ + str_debug(s)
}

/// Parse a Discord snowflake (decimal string) into a `u64`.
pub fn parse_snowflake(s: &str) -> (r: Result<u64, VaultError>)
    ensures
        match parse_u64_spec(s@) {
            Some(n) => r == Ok::<u64, VaultError>(n),
            None => r matches Err(VaultError::Transport(m)) && m@ == bad_id_message(s@),
        },
{
    match parse_u64(s) {
        Some(n) => Ok(n),
        None => {
            let shown = debug_str(s);
            Err(VaultError::Transport(prefixed("invalid Discord id: ", shown.as_str())))
        },
    }
}

/// A file attached to a message.
#[derive(Debug, PartialEq, Eq)]
pub struct AttachmentRef {
    pub id: u64,
    pub filename: String,
}

/// A channel message: its id, text and attachments.
#[derive(Debug)]
pub struct Message {
    pub id: u64,
    pub content: String,
    pub attachments: Vec<AttachmentRef>,
}

/// The (id, filename) of each attachment, or the message of the first
/// attachment that cannot be read.
pub open spec fn attachments_spec(arr: Seq<Json>) -> Result<Seq<(u64, Seq<char>)>, Seq<char>>
    decreases arr.len(),
{
    if arr.len() == 0 {
        Ok(seq![])
    } else {
        match str_field(arr[0], "id"@) {
            None => Err("attachment JSON missing string `id`"@),
            Some(s) => match parse_u64_spec(s) {
                None => Err(bad_id_message(s)),
                Some(id) => match attachments_spec(arr.drop_first()) {
                    Err(e) => Err(e),
                    Ok(rest) => Ok(seq![(id, str_or_empty(arr[0], "filename"@))] + rest),
                },
            },
        }
    }
}

/// A message read from its JSON object: (id, content, attachments), or the
/// message of what is missing or malformed.
pub open spec fn message_spec(v: Json) -> Result<(u64, Seq<char>, Seq<(u64, Seq<char>)>), Seq<char>> {
    match str_field(v, "id"@) {
        None => Err("message JSON missing string `id`"@),
        Some(s) => match parse_u64_spec(s) {
            None => Err(bad_id_message(s)),
            Some(id) => match field(v, "attachments"@) {
                Some(Json::Array(a)) => match attachments_spec(a@) {
                    Err(e) => Err(e),
                    Ok(atts) => Ok((id, str_or_empty(v, "content"@), atts)),
                },
                _ => Ok((id, str_or_empty(v, "content"@), seq![])),
            },
        },
    }
}

/// The plain value of a message.
pub open spec fn message_view(m: Message) -> (u64, Seq<char>, Seq<(u64, Seq<char>)>) {
    (m.id, m.content@, m.attachments@.map_values(|a: AttachmentRef| (a.id, a.filename@)))
}

fn parse_attachments(arr: &Vec<Json>) -> (r: Result<Vec<AttachmentRef>, VaultError>)
    ensures
        match attachments_spec(arr@) {
            Ok(atts) => r matches Ok(v) && v@.map_values(|a: AttachmentRef| (a.id, a.filename@))
                == atts,
            Err(e) => r matches Err(VaultError::Transport(m)) && m@ == e,
        },
{
    let mut out: Vec<AttachmentRef> = Vec::new();
    let mut i: usize = 0;
    assert(arr@.skip(0) =~= arr@);
    assert(out@.map_values(|a: AttachmentRef| (a.id, a.filename@)) =~= Seq::<(u64, Seq<char>)>::empty());
    proof {
        match attachments_spec(arr@) {
            Err(e) => {},
            Ok(r) => {
                assert(Seq::<(u64, Seq<char>)>::empty() + r =~= r);
            },
        }
    }
    while i < arr.len()
        invariant
            i <= arr@.len(),
            attachments_spec(arr@) == match attachments_spec(arr@.skip(i as int)) {
                Err(e) => Err(e),
                Ok(rest) => Ok(out@.map_values(|a: AttachmentRef| (a.id, a.filename@)) + rest),
            },
        decreases arr@.len() - i,
    {
        let a = &arr[i];
        let ghost rest = arr@.skip(i as int);
        assert(rest[0] == arr@[i as int]);
        assert(rest.drop_first() =~= arr@.skip(i + 1));
        let aid_str = match text_field(a, "id") {
            Some(s) => s,
            None => {
                return Err(VaultError::Transport(copy_str("attachment JSON missing string `id`")));
            },
        };
        let aid = match parse_snowflake(aid_str.as_str()) {
            Ok(n) => n,
            Err(e) => {
                return Err(e);
            },
        };
        let filename = text_or_empty(a, "filename");
        let ghost before = out@;
        out.push(AttachmentRef { id: aid, filename });
        proof {
            let f = |x: AttachmentRef| (x.id, x.filename@);
            assert(out@.map_values(f) =~= before.map_values(f).push((aid, str_or_empty(arr@[i as int], "filename"@))));
            match attachments_spec(arr@.skip(i + 1)) {
                Err(e) => {},
                Ok(r2) => {
                    assert(out@.map_values(f) + r2 =~= before.map_values(f) + (seq![(aid, str_or_empty(arr@[i as int], "filename"@))] + r2));
                },
            }
        }
        i = i + 1;
    }
    proof {
        assert(arr@.skip(arr@.len() as int) =~= Seq::<Json>::empty());
        let f = |x: AttachmentRef| (x.id, x.filename@);
        assert(out@.map_values(f) + Seq::<(u64, Seq<char>)>::empty() =~= out@.map_values(f));
    }
    Ok(out)
}

/// Parse one Discord message object.
pub fn parse_message(v: &Json) -> (r: Result<Message, VaultError>)
    ensures
        match message_spec(*v) {
            Ok(m) => r matches Ok(x) && message_view(x) == m,
            Err(e) => r matches Err(VaultError::Transport(t)) && t@ == e,
        },
{
    let id_str = match text_field(v, "id") {
        Some(s) => s,
        None => {
            return Err(VaultError::Transport(copy_str("message JSON missing string `id`")));
        },
    };
    let id = match parse_snowflake(id_str.as_str()) {
        Ok(n) => n,
        Err(e) => {
            return Err(e);
        },
    };
    let content = text_or_empty(v, "content");
    let attachments = match v.get("attachments") {
        Some(Json::Array(arr)) => match parse_attachments(arr) {
            Ok(a) => a,
            Err(e) => {
                return Err(e);
            },
        },
        _ => Vec::new(),
    };
    let m = Message { id, content, attachments };
    proof {
        if !(field(*v, "attachments"@) matches Some(Json::Array(_))) {
            assert(m.attachments@.map_values(|a: AttachmentRef| (a.id, a.filename@)) =~= Seq::<(u64, Seq<char>)>::empty());
        }
    }
    Ok(m)
}

/// The messages of an array response, or the message of the first that
/// cannot be read.
pub open spec fn messages_spec(arr: Seq<Json>) -> Result<Seq<(u64, Seq<char>, Seq<(u64, Seq<char>)>)>, Seq<char>>
    decreases arr.len(),
{
    if arr.len() == 0 {
        Ok(seq![])
    } else {
        match message_spec(arr[0]) {
            Err(e) => Err(e),
            Ok(m) => match messages_spec(arr.drop_first()) {
                Err(e) => Err(e),
                Ok(rest) => Ok(seq![m] + rest),
            },
        }
    }
}

/// Parse a "get channel messages" array response.
pub fn parse_messages(v: &Json) -> (r: Result<Vec<Message>, VaultError>)
    ensures
        match v {
            Json::Array(arr) => match messages_spec(arr@) {
                Ok(ms) => r matches Ok(x) && x@.map_values(|m: Message| message_view(m)) == ms,
                Err(e) => r matches Err(VaultError::Transport(t)) && t@ == e,
            },
            _ => r matches Err(VaultError::Transport(t)) && t@ == "expected a JSON array of messages"@,
        },
{
    let arr = match v {
        Json::Array(a) => a,
        _ => {
            return Err(VaultError::Transport(copy_str("expected a JSON array of messages")));
        },
    };
    let mut out: Vec<Message> = Vec::new();
    let mut i: usize = 0;
    assert(arr@.skip(0) =~= arr@);
    assert(out@.map_values(|m: Message| message_view(m)) =~= Seq::<(u64, Seq<char>, Seq<(u64, Seq<char>)>)>::empty());
    proof {
        match messages_spec(arr@) {
            Err(e) => {},
            Ok(r) => {
                assert(Seq::<(u64, Seq<char>, Seq<(u64, Seq<char>)>)>::empty() + r =~= r);
            },
        }
    }
    while i < arr.len()
        invariant
            i <= arr@.len(),
            (*v matches Json::Array(a) && a@ == arr@),
            messages_spec(arr@) == match messages_spec(arr@.skip(i as int)) {
                Err(e) => Err(e),
                Ok(rest) => Ok(out@.map_values(|m: Message| message_view(m)) + rest),
            },
        decreases arr@.len() - i,
    {
        let ghost rest = arr@.skip(i as int);
        assert(rest[0] == arr@[i as int]);
        assert(rest.drop_first() =~= arr@.skip(i + 1));
        let m = match parse_message(&arr[i]) {
            Ok(m) => m,
            Err(e) => {
                return Err(e);
            },
        };
        let ghost mv = message_view(m);
        let ghost before = out@;
        out.push(m);
        proof {
            let f = |x: Message| message_view(x);
            assert(out@.map_values(f) =~= before.map_values(f).push(mv));
            match messages_spec(arr@.skip(i + 1)) {
                Err(e) => {},
                Ok(r2) => {
                    assert(out@.map_values(f) + r2 =~= before.map_values(f) + (seq![mv] + r2));
                },
            }
        }
        i = i + 1;
    }
    proof {
        assert(arr@.skip(arr@.len() as int) =~= Seq::<Json>::empty());
        let f = |x: Message| message_view(x);
        assert(out@.map_values(f) + Seq::<(u64, Seq<char>, Seq<(u64, Seq<char>)>)>::empty() =~= out@.map_values(f));
    }
    Ok(out)
}

/// The url of the first attachment named `filename`, if it has one.
pub open spec fn url_for(atts: Seq<Json>, filename: Seq<char>) -> Option<Seq<char>>
    decreases atts.len(),
{
    if atts.len() == 0 {
        None
    } else if str_field(atts[0], "filename"@) == Some(filename) {
        str_field(atts[0], "url"@)
    } else {
        url_for(atts.drop_first(), filename)
    }
}

/// Look up the (expiring) CDN url of the attachment named `filename` in a
/// freshly fetched message object.
pub fn attachment_url(message: &Json, filename: &str) -> (r: Option<String>)
    ensures
        match field(*message, "attachments"@) {
            Some(Json::Array(atts)) => match url_for(atts@, filename@) {
                Some(u) => r matches Some(x) && x@ == u,
                None => r is None,
            },
            _ => r is None,
        },
{
    let atts = match message.get("attachments") {
        Some(Json::Array(a)) => a,
        _ => {
            return None;
        },
    };
    let mut i: usize = 0;
    assert(atts@.skip(0) =~= atts@);
    while i < atts.len()
        invariant
            i <= atts@.len(),
            (field(*message, "attachments"@) matches Some(Json::Array(a)) && a@ == atts@),
            url_for(atts@, filename@) == url_for(atts@.skip(i as int), filename@),
        decreases atts@.len() - i,
    {
        let ghost rest = atts@.skip(i as int);
        assert(rest[0] == atts@[i as int]);
        assert(rest.drop_first() =~= atts@.skip(i + 1));
        let matches = match text_field(&atts[i], "filename") {
            Some(f) => str_eq(f.as_str(), filename),
            None => false,
        };
        if matches {
            assert(url_for(rest, filename@) == str_field(atts@[i as int], "url"@));
            return text_field(&atts[i], "url");
        }
        i = i + 1;
    }
    None
}

/// A Discord guild (server) the bot is a member of.
#[derive(Debug, PartialEq, Eq)]
pub struct Guild {
    pub id: u64,
    pub name: String,
}

/// A text channel within a guild.
#[derive(Debug, PartialEq, Eq)]
pub struct TextChannel {
    pub id: u64,
    pub name: String,
}

/// The bot's own identity. The id doubles as the OAuth2 client id used to
/// build the "add bot to server" invite url.
#[derive(Debug, PartialEq, Eq)]
pub struct BotIdentity {
    pub id: u64,
    pub name: String,
}

/// An object's (id, name) under `name_key`, or the message of its missing
/// or malformed id.
pub open spec fn id_name_spec(v: Json, name_key: Seq<char>, missing: Seq<char>) -> Result<(u64, Seq<char>), Seq<char>> {
    match str_field(v, "id"@) {
        None => Err(missing),
        Some(s) => match parse_u64_spec(s) {
            None => Err(bad_id_message(s)),
            Some(id) => Ok((id, str_or_empty(v, name_key))),
        },
    }
}

fn read_id_name(v: &Json, name_key: &str, missing: &str) -> (r: Result<(u64, String), VaultError>)
    ensures
        match id_name_spec(*v, name_key@, missing@) {
            Ok((id, n)) => r matches Ok((x, y)) && x == id && y@ == n,
            Err(e) => r matches Err(VaultError::Transport(t)) && t@ == e,
        },
{
    let id_str = match text_field(v, "id") {
        Some(s) => s,
        None => {
            return Err(VaultError::Transport(copy_str(missing)));
        },
    };
    let id = match parse_snowflake(id_str.as_str()) {
        Ok(n) => n,
        Err(e) => {
            return Err(e);
        },
    };
    Ok((id, text_or_empty(v, name_key)))
}

/// Parse `GET /users/@me` into the bot's id and display name.
pub fn parse_me(v: &Json) -> (r: Result<BotIdentity, VaultError>)
    ensures
        match id_name_spec(*v, "username"@, "user JSON missing string `id`"@) {
            Ok((id, n)) => r matches Ok(b) && b.id == id && b.name@ == n,
            Err(e) => r matches Err(VaultError::Transport(t)) && t@ == e,
        },
{
    match read_id_name(v, "username", "user JSON missing string `id`") {
        Ok((id, name)) => Ok(BotIdentity { id, name }),
        Err(e) => Err(e),
    }
}

/// The (id, name) of each element, keeping only those `keep` accepts, or
/// the message of the first kept element that cannot be read.
pub open spec fn listed_spec(arr: Seq<Json>, missing: Seq<char>, text_only: bool) -> Result<Seq<(u64, Seq<char>)>, Seq<char>>
    decreases arr.len(),
{
    if arr.len() == 0 {
        Ok(seq![])
    } else if text_only && !(field(arr[0], "type"@) matches Some(Json::Number(Some(k))) && k == 0) {
        listed_spec(arr.drop_first(), missing, text_only)
    } else {
        match id_name_spec(arr[0], "name"@, missing) {
            Err(e) => Err(e),
            Ok(p) => match listed_spec(arr.drop_first(), missing, text_only) {
                Err(e) => Err(e),
                Ok(rest) => Ok(seq![p] + rest),
            },
        }
    }
}

fn is_text_channel(c: &Json) -> (r: bool)
    ensures
        r == (field(*c, "type"@) matches Some(Json::Number(Some(k))) && k == 0),
{
    match c.get("type") {
        Some(Json::Number(Some(k))) => *k == 0,
        _ => false,
    }
}

fn read_listed(v: &Json, missing: &str, wrong: &str, text_only: bool) -> (r: Result<Vec<(u64, String)>, VaultError>)
    ensures
        match v {
            Json::Array(arr) => match listed_spec(arr@, missing@, text_only) {
                Ok(ps) => r matches Ok(x) && x@.map_values(|p: (u64, String)| (p.0, p.1@)) == ps,
                Err(e) => r matches Err(VaultError::Transport(t)) && t@ == e,
            },
            _ => r matches Err(VaultError::Transport(t)) && t@ == wrong@,
        },
{
    let arr = match v {
        Json::Array(a) => a,
        _ => {
            return Err(VaultError::Transport(copy_str(wrong)));
        },
    };
    let mut out: Vec<(u64, String)> = Vec::new();
    let mut i: usize = 0;
    assert(arr@.skip(0) =~= arr@);
    assert(out@.map_values(|p: (u64, String)| (p.0, p.1@)) =~= Seq::<(u64, Seq<char>)>::empty());
    proof {
        match listed_spec(arr@, missing@, text_only) {
            Err(e) => {},
            Ok(r) => {
                assert(Seq::<(u64, Seq<char>)>::empty() + r =~= r);
            },
        }
    }
    while i < arr.len()
        invariant
            i <= arr@.len(),
            (*v matches Json::Array(a) && a@ == arr@),
            listed_spec(arr@, missing@, text_only) == match listed_spec(arr@.skip(i as int), missing@, text_only) {
                Err(e) => Err(e),
                Ok(rest) => Ok(out@.map_values(|p: (u64, String)| (p.0, p.1@)) + rest),
            },
        decreases arr@.len() - i,
    {
        let ghost rest = arr@.skip(i as int);
        assert(rest[0] == arr@[i as int]);
        assert(rest.drop_first() =~= arr@.skip(i + 1));
        if text_only && !is_text_channel(&arr[i]) {
            i = i + 1;
        } else {
            let p = match read_id_name(&arr[i], "name", missing) {
                Ok(p) => p,
                Err(e) => {
                    return Err(e);
                },
            };
            let ghost pv = (p.0, p.1@);
            let ghost before = out@;
            out.push(p);
            proof {
                let f = |q: (u64, String)| (q.0, q.1@);
                assert(out@.map_values(f) =~= before.map_values(f).push(pv));
                match listed_spec(arr@.skip(i + 1), missing@, text_only) {
                    Err(e) => {},
                    Ok(r2) => {
                        assert(out@.map_values(f) + r2 =~= before.map_values(f) + (seq![pv] + r2));
                    },
                }
            }
            i = i + 1;
        }
    }
    proof {
        assert(arr@.skip(arr@.len() as int) =~= Seq::<Json>::empty());
        let f = |q: (u64, String)| (q.0, q.1@);
        assert(out@.map_values(f) + Seq::<(u64, Seq<char>)>::empty() =~= out@.map_values(f));
    }
    Ok(out)
}

/// Parse `GET /users/@me/guilds` (an array of partial guild objects).
pub fn parse_guilds(v: &Json) -> (r: Result<Vec<Guild>, VaultError>)
    ensures
        match v {
            Json::Array(arr) => match listed_spec(arr@, "guild JSON missing string `id`"@, false) {
                Ok(ps) => r matches Ok(x) && x@.map_values(|g: Guild| (g.id, g.name@)) == ps,
                Err(e) => r matches Err(VaultError::Transport(t)) && t@ == e,
            },
            _ => r matches Err(VaultError::Transport(t)) && t@ == "expected a JSON array of guilds"@,
        },
{
    let ps = match read_listed(v, "guild JSON missing string `id`", "expected a JSON array of guilds", false) {
        Ok(ps) => ps,
        Err(e) => {
            return Err(e);
        },
    };
    let mut out: Vec<Guild> = Vec::new();
    let mut i: usize = 0;
    while i < ps.len()
        invariant
            i <= ps@.len(),
            out@.map_values(|g: Guild| (g.id, g.name@)) == ps@.take(i as int).map_values(
                |p: (u64, String)| (p.0, p.1@),
            ),
        decreases ps@.len() - i,
    {
        let ghost before = out@;
        let nm = ps[i].1.clone();
        out.push(Guild { id: ps[i].0, name: nm });
        assert(out@.map_values(|g: Guild| (g.id, g.name@)) =~= before.map_values(|g: Guild| (g.id, g.name@)).push((ps@[i as int].0, ps@[i as int].1@)));
        assert(ps@.take(i + 1).map_values(|p: (u64, String)| (p.0, p.1@)) =~= ps@.take(i as int).map_values(|p: (u64, String)| (p.0, p.1@)).push((ps@[i as int].0, ps@[i as int].1@)));
        i = i + 1;
        assert(out@.map_values(|g: Guild| (g.id, g.name@)) =~= ps@.take(i as int).map_values(
            |p: (u64, String)| (p.0, p.1@),
        ));
    }
    assert(ps@.take(ps@.len() as int) =~= ps@);
    Ok(out)
}

/// Parse `GET /guilds/{id}/channels`, keeping only text channels (`type`
/// 0; other channels are skipped).
pub fn parse_text_channels(v: &Json) -> (r: Result<Vec<TextChannel>, VaultError>)
    ensures
        match v {
            Json::Array(arr) => match listed_spec(arr@, "channel JSON missing string `id`"@, true) {
                Ok(ps) => r matches Ok(x) && x@.map_values(|c: TextChannel| (c.id, c.name@)) == ps,
                Err(e) => r matches Err(VaultError::Transport(t)) && t@ == e,
            },
            _ => r matches Err(VaultError::Transport(t)) && t@ == "expected a JSON array of channels"@,
        },
{
    let ps = match read_listed(v, "channel JSON missing string `id`", "expected a JSON array of channels", true) {
        Ok(ps) => ps,
        Err(e) => {
            return Err(e);
        },
    };
    let mut out: Vec<TextChannel> = Vec::new();
    let mut i: usize = 0;
    while i < ps.len()
        invariant
            i <= ps@.len(),
            out@.map_values(|c: TextChannel| (c.id, c.name@)) == ps@.take(i as int).map_values(
                |p: (u64, String)| (p.0, p.1@),
            ),
        decreases ps@.len() - i,
    {
        let ghost before = out@;
        let nm = ps[i].1.clone();
        out.push(TextChannel { id: ps[i].0, name: nm });
        assert(out@.map_values(|c: TextChannel| (c.id, c.name@)) =~= before.map_values(|c: TextChannel| (c.id, c.name@)).push((ps@[i as int].0, ps@[i as int].1@)));
        assert(ps@.take(i + 1).map_values(|p: (u64, String)| (p.0, p.1@)) =~= ps@.take(i as int).map_values(|p: (u64, String)| (p.0, p.1@)).push((ps@[i as int].0, ps@[i as int].1@)));
        i = i + 1;
        assert(out@.map_values(|c: TextChannel| (c.id, c.name@)) =~= ps@.take(i as int).map_values(
            |p: (u64, String)| (p.0, p.1@),
        ));
    }
    assert(ps@.take(ps@.len() as int) =~= ps@);
    Ok(out)
}

/// What to do after a request answered with HTTP status `code`.
#[derive(Debug)]
pub enum RetryAction {
    /// Wait the delay the response asks for, then try again; the count of
    /// retries made becomes `attempts`.
    Retry { attempts: u32 },
    /// Give up with this error.
    Fail(VaultError),
}

/// Decide after a failed request: retry while the response gives a delay to
/// wait (a rate limit) and fewer than `max_retries` retries were made;
/// otherwise 404 is `NotFound` and any other status a transport error.
pub fn on_status(attempts: u32, max_retries: u32, code: u16, has_delay: bool) -> (r: RetryAction)
    ensures
        has_delay && attempts < max_retries ==> r == (RetryAction::Retry { attempts: (attempts + 1) as u32 }),
        !(has_delay && attempts < max_retries) && code == 404 ==> (r matches RetryAction::Fail(
            VaultError::NotFound,
        )),
        !(has_delay && attempts < max_retries) && code != 404 ==> (r matches RetryAction::Fail(
            VaultError::Transport(m),
        ) && m@ == "Discord returned HTTP "@ + decimal(code as nat)),
{
    if has_delay && attempts < max_retries {
        RetryAction::Retry { attempts: attempts + 1 }
    } else if code == 404 {
        RetryAction::Fail(VaultError::NotFound)
    } else {
        let n = decimal_string(code as u64);
        RetryAction::Fail(VaultError::Transport(prefixed("Discord returned HTTP ", n.as_str())))
    }
}

} // verus!
