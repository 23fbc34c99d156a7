//! The opaque "Seed" token: a channel message's machine metadata, encrypted
//! with the group key and base64-encoded. A save-sync message shows a
//! friendly human line instead of raw JSON, while still carrying everything
//! the app needs, and only group members (who hold the key) can read it back.
use vstd::prelude::*;

use crate::error::CoreError;
use crate::paths::{char_views, split_chars, split_on, lemma_split_on_nonempty};
use crate::seal::{open, opened, seal, seal_with_nonce, sealed_blob, seals};
use crate::cipher::NONCE_LEN;
use crate::compress::{ok_bytes, outcome_view, zstd_encoded};
use crate::text::{chars_of, is_whitespace, is_ws, string_from_chars, trim_chars, trim_spec,
    trim_start_spec, trim_end_spec};

verus! {

/// Label that precedes the token on its own line in a channel message.
pub const SEED_PREFIX: &'static str = "Seed:";

/// Standard base64 (`+`, `/`, `=` padding) of `bytes`, as
/// `base64::engine::general_purpose::STANDARD` encodes it.
pub uninterp spec fn base64_encoded(bytes: Seq<u8>) -> Seq<char>;

/// What `STANDARD.decode` gives for `text`: the bytes, or the text of the
/// error it reports when the text is not canonical padded base64.
pub uninterp spec fn base64_decoded(text: Seq<char>) -> Result<Seq<u8>, Seq<char>>;

/// A character of the standard base64 alphabet, padding included.
pub open spec fn is_base64_char(c: char) -> bool {
    ('A' <= c && c <= 'Z') || ('a' <= c && c <= 'z') || ('0' <= c && c <= '9') || c == '+' || c
        == '/' || c == '='
}

/// `Engine::encode` of `base64::engine::general_purpose::STANDARD`. The
/// contract claims: the text is a function of the bytes, written in the
/// standard alphabet with `=` padding.
#[verifier::external_body]
pub(crate) fn base64_encode(bytes: &[u8]) -> (r: String)
    ensures
        r@ == base64_encoded(bytes@),
        forall|i: int| 0 <= i < r@.len() ==> is_base64_char(#[trigger] r@[i]),
{
    base64::Engine::encode(&base64::engine::general_purpose::STANDARD, bytes)
}

/// The bytes an optional vector holds.
pub open spec fn bytes_of(r: Option<Vec<u8>>) -> Option<Seq<u8>> {
    match r {
        Some(v) => Some(v@),
        None => None,
    }
}

/// `Engine::decode` of `base64::engine::general_purpose::STANDARD`, with the
/// error turned into its text. The contract claims: the outcome is a
/// function of the text, and decoding what `encode` wrote gives back the
/// bytes (the engine requires canonical padding and trailing bits, which
/// `encode` produces).
#[verifier::external_body]
pub(crate) fn base64_decode(text: &str) -> (r: Result<Vec<u8>, String>)
    ensures
        outcome_view(r) == base64_decoded(text@),
        forall|b: Seq<u8>| #[trigger] base64_encoded(b) == text@ ==> outcome_view(r) == ok_bytes(b),
{
    match base64::Engine::decode(&base64::engine::general_purpose::STANDARD, text) {
        Ok(v) => Ok(v),
        Err(e) => Err(e.to_string()),
    }
}

pub proof fn lemma_trim_no_ws(s: Seq<char>)
    requires
        forall|i: int| 0 <= i < s.len() ==> !is_ws(#[trigger] s[i]),
    ensures
        trim_spec(s) == s,
{
    if s.len() > 0 {
        assert(!is_ws(s[0]));
        assert(!is_ws(s.last()));
    }
}

/// Encrypt `plaintext` with `key` and base64-encode it into a Seed token.
pub fn seal_to_token(key: &[u8; 32], plaintext: &[u8]) -> (r: Result<String, CoreError>)
    ensures
        r matches Ok(t) ==> exists|b: Seq<u8>|
            #[trigger] seals(key@, plaintext@, b) && t@ == base64_encoded(b),
        r matches Ok(t) ==> trim_spec(t@) == t@,
        r matches Err(e) ==> match zstd_encoded(plaintext@, 3) {
            Err(m) => e matches CoreError::Compress(x) && x@ == m,
            Ok(_) => e is Encrypt,
        },
{
    let blob = match seal(key, plaintext) {
        Ok(b) => b,
        Err(e) => {
            return Err(e);
        },
    };
    let t = base64_encode(blob.as_slice());
    proof {
        lemma_trim_no_ws(t@);
        assert(seals(key@, plaintext@, blob@));
    }
    Ok(t)
}

/// What [`seal_to_token_with_nonce`] gives: the base64 of the sealed blob,
/// the compression error's message, or `None` inside when the compressed
/// text is longer than AES-GCM accepts.
pub open spec fn token_with(key: Seq<u8>, nonce: Seq<u8>, plain: Seq<u8>) -> Result<Option<Seq<char>>, Seq<char>> {
    match sealed_blob(key, nonce, plain) {
        Err(m) => Err(m),
        Ok(Some(b)) => Ok(Some(base64_encoded(b))),
        Ok(None) => Ok(None),
    }
}

/// [`seal_to_token`] with the given 12-byte `nonce` in place of a random one.
pub fn seal_to_token_with_nonce(key: &[u8; 32], nonce: &[u8], plaintext: &[u8]) -> (r: Result<String, CoreError>)
    requires
        nonce@.len() == NONCE_LEN,
    ensures
        match token_with(key@, nonce@, plaintext@) {
            Err(m) => r matches Err(CoreError::Compress(x)) && x@ == m,
            Ok(Some(t)) => r matches Ok(v) && v@ == t,
            Ok(None) => r matches Err(CoreError::Encrypt),
        },
        r matches Ok(t) ==> trim_spec(t@) == t@,
        r matches Ok(t) ==> exists|b: Seq<u8>|
            #[trigger] seals(key@, plaintext@, b) && t@ == base64_encoded(b),
{
    let blob = match seal_with_nonce(key, nonce, plaintext) {
        Ok(b) => b,
        Err(e) => {
            return Err(e);
        },
    };
    let t = base64_encode(blob.as_slice());
    proof {
        lemma_trim_no_ws(t@);
        assert(seals(key@, plaintext@, blob@));
    }
    Ok(t)
}

/// Inverse of [`seal_to_token`]. Returns `None` if `token` (trimmed) is not
/// valid base64 or was not sealed with `key` (so unrelated messages decode to
/// `None`).
pub fn open_from_token(key: &[u8; 32], token: &str) -> (r: Option<Vec<u8>>)
    ensures
        bytes_of(r) == match base64_decoded(trim_spec(token@)) {
            Err(_) => None,
            Ok(b) => opened(key@, b),
        },
        forall|b: Seq<u8>, p: Seq<u8>|
            #[trigger] seals(key@, p, b) && trim_spec(token@) == #[trigger] base64_encoded(b)
                ==> bytes_of(r) == Some(p),
{
    let chars = chars_of(token);
    let trimmed_chars = trim_chars(chars.as_slice());
    let trimmed = string_from_chars(trimmed_chars.as_slice());
    let blob = match base64_decode(trimmed.as_str()) {
        Ok(b) => b,
        Err(_) => {
            return None;
        },
    };
    match open(key, blob.as_slice()) {
        Ok(p) => Some(p),
        Err(_) => None,
    }
}

/// `s` without one trailing carriage return.
pub open spec fn strip_cr(s: Seq<char>) -> Seq<char> {
    if s.len() > 0 && s.last() == '\r' {
        s.drop_last()
    } else {
        s
    }
}

/// `str::lines`: the pieces between line feeds, each without a `\r` that
/// preceded its line feed; a final empty piece (after a closing line feed,
/// or of an empty text) is not a line.
pub open spec fn lines_spec(s: Seq<char>) -> Seq<Seq<char>> {
    let p = split_on(s, '\n');
    let body = p.take(p.len() - 1).map_values(|l: Seq<char>| strip_cr(l));
    if p.last().len() == 0 {
        body
    } else {
        body.push(p.last())
    }
}

/// The token of the first line that starts (after leading whitespace) with
/// `Seed:`: the rest of that line, trimmed.
pub open spec fn seed_in_lines(ls: Seq<Seq<char>>) -> Option<Seq<char>>
    decreases ls.len(),
{
    if ls.len() == 0 {
        None
    } else {
        let t = trim_start_spec(ls[0]);
        if t.len() >= 5 && t.take(5) == "Seed:"@ {
            Some(trim_spec(t.skip(5)))
        } else {
            seed_in_lines(ls.drop_first())
        }
    }
}

/// `str::lines` over characters.
fn lines_of(s: &str) -> (r: Vec<Vec<char>>)
    ensures
        char_views(r@) == lines_spec(s@),
{
    let chars = chars_of(s);
    let pieces = split_chars(chars.as_slice(), '\n');
    let ghost p = split_on(s@, '\n');
    proof {
        lemma_split_on_nonempty(s@, '\n');
    }
    let n = pieces.len();
    let mut out: Vec<Vec<char>> = Vec::new();
    let mut i: usize = 0;
    while i + 1 < n
        invariant
            n == pieces@.len() == p.len() >= 1,
            p == split_on(s@, '\n'),
            char_views(pieces@) == p,
            i <= n - 1,
            char_views(out@) == p.take(i as int).map_values(|l: Seq<char>| strip_cr(l)),
        decreases n - i,
    {
        let piece = &pieces[i];
        assert(piece@ == p[i as int]);
        let mut line: Vec<char> = Vec::new();
        let len = piece.len();
        let keep = if len > 0 && piece[len - 1] == '\r' {
            len - 1
        } else {
            len
        };
        let mut j: usize = 0;
        while j < keep
            invariant
                j <= keep <= piece@.len(),
                line@ == piece@.take(j as int),
            decreases keep - j,
        {
            line.push(piece[j]);
            j = j + 1;
            assert(line@ =~= piece@.take(j as int));
        }
        proof {
            if len > 0 && piece@[len - 1] == '\r' {
                assert(line@ =~= piece@.drop_last());
            } else {
                assert(line@ =~= piece@);
            }
            assert(line@ == strip_cr(p[i as int]));
        }
        let ghost before = out@;
        out.push(line);
        proof {
            assert(char_views(out@) =~= char_views(before).push(line@));
            assert(p.take(i + 1).map_values(|l: Seq<char>| strip_cr(l)) =~= p.take(i as int).map_values(
                |l: Seq<char>| strip_cr(l),
            ).push(strip_cr(p[i as int])));
        }
        i = i + 1;
    }
    let last = &pieces[n - 1];
    assert(last@ == p.last());
    if last.len() > 0 {
        let mut copy: Vec<char> = Vec::new();
        let mut j: usize = 0;
        while j < last.len()
            invariant
                j <= last@.len(),
                copy@ == last@.take(j as int),
            decreases last@.len() - j,
        {
            copy.push(last[j]);
            j = j + 1;
            assert(copy@ =~= last@.take(j as int));
        }
        assert(copy@ =~= last@);
        let ghost before = out@;
        out.push(copy);
        assert(char_views(out@) =~= char_views(before).push(copy@));
    }
    out
}

/// `str::trim_start` over characters.
fn trim_start_chars(v: &[char]) -> (r: Vec<char>)
    ensures
        r@ == trim_start_spec(v@),
{
    let mut a: usize = 0;
    assert(v@.skip(0) =~= v@);
    while a < v.len() && is_whitespace(v[a])
        invariant
            a <= v@.len(),
            trim_start_spec(v@) == trim_start_spec(v@.skip(a as int)),
        decreases v@.len() - a,
    {
        assert(v@.skip(a as int).drop_first() =~= v@.skip(a + 1));
        a = a + 1;
    }
    let mut r: Vec<char> = Vec::new();
    let mut i: usize = a;
    while i < v.len()
        invariant
            a <= i <= v@.len(),
            r@ == v@.subrange(a as int, i as int),
        decreases v@.len() - i,
    {
        r.push(v[i]);
        i = i + 1;
        assert(r@ =~= v@.subrange(a as int, i as int));
    }
    assert(r@ =~= v@.skip(a as int));
    r
}

/// Pull the Seed token out of a channel message (the text after `Seed:` on
/// its own line, trimmed), or `None` if the message has no Seed line.
pub fn seed_from_message(content: &str) -> (r: Option<String>)
    ensures
        match r {
            Some(t) => seed_in_lines(lines_spec(content@)) == Some(t@),
            None => seed_in_lines(lines_spec(content@)) is None,
        },
{
    let ls = lines_of(content);
    let ghost lv = char_views(ls@);
    let mut i: usize = 0;
    assert(lv.skip(0) =~= lv);
    while i < ls.len()
        invariant
            i <= ls@.len(),
            lv == char_views(ls@),
            lv == lines_spec(content@),
            seed_in_lines(lv) == seed_in_lines(lv.skip(i as int)),
        decreases ls@.len() - i,
    {
        let t = trim_start_chars(ls[i].as_slice());
        assert(ls@[i as int]@ == lv[i as int]);
        let ghost rest = lv.skip(i as int);
        assert(rest[0] == lv[i as int]);
        if t.len() >= 5 && t[0] == 'S' && t[1] == 'e' && t[2] == 'e' && t[3] == 'd' && t[4] == ':' {
            proof {
                reveal_strlit("Seed:");
                assert(t@.take(5) =~= "Seed:"@);
            }
            let mut tail: Vec<char> = Vec::new();
            let mut j: usize = 5;
            while j < t.len()
                invariant
                    5 <= j <= t@.len(),
                    tail@ == t@.subrange(5, j as int),
                decreases t@.len() - j,
            {
                tail.push(t[j]);
                j = j + 1;
                assert(tail@ =~= t@.subrange(5, j as int));
            }
            assert(tail@ =~= t@.skip(5));
            let tok = trim_chars(tail.as_slice());
            let out = string_from_chars(tok.as_slice());
            proof {
                assert(rest.len() > 0);
                assert(t@ == trim_start_spec(rest[0]));
                assert(seed_in_lines(rest) == Some(trim_spec(t@.skip(5))));
            }
            return Some(out);
        }
        proof {
            reveal_strlit("Seed:");
            if t@.len() >= 5 && t@.take(5) == "Seed:"@ {
                assert(t@.take(5)[0] == t@[0]);
                assert(t@.take(5)[1] == t@[1]);
                assert(t@.take(5)[2] == t@[2]);
                assert(t@.take(5)[3] == t@[3]);
                assert(t@.take(5)[4] == t@[4]);
            }
            assert(rest.drop_first() =~= lv.skip(i + 1));
        }
        i = i + 1;
    }
    None
}

} // verus!
