//! Minimal Valve KeyValues (VDF) parser.
//!
//! Handles the subset used by Steam's `.acf` and `libraryfolders.vdf`: quoted
//! string keys/values, `{ }` nested objects, `//` line comments, and the
//! escapes `\\`, `\"`, `\n`, `\t`.
use vstd::prelude::*;

use crate::debug_text::{char_debug, debug_char, debug_str, str_debug};
use crate::error::{copy_str, prefixed, DetectError};
use crate::strmap::{as_map, lookup, find_index, has_key, key_index, lemma_lookup_at, map_insert, sorted_keys};
use crate::text::{chars_of, is_whitespace, is_ws, string_from_chars};
use vstd::string::StringExecFns;

verus! {

/// A parsed VDF value: either a string or a nested object.
#[derive(Debug)]
pub enum Vdf {
    Str(String),
    Obj(VdfMap),
}

/// The entries of a VDF object, kept sorted by key (each key once), with
/// every nested object kept the same way.
#[derive(Debug)]
pub struct VdfMap {
    entries: Vec<(String, Vdf)>,
}

/// The mathematical value of a VDF document.
pub enum VdfView {
    Str(Seq<char>),
    Obj(Map<Seq<char>, VdfView>),
}

/// The mathematical value of `v`.
pub closed spec fn vdf_view(v: Vdf) -> VdfView
    decreases v,
{
    match v {
        Vdf::Str(s) => VdfView::Str(s@),
        Vdf::Obj(m) => VdfView::Obj(
            Map::new(
                |k: Seq<char>| has_key(m.entries@, k),
                |k: Seq<char>|
                    {
                        let j = key_index(m.entries@, k);
                        if 0 <= j < m.entries@.len() {
                            vdf_view(m.entries@[j].1)
                        } else {
                            VdfView::Str(Seq::empty())
                        }
                    },
            ),
        ),
    }
}

/// The mathematical value of an object's entries.
pub open spec fn entries_view(e: Seq<(String, Vdf)>) -> Map<Seq<char>, VdfView> {
    Map::new(|k: Seq<char>| has_key(e, k), |k: Seq<char>| vdf_view(e[key_index(e, k)].1))
}

/// Every object, at every depth, keeps its keys sorted.
pub closed spec fn vdf_wf(v: Vdf) -> bool
    decreases v,
{
    match v {
        Vdf::Str(_) => true,
        Vdf::Obj(m) => sorted_keys(m.entries@) && forall|i: int|
            0 <= i < m.entries@.len() ==> vdf_wf(#[trigger] m.entries@[i].1),
    }
}

/// An object's entries are sorted and every value is well formed.
pub open spec fn entries_wf(e: Seq<(String, Vdf)>) -> bool {
    sorted_keys(e) && forall|i: int| 0 <= i < e.len() ==> vdf_wf(#[trigger] e[i].1)
}

/// The value of a document, by its shape.
pub broadcast proof fn lemma_vdf_view_shape(v: Vdf)
    ensures
        #[trigger] vdf_view(v) == match v {
            Vdf::Str(s) => VdfView::Str(s@),
            Vdf::Obj(m) => VdfView::Obj(entries_view(m.entry_seq())),
        },
{
    match v {
        Vdf::Str(s) => {},
        Vdf::Obj(m) => lemma_obj_view(m),
    }
}

/// The value of an object is the map of its entries' values.
pub proof fn lemma_obj_view(m: VdfMap)
    ensures
        vdf_view(Vdf::Obj(m)) == VdfView::Obj(entries_view(m.entry_seq())),
        vdf_wf(Vdf::Obj(m)) == entries_wf(m.entry_seq()),
{
    assert(entries_view(m.entries@) =~= match vdf_view(Vdf::Obj(m)) {
        VdfView::Obj(x) => x,
        VdfView::Str(_) => Map::empty(),
    });
}

impl VdfMap {
    #[verifier::type_invariant]
    spec fn entries_ok(self) -> bool {
        entries_wf(self.entries@)
    }

    /// The entries, in key order.
    pub closed spec fn entry_seq(&self) -> Seq<(String, Vdf)> {
        self.entries@
    }

    /// The entries, in key order: sorted, each value well formed.
    pub fn entries(&self) -> (r: &Vec<(String, Vdf)>)
        ensures
            r@ == self.entry_seq(),
            entries_wf(r@),
    {
        proof {
            use_type_invariant(self);
        }
        &self.entries
    }

    /// The value stored under `key`, if any.
    pub fn get(&self, key: &str) -> (r: Option<&Vdf>)
        ensures
            r matches Some(v) ==> entries_view(self.entry_seq()).dom().contains(key@)
                && entries_view(self.entry_seq())[key@] == vdf_view(*v) && vdf_wf(*v),
            r matches Some(v) ==> lookup(self.entry_seq(), key@) == Some(*v),
            r is None ==> !entries_view(self.entry_seq()).dom().contains(key@),
            r is None ==> lookup(self.entry_seq(), key@) is None,
    {
        proof {
            use_type_invariant(self);
        }
        match find_index(&self.entries, key) {
            Some(i) => {
                proof {
                    lemma_lookup_at(self.entries@, i as int);
                    assert(has_key(self.entries@, key@));
                }
                Some(&self.entries[i].1)
            },
            None => None,
        }
    }

    /// The number of entries.
    pub fn len(&self) -> (n: usize)
        ensures
            n == self.entry_seq().len(),
    {
        self.entries.len()
    }
}

impl Vdf {
    /// Borrow as an object, if it is one.
    pub fn as_obj(&self) -> (r: Option<&VdfMap>)
        ensures
            match self {
                Vdf::Obj(m) => r == Some(m),
                Vdf::Str(_) => r is None,
            },
    {
        match self {
            Vdf::Obj(m) => Some(m),
            Vdf::Str(_) => None,
        }
    }

    /// Borrow as a string, if it is one.
    pub fn as_str(&self) -> (r: Option<&str>)
        ensures
            match self {
                Vdf::Str(s) => r matches Some(x) && x@ == s@,
                Vdf::Obj(_) => r is None,
            },
    {
        match self {
            Vdf::Str(s) => Some(s.as_str()),
            Vdf::Obj(_) => None,
        }
    }
}

/// A lexical token of a VDF document.
pub enum Token {
    Str(String),
    Open,
    Close,
}

/// The mathematical value of a token.
pub enum TokView {
    Str(Seq<char>),
    Open,
    Close,
}

pub open spec fn tok_view(t: Token) -> TokView {
    match t {
        Token::Str(s) => TokView::Str(s@),
        Token::Open => TokView::Open,
        Token::Close => TokView::Close,
    }
}

pub open spec fn toks_view(s: Seq<Token>) -> Seq<TokView> {
    s.map_values(|t: Token| tok_view(t))
}

/// The character an escape `\c` stands for.
pub open spec fn unescape(c: char) -> char {
    if c == 'n' {
        '\n'
    } else if c == 't' {
        '\t'
    } else {
        c
    }
}

/// Reads a quoted string whose opening quote was just consumed: the text and
/// the number of characters consumed (closing quote included), or an error.
pub open spec fn read_str_spec(s: Seq<char>) -> Result<(Seq<char>, nat), Seq<char>>
    decreases s.len(),
{
    if s.len() == 0 {
        Err("unterminated string"@)
    } else if s[0] == '"' {
        Ok((Seq::empty(), 1))
    } else if s[0] == '\\' {
        if s.len() < 2 {
            Err("dangling escape"@)
        } else {
            match read_str_spec(s.skip(2)) {
                Ok((v, n)) => Ok((seq![unescape(s[1])] + v, n + 2)),
                Err(e) => Err(e),
            }
        }
    } else {
        match read_str_spec(s.drop_first()) {
            Ok((v, n)) => Ok((seq![s[0]] + v, n + 1)),
            Err(e) => Err(e),
        }
    }
}

/// The number of characters a line comment consumes: through the first
/// newline, or to the end of the input.
pub open spec fn line_skip(s: Seq<char>) -> nat
    decreases s.len(),
{
    if s.len() == 0 {
        0
    } else if s[0] == '\n' {
        1
    } else {
        1 + line_skip(s.drop_first())
    }
}

pub proof fn lemma_line_skip_len(s: Seq<char>)
    ensures
        line_skip(s) <= s.len(),
        s.len() > 0 ==> line_skip(s) >= 1,
    decreases s.len(),
{
    if s.len() > 0 && s[0] != '\n' {
        lemma_line_skip_len(s.drop_first());
    }
}

pub proof fn lemma_read_str_len(s: Seq<char>)
    ensures
        read_str_spec(s) matches Ok((_, n)) ==> 1 <= n <= s.len(),
    decreases s.len(),
{
    if s.len() > 0 && s[0] != '"' {
        if s[0] == '\\' {
            if s.len() >= 2 {
                lemma_read_str_len(s.skip(2));
            }
        } else {
            lemma_read_str_len(s.drop_first());
        }
    }
}

/// Prepend `p` to a successful token sequence.
pub open spec fn cons_toks(p: Seq<TokView>, r: Result<Seq<TokView>, Seq<char>>) -> Result<
    Seq<TokView>,
    Seq<char>,
> {
    match r {
        Ok(t) => Ok(p + t),
        Err(e) => Err(e),
    }
}

/// The tokens of a VDF document, or the first lexical error.
pub open spec fn tokenize_spec(s: Seq<char>) -> Result<Seq<TokView>, Seq<char>>
    decreases s.len(),
{
    if s.len() == 0 {
        Ok(Seq::empty())
    } else if is_ws(s[0]) {
        tokenize_spec(s.drop_first())
    } else if s[0] == '{' {
        cons_toks(seq![TokView::Open], tokenize_spec(s.drop_first()))
    } else if s[0] == '}' {
        cons_toks(seq![TokView::Close], tokenize_spec(s.drop_first()))
    } else if s[0] == '/' {
        if s.len() >= 2 && s[1] == '/' {
            let n = line_skip(s.skip(1));
            if 1 <= n && 1 + n <= s.len() {
                tokenize_spec(s.skip(1 + n as int))
            } else {
                Err(Seq::empty())
            }
        } else {
            Err("unexpected '/'"@)
        }
    } else if s[0] == '"' {
        match read_str_spec(s.drop_first()) {
            Ok((v, n)) => if 1 <= n && 1 + n <= s.len() {
                cons_toks(seq![TokView::Str(v)], tokenize_spec(s.skip(1 + n as int)))
            } else {
                Err(Seq::empty())
            },
            Err(e) => Err(e),
        }
    } else {
        Err("unexpected character "@ + char_debug(s[0]))
    }
}

/// The body of an object (key/value pairs) starting at token `pos`, added to
/// `acc`; when `close`, it must end with a `}`, which is consumed. Yields the
/// object and the position after it, or the first syntax error.
pub open spec fn body_spec(
    t: Seq<TokView>,
    pos: int,
    close: bool,
    acc: Map<Seq<char>, VdfView>,
) -> Result<(Map<Seq<char>, VdfView>, int), Seq<char>>
    decreases t.len() - pos,
{
    if pos < 0 || pos >= t.len() {
        if close {
            Err("unbalanced braces"@)
        } else {
            Ok((acc, pos))
        }
    } else {
        match t[pos] {
            TokView::Close => if close {
                Ok((acc, pos + 1))
            } else {
                Err("unexpected '}'"@)
            },
            TokView::Open => Err("expected key, found '{'"@),
            TokView::Str(key) => if pos + 1 < t.len() && t[pos + 1] is Str {
                body_spec(t, pos + 2, close, acc.insert(key, VdfView::Str(t[pos + 1]->Str_0)))
            } else if pos + 1 < t.len() && t[pos + 1] is Open {
                match body_spec(t, pos + 2, true, Map::empty()) {
                    Ok((child, np)) => if pos < np <= t.len() {
                        body_spec(t, np, close, acc.insert(key, VdfView::Obj(child)))
                    } else {
                        Err(Seq::empty())
                    },
                    Err(e) => Err(e),
                }
            } else {
                Err("key "@ + str_debug(key) + " missing value"@)
            },
        }
    }
}

pub proof fn lemma_body_pos(t: Seq<TokView>, pos: int, close: bool, acc: Map<Seq<char>, VdfView>)
    requires
        0 <= pos <= t.len(),
    ensures
        body_spec(t, pos, close, acc) matches Ok((_, np)) ==> pos <= np <= t.len() && (close
            ==> pos < np),
    decreases t.len() - pos,
{
    if pos < t.len() {
        match t[pos] {
            TokView::Str(key) => {
                if pos + 1 < t.len() && t[pos + 1] is Str {
                    lemma_body_pos(t, pos + 2, close, acc.insert(key, VdfView::Str(t[pos + 1]->Str_0)));
                } else if pos + 1 < t.len() && t[pos + 1] is Open {
                    lemma_body_pos(t, pos + 2, true, Map::empty());
                    match body_spec(t, pos + 2, true, Map::empty()) {
                        Ok((child, np)) => {
                            if pos < np <= t.len() {
                                lemma_body_pos(t, np, close, acc.insert(key, VdfView::Obj(child)));
                            }
                        },
                        Err(_) => {},
                    }
                }
            },
            _ => {},
        }
    }
}

/// A whole document: its tokens must form one top-level object body.
pub open spec fn parse_spec(s: Seq<char>) -> Result<VdfView, Seq<char>> {
    match tokenize_spec(s) {
        Err(e) => Err(e),
        Ok(t) => match body_spec(t, 0, false, Map::empty()) {
            Err(e) => Err(e),
            Ok((m, np)) => if np != t.len() {
                Err("trailing tokens after document"@)
            } else {
                Ok(VdfView::Obj(m))
            },
        },
    }
}

proof fn lemma_skip_step(s: Seq<char>, a: int, k: int)
    requires
        0 <= a,
        0 <= k,
        a + k <= s.len(),
    ensures
        s.skip(a).skip(k) == s.skip(a + k),
{
    assert(s.skip(a).skip(k) =~= s.skip(a + k));
}

/// Read the quoted string whose opening quote is at `start - 1`.
fn read_quoted(c: &Vec<char>, start: usize) -> (r: Result<(String, usize), DetectError>)
    requires
        start <= c@.len(),
    ensures
        match read_str_spec(c@.skip(start as int)) {
            Ok((v, n)) => r matches Ok((s, end)) && s@ == v && end == start + n,
            Err(e) => r matches Err(DetectError::Parse(m)) && m@ == e,
        },
{
    let ghost s = c@;
    let mut buf: Vec<char> = Vec::new();
    let mut q: usize = start;
    proof {
        assert(s.skip(start as int) =~= s.skip(q as int));
    }
    while q < c.len() && c[q] != '"'
        invariant
            start <= q <= c@.len(),
            s == c@,
            read_str_spec(s.skip(start as int)) == match read_str_spec(s.skip(q as int)) {
                Ok((v, n)) => Ok((buf@ + v, (n + (q - start)) as nat)),
                Err(e) => Err(e),
            },
        decreases c@.len() - q,
    {
        let ghost rest = s.skip(q as int);
        assert(rest[0] == s[q as int]);
        if c[q] == '\\' {
            if q + 1 >= c.len() {
                return Err(DetectError::Parse(copy_str("dangling escape")));
            }
            let e = c[q + 1];
            let u = if e == 'n' {
                '\n'
            } else if e == 't' {
                '\t'
            } else {
                e
            };
            proof {
                assert(rest[1] == s[q + 1]);
                lemma_skip_step(s, q as int, 2);
                assert(buf@.push(u) + seq![] =~= buf@ + seq![u] + seq![]);
            }
            let ghost b0 = buf@;
            buf.push(u);
            q = q + 2;
            proof {
                match read_str_spec(s.skip(q as int)) {
                    Ok((v, n)) => {
                        assert(b0 + (seq![u] + v) =~= buf@ + v);
                    },
                    Err(_) => {},
                }
            }
        } else {
            proof {
                lemma_skip_step(s, q as int, 1);
                assert(rest.drop_first() =~= rest.skip(1));
            }
            let ghost b0 = buf@;
            buf.push(c[q]);
            q = q + 1;
            proof {
                match read_str_spec(s.skip(q as int)) {
                    Ok((v, n)) => {
                        assert(b0 + (seq![s[q - 1]] + v) =~= buf@ + v);
                    },
                    Err(_) => {},
                }
            }
        }
    }
    if q >= c.len() {
        return Err(DetectError::Parse(copy_str("unterminated string")));
    }
    proof {
        assert(s.skip(q as int)[0] == s[q as int]);
        assert(buf@ + Seq::<char>::empty() =~= buf@);
    }
    let text = string_from_chars(buf.as_slice());
    Ok((text, q + 1))
}

/// Split a VDF document into tokens.
pub fn tokenize(input: &str) -> (r: Result<Vec<Token>, DetectError>)
    ensures
        match tokenize_spec(input@) {
            Ok(t) => r matches Ok(v) && toks_view(v@) == t,
            Err(e) => r matches Err(DetectError::Parse(m)) && m@ == e,
        },
{
    let c = chars_of(input);
    let ghost s = c@;
    let mut tokens: Vec<Token> = Vec::new();
    let mut pos: usize = 0;
    proof {
        assert(s.skip(0) =~= s);
        assert(toks_view(tokens@) =~= Seq::<TokView>::empty());
        match tokenize_spec(s) {
            Ok(t) => assert(Seq::<TokView>::empty() + t =~= t),
            Err(_) => {},
        }
    }
    while pos < c.len()
        invariant
            s == c@,
            s == input@,
            pos <= s.len(),
            tokenize_spec(s) == cons_toks(toks_view(tokens@), tokenize_spec(s.skip(pos as int))),
        decreases s.len() - pos,
    {
        let ghost rest = s.skip(pos as int);
        let ghost before = toks_view(tokens@);
        let ch = c[pos];
        assert(rest[0] == ch);
        proof {
            lemma_skip_step(s, pos as int, 1);
            assert(rest.drop_first() =~= rest.skip(1));
        }
        if is_whitespace(ch) {
            pos = pos + 1;
        } else if ch == '{' {
            tokens.push(Token::Open);
            pos = pos + 1;
            proof {
                assert(toks_view(tokens@) =~= before + seq![TokView::Open]);
                match tokenize_spec(s.skip(pos as int)) {
                    Ok(t) => assert(before + (seq![TokView::Open] + t) =~= toks_view(tokens@) + t),
                    Err(_) => {},
                }
            }
        } else if ch == '}' {
            tokens.push(Token::Close);
            pos = pos + 1;
            proof {
                assert(toks_view(tokens@) =~= before + seq![TokView::Close]);
                match tokenize_spec(s.skip(pos as int)) {
                    Ok(t) => assert(before + (seq![TokView::Close] + t) =~= toks_view(tokens@) + t),
                    Err(_) => {},
                }
            }
        } else if ch == '/' {
            if pos + 1 < c.len() && c[pos + 1] == '/' {
                assert(rest[1] == s[pos + 1]);
                let mut q: usize = pos + 1;
                let ghost from = (pos + 1) as int;
                proof {
                    lemma_skip_step(s, pos as int, 1);
                    assert(rest.skip(1) == s.skip(from));
                    lemma_line_skip_len(s.skip(from));
                }
                let mut done = false;
                while q < c.len() && !done
                    invariant
                        s == c@,
                        from <= q <= s.len(),
                        !done ==> line_skip(s.skip(from)) == (q - from) + line_skip(s.skip(q as int)),
                        done ==> line_skip(s.skip(from)) == q - from,
                    decreases s.len() - q,
                {
                    let ghost r2 = s.skip(q as int);
                    assert(r2[0] == s[q as int]);
                    proof {
                        lemma_skip_step(s, q as int, 1);
                        assert(r2.drop_first() =~= r2.skip(1));
                    }
                    if c[q] == '\n' {
                        done = true;
                    }
                    q = q + 1;
                }
                proof {
                    if !done {
                        assert(s.skip(q as int).len() == 0);
                    }
                    lemma_skip_step(s, pos as int, 1 + line_skip(s.skip(from)) as int);
                }
                pos = q;
            } else {
                proof {
                    if pos + 1 < s.len() {
                        assert(rest[1] == s[pos + 1]);
                    }
                }
                return Err(DetectError::Parse(copy_str("unexpected '/'")));
            }
        } else if ch == '"' {
            proof {
                lemma_read_str_len(rest.drop_first());
            }
            let (text, end) = read_quoted(&c, pos + 1)?;
            proof {
                lemma_skip_step(s, pos as int, (end - pos) as int);
            }
            let ghost tv = text@;
            tokens.push(Token::Str(text));
            pos = end;
            proof {
                assert(toks_view(tokens@) =~= before + seq![TokView::Str(tv)]);
                match tokenize_spec(s.skip(pos as int)) {
                    Ok(t) => assert(before + (seq![TokView::Str(tv)] + t) =~= toks_view(tokens@)
                        + t),
                    Err(_) => {},
                }
            }
        } else {
            let d = debug_char(ch);
            return Err(DetectError::Parse(prefixed("unexpected character ", d.as_str())));
        }
    }
    proof {
        assert(s.skip(pos as int).len() == 0);
        assert(toks_view(tokens@) + Seq::<TokView>::empty() =~= toks_view(tokens@));
    }
    Ok(tokens)
}

proof fn lemma_entries_view_insert(o: Seq<(String, Vdf)>, n: Seq<(String, Vdf)>, k: Seq<char>, v: Vdf)
    requires
        as_map(n) == as_map(o).insert(k, v),
    ensures
        entries_view(n) == entries_view(o).insert(k, vdf_view(v)),
{
    assert forall|x: Seq<char>| #[trigger] has_key(n, x) == (x == k || has_key(o, x)) by {
        assert(as_map(n).dom().contains(x) == has_key(n, x));
        assert(as_map(o).dom().contains(x) == has_key(o, x));
    }
    assert forall|x: Seq<char>| has_key(n, x) implies #[trigger] vdf_view(n[key_index(n, x)].1) == (
    if x == k {
        vdf_view(v)
    } else {
        vdf_view(o[key_index(o, x)].1)
    }) by {
        assert(as_map(n)[x] == n[key_index(n, x)].1);
        if x != k {
            assert(as_map(o)[x] == o[key_index(o, x)].1);
        }
    }
    assert(entries_view(n) =~= entries_view(o).insert(k, vdf_view(v)));
}

proof fn lemma_wf_after_insert(o: Seq<(String, Vdf)>, n: Seq<(String, Vdf)>, kv: (String, Vdf))
    requires
        entries_wf(o),
        sorted_keys(n),
        vdf_wf(kv.1),
        forall|j: int| 0 <= j < n.len() ==> #[trigger] n[j] == kv || o.contains(n[j]),
    ensures
        entries_wf(n),
{
    assert forall|j: int| 0 <= j < n.len() implies vdf_wf(#[trigger] n[j].1) by {
        if n[j] != kv {
            let i = choose|i: int| 0 <= i < o.len() && o[i] == n[j];
            assert(vdf_wf(o[i].1));
        }
    }
}

fn missing_value_message(key: &str) -> (m: String)
    ensures
        m@ == "key "@ + str_debug(key@) + " missing value"@,
{
    let d = debug_str(key);
    let mut m = prefixed("key ", d.as_str());
    m.append(" missing value");
    m
}

/// Parse the body of an object (a sequence of key/value pairs) starting at
/// `*pos`. If `expect_close` is true, consume a matching `}` at the end.
fn parse_obj_body(tokens: &Vec<Token>, pos: &mut usize, expect_close: bool) -> (r: Result<
    VdfMap,
    DetectError,
>)
    requires
        *old(pos) <= tokens@.len(),
    ensures
        match body_spec(toks_view(tokens@), *old(pos) as int, expect_close, Map::empty()) {
            Ok((m, np)) => r matches Ok(vm) && entries_view(vm.entries@) == m && entries_wf(
                vm.entries@,
            ) && *final(pos) == np,
            Err(e) => r matches Err(DetectError::Parse(msg)) && msg@ == e,
        },
    decreases tokens@.len() - *old(pos),
{
    let ghost t = toks_view(tokens@);
    let ghost p0 = *pos as int;
    let mut map: Vec<(String, Vdf)> = Vec::new();
    proof {
        assert(entries_view(map@) =~= Map::<Seq<char>, VdfView>::empty());
    }
    assert(p0 == *old(pos) as int);
    loop
        invariant
            t == toks_view(tokens@),
            p0 == *old(pos) as int,
            p0 <= *pos <= tokens@.len(),
            entries_wf(map@),
            body_spec(t, p0, expect_close, Map::empty()) == body_spec(
                t,
                *pos as int,
                expect_close,
                entries_view(map@),
            ),
        decreases tokens@.len() - *pos,
    {
        let p = *pos;
        assert(t.len() == tokens@.len());
        if p >= tokens.len() {
            proof {
                reveal_with_fuel(body_spec, 1);
                assert(body_spec(t, p as int, expect_close, entries_view(map@)) == if expect_close {
                    Err("unbalanced braces"@)
                } else {
                    Ok((entries_view(map@), p as int))
                });
            }
            if expect_close {
                return Err(DetectError::Parse(copy_str("unbalanced braces")));
            }
            return Ok(VdfMap { entries: map });
        }
        assert(t[p as int] == tok_view(tokens@[p as int]));
        match &tokens[p] {
            Token::Close => {
                if expect_close {
                    *pos = p + 1;
                    return Ok(VdfMap { entries: map });
                }
                return Err(DetectError::Parse(copy_str("unexpected '}'")));
            },
            Token::Open => {
                assert(body_spec(t, p as int, expect_close, entries_view(map@)) == Err::<(Map<Seq<char>, VdfView>, int), Seq<char>>("expected key, found '{'"@));
                return Err(DetectError::Parse(copy_str("expected key, found '{'")));
            },
            Token::Str(k) => {
                let key = k.clone();
                if p + 1 < tokens.len() {
                    assert(t[p + 1] == tok_view(tokens@[p + 1]));
                    match &tokens[p + 1] {
                        Token::Str(value) => {
                            let val = Vdf::Str(value.clone());
                            let ghost o = map@;
                            let ghost kv = (key, val);
                            map_insert(&mut map, key, val);
                            proof {
                                lemma_entries_view_insert(o, map@, kv.0@, kv.1);
                                lemma_wf_after_insert(o, map@, kv);
                            }
                            *pos = p + 2;
                            continue ;
                        },
                        Token::Open => {
                            *pos = p + 2;
                            let child = parse_obj_body(tokens, pos, true)?;
                            proof {
                                lemma_obj_view(child);
                                lemma_body_pos(t, p + 2, true, Map::empty());
                            }
                            let val = Vdf::Obj(child);
                            let ghost o = map@;
                            let ghost kv = (key, val);
                            map_insert(&mut map, key, val);
                            proof {
                                lemma_entries_view_insert(o, map@, kv.0@, kv.1);
                                lemma_wf_after_insert(o, map@, kv);
                            }
                            continue ;
                        },
                        Token::Close => {},
                    }
                }
                return Err(DetectError::Parse(missing_value_message(key.as_str())));
            },
        }
    }
}

/// Parse a VDF document into a top-level object.
pub fn parse(input: &str) -> (r: Result<Vdf, DetectError>)
    ensures
        match parse_spec(input@) {
            Ok(v) => r matches Ok(d) && vdf_view(d) == v && vdf_wf(d),
            Err(e) => r matches Err(DetectError::Parse(m)) && m@ == e,
        },
{
    let tokens = tokenize(input)?;
    let mut pos: usize = 0;
    let obj = parse_obj_body(&tokens, &mut pos, false)?;
    if pos != tokens.len() {
        return Err(DetectError::Parse(copy_str("trailing tokens after document")));
    }
    proof {
        lemma_obj_view(obj);
    }
    Ok(Vdf::Obj(obj))
}

} // verus!
