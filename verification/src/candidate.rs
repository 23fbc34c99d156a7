//! Save-folder candidate ranking.
//!
//! Given the relative paths a game changed (from a snapshot diff) and the
//! game's name, group changes by folder and rank those folders as likely save
//! locations: more changed files and a name resembling the game score higher.
use vstd::prelude::*;

use crate::error::copy_str;
use crate::paths::{char_views, split_chars, split_on, lemma_split_on_nonempty};
use crate::strmap::{as_map, has_key, lookup, map_get, map_insert, seq_lt, sorted_keys, lemma_lt_transitive, lemma_lt_total, lemma_lt_irreflexive, lemma_lookup_at, key_index};
use crate::text::{chars_of, contains_seq, contains_str, normalize, normalize_spec, str_eq, string_from_chars};
use vstd::utf8::encode_utf8;

verus! {

/// A ranked save-folder candidate (folder path relative to the scanned root).
#[derive(Debug, Clone)]
pub struct Candidate {
    pub folder: String,
    pub changed_files: usize,
    pub score: i64,
}

/// Byte length of the UTF-8 encoding of `s`, as `str::len` returns it.
pub open spec fn utf8_len(s: Seq<char>) -> usize {
    encode_utf8(s).len() as usize
}

/// Whether two normalized names plausibly refer to the same game: neither is
/// empty, the shorter (in bytes) has at least 3 bytes and occurs in the other.
pub open spec fn name_matches_spec(a: Seq<char>, b: Seq<char>) -> bool {
    if a.len() == 0 || b.len() == 0 {
        false
    } else if utf8_len(a) >= utf8_len(b) {
        utf8_len(b) >= 3 && contains_seq(a, b)
    } else {
        utf8_len(a) >= 3 && contains_seq(b, a)
    }
}

proof fn lemma_utf8_len_concat(x: Seq<char>, y: Seq<char>)
    ensures
        encode_utf8(x + y).len() == encode_utf8(x).len() + encode_utf8(y).len(),
    decreases x.len(),
{
    if x.len() > 0 {
        assert((x + y)[0] == x[0]);
        assert((x + y).drop_first() =~= x.drop_first() + y);
        lemma_utf8_len_concat(x.drop_first(), y);
    } else {
        assert(x + y =~= y);
    }
}

proof fn lemma_utf8_len_at_least(x: Seq<char>)
    ensures
        encode_utf8(x).len() >= x.len(),
    decreases x.len(),
{
    if x.len() > 0 {
        lemma_utf8_len_at_least(x.drop_first());
    }
}

/// A sequence that occurs in one of the same byte length is that sequence.
proof fn lemma_contained_same_len(a: Seq<char>, b: Seq<char>)
    requires
        contains_seq(a, b),
        encode_utf8(a).len() == encode_utf8(b).len(),
    ensures
        a == b,
{
    let i = choose|i: int| 0 <= i <= a.len() - b.len() && #[trigger] a.subrange(i, i + b.len()) == b;
    let pre = a.subrange(0, i);
    let post = a.subrange(i + b.len(), a.len() as int);
    assert(a =~= pre + b + post);
    lemma_utf8_len_concat(pre + b, post);
    lemma_utf8_len_concat(pre, b);
    lemma_utf8_len_at_least(pre);
    lemma_utf8_len_at_least(post);
    assert(pre.len() == 0 && post.len() == 0);
    assert(a =~= b);
}

/// Text that occurs in another has no more UTF-8 bytes than it.
proof fn lemma_contained_not_longer(a: Seq<char>, b: Seq<char>)
    requires
        contains_seq(a, b),
    ensures
        encode_utf8(b).len() <= encode_utf8(a).len(),
{
    let i = choose|i: int| 0 <= i <= a.len() - b.len() && #[trigger] a.subrange(i, i + b.len()) == b;
    let pre = a.subrange(0, i);
    let post = a.subrange(i + b.len(), a.len() as int);
    assert(a =~= pre + b + post);
    lemma_utf8_len_concat(pre + b, post);
    lemma_utf8_len_concat(pre, b);
}

/// Two names match exactly when both are non-empty, the shorter (in UTF-8
/// bytes) has at least 3 bytes, and one occurs in the other: for names
/// whose UTF-8 form fits in memory.
#[verifier::rlimit(40)]
pub proof fn law_name_matches_closed_form(a: Seq<char>, b: Seq<char>)
    requires
        encode_utf8(a).len() <= usize::MAX,
        encode_utf8(b).len() <= usize::MAX,
    ensures
        name_matches_spec(a, b) == (a.len() > 0 && b.len() > 0 && (if utf8_len(a) <= utf8_len(b) {
            utf8_len(a)
        } else {
            utf8_len(b)
        }) >= 3 && (contains_seq(a, b) || contains_seq(b, a))),
{
    let la = encode_utf8(a).len();
    let lb = encode_utf8(b).len();
    assert(utf8_len(a) == la);
    assert(utf8_len(b) == lb);
    let cab = contains_seq(a, b);
    let cba = contains_seq(b, a);
    assert(cab ==> lb <= la) by {
        if cab {
            lemma_contained_not_longer(a, b);
        }
    }
    assert(cba ==> la <= lb) by {
        if cba {
            lemma_contained_not_longer(b, a);
        }
    }
    assert(la == lb ==> (cab <==> cba)) by {
        if la == lb && cab {
            lemma_contained_same_len(a, b);
            assert(b.subrange(0, a.len() as int) =~= a);
        }
        if la == lb && cba {
            lemma_contained_same_len(b, a);
            assert(a.subrange(0, b.len() as int) =~= b);
        }
    }
}

/// Whether two names match does not depend on their order: for names whose
/// UTF-8 form fits in memory, `name_matches(a, b) == name_matches(b, a)`.
pub proof fn law_name_matches_symmetric(a: Seq<char>, b: Seq<char>)
    requires
        encode_utf8(a).len() <= usize::MAX,
        encode_utf8(b).len() <= usize::MAX,
    ensures
        name_matches_spec(a, b) == name_matches_spec(b, a),
{
    if a.len() > 0 && b.len() > 0 && utf8_len(a) == utf8_len(b) {
        if contains_seq(a, b) {
            lemma_contained_same_len(a, b);
            assert(b.subrange(0, a.len() as int) =~= a);
            assert(contains_seq(b, a));
        }
        if contains_seq(b, a) {
            lemma_contained_same_len(b, a);
            assert(a.subrange(0, b.len() as int) =~= b);
            assert(contains_seq(a, b));
        }
    }
}

/// Whether two normalized names plausibly refer to the same game (one contains
/// the other), ignoring trivially short matches.
pub fn name_matches(a: &str, b: &str) -> (r: bool)
    ensures
        r == name_matches_spec(a@, b@),
{
    if a.is_empty() || b.is_empty() {
        return false;
    }
    if a.len() >= b.len() {
        b.len() >= 3 && contains_str(a, b)
    } else {
        a.len() >= 3 && contains_str(b, a)
    }
}

/// `parts.join("/")`.
pub open spec fn join_slash(parts: Seq<Seq<char>>) -> Seq<char>
    decreases parts.len(),
{
    if parts.len() == 0 {
        Seq::empty()
    } else if parts.len() == 1 {
        parts[0]
    } else {
        join_slash(parts.drop_last()) + seq!['/'] + parts.last()
    }
}

/// The directory components of a `/`-separated relative file path (the file
/// name dropped).
pub open spec fn dirs_of(path: Seq<char>) -> Seq<Seq<char>> {
    let c = split_on(path, '/');
    c.take(c.len() - 1)
}

/// The candidate folder for directory components `dirs`, looking at the
/// first `i` of them: the path through the deepest of those components whose
/// name matches the game, else the top-level folder.
pub open spec fn key_upto(dirs: Seq<Seq<char>>, needle: Seq<char>, i: int) -> Seq<char>
    decreases i,
{
    if i <= 0 || i > dirs.len() {
        dirs[0]
    } else if name_matches_spec(needle, normalize_spec(dirs[i - 1])) {
        join_slash(dirs.take(i))
    } else {
        key_upto(dirs, needle, i - 1)
    }
}

/// The candidate folder for one file's directory components: the path up to
/// and including the deepest component that matches the game name, else the
/// top-level folder (`"."` for a file directly under the root).
pub open spec fn candidate_key_spec(dirs: Seq<Seq<char>>, needle: Seq<char>) -> Seq<char> {
    if dirs.len() == 0 {
        "."@
    } else {
        key_upto(dirs, needle, dirs.len() as int)
    }
}

fn join_with_slash(parts: &Vec<Vec<char>>, n: usize) -> (r: String)
    requires
        1 <= n <= parts@.len(),
    ensures
        r@ == join_slash(char_views(parts@).take(n as int)),
{
    let mut out: Vec<char> = Vec::new();
    let mut i: usize = 0;
    while i < n
        invariant
            i <= n <= parts@.len(),
            out@ == join_slash(char_views(parts@).take(i as int)),
        decreases n - i,
    {
        let ghost before = out@;
        if i > 0 {
            out.push('/');
        }
        let p = &parts[i];
        let mut j: usize = 0;
        let ghost mid = out@;
        while j < p.len()
            invariant
                j <= p@.len(),
                out@ == mid + p@.take(j as int),
            decreases p@.len() - j,
        {
            out.push(p[j]);
            j = j + 1;
            assert(out@ =~= mid + p@.take(j as int));
        }
        proof {
            assert(p@.take(p@.len() as int) =~= p@);
            let t = char_views(parts@).take(i + 1);
            assert(t.drop_last() =~= char_views(parts@).take(i as int));
            assert(t.last() == p@);
            if i == 0 {
                assert(out@ =~= p@);
            } else {
                assert(out@ =~= before + seq!['/'] + p@);
            }
        }
        i = i + 1;
    }
    string_from_chars(out.as_slice())
}

/// The candidate folder for one file's directory components (see
/// [`candidate_key_spec`]).
pub fn candidate_key(dirs: &Vec<Vec<char>>, ndirs: usize, needle: &str) -> (r: String)
    requires
        ndirs <= dirs@.len(),
    ensures
        r@ == candidate_key_spec(char_views(dirs@).take(ndirs as int), needle@),
{
    let ghost d = char_views(dirs@).take(ndirs as int);
    if ndirs == 0 {
        return copy_str(".");
    }
    let mut i: usize = ndirs;
    while i > 0
        invariant
            i <= ndirs <= dirs@.len(),
            d == char_views(dirs@).take(ndirs as int),
            ndirs > 0,
            key_upto(d, needle@, ndirs as int) == key_upto(d, needle@, i as int),
        decreases i,
    {
        assert(d[i - 1] == dirs@[i - 1]@);
        let comp = string_from_chars(dirs[i - 1].as_slice());
        let n = normalize(comp.as_str());
        if name_matches(needle, n.as_str()) {
            let r = join_with_slash(dirs, i);
            assert(char_views(dirs@).take(i as int) =~= d.take(i as int));
            return r;
        }
        i = i - 1;
    }
    assert(d[0] == dirs@[0]@);
    string_from_chars(dirs[0].as_slice())
}

/// Top-level folders that almost never hold game saves (normalized names).
pub open spec fn is_noise_spec(s: Seq<char>) -> bool {
    s == "nvidia"@ || s == "nvidiacorporation"@ || s == "microsoft"@ || s == "temp"@ || s
        == "tempstate"@ || s == "asus"@ || s == "packages"@ || s == "crashdumps"@ || s
        == "d3dscache"@ || s == "google"@ || s == "mozilla"@ || s == "comms"@ || s
        == "connecteddevicesplatform"@ || s == "powertoys"@ || s == "diagnostics"@ || s
        == "programs"@
}

/// Whether a normalized top-level folder name is known noise.
pub fn is_noise(s: &str) -> (r: bool)
    ensures
        r == is_noise_spec(s@),
{
    str_eq(s, "nvidia") || str_eq(s, "nvidiacorporation") || str_eq(s, "microsoft") || str_eq(
        s,
        "temp",
    ) || str_eq(s, "tempstate") || str_eq(s, "asus") || str_eq(s, "packages") || str_eq(
        s,
        "crashdumps",
    ) || str_eq(s, "d3dscache") || str_eq(s, "google") || str_eq(s, "mozilla") || str_eq(
        s,
        "comms",
    ) || str_eq(s, "connecteddevicesplatform") || str_eq(s, "powertoys") || str_eq(
        s,
        "diagnostics",
    ) || str_eq(s, "programs")
}

/// The candidate folder of one changed file.
pub open spec fn path_key(path: Seq<char>, needle: Seq<char>) -> Seq<char> {
    candidate_key_spec(dirs_of(path), needle)
}

/// How many of the changed files fall under candidate folder `f`.
pub open spec fn count_key(changed: Seq<Seq<char>>, needle: Seq<char>, f: Seq<char>) -> nat
    decreases changed.len(),
{
    if changed.len() == 0 {
        0
    } else {
        count_key(changed.drop_last(), needle, f) + if path_key(changed.last(), needle) == f {
            1nat
        } else {
            0nat
        }
    }
}

pub proof fn lemma_count_bound(changed: Seq<Seq<char>>, needle: Seq<char>, f: Seq<char>)
    ensures
        count_key(changed, needle, f) <= changed.len(),
    decreases changed.len(),
{
    if changed.len() > 0 {
        lemma_count_bound(changed.drop_last(), needle, f);
    }
}

/// The first `/`-separated piece of a folder path.
pub open spec fn first_piece(f: Seq<char>) -> Seq<char> {
    split_on(f, '/')[0]
}

/// The last `/`-separated piece of a folder path.
pub open spec fn last_piece(f: Seq<char>) -> Seq<char> {
    split_on(f, '/').last()
}

/// The folder's own name resembles the game.
pub open spec fn folder_matches(f: Seq<char>, needle: Seq<char>) -> bool {
    f != "."@ && name_matches_spec(needle, normalize_spec(last_piece(f)))
}

/// A folder is kept unless it is known noise that does not match the game.
pub open spec fn kept(f: Seq<char>, needle: Seq<char>) -> bool {
    folder_matches(f, needle) || !is_noise_spec(normalize_spec(first_piece(f)))
}

/// Folders under well-known non-game top-level folders are never offered
/// unless the folder's own name matches the game: a folder whose
/// normalized top-level name is `nvidia`, `nvidiacorporation`, `microsoft`,
/// `temp`, `tempstate`, `asus`, `packages`, `crashdumps`, `d3dscache`,
/// `google`, `mozilla`, `comms`, `connecteddevicesplatform`, `powertoys`,
/// `diagnostics` or `programs`, and that does not match the game, is not
/// kept (and `rank` returns only kept folders); any other folder is kept.
pub proof fn law_noise_folders_are_dropped(f: Seq<char>, needle: Seq<char>)
    ensures
        ({
            let top = normalize_spec(first_piece(f));
            (top == "nvidia"@ || top == "nvidiacorporation"@ || top == "microsoft"@ || top == "temp"@ || top
                == "tempstate"@ || top == "asus"@ || top == "packages"@ || top == "crashdumps"@ || top
                == "d3dscache"@ || top == "google"@ || top == "mozilla"@ || top == "comms"@ || top
                == "connecteddevicesplatform"@ || top == "powertoys"@ || top == "diagnostics"@ || top
                == "programs"@) && !folder_matches(f, needle)
        }) <==> !kept(f, needle),
{
}

/// The score of folder `f` holding `n` changed files.
pub open spec fn score_spec(f: Seq<char>, needle: Seq<char>, n: nat) -> int {
    (if folder_matches(f, needle) {
        100int
    } else {
        0int
    }) + n
}

/// The order of the ranking: higher score first, then folder name ascending.
pub open spec fn ranks_before(a: Candidate, b: Candidate) -> bool {
    a.score > b.score || (a.score == b.score && seq_lt(a.folder@, b.folder@))
}

/// `c` is the candidate of one of the folders the changed files fall under.
pub open spec fn valid_candidate(c: Candidate, changed: Seq<Seq<char>>, needle: Seq<char>) -> bool {
    &&& count_key(changed, needle, c.folder@) > 0
    &&& kept(c.folder@, needle)
    &&& c.changed_files == count_key(changed, needle, c.folder@)
    &&& c.score == score_spec(c.folder@, needle, c.changed_files as nat)
}

/// The views of a slice of strings.
pub open spec fn str_views(s: Seq<String>) -> Seq<Seq<char>> {
    s.map_values(|x: String| x@)
}

proof fn lemma_before_trans(a: Candidate, b: Candidate, c: Candidate)
    requires
        ranks_before(a, b),
        ranks_before(b, c),
    ensures
        ranks_before(a, c),
{
    if a.score == b.score && b.score == c.score {
        lemma_lt_transitive(a.folder@, b.folder@, c.folder@);
    }
}

fn ranks_first(a: &Candidate, b: &Candidate) -> (r: bool)
    ensures
        r == ranks_before(*a, *b),
{
    a.score > b.score || (a.score == b.score && crate::strmap::order_str(
        a.folder.as_str(),
        b.folder.as_str(),
    ) == -1)
}

fn copy_candidate(c: &Candidate) -> (r: Candidate)
    ensures
        r == *c,
{
    Candidate { folder: c.folder.clone(), changed_files: c.changed_files, score: c.score }
}

/// Count the changed files per candidate folder.
fn count_by_folder(changed: &[String], needle: &str) -> (by: Vec<(String, usize)>)
    ensures
        sorted_keys(by@),
        forall|f: Seq<char>| #[trigger]
            has_key(by@, f) == (count_key(str_views(changed@), needle@, f) > 0),
        forall|f: Seq<char>|
            has_key(by@, f) ==> #[trigger] lookup(by@, f) == Some(
                count_key(str_views(changed@), needle@, f) as usize,
            ),
{
    let ghost cv = str_views(changed@);
    let mut by: Vec<(String, usize)> = Vec::new();
    let mut idx: usize = 0;
    while idx < changed.len()
        invariant
            idx <= changed@.len(),
            cv == str_views(changed@),
            sorted_keys(by@),
            forall|f: Seq<char>| #[trigger]
                has_key(by@, f) == (count_key(cv.take(idx as int), needle@, f) > 0),
            forall|f: Seq<char>|
                has_key(by@, f) ==> #[trigger] lookup(by@, f) == Some(
                    count_key(cv.take(idx as int), needle@, f) as usize,
                ),
        decreases changed@.len() - idx,
    {
        let path = changed[idx].as_str();
        let chars = chars_of(path);
        let comps = split_chars(chars.as_slice(), '/');
        proof {
            lemma_split_on_nonempty(path@, '/');
        }
        let nd = comps.len() - 1;
        let key = candidate_key(&comps, nd, needle);
        let ghost k = key@;
        assert(k == path_key(cv[idx as int], needle@));
        let ghost pre = cv.take(idx as int);
        let ghost post = cv.take(idx + 1);
        assert(post.drop_last() =~= pre);
        assert(post.last() == cv[idx as int]);
        proof {
            lemma_count_bound(pre, needle@, k);
        }
        let cur: usize = match map_get(&by, key.as_str()) {
            Some(c) => *c,
            None => 0,
        };
        let ghost old_by = by@;
        map_insert(&mut by, key, cur + 1);
        proof {
            assert forall|f: Seq<char>| #[trigger]
                has_key(by@, f) == (count_key(post, needle@, f) > 0) by {
                assert(as_map(by@).dom().contains(f) == has_key(by@, f));
                assert(as_map(old_by).dom().contains(f) == has_key(old_by, f));
            }
            assert forall|f: Seq<char>| has_key(by@, f) implies #[trigger] lookup(by@, f) == Some(
                count_key(post, needle@, f) as usize,
            ) by {
                assert(as_map(by@).dom().contains(f));
                assert(as_map(by@)[f] == lookup(by@, f)->0);
                if f != k {
                    assert(as_map(old_by).dom().contains(f));
                    assert(as_map(old_by)[f] == lookup(old_by, f)->0);
                }
            }
        }
        idx = idx + 1;
    }
    assert(cv.take(changed@.len() as int) =~= cv);
    by
}

/// Keep the folders worth offering and score them, in folder order.
fn build_candidates(by: &Vec<(String, usize)>, needle: &str, Ghost(cv): Ghost<Seq<Seq<char>>>) -> (cands: Vec<Candidate>)
    requires
        cv.len() <= i64::MAX - 100,
        cv.len() <= usize::MAX,
        sorted_keys(by@),
        forall|f: Seq<char>| #[trigger] has_key(by@, f) == (count_key(cv, needle@, f) > 0),
        forall|f: Seq<char>|
            has_key(by@, f) ==> #[trigger] lookup(by@, f) == Some(count_key(cv, needle@, f) as usize),
    ensures
        forall|i: int| 0 <= i < cands@.len() ==> valid_candidate(#[trigger] cands@[i], cv, needle@),
        forall|i: int, j: int|
            0 <= i < j < cands@.len() ==> seq_lt(
                #[trigger] cands@[i].folder@,
                #[trigger] cands@[j].folder@,
            ),
        forall|f: Seq<char>|
            has_key(by@, f) && kept(f, needle@) ==> exists|i: int|
                0 <= i < cands@.len() && #[trigger] cands@[i].folder@ == f,
{
    let ghost nd = needle@;
    let mut cands: Vec<Candidate> = Vec::new();
    let mut k: usize = 0;
    while k < by.len()
        invariant
            k <= by@.len(),
            nd == needle@,
            cv.len() <= i64::MAX - 100,
            cv.len() <= usize::MAX,
            sorted_keys(by@),
            forall|f: Seq<char>| #[trigger] has_key(by@, f) == (count_key(cv, nd, f) > 0),
            forall|f: Seq<char>|
                has_key(by@, f) ==> #[trigger] lookup(by@, f) == Some(count_key(cv, nd, f) as usize),
            forall|i: int| 0 <= i < cands@.len() ==> valid_candidate(#[trigger] cands@[i], cv, nd),
            forall|i: int, j: int|
                0 <= i < j < cands@.len() ==> seq_lt(
                    #[trigger] cands@[i].folder@,
                    #[trigger] cands@[j].folder@,
                ),
            forall|i: int|
                0 <= i < cands@.len() ==> exists|q: int|
                    0 <= q < k && #[trigger] cands@[i].folder@ == by@[q].0@,
            forall|q: int|
                0 <= q < k && kept(#[trigger] by@[q].0@, nd) ==> exists|i: int|
                    0 <= i < cands@.len() && cands@[i].folder@ == by@[q].0@,
        decreases by@.len() - k,
    {
        let folder = &by[k].0;
        let n = by[k].1;
        let ghost f = folder@;
        proof {
            lemma_lookup_at(by@, k as int);
            assert(has_key(by@, f));
            lemma_count_bound(cv, nd, f);
        }
        let fchars = chars_of(folder.as_str());
        let pieces = split_chars(fchars.as_slice(), '/');
        proof {
            lemma_split_on_nonempty(f, '/');
            assert(first_piece(f) == pieces@[0]@);
            assert(last_piece(f) == pieces@[pieces@.len() - 1]@);
        }
        let first = string_from_chars(pieces[0].as_slice());
        let last = string_from_chars(pieces[pieces.len() - 1].as_slice());
        let nlast = normalize(last.as_str());
        let name_match = !str_eq(folder.as_str(), ".") && name_matches(needle, nlast.as_str());
        let nfirst = normalize(first.as_str());
        assert(name_match == folder_matches(f, nd));
        let ghost before = cands@;
        if !name_match && is_noise(nfirst.as_str()) {
            assert(!kept(f, nd));
        } else {
            let base: i64 = if name_match {
                100
            } else {
                0
            };
            let score = base + n as i64;
            let c = Candidate { folder: folder.clone(), changed_files: n, score };
            proof {
                assert forall|i: int| 0 <= i < before.len() implies seq_lt(before[i].folder@, f) by {
                    let q = choose|q: int| 0 <= q < k && #[trigger] before[i].folder@ == by@[q].0@;
                    assert(seq_lt(by@[q].0@, by@[k as int].0@));
                }
            }
            proof {
                assert(lookup(by@, f) == Some(n));
                assert(n == count_key(cv, nd, f));
                assert(valid_candidate(c, cv, nd));
            }
            cands.push(c);
            assert(cands@[before.len() as int] == c);
            assert forall|i: int, j: int| 0 <= i < j < cands@.len() implies seq_lt(
                #[trigger] cands@[i].folder@,
                #[trigger] cands@[j].folder@,
            ) by {
                assert(cands@[i] == before[i]);
                if j < before.len() {
                    assert(cands@[j] == before[j]);
                }
            }
        }
        proof {
            assert forall|i: int| 0 <= i < cands@.len() implies exists|q: int|
                0 <= q < k + 1 && #[trigger] cands@[i].folder@ == by@[q].0@ by {
                if i < before.len() {
                    assert(cands@[i] == before[i]);
                    let q = choose|q: int| 0 <= q < k && #[trigger] before[i].folder@ == by@[q].0@;
                } else {
                    assert(cands@[i].folder@ == by@[k as int].0@);
                }
            }
            assert forall|q: int| 0 <= q < k + 1 && kept(#[trigger] by@[q].0@, nd) implies exists|i: int|
                0 <= i < cands@.len() && cands@[i].folder@ == by@[q].0@ by {
                if q < k {
                    let i = choose|i: int| 0 <= i < before.len() && before[i].folder@ == by@[q].0@;
                    assert(cands@[i] == before[i]);
                } else {
                    assert(cands@[before.len() as int].folder@ == by@[q].0@);
                }
            }
        }
        k = k + 1;
    }
    proof {
        assert forall|f: Seq<char>| has_key(by@, f) && kept(f, nd) implies exists|i: int|
            0 <= i < cands@.len() && #[trigger] cands@[i].folder@ == f by {
            let q = key_index(by@, f);
            assert(by@[q].0@ == f);
        }
    }
    cands
}

/// Insert `x` into `out`, which is in ranking order, keeping that order.
fn insert_ranked(out: &mut Vec<Candidate>, x: Candidate) -> (p: usize)
    requires
        forall|a: int, b: int|
            0 <= a < b < old(out)@.len() ==> ranks_before(#[trigger] old(out)@[a], #[trigger] old(out)@[b]),
        forall|m: int| 0 <= m < old(out)@.len() ==> (#[trigger] old(out)@[m]).folder@ != x.folder@,
    ensures
        p <= old(out)@.len(),
        final(out)@ == old(out)@.insert(p as int, x),
        forall|a: int, b: int|
            0 <= a < b < final(out)@.len() ==> ranks_before(#[trigger] final(out)@[a], #[trigger] final(out)@[b]),
{
    let mut p: usize = 0;
    while p < out.len() && ranks_first(&out[p], &x)
        invariant
            p <= out@.len(),
            forall|a: int| 0 <= a < p ==> ranks_before(#[trigger] out@[a], x),
        decreases out@.len() - p,
    {
        p = p + 1;
    }
    let ghost o = out@;
    proof {
        if p < o.len() {
            lemma_lt_total(o[p as int].folder@, x.folder@);
        }
        assert forall|m: int| p <= m < o.len() implies ranks_before(x, #[trigger] o[m]) by {
            if m > p {
                lemma_before_trans(x, o[p as int], o[m]);
            }
        }
    }
    out.insert(p, x);
    proof {
        assert forall|a: int, b: int| 0 <= a < b < out@.len() implies ranks_before(
            #[trigger] out@[a],
            #[trigger] out@[b],
        ) by {
            if b < p {
                assert(out@[a] == o[a] && out@[b] == o[b]);
            } else if b == p {
                assert(out@[a] == o[a]);
            } else if a < p {
                assert(out@[a] == o[a] && out@[b] == o[b - 1]);
                lemma_before_trans(o[a], x, o[b - 1]);
            } else if a == p {
                assert(out@[b] == o[b - 1]);
            } else {
                assert(out@[a] == o[a - 1] && out@[b] == o[b - 1]);
            }
        }
    }
    p
}

/// Every element of `o` is one of the first `n` elements of `c`.
#[verifier::opaque]
spec fn drawn_from(o: Seq<Candidate>, c: Seq<Candidate>, n: int) -> bool {
    forall|m: int| 0 <= m < o.len() ==> exists|q: int| 0 <= q < n && #[trigger] o[m] == c[q]
}

/// Each of the first `n` elements of `c` occurs in `o`.
#[verifier::opaque]
spec fn covers(o: Seq<Candidate>, c: Seq<Candidate>, n: int) -> bool {
    forall|q: int| 0 <= q < n ==> exists|m: int| 0 <= m < o.len() && o[m] == #[trigger] c[q]
}

proof fn lemma_insert_keeps_perm(o: Seq<Candidate>, c: Seq<Candidate>, i: int, p: int)
    requires
        0 <= i < c.len(),
        0 <= p <= o.len(),
        drawn_from(o, c, i),
        covers(o, c, i),
    ensures
        drawn_from(o.insert(p, c[i]), c, i + 1),
        covers(o.insert(p, c[i]), c, i + 1),
{
    reveal(drawn_from);
    reveal(covers);
    let x = c[i];
    let out = o.insert(p, x);
    assert forall|m: int| 0 <= m < out.len() implies exists|q: int|
        0 <= q < i + 1 && #[trigger] out[m] == c[q] by {
        if m < p {
            assert(out[m] == o[m]);
            let q = choose|q: int| 0 <= q < i && #[trigger] o[m] == c[q];
        } else if m == p {
            assert(out[m] == c[i]);
        } else {
            assert(out[m] == o[m - 1]);
            let q = choose|q: int| 0 <= q < i && #[trigger] o[m - 1] == c[q];
        }
    }
    assert forall|q: int| 0 <= q < i + 1 implies exists|m: int|
        0 <= m < out.len() && out[m] == #[trigger] c[q] by {
        if q == i {
            assert(out[p] == c[q]);
        } else {
            let m = choose|m: int| 0 <= m < o.len() && o[m] == #[trigger] c[q];
            if m < p {
                assert(out[m] == o[m]);
            } else {
                assert(out[m + 1] == o[m]);
            }
        }
    }
}

proof fn lemma_fresh_folder(o: Seq<Candidate>, c: Seq<Candidate>, i: int)
    requires
        0 <= i < c.len(),
        drawn_from(o, c, i),
        forall|a: int, b: int|
            0 <= a < b < c.len() ==> seq_lt(#[trigger] c[a].folder@, #[trigger] c[b].folder@),
    ensures
        forall|m: int| 0 <= m < o.len() ==> (#[trigger] o[m]).folder@ != c[i].folder@,
{
    reveal(drawn_from);
    assert forall|m: int| 0 <= m < o.len() implies (#[trigger] o[m]).folder@ != c[i].folder@ by {
        let q = choose|q: int| 0 <= q < i && #[trigger] o[m] == c[q];
        assert(seq_lt(c[q].folder@, c[i].folder@));
        lemma_lt_irreflexive(c[i].folder@);
    }
}

/// Order candidates by score (highest first), then by folder name.
fn sort_ranked(cands: &Vec<Candidate>) -> (out: Vec<Candidate>)
    requires
        forall|a: int, b: int|
            0 <= a < b < cands@.len() ==> seq_lt(
                #[trigger] cands@[a].folder@,
                #[trigger] cands@[b].folder@,
            ),
    ensures
        out@.len() == cands@.len(),
        forall|a: int, b: int|
            0 <= a < b < out@.len() ==> ranks_before(#[trigger] out@[a], #[trigger] out@[b]),
        drawn_from(out@, cands@, cands@.len() as int),
        covers(out@, cands@, cands@.len() as int),
{
    let mut out: Vec<Candidate> = Vec::new();
    let mut i: usize = 0;
    proof {
        reveal(drawn_from);
        reveal(covers);
    }
    while i < cands.len()
        invariant
            i <= cands@.len(),
            out@.len() == i,
            forall|a: int, b: int|
                0 <= a < b < cands@.len() ==> seq_lt(
                    #[trigger] cands@[a].folder@,
                    #[trigger] cands@[b].folder@,
                ),
            forall|a: int, b: int|
                0 <= a < b < out@.len() ==> ranks_before(#[trigger] out@[a], #[trigger] out@[b]),
            drawn_from(out@, cands@, i as int),
            covers(out@, cands@, i as int),
        decreases cands@.len() - i,
    {
        let x = copy_candidate(&cands[i]);
        let ghost o = out@;
        proof {
            lemma_fresh_folder(o, cands@, i as int);
        }
        let p = insert_ranked(&mut out, x);
        proof {
            lemma_insert_keeps_perm(o, cands@, i as int, p as int);
        }
        i = i + 1;
    }
    out
}

/// Rank candidate save folders from changed relative paths and the game name.
///
/// For each changed file, the candidate folder is the path up to and
/// including the deepest component that matches the game name (e.g.
/// `DDTNL/Supermarket Together`), or the top-level folder if nothing matches.
/// Name-matching folders score highest; obvious noise is dropped. Returns
/// candidates sorted by descending score, then by folder.
pub fn rank(changed: &[String], game_name: &str) -> (r: Vec<Candidate>)
    requires
        changed@.len() <= i64::MAX - 100,
    ensures
        forall|i: int, j: int|
            0 <= i < j < r@.len() ==> ranks_before(#[trigger] r@[i], #[trigger] r@[j]),
        forall|i: int|
            0 <= i < r@.len() ==> valid_candidate(
                #[trigger] r@[i],
                str_views(changed@),
                normalize_spec(game_name@),
            ),
        forall|f: Seq<char>|
            count_key(str_views(changed@), normalize_spec(game_name@), f) > 0 && kept(
                f,
                normalize_spec(game_name@),
            ) ==> exists|i: int| 0 <= i < r@.len() && #[trigger] r@[i].folder@ == f,
{
    let needle = normalize(game_name);
    let ghost nd = needle@;
    let ghost cv = str_views(changed@);
    let by = count_by_folder(changed, needle.as_str());
    assert(cv.len() == changed.len());
    let cands = build_candidates(&by, needle.as_str(), Ghost(cv));
    let out = sort_ranked(&cands);
    proof {
        reveal(drawn_from);
        reveal(covers);
        assert forall|m: int| 0 <= m < out@.len() implies valid_candidate(#[trigger] out@[m], cv, nd) by {
            let q = choose|q: int| 0 <= q < cands@.len() && #[trigger] out@[m] == cands@[q];
        }
        assert forall|f: Seq<char>| count_key(cv, nd, f) > 0 && kept(f, nd) implies exists|m: int|
            0 <= m < out@.len() && #[trigger] out@[m].folder@ == f by {
            assert(has_key(by@, f));
            let c = choose|c: int| 0 <= c < cands@.len() && #[trigger] cands@[c].folder@ == f;
            let m = choose|m: int| 0 <= m < out@.len() && out@[m] == #[trigger] cands@[c];
        }
    }
    out
}

} // verus!
