//! Splitting text on a separator, and paths: joining a component with `/`
//! (as `PathBuf::push` does on Unix), breaking a path into its components
//! (with `/` and `\` both separating, as on Windows), and case-insensitive
//! component-wise prefix tests.
use vstd::prelude::*;

use crate::text::{chars_of, string_from_chars};
use vstd::string::StringExecFns;

verus! {

/// `str::split(c)`: the pieces between occurrences of `c`, empty ones
/// included (so there is always at least one piece).
pub open spec fn split_on(s: Seq<char>, c: char) -> Seq<Seq<char>>
    decreases s.len(),
{
    if s.len() == 0 {
        seq![Seq::empty()]
    } else {
        let rest = split_on(s.drop_first(), c);
        if s[0] == c {
            seq![Seq::<char>::empty()] + rest
        } else {
            rest.update(0, seq![s[0]] + rest[0])
        }
    }
}

pub proof fn lemma_split_on_nonempty(s: Seq<char>, c: char)
    ensures
        split_on(s, c).len() >= 1,
    decreases s.len(),
{
    if s.len() > 0 {
        lemma_split_on_nonempty(s.drop_first(), c);
    }
}

/// `s` with every `\\` turned into `/`.
pub open spec fn slashes(s: Seq<char>) -> Seq<char> {
    s.map_values(|c: char| if c == '\\' { '/' } else { c })
}

/// The characters of `v` with every `\\` turned into `/`.
pub fn to_slashes(v: &[char]) -> (r: Vec<char>)
    ensures
        r@ == slashes(v@),
{
    let mut q: Vec<char> = Vec::new();
    let mut k: usize = 0;
    while k < v.len()
        invariant
            k <= v@.len(),
            q@ == slashes(v@).take(k as int),
        decreases v@.len() - k,
    {
        let c = v[k];
        q.push(if c == '\\' { '/' } else { c });
        k = k + 1;
        assert(q@ =~= slashes(v@).take(k as int));
    }
    assert(q@ =~= slashes(v@));
    q
}

/// Prepend `cur` to the first piece of `r`.
pub open spec fn join_front(cur: Seq<char>, r: Seq<Seq<char>>) -> Seq<Seq<char>> {
    r.update(0, cur + r[0])
}

/// The character views of a vector of character vectors.
pub open spec fn char_views(v: Seq<Vec<char>>) -> Seq<Seq<char>> {
    v.map_values(|x: Vec<char>| x@)
}

/// `str::split(c)` over characters.
pub fn split_chars(v: &[char], c: char) -> (r: Vec<Vec<char>>)
    ensures
        char_views(r@) == split_on(v@, c),
{
    let ghost s = v@;
    let mut parts: Vec<Vec<char>> = Vec::new();
    let mut cur: Vec<char> = Vec::new();
    let mut i: usize = 0;
    proof {
        assert(s.skip(0) =~= s);
        lemma_split_on_nonempty(s, c);
        assert(join_front(cur@, split_on(s, c)) =~= split_on(s, c));
        assert(char_views(parts@) + split_on(s, c) =~= split_on(s, c));
    }
    while i < v.len()
        invariant
            s == v@,
            i <= s.len(),
            split_on(s, c) == char_views(parts@) + join_front(cur@, split_on(s.skip(i as int), c)),
        decreases s.len() - i,
    {
        let ghost rest = s.skip(i as int);
        proof {
            assert(rest[0] == s[i as int]);
            assert(rest.drop_first() =~= s.skip(i + 1));
            lemma_split_on_nonempty(s.skip(i + 1), c);
        }
        let ghost r2 = split_on(s.skip(i + 1), c);
        if v[i] == c {
            let ghost p0 = char_views(parts@);
            let ghost cu = cur@;
            parts.push(cur);
            cur = Vec::new();
            proof {
                assert(char_views(parts@) =~= p0.push(cu));
                assert(join_front(cu, seq![Seq::<char>::empty()] + r2) =~= seq![cu] + join_front(
                    Seq::empty(),
                    r2,
                ));
                assert(p0 + (seq![cu] + join_front(Seq::empty(), r2)) =~= p0.push(cu) + join_front(
                    Seq::empty(),
                    r2,
                ));
            }
        } else {
            let ghost cu = cur@;
            cur.push(v[i]);
            proof {
                assert(cu + (seq![s[i as int]] + r2[0]) =~= cur@ + r2[0]);
                assert(join_front(cu, r2.update(0, seq![s[i as int]] + r2[0])) =~= join_front(
                    cur@,
                    r2,
                ));
            }
        }
        i = i + 1;
    }
    let ghost p0 = char_views(parts@);
    let ghost cu = cur@;
    parts.push(cur);
    proof {
        assert(s.skip(i as int) =~= Seq::<char>::empty());
        assert(join_front(cu, seq![Seq::<char>::empty()]) =~= seq![cu]);
        assert(char_views(parts@) =~= p0.push(cu));
    }
    parts
}

/// `PathBuf::push` on Unix: an absolute component replaces the path;
/// otherwise it is appended after a `/` (unless the path is empty or already
/// ends in one).
pub open spec fn path_push(base: Seq<char>, comp: Seq<char>) -> Seq<char> {
    if comp.len() > 0 && comp[0] == '/' {
        comp
    } else if base.len() == 0 || base.last() == '/' {
        base + comp
    } else {
        base + seq!['/'] + comp
    }
}

/// `base.join(comp)` for `/`-separated paths.
pub fn join_path(base: &str, comp: &str) -> (r: String)
    ensures
        r@ == path_push(base@, comp@),
{
    let b = chars_of(base);
    let c = chars_of(comp);
    if c.len() > 0 && c[0] == '/' {
        return String::from_str(comp);
    }
    let mut r = String::from_str(base);
    if !(b.len() == 0 || b[b.len() - 1] == '/') {
        r.append("/");
        proof {
            reveal_strlit("/");
        }
    }
    r.append(comp);
    r
}

/// ASCII lower-casing of one character.
pub open spec fn ascii_lower(c: char) -> char {
    if 'A' <= c && c <= 'Z' {
        ((c as u32) + 32) as char
    } else {
        c
    }
}

pub fn to_ascii_lower(c: char) -> (r: char)
    ensures
        r == ascii_lower(c),
{
    if 'A' <= c && c <= 'Z' {
        ((c as u8) + 32) as char
    } else {
        c
    }
}

/// `eq_ignore_ascii_case`: equal after ASCII lower-casing.
pub open spec fn eq_ci(a: Seq<char>, b: Seq<char>) -> bool {
    a.len() == b.len() && forall|i: int| 0 <= i < a.len() ==> ascii_lower(#[trigger] a[i])
        == ascii_lower(b[i])
}

pub fn eq_ignore_ascii_case(a: &[char], b: &[char]) -> (r: bool)
    ensures
        r == eq_ci(a@, b@),
{
    if a.len() != b.len() {
        return false;
    }
    let mut i: usize = 0;
    while i < a.len()
        invariant
            a@.len() == b@.len(),
            i <= a@.len(),
            forall|j: int| 0 <= j < i ==> ascii_lower(#[trigger] a@[j]) == ascii_lower(b@[j]),
        decreases a@.len() - i,
    {
        if to_ascii_lower(a[i]) != to_ascii_lower(b[i]) {
            return false;
        }
        i = i + 1;
    }
    true
}

/// The components of a path, each as its text, where `/` and `\\` both
/// separate components (as `Path::components` splits on Windows): a
/// leading separator is the root component, written `/`; a leading `.` of a
/// relative path is kept; empty pieces and other `.` pieces are dropped.
pub open spec fn components(p: Seq<char>) -> Seq<Seq<char>> {
    let s = slashes(p);
    let parts = split_on(s, '/');
    let head: Seq<Seq<char>> = if s.len() > 0 && s[0] == '/' {
        seq![seq!['/']]
    } else if parts[0] == seq!['.'] {
        seq![seq!['.']]
    } else {
        Seq::empty()
    };
    head + parts.filter(|p: Seq<char>| p.len() > 0 && p != seq!['.'])
}

/// `prefix`'s components are, ignoring ASCII case, the leading components of
/// `path`.
pub open spec fn starts_with_ci(path: Seq<char>, prefix: Seq<char>) -> bool {
    let pc = components(path);
    let qc = components(prefix);
    qc.len() <= pc.len() && forall|i: int| 0 <= i < qc.len() ==> eq_ci(#[trigger] qc[i], pc[i])
}

fn single(c: char) -> (v: Vec<char>)
    ensures
        v@ == seq![c],
{
    let mut v = Vec::new();
    v.push(c);
    assert(v@ =~= seq![c]);
    v
}

fn is_dot(p: &Vec<char>) -> (r: bool)
    ensures
        r == (p@ == seq!['.']),
{
    let r = p.len() == 1 && p[0] == '.';
    proof {
        if p@.len() == 1 && p@[0] == '.' {
            assert(p@ =~= seq!['.']);
        }
    }
    r
}

/// The components of a path (see [`components`]).
pub fn path_components(path: &str) -> (r: Vec<Vec<char>>)
    ensures
        char_views(r@) == components(path@),
{
    let raw = chars_of(path);
    let s = to_slashes(raw.as_slice());
    let parts = split_chars(s.as_slice(), '/');
    proof {
        lemma_split_on_nonempty(s@, '/');
    }
    let mut out: Vec<Vec<char>> = Vec::new();
    let ghost head: Seq<Seq<char>> = if s@.len() > 0 && s@[0] == '/' {
        seq![seq!['/']]
    } else if char_views(parts@)[0] == seq!['.'] {
        seq![seq!['.']]
    } else {
        Seq::empty()
    };
    assert(char_views(parts@)[0] == parts@[0]@);
    if s.len() > 0 && s[0] == '/' {
        out.push(single('/'));
    } else if is_dot(&parts[0]) {
        out.push(single('.'));
    }
    assert(char_views(out@) =~= head);

    let ghost pred = |p: Seq<char>| p.len() > 0 && p != seq!['.'];
    assert(head + char_views(parts@).take(0).filter(pred) =~= head) by {
        assert(char_views(parts@).take(0) =~= Seq::<Seq<char>>::empty());
        reveal_with_fuel(Seq::filter, 1);
    }
    let mut i: usize = 0;
    while i < parts.len()
        invariant
            i <= parts@.len(),
            char_views(out@) == head + char_views(parts@).take(i as int).filter(pred),
            pred == (|p: Seq<char>| p.len() > 0 && p != seq!['.']),
        decreases parts@.len() - i,
    {
        let ghost before = char_views(out@);
        assert(char_views(parts@).take(i + 1) =~= char_views(parts@).take(i as int).push(
            parts@[i as int]@,
        ));
        reveal_with_fuel(Seq::filter, 1);
        assert(char_views(parts@).take(i + 1).drop_last() =~= char_views(parts@).take(i as int));
        if parts[i].len() > 0 && !is_dot(&parts[i]) {
            out.push(parts[i].clone());
            assert(char_views(out@) =~= before.push(parts@[i as int]@));
        } else {
            assert(char_views(out@) =~= before);
        }
        i = i + 1;
    }
    assert(char_views(parts@).take(parts@.len() as int) =~= char_views(parts@));
    out
}

/// Case-insensitive, component-wise prefix test: is `prefix` a leading run of
/// `path`'s components?
pub fn path_starts_with_ci(path: &str, prefix: &str) -> (r: bool)
    ensures
        r == starts_with_ci(path@, prefix@),
{
    let pc = path_components(path);
    let qc = path_components(prefix);
    if qc.len() > pc.len() {
        return false;
    }
    let mut i: usize = 0;
    while i < qc.len()
        invariant
            qc@.len() <= pc@.len(),
            i <= qc@.len(),
            char_views(pc@) == components(path@),
            char_views(qc@) == components(prefix@),
            forall|j: int| 0 <= j < i ==> eq_ci(#[trigger] components(prefix@)[j], components(path@)[j]),
        decreases qc@.len() - i,
    {
        assert(components(prefix@)[i as int] == qc@[i as int]@);
        assert(components(path@)[i as int] == pc@[i as int]@);
        if !eq_ignore_ascii_case(qc[i].as_slice(), pc[i].as_slice()) {
            return false;
        }
        i = i + 1;
    }
    true
}

} // verus!
