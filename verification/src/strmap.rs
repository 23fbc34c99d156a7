//! A string-keyed map kept as a vector of entries sorted strictly by key, in
//! the same order as `BTreeMap<String, V>` (lexicographic by code point, which
//! for UTF-8 strings is the byte order `String` compares by).
use vstd::prelude::*;

use crate::text::chars_of;

verus! {

/// Strict lexicographic order on character sequences (by code point).
pub open spec fn seq_lt(a: Seq<char>, b: Seq<char>) -> bool
    decreases a.len(),
{
    if a.len() == 0 {
        b.len() > 0
    } else if b.len() == 0 {
        false
    } else if a[0] == b[0] {
        seq_lt(a.drop_first(), b.drop_first())
    } else {
        (a[0] as u32) < (b[0] as u32)
    }
}

pub proof fn lemma_lt_irreflexive(a: Seq<char>)
    ensures
        !seq_lt(a, a),
    decreases a.len(),
{
    if a.len() > 0 {
        lemma_lt_irreflexive(a.drop_first());
    }
}

pub proof fn lemma_lt_asymmetric(a: Seq<char>, b: Seq<char>)
    ensures
        seq_lt(a, b) ==> !seq_lt(b, a),
    decreases a.len(),
{
    if a.len() > 0 && b.len() > 0 && a[0] == b[0] {
        lemma_lt_asymmetric(a.drop_first(), b.drop_first());
    }
}

pub proof fn lemma_lt_transitive(a: Seq<char>, b: Seq<char>, c: Seq<char>)
    requires
        seq_lt(a, b),
        seq_lt(b, c),
    ensures
        seq_lt(a, c),
    decreases a.len(),
{
    if a.len() > 0 && b.len() > 0 && c.len() > 0 {
        if a[0] == b[0] && b[0] == c[0] {
            lemma_lt_transitive(a.drop_first(), b.drop_first(), c.drop_first());
        }
    }
}

pub proof fn lemma_lt_total(a: Seq<char>, b: Seq<char>)
    ensures
        a != b ==> seq_lt(a, b) || seq_lt(b, a),
    decreases a.len(),
{
    if a.len() > 0 && b.len() > 0 {
        vstd::utf8::char_u32_cast(a[0], a[0] as u32);
        vstd::utf8::char_u32_cast(b[0], b[0] as u32);
        if a[0] == b[0] {
            lemma_lt_total(a.drop_first(), b.drop_first());
            if a.drop_first() == b.drop_first() {
                assert(a =~= seq![a[0]] + a.drop_first());
                assert(b =~= seq![b[0]] + b.drop_first());
            }
        }
    } else if a.len() == 0 && b.len() == 0 {
        assert(a =~= b);
    }
}

/// Three-way comparison of two character slices: -1, 0 or 1.
pub fn order_chars(a: &[char], b: &[char]) -> (r: i8)
    ensures
        r == -1 <==> seq_lt(a@, b@),
        r == 0 <==> a@ == b@,
        r == 1 <==> seq_lt(b@, a@),
{
    let mut i: usize = 0;
    while i < a.len() && i < b.len()
        invariant
            i <= a@.len(),
            i <= b@.len(),
            a@.take(i as int) == b@.take(i as int),
        decreases a@.len() - i,
    {
        if a[i] != b[i] {
            proof {
                lemma_lt_prefix(a@, b@, i as int);
                lemma_lt_prefix(b@, a@, i as int);
                lemma_lt_asymmetric(a@, b@);
                vstd::utf8::char_u32_cast(a@[i as int], a@[i as int] as u32);
                vstd::utf8::char_u32_cast(b@[i as int], b@[i as int] as u32);
                assert(a@.skip(i as int)[0] == a@[i as int]);
                assert(b@.skip(i as int)[0] == b@[i as int]);
            }
            if (a[i] as u32) < (b[i] as u32) {
                return -1;
            } else {
                return 1;
            }
        }
        i = i + 1;
        assert(a@.take(i as int) =~= a@.take(i - 1).push(a@[i - 1]));
        assert(b@.take(i as int) =~= b@.take(i - 1).push(b@[i - 1]));
    }
    proof {
        lemma_lt_prefix(a@, b@, i as int);
        lemma_lt_prefix(b@, a@, i as int);
        lemma_lt_asymmetric(a@, b@);
        lemma_lt_irreflexive(a@);
        if a@.len() == b@.len() {
            assert(a@ =~= a@.take(i as int));
            assert(b@ =~= b@.take(i as int));
        }
    }
    if a.len() < b.len() {
        -1
    } else if a.len() == b.len() {
        0
    } else {
        1
    }
}

/// Comparing past a common prefix of length `i`.
proof fn lemma_lt_prefix(a: Seq<char>, b: Seq<char>, i: int)
    requires
        0 <= i <= a.len(),
        i <= b.len(),
        a.take(i) == b.take(i),
    ensures
        seq_lt(a, b) == seq_lt(a.skip(i), b.skip(i)),
    decreases i,
{
    if i > 0 {
        assert(a[0] == a.take(i)[0]);
        assert(b[0] == b.take(i)[0]);
        assert(a.drop_first().take(i - 1) =~= a.take(i).drop_first());
        assert(b.drop_first().take(i - 1) =~= b.take(i).drop_first());
        lemma_lt_prefix(a.drop_first(), b.drop_first(), i - 1);
        assert(a.drop_first().skip(i - 1) =~= a.skip(i));
        assert(b.drop_first().skip(i - 1) =~= b.skip(i));
    } else {
        assert(a.skip(0) =~= a);
        assert(b.skip(0) =~= b);
    }
}

/// Three-way comparison of two strings.
pub fn order_str(a: &str, b: &str) -> (r: i8)
    ensures
        r == -1 <==> seq_lt(a@, b@),
        r == 0 <==> a@ == b@,
        r == 1 <==> seq_lt(b@, a@),
{
    let va = chars_of(a);
    let vb = chars_of(b);
    order_chars(va.as_slice(), vb.as_slice())
}

/// Keys strictly increase along the entries (so no key occurs twice).
pub open spec fn sorted_keys<V>(e: Seq<(String, V)>) -> bool {
    forall|i: int, j: int| 0 <= i < j < e.len() ==> seq_lt(#[trigger] e[i].0@, #[trigger] e[j].0@)
}

/// Whether some entry has key `key`.
pub open spec fn has_key<V>(e: Seq<(String, V)>, key: Seq<char>) -> bool {
    exists|i: int| 0 <= i < e.len() && #[trigger] e[i].0@ == key
}

/// An index holding `key` (meaningful when `has_key(e, key)`).
pub open spec fn key_index<V>(e: Seq<(String, V)>, key: Seq<char>) -> int {
    choose|i: int| 0 <= i < e.len() && #[trigger] e[i].0@ == key
}

/// The value stored under `key`, if any.
pub open spec fn lookup<V>(e: Seq<(String, V)>, key: Seq<char>) -> Option<V> {
    if has_key(e, key) {
        Some(e[key_index(e, key)].1)
    } else {
        None
    }
}

/// The entries as a mathematical map.
pub open spec fn as_map<V>(e: Seq<(String, V)>) -> Map<Seq<char>, V> {
    Map::new(|k: Seq<char>| has_key(e, k), |k: Seq<char>| lookup(e, k)->0)
}

/// With sorted keys, the entry at `i` is the one `lookup` finds.
pub proof fn lemma_lookup_at<V>(e: Seq<(String, V)>, i: int)
    requires
        sorted_keys(e),
        0 <= i < e.len(),
    ensures
        lookup(e, e[i].0@) == Some(e[i].1),
{
    let key = e[i].0@;
    assert(0 <= i < e.len() && e[i].0@ == key);
    assert(has_key(e, key));
    let c = key_index(e, key);
    assert(0 <= c < e.len() && e[c].0@ == key);
    if c < i {
        assert(seq_lt(e[c].0@, e[i].0@));
        lemma_lt_irreflexive(key);
    } else if c > i {
        assert(seq_lt(e[i].0@, e[c].0@));
        lemma_lt_irreflexive(key);
    }
    assert(c == i);
    assert(lookup(e, key) == Some(e[c].1));
}

/// Position of `key` among the entries, if present.
pub fn find_index<V>(e: &Vec<(String, V)>, key: &str) -> (r: Option<usize>)
    requires
        sorted_keys(e@),
    ensures
        match r {
            Some(i) => i < e@.len() && e@[i as int].0@ == key@,
            None => !has_key(e@, key@),
        },
{
    let mut i: usize = 0;
    while i < e.len()
        invariant
            i <= e@.len(),
            forall|j: int| 0 <= j < i ==> e@[j].0@ != key@,
        decreases e@.len() - i,
    {
        if order_str(e[i].0.as_str(), key) == 0 {
            return Some(i);
        }
        i = i + 1;
    }
    None
}

/// The value under `key`, if any.
pub fn map_get<'a, V>(e: &'a Vec<(String, V)>, key: &str) -> (r: Option<&'a V>)
    requires
        sorted_keys(e@),
    ensures
        r matches Some(v) ==> lookup(e@, key@) == Some(*v),
        r is None ==> lookup(e@, key@) is None,
{
    match find_index(e, key) {
        Some(i) => {
            proof {
                lemma_lookup_at(e@, i as int);
            }
            Some(&e[i].1)
        },
        None => None,
    }
}

/// Insert `value` under `key`, replacing any previous value, keeping the keys
/// sorted.
pub fn map_insert<V>(e: &mut Vec<(String, V)>, key: String, value: V)
    requires
        sorted_keys(old(e)@),
    ensures
        sorted_keys(final(e)@),
        as_map(final(e)@) == as_map(old(e)@).insert(key@, value),
        forall|j: int|
            0 <= j < final(e)@.len() ==> #[trigger] final(e)@[j] == (key, value) || old(e)@.contains(
                final(e)@[j],
            ),
{
    let ghost k = key@;
    let ghost kv = (key, value);
    let ghost o = e@;
    let mut i: usize = 0;
    while i < e.len() && order_str(e[i].0.as_str(), key.as_str()) == -1
        invariant
            e@ == o,
            sorted_keys(o),
            i <= o.len(),
            k == key@,
            forall|j: int| 0 <= j < i ==> seq_lt(#[trigger] o[j].0@, k),
        decreases o.len() - i,
    {
        i = i + 1;
    }
    proof {
        if i < o.len() {
            lemma_lt_total(o[i as int].0@, k);
            lemma_lt_asymmetric(o[i as int].0@, k);
        }
    }
    if i < e.len() && order_str(e[i].0.as_str(), key.as_str()) == 0 {
        let _old = e.remove(i);
        e.insert(i, (key, value));
        proof {
            let n = e@;
            assert(sorted_keys(n)) by {
                assert forall|a: int, b: int| 0 <= a < b < n.len() implies seq_lt(
                    #[trigger] n[a].0@,
                    #[trigger] n[b].0@,
                ) by {
                    assert(n[a].0@ == o[a].0@);
                    assert(n[b].0@ == o[b].0@);
                }
            }
            lemma_map_after_update(o, n, i as int, k, value);
            assert forall|j: int| 0 <= j < n.len() implies #[trigger] n[j] == kv || o.contains(n[j]) by {
                if j != i {
                    assert(o[j] == n[j]);
                }
            }
        }
    } else {
        e.insert(i, (key, value));
        proof {
            let n = e@;
            assert forall|j: int| i <= j < o.len() implies seq_lt(k, #[trigger] o[j].0@) by {
                if j > i {
                    lemma_lt_transitive(k, o[i as int].0@, o[j].0@);
                }
            }
            assert(sorted_keys(n)) by {
                assert forall|a: int, b: int| 0 <= a < b < n.len() implies seq_lt(
                    #[trigger] n[a].0@,
                    #[trigger] n[b].0@,
                ) by {
                    if b < i {
                        assert(n[a] == o[a] && n[b] == o[b]);
                    } else if b == i {
                        assert(n[a] == o[a]);
                    } else if a < i {
                        assert(n[a] == o[a] && n[b] == o[b - 1]);
                        lemma_lt_transitive(o[a].0@, k, o[b - 1].0@);
                    } else if a == i {
                        assert(n[b] == o[b - 1]);
                    } else {
                        assert(n[a] == o[a - 1] && n[b] == o[b - 1]);
                    }
                }
            }
            lemma_map_after_insert(o, n, i as int, k, value);
            assert forall|j: int| 0 <= j < n.len() implies #[trigger] n[j] == kv || o.contains(n[j]) by {
                if j < i {
                    assert(o[j] == n[j]);
                } else if j > i {
                    assert(o[j - 1] == n[j]);
                }
            }
        }
    }
}

proof fn lemma_map_after_update<V>(
    o: Seq<(String, V)>,
    n: Seq<(String, V)>,
    i: int,
    k: Seq<char>,
    v: V,
)
    requires
        sorted_keys(o),
        sorted_keys(n),
        0 <= i < o.len(),
        n.len() == o.len(),
        o[i].0@ == k,
        n[i].0@ == k,
        n[i].1 == v,
        forall|j: int| 0 <= j < o.len() && j != i ==> n[j] == o[j],
    ensures
        as_map(n) == as_map(o).insert(k, v),
{
    assert forall|x: Seq<char>| #[trigger] has_key(n, x) == (x == k || has_key(o, x)) by {
        if has_key(o, x) {
            let j = choose|j: int| 0 <= j < o.len() && #[trigger] o[j].0@ == x;
            if j != i {
                assert(n[j].0@ == x);
            }
        }
        if has_key(n, x) {
            let j = choose|j: int| 0 <= j < n.len() && #[trigger] n[j].0@ == x;
            if j != i {
                assert(o[j].0@ == x);
            }
        }
    }
    assert forall|x: Seq<char>| has_key(n, x) implies #[trigger] lookup(n, x) == (if x == k {
        Some(v)
    } else {
        lookup(o, x)
    }) by {
        if x == k {
            lemma_lookup_at(n, i);
        } else {
            let j = choose|j: int| 0 <= j < n.len() && #[trigger] n[j].0@ == x;
            lemma_lookup_at(n, j);
            assert(o[j] == n[j]);
            lemma_lookup_at(o, j);
        }
    }
    assert(as_map(n) =~= as_map(o).insert(k, v));
}

proof fn lemma_map_after_insert<V>(
    o: Seq<(String, V)>,
    n: Seq<(String, V)>,
    i: int,
    k: Seq<char>,
    v: V,
)
    requires
        sorted_keys(o),
        sorted_keys(n),
        0 <= i <= o.len(),
        n == o.insert(i, (n[i].0, v)),
        n[i].0@ == k,
    ensures
        as_map(n) == as_map(o).insert(k, v),
{
    assert forall|x: Seq<char>| #[trigger] has_key(n, x) == (x == k || has_key(o, x)) by {
        if has_key(o, x) {
            let j = choose|j: int| 0 <= j < o.len() && #[trigger] o[j].0@ == x;
            if j < i {
                assert(n[j] == o[j]);
            } else {
                assert(n[j + 1] == o[j]);
            }
        }
        if has_key(n, x) {
            let j = choose|j: int| 0 <= j < n.len() && #[trigger] n[j].0@ == x;
            if j < i {
                assert(o[j] == n[j]);
            } else if j > i {
                assert(o[j - 1] == n[j]);
            }
        }
    }
    assert forall|x: Seq<char>| has_key(n, x) implies #[trigger] lookup(n, x) == (if x == k {
        Some(v)
    } else {
        lookup(o, x)
    }) by {
        if x == k {
            lemma_lookup_at(n, i);
        } else {
            let j = choose|j: int| 0 <= j < n.len() && #[trigger] n[j].0@ == x;
            lemma_lookup_at(n, j);
            if j < i {
                assert(o[j] == n[j]);
                lemma_lookup_at(o, j);
            } else {
                assert(o[j - 1] == n[j]);
                lemma_lookup_at(o, j - 1);
            }
        }
    }
    assert(as_map(n) =~= as_map(o).insert(k, v));
}

/// Remove `key` (and its value), if present, keeping the keys sorted.
pub fn map_remove<V>(e: &mut Vec<(String, V)>, key: &str)
    requires
        sorted_keys(old(e)@),
    ensures
        sorted_keys(final(e)@),
        as_map(final(e)@) == as_map(old(e)@).remove(key@),
{
    let ghost o = e@;
    match find_index(e, key) {
        None => {
            assert(as_map(o) =~= as_map(o).remove(key@));
        },
        Some(i) => {
            let _gone = e.remove(i);
            proof {
                let n = e@;
                assert(n =~= o.remove(i as int));
                assert forall|a: int, b: int| 0 <= a < b < n.len() implies seq_lt(
                    #[trigger] n[a].0@,
                    #[trigger] n[b].0@,
                ) by {
                    if b < i {
                        assert(n[a] == o[a] && n[b] == o[b]);
                    } else if a < i {
                        assert(n[a] == o[a] && n[b] == o[b + 1]);
                    } else {
                        assert(n[a] == o[a + 1] && n[b] == o[b + 1]);
                    }
                }
                assert forall|x: Seq<char>| #[trigger] has_key(n, x) == (x != key@ && has_key(o, x)) by {
                    if has_key(o, x) && x != key@ {
                        let j = choose|j: int| 0 <= j < o.len() && #[trigger] o[j].0@ == x;
                        if j < i {
                            assert(n[j] == o[j]);
                        } else {
                            assert(j != i);
                            assert(n[j - 1] == o[j]);
                        }
                    }
                    if has_key(n, x) {
                        let j = choose|j: int| 0 <= j < n.len() && #[trigger] n[j].0@ == x;
                        if j < i {
                            assert(o[j] == n[j]);
                            assert(seq_lt(o[j].0@, o[i as int].0@));
                        } else {
                            assert(o[j + 1] == n[j]);
                            assert(seq_lt(o[i as int].0@, o[j + 1].0@));
                        }
                        lemma_lt_irreflexive(x);
                    }
                }
                assert forall|x: Seq<char>| has_key(n, x) implies #[trigger] lookup(n, x) == lookup(o, x) by {
                    let j = choose|j: int| 0 <= j < n.len() && #[trigger] n[j].0@ == x;
                    lemma_lookup_at(n, j);
                    if j < i {
                        assert(o[j] == n[j]);
                        lemma_lookup_at(o, j);
                    } else {
                        assert(o[j + 1] == n[j]);
                        lemma_lookup_at(o, j + 1);
                    }
                }
                assert(as_map(n) =~= as_map(o).remove(key@));
            }
        },
    }
}

/// A map from strings to values, kept as entries sorted strictly by key (the
/// order of `BTreeMap<String, V>`).
#[verifier::reject_recursive_types(V)]
pub struct StrMap<V> {
    entries: Vec<(String, V)>,
}

impl<V> StrMap<V> {
    #[verifier::type_invariant]
    spec fn keys_sorted(self) -> bool {
        sorted_keys(self.entries@)
    }

    /// The map's contents.
    pub closed spec fn view(&self) -> Map<Seq<char>, V> {
        as_map(self.entries@)
    }

    /// The entries in key order.
    pub closed spec fn entry_seq(&self) -> Seq<(String, V)> {
        self.entries@
    }

    /// The map's contents are those of its entries.
    pub proof fn lemma_view_of_entries(&self)
        ensures
            self@ == as_map(self.entry_seq()),
    {
    }

    /// An empty map.
    pub fn new() -> (m: Self)
        ensures
            m@ == Map::<Seq<char>, V>::empty(),
            m.entry_seq() == Seq::<(String, V)>::empty(),
    {
        let m = StrMap { entries: Vec::new() };
        assert(m@ =~= Map::<Seq<char>, V>::empty());
        m
    }

    /// The value under `key`, if any.
    pub fn get(&self, key: &str) -> (r: Option<&V>)
        ensures
            r matches Some(v) ==> self@.dom().contains(key@) && self@[key@] == *v,
            r is None ==> !self@.dom().contains(key@),
    {
        proof {
            use_type_invariant(self);
        }
        map_get(&self.entries, key)
    }

    /// Insert `value` under `key`, replacing any previous value.
    pub fn insert(&mut self, key: String, value: V)
        ensures
            final(self)@ == old(self)@.insert(key@, value),
    {
        proof {
            use_type_invariant(&*self);
        }
        let mut e: Vec<(String, V)> = Vec::new();
        std::mem::swap(&mut e, &mut self.entries);
        map_insert(&mut e, key, value);
        self.entries = e;
    }

    /// Remove `key` and its value, if present.
    pub fn remove(&mut self, key: &str)
        ensures
            final(self)@ == old(self)@.remove(key@),
    {
        proof {
            use_type_invariant(&*self);
        }
        let mut e: Vec<(String, V)> = Vec::new();
        std::mem::swap(&mut e, &mut self.entries);
        map_remove(&mut e, key);
        self.entries = e;
    }

    /// The entries, in key order.
    pub fn entries(&self) -> (r: &Vec<(String, V)>)
        ensures
            r@ == self.entry_seq(),
            sorted_keys(r@),
            as_map(r@) == self@,
    {
        proof {
            use_type_invariant(self);
        }
        &self.entries
    }
}

} // verus!
