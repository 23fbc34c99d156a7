//! A map of games to their save-path templates (derived from the Ludusavi
//! manifest): the highest-accuracy layer of save-folder detection, and the
//! placeholders its templates use.
use vstd::prelude::*;

use crate::error::copy_str;
use crate::paths::{char_views, join_path, path_push, slashes, split_chars, split_on, lemma_split_on_nonempty};
use crate::roots::string_views;
use crate::text::{chars_of, normalize, normalize_spec, str_eq, string_from_chars};

verus! {

/// One game's save-path templates, keyed by Steam id and/or name.
#[derive(Debug, Clone)]
pub struct SaveEntry {
    pub name: String,
    pub steam_id: Option<u64>,
    pub paths: Vec<String>,
}

/// The curated save-location dataset.
pub struct Manifest {
    entries: Vec<SaveEntry>,
}

/// The index of the first entry with Steam id `id`, searching from `i`.
pub open spec fn find_by_id(es: Seq<SaveEntry>, id: u64, i: int) -> Option<int>
    decreases es.len() - i,
{
    if i < 0 || i >= es.len() {
        None
    } else if es[i].steam_id == Some(id) {
        Some(i)
    } else {
        find_by_id(es, id, i + 1)
    }
}

/// The index of the first entry whose normalized name is `needle`,
/// searching from `i`.
pub open spec fn find_by_name(es: Seq<SaveEntry>, needle: Seq<char>, i: int) -> Option<int>
    decreases es.len() - i,
{
    if i < 0 || i >= es.len() {
        None
    } else if normalize_spec(es[i].name@) == needle {
        Some(i)
    } else {
        find_by_name(es, needle, i + 1)
    }
}

/// The templates for a game: those of the first entry with its Steam id, or
/// else of the first entry whose name matches (after normalizing), or none.
pub open spec fn paths_for_spec(es: Seq<SaveEntry>, steam_id: Option<u64>, name: Seq<char>) -> Seq<
    Seq<char>,
> {
    let by_id = match steam_id {
        Some(id) => find_by_id(es, id, 0),
        None => None,
    };
    match by_id {
        Some(i) => string_views(es[i].paths@),
        None => match find_by_name(es, normalize_spec(name), 0) {
            Some(i) => string_views(es[i].paths@),
            None => seq![],
        },
    }
}

/// A copy of a list of strings.
pub fn copy_strings(v: &Vec<String>) -> (r: Vec<String>)
    ensures
        string_views(r@) == string_views(v@),
{
    let mut r: Vec<String> = Vec::new();
    let mut i: usize = 0;
    while i < v.len()
        invariant
            i <= v@.len(),
            string_views(r@) == string_views(v@).take(i as int),
        decreases v@.len() - i,
    {
        let ghost before = r@;
        let c = v[i].clone();
        assert(c@ == v@[i as int]@);
        r.push(c);
        assert(string_views(r@) =~= string_views(before).push(c@));
        i = i + 1;
        assert(string_views(r@) =~= string_views(v@).take(i as int));
    }
    assert(string_views(v@).take(v@.len() as int) =~= string_views(v@));
    r
}

impl Manifest {
    /// The entries, in order.
    pub closed spec fn entry_seq(&self) -> Seq<SaveEntry> {
        self.entries@
    }

    /// A manifest of the given entries (as parsed from its JSON array).
    pub fn new(entries: Vec<SaveEntry>) -> (m: Self)
        ensures
            m.entry_seq() == entries@,
    {
        Manifest { entries }
    }

    /// An empty manifest.
    pub fn empty() -> (m: Self)
        ensures
            m.entry_seq() == Seq::<SaveEntry>::empty(),
    {
        Manifest { entries: Vec::new() }
    }

    /// The built-in curated manifest.
    pub fn embedded() -> (m: Self)
        ensures
            m.entry_seq().len() == 2,
            m.entry_seq()[0].name@ == "Supermarket Together"@,
            m.entry_seq()[0].steam_id == Some(2709570u64),
            string_views(m.entry_seq()[0].paths@) == seq![
                "<home>/AppData/LocalLow/DDTNL/Supermarket Together"@,
            ],
            m.entry_seq()[1].name@ == "Valheim"@,
            m.entry_seq()[1].steam_id == Some(892970u64),
            string_views(m.entry_seq()[1].paths@) == seq!["<home>/AppData/LocalLow/IronGate/Valheim"@],
    {
        let mut p1: Vec<String> = Vec::new();
        p1.push(copy_str("<home>/AppData/LocalLow/DDTNL/Supermarket Together"));
        let mut p2: Vec<String> = Vec::new();
        p2.push(copy_str("<home>/AppData/LocalLow/IronGate/Valheim"));
        let mut entries: Vec<SaveEntry> = Vec::new();
        entries.push(
            SaveEntry { name: copy_str("Supermarket Together"), steam_id: Some(2709570), paths: p1 },
        );
        entries.push(SaveEntry { name: copy_str("Valheim"), steam_id: Some(892970), paths: p2 });
        proof {
            assert(string_views(entries@[0].paths@) =~= seq![
                "<home>/AppData/LocalLow/DDTNL/Supermarket Together"@,
            ]);
            assert(string_views(entries@[1].paths@) =~= seq![
                "<home>/AppData/LocalLow/IronGate/Valheim"@,
            ]);
        }
        Manifest { entries }
    }

    /// Path templates for a game: matched by Steam id first, then by name.
    pub fn paths_for(&self, steam_id: Option<u64>, name: &str) -> (r: Vec<String>)
        ensures
            string_views(r@) == paths_for_spec(self.entry_seq(), steam_id, name@),
    {
        let es = &self.entries;
        if let Some(id) = steam_id {
            let mut i: usize = 0;
            while i < es.len()
                invariant
                    i <= es@.len(),
                    es@ == self.entries@,
                    steam_id == Some(id),
                    find_by_id(es@, id, 0) == find_by_id(es@, id, i as int),
                decreases es@.len() - i,
            {
                if es[i].steam_id == Some(id) {
                    assert(find_by_id(es@, id, i as int) == Some(i as int));
                    let r = copy_strings(&es[i].paths);
                    assert(self.entry_seq() == es@);
                    return r;
                }
                i = i + 1;
            }
        }
        let needle = normalize(name);
        let mut j: usize = 0;
        while j < es.len()
            invariant
                j <= es@.len(),
                es@ == self.entries@,
                needle@ == normalize_spec(name@),
                find_by_name(es@, needle@, 0) == find_by_name(es@, needle@, j as int),
                match steam_id {
                    Some(id) => find_by_id(es@, id, 0) is None,
                    None => true,
                },
            decreases es@.len() - j,
        {
            let n = normalize(es[j].name.as_str());
            if str_eq(n.as_str(), needle.as_str()) {
                assert(find_by_name(es@, needle@, j as int) == Some(j as int));
                let r = copy_strings(&es[j].paths);
                assert(self.entry_seq() == es@);
                return r;
            }
            j = j + 1;
        }
        Vec::new()
    }
}

/// Base directories used to resolve manifest path placeholders.
pub struct Placeholders {
    pub home: Option<String>,
    pub local_app_data: Option<String>,
    pub app_data: Option<String>,
    pub documents: Option<String>,
    pub install_dir: Option<String>,
}

/// The view of an optional string.
pub open spec fn opt_view(o: Option<String>) -> Option<Seq<char>> {
    match o {
        Some(s) => Some(s@),
        None => None,
    }
}


/// `base` with each component of `comps` pushed in turn.
pub open spec fn push_all(base: Seq<char>, comps: Seq<Seq<char>>) -> Seq<char>
    decreases comps.len(),
{
    if comps.len() == 0 {
        base
    } else {
        push_all(path_push(base, comps[0]), comps.drop_first())
    }
}

/// Some piece holds a `<` (a placeholder left unresolved).
pub open spec fn has_placeholder(pieces: Seq<Seq<char>>) -> bool {
    exists|i: int, j: int| 0 <= i < pieces.len() && 0 <= j < pieces[i].len() && #[trigger] pieces[i][j] == '<'
}

impl Placeholders {
    /// No base directory known.
    pub fn none() -> (p: Self)
        ensures
            p.home is None && p.local_app_data is None && p.app_data is None && p.documents is None
                && p.install_dir is None,
    {
        Placeholders { home: None, local_app_data: None, app_data: None, documents: None, install_dir: None }
    }

    /// The base directory a template's first component names, if known.
    pub open spec fn base_for(&self, head: Seq<char>) -> Option<Seq<char>> {
        if head == "<home>"@ {
            opt_view(self.home)
        } else if head == "<winLocalAppData>"@ {
            opt_view(self.local_app_data)
        } else if head == "<winAppData>"@ {
            opt_view(self.app_data)
        } else if head == "<winDocuments>"@ {
            opt_view(self.documents)
        } else if head == "<base>"@ || head == "<root>"@ {
            opt_view(self.install_dir)
        } else {
            None
        }
    }

    /// What a template resolves to: its base directory with the remaining
    /// components pushed on, or nothing when the head is unknown or its base
    /// missing, or a placeholder remains in the rest.
    pub open spec fn resolve_spec(&self, template: Seq<char>) -> Option<Seq<char>> {
        let parts = split_on(slashes(template), '/');
        match self.base_for(parts[0]) {
            None => None,
            Some(b) => if parts.len() == 1 {
                Some(b)
            } else if has_placeholder(parts.drop_first()) {
                None
            } else {
                Some(push_all(b, parts.drop_first()))
            },
        }
    }

    fn base_of(&self, head: &str) -> (r: Option<String>)
        ensures
            opt_view(r) == self.base_for(head@),
    {
        proof {
            reveal_strlit("<home>");
        }
        if str_eq(head, "<home>") {
            self.home.clone()
        } else if str_eq(head, "<winLocalAppData>") {
            self.local_app_data.clone()
        } else if str_eq(head, "<winAppData>") {
            self.app_data.clone()
        } else if str_eq(head, "<winDocuments>") {
            self.documents.clone()
        } else if str_eq(head, "<base>") || str_eq(head, "<root>") {
            self.install_dir.clone()
        } else {
            None
        }
    }

    /// Resolve a single template to an absolute path, or `None` if it begins
    /// with (or still contains) a placeholder we don't understand.
    pub fn resolve(&self, template: &str) -> (r: Option<String>)
        ensures
            opt_view(r) == self.resolve_spec(template@),
    {
        let raw = chars_of(template);
        let mut norm: Vec<char> = Vec::new();
        let mut i: usize = 0;
        while i < raw.len()
            invariant
                i <= raw@.len(),
                raw@ == template@,
                norm@ == slashes(raw@).take(i as int),
            decreases raw@.len() - i,
        {
            let c = raw[i];
            norm.push(if c == '\\' { '/' } else { c });
            i = i + 1;
            assert(norm@ =~= slashes(raw@).take(i as int));
        }
        assert(slashes(raw@).take(raw@.len() as int) =~= slashes(raw@));
        let parts = split_chars(norm.as_slice(), '/');
        let ghost ps = split_on(slashes(template@), '/');
        proof {
            lemma_split_on_nonempty(slashes(template@), '/');
        }
        assert(parts@[0]@ == ps[0]);
        let head = string_from_chars(parts[0].as_slice());
        let base = match self.base_of(head.as_str()) {
            Some(b) => b,
            None => {
                return None;
            },
        };
        if parts.len() == 1 {
            return Some(base);
        }
        let ghost rest = ps.drop_first();
        let mut k: usize = 1;
        while k < parts.len()
            invariant
                1 <= k <= parts@.len(),
                char_views(parts@) == ps,
                ps == split_on(slashes(template@), '/'),
                self.base_for(ps[0]) is Some,
                parts@.len() > 1,
                rest == ps.drop_first(),
                forall|a: int, b: int|
                    0 <= a < k - 1 && 0 <= b < rest[a].len() ==> #[trigger] rest[a][b] != '<',
            decreases parts@.len() - k,
        {
            let piece = &parts[k];
            assert(piece@ == rest[k - 1]);
            let mut j: usize = 0;
            while j < piece.len()
                invariant
                    j <= piece@.len(),
                    1 <= k < parts@.len(),
                    rest == ps.drop_first(),
                    char_views(parts@) == ps,
                    ps == split_on(slashes(template@), '/'),
                    self.base_for(ps[0]) is Some,
                    piece@ == rest[k - 1],
                    forall|b: int| 0 <= b < j ==> #[trigger] piece@[b] != '<',
                decreases piece@.len() - j,
            {
                if piece[j] == '<' {
                    assert(rest[k - 1][j as int] == '<');
                    assert(has_placeholder(rest));
                    return None;
                }
                j = j + 1;
            }
            k = k + 1;
        }
        assert(!has_placeholder(rest));
        let mut path = base;
        let mut m: usize = 1;
        assert(rest.skip(0) =~= rest);
        while m < parts.len()
            invariant
                1 <= m <= parts@.len(),
                char_views(parts@) == ps,
                ps == split_on(slashes(template@), '/'),
                self.base_for(ps[0]) is Some,
                !has_placeholder(rest),
                parts@.len() > 1,
                rest == ps.drop_first(),
                push_all(path@, rest.skip(m - 1)) == push_all(self.base_for(ps[0])->0, rest),
            decreases parts@.len() - m,
        {
            let comp = string_from_chars(parts[m].as_slice());
            assert(rest.skip(m - 1)[0] == comp@);
            assert(rest.skip(m - 1).drop_first() =~= rest.skip(m as int));
            path = join_path(path.as_str(), comp.as_str());
            m = m + 1;
        }
        assert(rest.skip(rest.len() as int) =~= Seq::<Seq<char>>::empty());
        Some(path)
    }
}

} // verus!
