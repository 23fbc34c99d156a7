//! Best-effort automatic resolution of a game's save folder: the curated
//! manifest first, then a scored search of likely directories.
//!
//! Listing directories is the application's part: it walks the search roots
//! (descending as [`descends_from`] allows), counts the save files in each
//! directory it visits, and hands the visited directories here, in walk
//! order.
use vstd::prelude::*;

use crate::candidate::{name_matches, name_matches_spec};
use crate::manifest::{Manifest, Placeholders, opt_view, paths_for_spec};
use crate::roots::string_views;
use crate::text::{char_lower, chars_of, normalize, normalize_spec, str_eq, string_from_chars, to_lowercase};

verus! {

/// How many directory levels below a search root are visited.
pub const MAX_DEPTH: usize = 3;

/// Whether the walk descends into the subdirectories of a directory found
/// `depth` levels below a root (depth 0 for the root's own entries).
pub fn descends_from(depth: usize) -> (r: bool)
    ensures
        r == (depth + 1 < MAX_DEPTH),
{
    depth < MAX_DEPTH && depth + 1 < MAX_DEPTH
}

/// Folder names (normalized) that commonly hold saves.
pub open spec fn is_save_dir_name(n: Seq<char>) -> bool {
    n == "save"@ || n == "saves"@ || n == "savegame"@ || n == "savegames"@ || n == "savedata"@
}

/// Common save-file extensions (lowercase, without the dot).
pub open spec fn is_save_ext(e: Seq<char>) -> bool {
    e == "sav"@ || e == "save"@ || e == "sv"@ || e == "es3"@ || e == "slot"@ || e == "profile"@
}

/// `s` lower-cased character by character (`char::to_lowercase`).
pub open spec fn lower_spec(s: Seq<char>) -> Seq<char>
    decreases s.len(),
{
    if s.len() == 0 {
        Seq::empty()
    } else {
        lower_spec(s.drop_last()) + char_lower(s.last())
    }
}

/// The index of the last `.` in `s`, if any.
pub open spec fn last_dot(s: Seq<char>) -> Option<int>
    decreases s.len(),
{
    if s.len() == 0 {
        None
    } else if s.last() == '.' {
        Some(s.len() - 1)
    } else {
        last_dot(s.drop_last())
    }
}

/// `Path::extension` of a file name: the text after its last `.`, unless
/// there is none, the only `.` leads the name, or the name is `..`.
pub open spec fn extension_spec(name: Seq<char>) -> Option<Seq<char>> {
    if name == ".."@ {
        None
    } else {
        match last_dot(name) {
            None => None,
            Some(i) => if i == 0 {
                None
            } else {
                Some(name.skip(i + 1))
            },
        }
    }
}

/// A file whose extension, lower-cased, is a common save extension.
pub open spec fn is_save_file_spec(name: Seq<char>) -> bool {
    match extension_spec(name) {
        Some(x) => is_save_ext(lower_spec(x)),
        None => false,
    }
}

fn lower(s: &[char]) -> (r: Vec<char>)
    ensures
        r@ == lower_spec(s@),
{
    let mut out: Vec<char> = Vec::new();
    let mut i: usize = 0;
    while i < s.len()
        invariant
            i <= s@.len(),
            out@ == lower_spec(s@.take(i as int)),
        decreases s@.len() - i,
    {
        assert(s@.take(i + 1).drop_last() =~= s@.take(i as int));
        let low = to_lowercase(s[i]);
        let ghost start = out@;
        let mut j: usize = 0;
        while j < low.len()
            invariant
                j <= low@.len(),
                out@ == start + low@.take(j as int),
            decreases low@.len() - j,
        {
            out.push(low[j]);
            j = j + 1;
            assert(out@ =~= start + low@.take(j as int));
        }
        assert(low@.take(low@.len() as int) =~= low@);
        i = i + 1;
    }
    assert(s@.take(s@.len() as int) =~= s@);
    out
}

/// Whether a file counts as a save file: its extension, lower-cased, is
/// one of `sav`, `save`, `sv`, `es3`, `slot`, `profile`.
pub fn is_save_file(name: &str) -> (r: bool)
    ensures
        r == is_save_file_spec(name@),
{
    proof {
        reveal_strlit("..");
    }
    let c = chars_of(name);
    if c.len() == 2 && c[0] == '.' && c[1] == '.' {
        assert(c@ =~= ".."@);
        return false;
    }
    assert(name@ != ".."@ ==> !(name@ == ".."@));
    let mut i: usize = c.len();
    assert(c@.take(c@.len() as int) =~= c@);
    while i > 0 && c[i - 1] != '.'
        invariant
            i <= c@.len(),
            c@ == name@,
            last_dot(c@) == last_dot(c@.take(i as int)),
        decreases i,
    {
        assert(c@.take(i as int).drop_last() =~= c@.take(i - 1));
        i = i - 1;
    }
    if i == 0 {
        assert(c@.take(0) =~= Seq::<char>::empty());
        return false;
    }
    assert(c@.take(i as int).last() == '.');
    assert(last_dot(c@) == Some(i - 1));
    if i == 1 {
        return false;
    }
    let mut ext: Vec<char> = Vec::new();
    let mut j: usize = i;
    while j < c.len()
        invariant
            i <= j <= c@.len(),
            ext@ == c@.subrange(i as int, j as int),
        decreases c@.len() - j,
    {
        ext.push(c[j]);
        j = j + 1;
        assert(ext@ =~= c@.subrange(i as int, j as int));
    }
    assert(ext@ =~= c@.skip(i as int));
    let low = lower(ext.as_slice());
    let l = string_from_chars(low.as_slice());
    let s = l.as_str();
    str_eq(s, "sav") || str_eq(s, "save") || str_eq(s, "sv") || str_eq(s, "es3") || str_eq(s, "slot")
        || str_eq(s, "profile")
}

/// How likely a directory named `name` (its parent named `parent`, holding
/// `save_files` save files) is a save folder for the game normalized as
/// `needle`.
pub open spec fn score_spec(name: Seq<char>, parent: Option<Seq<char>>, needle: Seq<char>, save_files: nat) -> int {
    let norm = normalize_spec(name);
    (if name_matches_spec(needle, norm) {
        100int
    } else {
        0int
    }) + (if is_save_dir_name(norm) {
        40 + match parent {
            Some(p) => if name_matches_spec(needle, normalize_spec(p)) {
                60int
            } else {
                0int
            },
            None => 0int,
        }
    } else {
        0int
    }) + (if save_files > 0 {
        10 + if save_files < 20 {
            save_files as int
        } else {
            20int
        }
    } else {
        0int
    })
}

/// Score a directory: a name resembling the game, a typical save-folder
/// name (more so directly under the game's folder), and save files inside
/// all count.
pub fn score_dir(name: &str, parent: Option<&str>, needle: &str, save_files: usize) -> (r: i64)
    ensures
        r == score_spec(
            name@,
            match parent {
                Some(p) => Some(p@),
                None => None,
            },
            needle@,
            save_files as nat,
        ),
{
    let norm = normalize(name);
    let mut score: i64 = 0;
    if name_matches(needle, norm.as_str()) {
        score = score + 100;
    }
    let n = norm.as_str();
    if str_eq(n, "save") || str_eq(n, "saves") || str_eq(n, "savegame") || str_eq(n, "savegames")
        || str_eq(n, "savedata") {
        score = score + 40;
        if let Some(p) = parent {
            let pn = normalize(p);
            if name_matches(needle, pn.as_str()) {
                score = score + 60;
            }
        }
    }
    if save_files > 0 {
        let capped: i64 = if save_files < 20 {
            save_files as i64
        } else {
            20
        };
        score = score + 10 + capped;
    }
    score
}

/// A directory visited by the search: its path, its name, its parent's name
/// and how many save files it holds.
pub struct VisitedDir {
    pub path: String,
    pub name: String,
    pub parent_name: Option<String>,
    pub save_files: usize,
}

/// The score of a visited directory.
pub open spec fn visited_score(d: VisitedDir, needle: Seq<char>) -> int {
    score_spec(d.name@, opt_view(d.parent_name), needle, d.save_files as nat)
}

/// The best directory among `vs` (in walk order): the first with the highest
/// positive score, with that score.
pub open spec fn best_of(vs: Seq<VisitedDir>, needle: Seq<char>) -> Option<(int, Seq<char>)>
    decreases vs.len(),
{
    if vs.len() == 0 {
        None
    } else {
        let prev = best_of(vs.drop_last(), needle);
        let s = visited_score(vs.last(), needle);
        if s > 0 && (prev matches Some((b, _)) ==> b < s) {
            Some((s, vs.last().path@))
        } else {
            prev
        }
    }
}

/// The best-scoring directory among those visited, in walk order (the first
/// of equally high scores wins), if any scores above zero.
pub fn best_save_dir(game_name: &str, visited: &[VisitedDir]) -> (r: Option<String>)
    ensures
        opt_view(r) == match best_of(visited@, normalize_spec(game_name@)) {
            Some((_, p)) => Some(p),
            None => None,
        },
{
    let needle = normalize(game_name);
    let mut best_score: i64 = 0;
    let mut best: Option<String> = None;
    let mut i: usize = 0;
    while i < visited.len()
        invariant
            i <= visited@.len(),
            needle@ == normalize_spec(game_name@),
            match best_of(visited@.take(i as int), needle@) {
                Some((b, p)) => best_score == b && opt_view(best) == Some(p),
                None => best is None && best_score == 0,
            },
        decreases visited@.len() - i,
    {
        let d = &visited[i];
        let parent: Option<&str> = match &d.parent_name {
            Some(p) => Some(p.as_str()),
            None => None,
        };
        let s = score_dir(d.name.as_str(), parent, needle.as_str(), d.save_files);
        assert(visited@.take(i + 1).drop_last() =~= visited@.take(i as int));
        assert(visited@.take(i + 1).last() == visited@[i as int]);
        assert(s == visited_score(visited@[i as int], needle@));
        if s > 0 && (best.is_none() || best_score < s) {
            best_score = s;
            best = Some(d.path.clone());
        }
        i = i + 1;
    }
    assert(visited@.take(visited@.len() as int) =~= visited@);
    best
}

/// The templates of the manifest entry for a game, resolved against the
/// placeholders, in order (those that do not resolve are left out). The
/// first that is an existing directory is the save folder.
pub fn manifest_dirs(game_name: &str, steam_id: Option<u64>, manifest: &Manifest, placeholders: &Placeholders) -> (r: Vec<String>)
    ensures
        string_views(r@) == resolved_templates(
            paths_for_spec(manifest.entry_seq(), steam_id, game_name@),
            *placeholders,
        ),
{
    let templates = manifest.paths_for(steam_id, game_name);
    let ghost ts = string_views(templates@);
    let mut out: Vec<String> = Vec::new();
    let mut i: usize = 0;
    while i < templates.len()
        invariant
            i <= templates@.len(),
            ts == string_views(templates@),
            string_views(out@) == resolved_templates(ts.take(i as int), *placeholders),
        decreases templates@.len() - i,
    {
        assert(ts.take(i + 1).drop_last() =~= ts.take(i as int));
        assert(ts.take(i + 1).last() == templates@[i as int]@);
        let ghost before = out@;
        match placeholders.resolve(templates[i].as_str()) {
            Some(p) => {
                out.push(p);
                assert(string_views(out@) =~= string_views(before).push(out@.last()@));
            },
            None => {},
        }
        i = i + 1;
    }
    assert(ts.take(ts.len() as int) =~= ts);
    out
}

/// The resolved forms of `ts`, in order, leaving out those that do not
/// resolve.
pub open spec fn resolved_templates(ts: Seq<Seq<char>>, ph: Placeholders) -> Seq<Seq<char>>
    decreases ts.len(),
{
    if ts.len() == 0 {
        seq![]
    } else {
        let rest = resolved_templates(ts.drop_last(), ph);
        match ph.resolve_spec(ts.last()) {
            Some(p) => rest.push(p),
            None => rest,
        }
    }
}

/// The save folder: the first manifest directory found to exist, else the
/// best-scoring directory of the search.
pub fn find_save_dir(game_name: &str, manifest_hit: Option<String>, visited: &[VisitedDir]) -> (r: Option<String>)
    ensures
        manifest_hit is Some ==> r == manifest_hit,
        manifest_hit is None ==> opt_view(r) == match best_of(visited@, normalize_spec(game_name@)) {
            Some((_, p)) => Some(p),
            None => None,
        },
{
    match manifest_hit {
        Some(p) => Some(p),
        None => best_save_dir(game_name, visited),
    }
}

/// The search picks the highest-scoring visited directory: nothing when no
/// directory scores above zero; otherwise a directory whose score is
/// positive and at least that of every visited directory, the first in walk
/// order among those with that score.
pub proof fn law_best_save_dir_is_first_highest(vs: Seq<VisitedDir>, needle: Seq<char>)
    ensures
        best_of(vs, needle) is None <==> forall|j: int| 0 <= j < vs.len() ==> #[trigger] visited_score(vs[j], needle) <= 0,
        best_of(vs, needle) matches Some((s, p)) ==> s > 0 && exists|i: int|
            0 <= i < vs.len() && #[trigger] vs[i].path@ == p && visited_score(vs[i], needle) == s && (forall|j: int|
                0 <= j < vs.len() ==> #[trigger] visited_score(vs[j], needle) <= s) && (forall|j: int|
                0 <= j < i ==> #[trigger] visited_score(vs[j], needle) < s),
    decreases vs.len(),
{
    if vs.len() > 0 {
        let init = vs.drop_last();
        let n = vs.len() - 1;
        law_best_save_dir_is_first_highest(init, needle);
        assert forall|j: int| 0 <= j < init.len() implies vs[j] == #[trigger] init[j] by {}
        let prev = best_of(init, needle);
        let sl = visited_score(vs.last(), needle);
        assert(vs.last() == vs[n]);
        match prev {
            None => {
                if sl > 0 {
                    assert(vs[n].path@ == vs.last().path@);
                    assert forall|j: int| 0 <= j < vs.len() implies #[trigger] visited_score(vs[j], needle) <= sl by {
                        if j < n {
                            assert(visited_score(init[j], needle) <= 0);
                        }
                    }
                    assert forall|j: int| 0 <= j < n implies #[trigger] visited_score(vs[j], needle) < sl by {
                        assert(visited_score(init[j], needle) <= 0);
                    }
                } else {
                    assert forall|j: int| 0 <= j < vs.len() implies #[trigger] visited_score(vs[j], needle) <= 0 by {
                        if j < n {
                            assert(visited_score(init[j], needle) <= 0);
                        }
                    }
                }
            },
            Some((b, p)) => {
                let i = choose|i: int|
                    0 <= i < init.len() && #[trigger] init[i].path@ == p && visited_score(init[i], needle) == b
                        && (forall|j: int| 0 <= j < init.len() ==> #[trigger] visited_score(init[j], needle) <= b)
                        && (forall|j: int| 0 <= j < i ==> #[trigger] visited_score(init[j], needle) < b);
                assert(visited_score(init[i], needle) > 0);
                if sl > 0 && b < sl {
                    assert(vs[n].path@ == vs.last().path@);
                    assert forall|j: int| 0 <= j < vs.len() implies #[trigger] visited_score(vs[j], needle) <= sl by {
                        if j < n {
                            assert(visited_score(init[j], needle) <= b);
                        }
                    }
                    assert forall|j: int| 0 <= j < n implies #[trigger] visited_score(vs[j], needle) < sl by {
                        assert(visited_score(init[j], needle) <= b);
                    }
                } else {
                    assert(vs[i] == init[i]);
                    assert forall|j: int| 0 <= j < vs.len() implies #[trigger] visited_score(vs[j], needle) <= b by {
                        if j < n {
                            assert(visited_score(init[j], needle) <= b);
                        }
                    }
                    assert forall|j: int| 0 <= j < i implies #[trigger] visited_score(vs[j], needle) < b by {
                        assert(visited_score(init[j], needle) < b);
                    }
                    assert(visited_score(init[i], needle) > 0);
                    assert(!(forall|j: int| 0 <= j < vs.len() ==> #[trigger] visited_score(vs[j], needle) <= 0));
                }
            },
        }
    }
}

} // verus!
