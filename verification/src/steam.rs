//! Steam library discovery: which files are app manifests, the game an app
//! manifest describes, the libraries `libraryfolders.vdf` lists, and the
//! merged list of libraries to scan. Reading the files is the application's
//! part.
use vstd::prelude::*;

use crate::error::{DetectError, copy_str, prefixed};
use crate::game::{InstalledGame, Launcher};
use crate::paths::{char_views, components, join_path, path_components, path_push};
use crate::roots::string_views;
use crate::strmap::{has_key, key_index, lookup, lemma_lookup_at, sorted_keys, seq_lt};
use crate::text::{chars_of, str_eq};
use crate::vdf::{Vdf, VdfView, entries_view, entries_wf, parse, parse_spec, vdf_view, vdf_wf, lemma_obj_view};

verus! {

broadcast use crate::vdf::lemma_vdf_view_shape;

/// The value under `k` of an object, if it is one and has that key.
pub open spec fn obj_get(v: VdfView, k: Seq<char>) -> Option<VdfView> {
    match v {
        VdfView::Obj(m) => if m.dom().contains(k) {
            Some(m[k])
        } else {
            None
        },
        VdfView::Str(_) => None,
    }
}

/// The text of a value, if it is a string.
pub open spec fn text_of(v: Option<VdfView>) -> Option<Seq<char>> {
    match v {
        Some(VdfView::Str(s)) => Some(s),
        _ => None,
    }
}

/// The game an app manifest describes: its id (`steam:<appid>`), name and
/// install directory (`<apps>/common/<installdir>`), when `AppState` is an
/// object holding all three as strings.
pub open spec fn acf_game(doc: VdfView, apps: Seq<char>) -> Option<(Seq<char>, Seq<char>, Seq<char>)> {
    match obj_get(doc, "AppState"@) {
        Some(app) => if app is Obj {
            match (
                text_of(obj_get(app, "appid"@)),
                text_of(obj_get(app, "name"@)),
                text_of(obj_get(app, "installdir"@)),
            ) {
                (Some(a), Some(n), Some(d)) => Some(
                    ("steam:"@ + a, n, path_push(path_push(apps, "common"@), d)),
                ),
                _ => None,
            }
        } else {
            None
        },
        None => None,
    }
}

fn text_at(m: &crate::vdf::VdfMap, key: &str) -> (r: Option<String>)
    ensures
        match r {
            Some(s) => text_of(obj_get(VdfView::Obj(entries_view(m.entry_seq())), key@)) == Some(s@),
            None => text_of(obj_get(VdfView::Obj(entries_view(m.entry_seq())), key@)) is None,
        },
{
    match m.get(key) {
        Some(v) => match v.as_str() {
            Some(s) => Some(copy_str(s)),
            None => None,
        },
        None => None,
    }
}

/// Parse an `appmanifest_*.acf` into its game, whose install dir lies under
/// `apps/common`.
pub fn game_from_acf(text: &str, apps: &str) -> (r: Result<Option<InstalledGame>, DetectError>)
    ensures
        match parse_spec(text@) {
            Err(e) => r matches Err(DetectError::Parse(m)) && m@ == e,
            Ok(doc) => match acf_game(doc, apps@) {
                None => r matches Ok(None),
                Some((id, name, dir)) => r matches Ok(Some(g)) && g.id@ == id && g.name@ == name
                    && g.install_dir@ == dir && g.launcher == Launcher::Steam,
            },
        },
{
    let doc = match parse(text) {
        Ok(d) => d,
        Err(e) => {
            return Err(e);
        },
    };
    let top = match doc.as_obj() {
        Some(m) => m,
        None => {
            return Ok(None);
        },
    };
    proof {
        lemma_obj_view(*top);
    }
    let app = match top.get("AppState") {
        Some(a) => a,
        None => {
            return Ok(None);
        },
    };
    let am = match app.as_obj() {
        Some(m) => m,
        None => {
            return Ok(None);
        },
    };
    proof {
        lemma_obj_view(*am);
    }
    let appid = text_at(am, "appid");
    let name = text_at(am, "name");
    let installdir = text_at(am, "installdir");
    match (appid, name, installdir) {
        (Some(a), Some(n), Some(d)) => {
            let common = join_path(apps, "common");
            Ok(
                Some(
                    InstalledGame {
                        id: prefixed("steam:", a.as_str()),
                        name: n,
                        launcher: Launcher::Steam,
                        install_dir: join_path(common.as_str(), d.as_str()),
                    },
                ),
            )
        },
        _ => Ok(None),
    }
}

/// Whether a file name is a Steam app manifest (`appmanifest_*.acf`).
pub open spec fn is_app_manifest_spec(name: Seq<char>) -> bool {
    name.len() >= 12 && name.take(12) == "appmanifest_"@ && name.len() >= 4 && name.skip(
        name.len() - 4,
    ) == ".acf"@
}

/// Whether a file name is a Steam app manifest (`appmanifest_*.acf`).
pub fn is_app_manifest(name: &str) -> (r: bool)
    ensures
        r == is_app_manifest_spec(name@),
{
    proof {
        reveal_strlit("appmanifest_");
        reveal_strlit(".acf");
    }
    let c = chars_of(name);
    let n = c.len();
    assert(c@ == name@);
    if n < 12 || n < 4 {
        return false;
    }
    let p = ['a', 'p', 'p', 'm', 'a', 'n', 'i', 'f', 'e', 's', 't', '_'];
    let mut i: usize = 0;
    while i < 12
        invariant
            i <= 12,
            12 <= n == c@.len(),
            c@ == name@,
            p@ == "appmanifest_"@,
            forall|j: int| 0 <= j < i ==> c@[j] == #[trigger] p@[j],
        decreases 12 - i,
    {
        if c[i] != p[i] {
            assert(c@.take(12)[i as int] != "appmanifest_"@[i as int]);
            return false;
        }
        i = i + 1;
    }
    assert(c@.take(12) =~= "appmanifest_"@);
    let ok = c[n - 4] == '.' && c[n - 3] == 'a' && c[n - 2] == 'c' && c[n - 1] == 'f';
    proof {
        let t = c@.skip(n - 4);
        if ok {
            assert(t =~= ".acf"@);
        } else if t == ".acf"@ {
            assert(t[0] == c@[n - 4]);
            assert(t[1] == c@[n - 3]);
            assert(t[2] == c@[n - 2]);
            assert(t[3] == c@[n - 1]);
        }
    }
    ok
}

/// The library path an entry of `libraryfolders` gives: the `path` string of
/// an object entry.
pub open spec fn library_path_of(v: VdfView) -> Option<Seq<char>> {
    text_of(obj_get(v, "path"@))
}

/// The library paths of `entries` (an object's entries, in key order).
pub open spec fn library_paths_of(entries: Seq<(String, Vdf)>) -> Seq<Seq<char>>
    decreases entries.len(),
{
    if entries.len() == 0 {
        seq![]
    } else {
        let rest = library_paths_of(entries.drop_last());
        match library_path_of(vdf_view(entries.last().1)) {
            Some(p) => rest.push(p),
            None => rest,
        }
    }
}

/// The library paths listed in a `libraryfolders.vdf`: the `path` of each
/// object entry of `libraryfolders`, in key order.
pub fn library_paths_in(text: &str) -> (r: Result<Vec<String>, DetectError>)
    ensures
        match parse_spec(text@) {
            Err(e) => r matches Err(DetectError::Parse(m)) && m@ == e,
            Ok(doc) => r is Ok && (match obj_get(doc, "libraryfolders"@) {
                Some(VdfView::Obj(_)) => true,
                _ => r matches Ok(v) && v@.len() == 0,
            }),
        },
        r matches Ok(v) ==> exists|d: Vdf|
            vdf_wf(d) && vdf_view(d) == parse_spec(text@)->Ok_0 && #[trigger] library_paths_from_doc(d)
                == string_views(v@),
{
    let doc = match parse(text) {
        Ok(d) => d,
        Err(e) => {
            return Err(e);
        },
    };
    let mut paths: Vec<String> = Vec::new();
    let top = match doc.as_obj() {
        Some(m) => m,
        None => {
            assert(string_views(paths@) =~= Seq::<Seq<char>>::empty());
            assert(library_paths_from_doc(doc) == string_views(paths@));
            return Ok(paths);
        },
    };
    proof {
        lemma_obj_view(*top);
    }
    assert(string_views(paths@) =~= Seq::<Seq<char>>::empty());
    let lf = match top.get("libraryfolders") {
        Some(v) => match v.as_obj() {
            Some(m) => m,
            None => {
                assert(library_paths_from_doc(doc) == string_views(paths@));
                return Ok(paths);
            },
        },
        None => {
            assert(library_paths_from_doc(doc) == string_views(paths@));
            return Ok(paths);
        },
    };
    proof {
        lemma_obj_view(*lf);
    }
    let es = lf.entries();
    let mut i: usize = 0;
    while i < es.len()
        invariant
            i <= es@.len(),
            entries_wf(es@),
            string_views(paths@) == library_paths_of(es@.take(i as int)),
        decreases es@.len() - i,
    {
        assert(es@.take(i + 1).drop_last() =~= es@.take(i as int));
        assert(es@.take(i + 1).last() == es@[i as int]);
        assert(vdf_wf(es@[i as int].1));
        let ghost before = paths@;
        match es[i].1.as_obj() {
            Some(m) => {
                proof {
                    lemma_obj_view(*m);
                }
                match text_at(m, "path") {
                    Some(p) => {
                        paths.push(p);
                        assert(string_views(paths@) =~= string_views(before).push(paths@.last()@));
                    },
                    None => {},
                }
            },
            None => {},
        }
        i = i + 1;
    }
    assert(es@.take(es@.len() as int) =~= es@);
    assert(library_paths_from_doc(doc) == string_views(paths@));
    Ok(paths)
}

/// The library paths of a parsed `libraryfolders.vdf` document.
pub open spec fn library_paths_from_doc(d: Vdf) -> Seq<Seq<char>> {
    match d {
        Vdf::Obj(top) => match lookup(top.entry_seq(), "libraryfolders"@) {
            Some(Vdf::Obj(lf)) => library_paths_of(lf.entry_seq()),
            _ => seq![],
        },
        Vdf::Str(_) => seq![],
    }
}

/// `libs` with each of `extras` appended unless a path with the same
/// components is already present.
pub open spec fn merge_libraries_spec(libs: Seq<Seq<char>>, extras: Seq<Seq<char>>) -> Seq<Seq<char>>
    decreases extras.len(),
{
    if extras.len() == 0 {
        libs
    } else {
        let m = merge_libraries_spec(libs, extras.drop_last());
        if exists|i: int| 0 <= i < m.len() && components(#[trigger] m[i]) == components(extras.last()) {
            m
        } else {
            m.push(extras.last())
        }
    }
}

fn same_path(a: &str, b: &str) -> (r: bool)
    ensures
        r == (components(a@) == components(b@)),
{
    let ca = path_components(a);
    let cb = path_components(b);
    assert(char_views(ca@).len() == ca@.len());
    assert(char_views(cb@).len() == cb@.len());
    if ca.len() != cb.len() {
        return false;
    }
    let mut i: usize = 0;
    while i < ca.len()
        invariant
            i <= ca@.len() == cb@.len(),
            char_views(ca@) == components(a@),
            char_views(cb@) == components(b@),
            forall|j: int| 0 <= j < i ==> #[trigger] components(a@)[j] == components(b@)[j],
        decreases ca@.len() - i,
    {
        assert(components(a@)[i as int] == ca@[i as int]@);
        assert(components(b@)[i as int] == cb@[i as int]@);
        if ca[i].len() != cb[i].len() {
            assert(components(a@)[i as int].len() != components(b@)[i as int].len());
            return false;
        }
        let mut j: usize = 0;
        while j < ca[i].len()
            invariant
                i < ca@.len() == cb@.len(),
                char_views(ca@) == components(a@),
                char_views(cb@) == components(b@),
                ca@[i as int]@.len() == cb@[i as int]@.len(),
                j <= ca@[i as int]@.len(),
                forall|t: int| 0 <= t < j ==> #[trigger] ca@[i as int]@[t] == cb@[i as int]@[t],
            decreases ca@[i as int]@.len() - j,
        {
            if ca[i][j] != cb[i][j] {
                assert(components(a@)[i as int][j as int] != components(b@)[i as int][j as int]);
                return false;
            }
            j = j + 1;
        }
        assert(ca@[i as int]@ =~= cb@[i as int]@);
        i = i + 1;
    }
    assert(components(a@) =~= components(b@));
    true
}

/// The libraries to scan: the main library at `steam_root`, then each extra
/// library not already listed (paths compared component-wise).
pub fn merge_libraries(steam_root: &str, extras: &Vec<String>) -> (r: Vec<String>)
    ensures
        string_views(r@) == merge_libraries_spec(seq![steam_root@], string_views(extras@)),
{
    let mut libs: Vec<String> = Vec::new();
    libs.push(copy_str(steam_root));
    let ghost ev = string_views(extras@);
    assert(string_views(libs@) =~= seq![steam_root@]);
    let mut k: usize = 0;
    while k < extras.len()
        invariant
            k <= extras@.len(),
            ev == string_views(extras@),
            string_views(libs@) == merge_libraries_spec(seq![steam_root@], ev.take(k as int)),
        decreases extras@.len() - k,
    {
        let e = extras[k].as_str();
        assert(ev.take(k + 1).drop_last() =~= ev.take(k as int));
        assert(ev.take(k + 1).last() == e@);
        let ghost m = string_views(libs@);
        let mut found = false;
        let mut i: usize = 0;
        while i < libs.len()
            invariant
                i <= libs@.len(),
                m == string_views(libs@),
                found ==> exists|t: int| 0 <= t < m.len() && components(#[trigger] m[t]) == components(e@),
                !found ==> forall|t: int| 0 <= t < i ==> components(#[trigger] m[t]) != components(e@),
            decreases libs@.len() - i,
        {
            if same_path(libs[i].as_str(), e) {
                assert(m[i as int] == libs@[i as int]@);
                found = true;
            } else {
                assert(m[i as int] == libs@[i as int]@);
            }
            i = i + 1;
        }
        if !found {
            libs.push(extras[k].clone());
            assert(string_views(libs@) =~= m.push(e@));
        }
        k = k + 1;
    }
    assert(ev.take(ev.len() as int) =~= ev);
    libs
}

/// How many of `entries` give a library path.
pub open spec fn with_path_count(entries: Seq<(String, Vdf)>) -> nat
    decreases entries.len(),
{
    if entries.len() == 0 {
        0
    } else {
        with_path_count(entries.drop_last()) + if library_path_of(vdf_view(entries.last().1)) is Some {
            1nat
        } else {
            0nat
        }
    }
}

/// Every library listed in `libraryfolders` is found: the paths hold the
/// `path` of every entry that has one, one path per such entry, and nothing
/// else.
pub proof fn law_every_library_is_listed(entries: Seq<(String, Vdf)>)
    ensures
        library_paths_of(entries).len() == with_path_count(entries),
        forall|i: int|
            0 <= i < entries.len() && #[trigger] library_path_of(vdf_view(entries[i].1)) is Some
                ==> library_paths_of(entries).contains(library_path_of(vdf_view(entries[i].1))->0),
        forall|k: int|
            #![trigger library_paths_of(entries)[k]]
            0 <= k < library_paths_of(entries).len() ==> exists|i: int|
                0 <= i < entries.len() && #[trigger] library_path_of(vdf_view(entries[i].1)) == Some(
                    library_paths_of(entries)[k],
                ),
    decreases entries.len(),
{
    if entries.len() > 0 {
        let init = entries.drop_last();
        let n = entries.len() - 1;
        law_every_library_is_listed(init);
        let rest = library_paths_of(init);
        let out = library_paths_of(entries);
        assert(entries.last() == entries[n]);
        assert forall|i: int| 0 <= i < init.len() implies entries[i] == #[trigger] init[i] by {}
        assert forall|i: int|
            0 <= i < entries.len() && #[trigger] library_path_of(vdf_view(entries[i].1)) is Some
            implies out.contains(library_path_of(vdf_view(entries[i].1))->0) by {
            if i < n {
                assert(init[i] == entries[i]);
                let p = library_path_of(vdf_view(init[i].1))->0;
                assert(rest.contains(p));
                let k = choose|k: int| 0 <= k < rest.len() && rest[k] == p;
                if library_path_of(vdf_view(entries[n].1)) is Some {
                    assert(out[k] == rest[k]);
                }
            } else {
                assert(out[out.len() - 1] == library_path_of(vdf_view(entries[n].1))->0);
            }
        }
        assert forall|k: int| #![trigger out[k]] 0 <= k < out.len() implies exists|i: int|
            0 <= i < entries.len() && #[trigger] library_path_of(vdf_view(entries[i].1)) == Some(out[k]) by {
            if k < rest.len() {
                if library_path_of(vdf_view(entries[n].1)) is Some {
                    assert(out[k] == rest[k]);
                }
                let i = choose|i: int|
                    0 <= i < init.len() && #[trigger] library_path_of(vdf_view(init[i].1)) == Some(rest[k]);
                assert(entries[i] == init[i]);
            } else {
                assert(library_path_of(vdf_view(entries[n].1)) == Some(out[k]));
            }
        }
    }
}

} // verus!
