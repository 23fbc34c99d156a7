//! Where to look for save folders when the curated manifest has no hit.
use vstd::prelude::*;

use crate::error::copy_str;
use crate::paths::{join_path, path_push};

verus! {

/// The standard save-search roots derived from a user profile dir and the
/// `LocalAppData` dir (both optional), in search order.
pub open spec fn roots_spec(user_profile: Option<Seq<char>>, local_appdata: Option<Seq<char>>) -> Seq<
    Seq<char>,
> {
    (match local_appdata {
        Some(l) => seq![l],
        None => Seq::empty(),
    }) + match user_profile {
        Some(p) => seq![
            path_push(path_push(p, "AppData"@), "LocalLow"@),
            path_push(path_push(p, "Documents"@), "My Games"@),
            path_push(p, "Saved Games"@),
        ],
        None => Seq::empty(),
    }
}

/// The views of a list of strings.
pub open spec fn string_views(v: Seq<String>) -> Seq<Seq<char>> {
    v.map_values(|s: String| s@)
}

/// The standard save-search roots from a user profile dir and the
/// `LocalAppData` dir (both optional): `LocalAppData` itself, then the
/// profile's `AppData/LocalLow`, `Documents/My Games` and `Saved Games`.
pub fn roots_from(user_profile: Option<&str>, local_appdata: Option<&str>) -> (r: Vec<String>)
    ensures
        string_views(r@) == roots_spec(
            match user_profile {
                Some(p) => Some(p@),
                None => None,
            },
            match local_appdata {
                Some(l) => Some(l@),
                None => None,
            },
        ),
{
    let mut roots: Vec<String> = Vec::new();
    if let Some(local) = local_appdata {
        roots.push(copy_str(local));
    }
    let ghost first = string_views(roots@);
    if let Some(profile) = user_profile {
        let a = join_path(profile, "AppData");
        roots.push(join_path(a.as_str(), "LocalLow"));
        let d = join_path(profile, "Documents");
        roots.push(join_path(d.as_str(), "My Games"));
        roots.push(join_path(profile, "Saved Games"));
        assert(string_views(roots@) =~= first + seq![
            path_push(path_push(profile@, "AppData"@), "LocalLow"@),
            path_push(path_push(profile@, "Documents"@), "My Games"@),
            path_push(profile@, "Saved Games"@),
        ]);
    }
    proof {
        let lv: Option<Seq<char>> = match local_appdata {
            Some(l) => Some(l@),
            None => None,
        };
        let pv: Option<Seq<char>> = match user_profile {
            Some(p) => Some(p@),
            None => None,
        };
        assert(string_views(roots@) =~= roots_spec(pv, lv));
    }
    roots
}

} // verus!
