//! Epic Games Launcher discovery: which files are install manifests, and
//! the game a manifest describes. Listing the manifest folder and reading
//! each manifest's JSON are the application's part.
use vstd::prelude::*;

use crate::error::{copy_str, prefixed};
use crate::game::{InstalledGame, Launcher};
use crate::save_dir::{extension_spec, last_dot};
use crate::text::chars_of;

verus! {

/// Whether a file name is an Epic install manifest (extension `item`).
pub open spec fn is_item_spec(name: Seq<char>) -> bool {
    extension_spec(name) == Some("item"@)
}

/// Whether a file name is an Epic install manifest (its extension is
/// exactly `item`).
pub fn is_item_manifest(name: &str) -> (r: bool)
    ensures
        r == is_item_spec(name@),
{
    proof {
        reveal_strlit("item");
        reveal_strlit("..");
    }
    let c = chars_of(name);
    let n = c.len();
    if n == 2 && c[0] == '.' && c[1] == '.' {
        assert(c@ =~= ".."@);
        return false;
    }
    assert(c@ == name@);
    if n < 6 {
        proof {
            if is_item_spec(name@) {
                let i = last_dot(name@)->0;
                lemma_last_dot_range(name@);
                assert(name@.skip(i + 1).len() == 4);
            }
        }
        return false;
    }
    let ok = c[n - 5] == '.' && c[n - 4] == 'i' && c[n - 3] == 't' && c[n - 2] == 'e' && c[n - 1] == 'm';
    proof {
        lemma_last_dot_range(name@);
        if ok {
            assert(name@.take(n as int).last() == '.' || true);
            lemma_last_dot_suffix(name@, n - 5);
            assert(name@.skip(n - 4) =~= "item"@);
        } else if is_item_spec(name@) {
            let i = last_dot(name@)->0;
            let x = name@.skip(i + 1);
            assert(x.len() == 4);
            assert(i == n - 5);
            assert(x[0] == c@[n - 4]);
            assert(x[1] == c@[n - 3]);
            assert(x[2] == c@[n - 2]);
            assert(x[3] == c@[n - 1]);
            assert(c@[n - 5] == '.');
        }
    }
    ok
}

proof fn lemma_last_dot_range(s: Seq<char>)
    ensures
        last_dot(s) matches Some(i) ==> 0 <= i < s.len() && s[i] == '.' && forall|j: int|
            i < j < s.len() ==> #[trigger] s[j] != '.',
        last_dot(s) is None ==> forall|j: int| 0 <= j < s.len() ==> #[trigger] s[j] != '.',
    decreases s.len(),
{
    if s.len() > 0 {
        let t = s.drop_last();
        lemma_last_dot_range(t);
        if s.last() != '.' {
            assert(last_dot(s) == last_dot(t));
            match last_dot(t) {
                Some(i) => {
                    assert(s[i] == t[i]);
                    assert forall|j: int| i < j < s.len() implies #[trigger] s[j] != '.' by {
                        if j < s.len() - 1 {
                            assert(s[j] == t[j]);
                        }
                    }
                },
                None => {
                    assert forall|j: int| 0 <= j < s.len() implies #[trigger] s[j] != '.' by {
                        if j < s.len() - 1 {
                            assert(s[j] == t[j]);
                        }
                    }
                },
            }
        }
    }
}

proof fn lemma_last_dot_suffix(s: Seq<char>, i: int)
    requires
        0 <= i < s.len(),
        s[i] == '.',
        forall|j: int| i < j < s.len() ==> #[trigger] s[j] != '.',
    ensures
        last_dot(s) == Some(i),
    decreases s.len(),
{
    if s.len() - 1 > i {
        assert(s.last() != '.');
        assert forall|j: int| i < j < s.drop_last().len() implies #[trigger] s.drop_last()[j] != '.' by {
            assert(s.drop_last()[j] == s[j]);
        }
        lemma_last_dot_suffix(s.drop_last(), i);
    }
}

/// The game an Epic manifest describes: id `epic:<AppName>`, named by its
/// `DisplayName` (or the app name when absent), installed at its
/// `InstallLocation`.
pub fn game_from_epic(app_name: &str, display_name: Option<&str>, install_location: &str) -> (g: InstalledGame)
    ensures
        g.id@ == "epic:"@ + app_name@,
        g.name@ == match display_name {
            Some(d) => d@,
            None => app_name@,
        },
        g.launcher == Launcher::Epic,
        g.install_dir@ == install_location@,
{
    let name = match display_name {
        Some(d) => copy_str(d),
        None => copy_str(app_name),
    };
    InstalledGame {
        id: prefixed("epic:", app_name),
        name,
        launcher: Launcher::Epic,
        install_dir: copy_str(install_location),
    }
}

} // verus!
