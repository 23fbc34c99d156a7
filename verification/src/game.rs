//! Installed-game model and process matching.
use vstd::prelude::*;

use crate::paths::{path_starts_with_ci, starts_with_ci};

verus! {

/// Which launcher a game was installed by.
#[derive(Debug, Clone, Copy, PartialEq, Eq, Structural)]
pub enum Launcher {
    Steam,
    Epic,
}

/// A game discovered on disk.
#[derive(Debug, Clone)]
pub struct InstalledGame {
    /// Stable cross-member id, e.g. `steam:892970` or `epic:Valheim`.
    pub id: String,
    /// Display name.
    pub name: String,
    /// Which launcher installed it.
    pub launcher: Launcher,
    /// Install directory on this machine (a `/`-separated path).
    pub install_dir: String,
}

/// Return the first game whose `install_dir` is (component-wise, ignoring
/// ASCII case) a prefix of `exe_path`: the running executable belongs to it.
pub fn match_process_to_game<'a>(games: &'a [InstalledGame], exe_path: &str) -> (r: Option<
    &'a InstalledGame,
>)
    ensures
        match r {
            Some(g) => exists|i: int|
                0 <= i < games@.len() && games@[i] == *g && starts_with_ci(
                    exe_path@,
                    g.install_dir@,
                ) && forall|j: int|
                    0 <= j < i ==> !starts_with_ci(exe_path@, #[trigger] games@[j].install_dir@),
            None => forall|j: int|
                0 <= j < games@.len() ==> !starts_with_ci(
                    exe_path@,
                    #[trigger] games@[j].install_dir@,
                ),
        },
{
    let mut i: usize = 0;
    while i < games.len()
        invariant
            i <= games@.len(),
            forall|j: int|
                0 <= j < i ==> !starts_with_ci(exe_path@, #[trigger] games@[j].install_dir@),
        decreases games@.len() - i,
    {
        if path_starts_with_ci(exe_path, games[i].install_dir.as_str()) {
            return Some(&games[i]);
        }
        i = i + 1;
    }
    None
}

} // verus!
