use salvae::candidate::{name_matches, rank};
use salvae::epic::{game_from_epic, is_item_manifest};
use salvae::error::DetectError;
use salvae::game::{match_process_to_game, InstalledGame, Launcher};
use salvae::manifest::{Manifest, Placeholders, SaveEntry};
use salvae::roots::roots_from;
use salvae::save_dir::{best_save_dir, descends_from, find_save_dir, is_save_file, manifest_dirs, score_dir, VisitedDir};
use salvae::snapshot::{descends_at, diff, records_files_at, Entry, Snapshot};
use salvae::steam::{game_from_acf, is_app_manifest, library_paths_in, merge_libraries};
use salvae::vdf::parse;

#[test]
fn parses_flat_keys_and_values() {
    let input = r#"
            "AppState"
            {
                "appid"  "892970"
                "name"   "Valheim"
            }
        "#;
    let v = parse(input).unwrap();
    let app = v
        .as_obj()
        .unwrap()
        .get("AppState")
        .unwrap()
        .as_obj()
        .unwrap();
    assert_eq!(app.get("appid").unwrap().as_str(), Some("892970"));
    assert_eq!(app.get("name").unwrap().as_str(), Some("Valheim"));
}

#[test]
fn parses_nested_objects_and_windows_paths() {
    let input = r#"
            "libraryfolders"
            {
                "0" { "path" "C:\\Program Files\\Steam" }
                "1" { "path" "D:\\Games\\SteamLibrary" }
            }
        "#;
    let v = parse(input).unwrap();
    let lf = v
        .as_obj()
        .unwrap()
        .get("libraryfolders")
        .unwrap()
        .as_obj()
        .unwrap();
    assert_eq!(
        lf.get("1")
            .unwrap()
            .as_obj()
            .unwrap()
            .get("path")
            .unwrap()
            .as_str(),
        Some("D:\\Games\\SteamLibrary")
    );
}

#[test]
fn skips_line_comments() {
    let input = "\"root\" {\n  // a comment\n  \"k\" \"v\"\n}\n";
    let v = parse(input).unwrap();
    let root = v.as_obj().unwrap().get("root").unwrap().as_obj().unwrap();
    assert_eq!(root.get("k").unwrap().as_str(), Some("v"));
}

#[test]
fn unbalanced_braces_error() {
    assert!(matches!(parse("\"a\" {"), Err(DetectError::Parse(_))));
}

fn game(id: &str, dir: &str) -> InstalledGame {
    InstalledGame {
        id: id.into(),
        name: id.into(),
        launcher: Launcher::Steam,
        install_dir: dir.into(),
    }
}

#[test]
fn matches_process_under_install_dir() {
    let games = vec![
        game("steam:1", "C:/Steam/common/Valheim"),
        game("steam:2", "C:/Steam/common/Terraria"),
    ];
    let m = match_process_to_game(&games, "C:/Steam/common/Valheim/valheim.exe");
    assert_eq!(m.unwrap().id, "steam:1");
}

#[test]
fn no_match_outside_any_install_dir() {
    let games = vec![game("steam:1", "C:/Steam/common/Valheim")];
    assert!(match_process_to_game(&games, "C:/Windows/notepad.exe").is_none());
}

#[test]
fn match_is_case_insensitive_for_drive_and_folders() {
    // install_dir as the registry might report it (lowercase drive + folder),
    // process path as the OS reports it (real on-disk casing).
    let games = vec![game("steam:1", "c:/steam/common/valheim")];
    let m = match_process_to_game(&games, "C:/Steam/Common/Valheim/valheim.exe");
    assert_eq!(m.unwrap().id, "steam:1");
}

#[test]
fn prefix_must_align_on_component_boundaries() {
    // `Valheim` install dir must not match a sibling `Valheim2` process.
    let games = vec![game("steam:1", "C:/Steam/common/Valheim")];
    assert!(match_process_to_game(&games, "C:/Steam/common/Valheim2/game.exe").is_none());
}

#[test]
fn first_matching_game_wins_and_separators_repeat() {
    let games = vec![game("steam:1", "C:/Steam"), game("steam:2", "C:/Steam/common/X")];
    let m = match_process_to_game(&games, "C:/Steam//common/X/x.exe");
    assert_eq!(m.unwrap().id, "steam:1");
}

#[test]
fn ranks_name_matching_folder_highest() {
    let changed = vec![
        "Valheim/worlds/Midgard.db".to_string(),
        "Valheim/worlds/Midgard.fwl".to_string(),
        "SomeOtherApp/cache/x.tmp".to_string(),
    ];
    let ranked = rank(&changed, "Valheim");
    assert_eq!(ranked[0].folder, "Valheim");
    assert_eq!(ranked[0].changed_files, 2);
    // The name-matching folder outranks the unrelated one.
    assert!(ranked[0].score > ranked[1].score);
}

#[test]
fn loose_files_grouped_under_root_marker() {
    let changed = vec!["loose.sav".to_string()];
    let ranked = rank(&changed, "Whatever");
    assert_eq!(ranked.len(), 1);
    assert_eq!(ranked[0].folder, ".");
}

#[test]
fn empty_diff_yields_no_candidates() {
    assert!(rank(&[], "Game").is_empty());
}

#[test]
fn drills_into_studio_game_subfolder_and_drops_noise() {
    let changed = vec![
        "DDTNL/Supermarket Together/save.es3".to_string(),
        "DDTNL/Supermarket Together/settings.cfg".to_string(),
        "NVIDIA/GLCache/abc.bin".to_string(),
        "Microsoft/Edge/cache.dat".to_string(),
    ];
    let ranked = rank(&changed, "Supermarket Together");
    // Best candidate is the studio/game folder, not just "DDTNL".
    assert_eq!(ranked[0].folder, "DDTNL/Supermarket Together");
    assert_eq!(ranked[0].changed_files, 2);
    // Noise top-level folders are filtered out.
    assert!(ranked
        .iter()
        .all(|c| c.folder != "NVIDIA" && c.folder != "Microsoft"));
}

#[test]
fn rank_scores_and_orders_exactly() {
    let changed = vec![
        "b/x.sav".to_string(),
        "a/y.sav".to_string(),
        "Valheim/w/1".to_string(),
        "a/z.sav".to_string(),
    ];
    let ranked = rank(&changed, "Valheim");
    let got: Vec<(&str, usize, i64)> = ranked.iter().map(|c| (c.folder.as_str(), c.changed_files, c.score)).collect();
    assert_eq!(got, vec![("Valheim", 1, 101), ("a", 2, 2), ("b", 1, 1)]);
}

#[test]
fn deepest_matching_component_is_the_candidate() {
    let changed = vec!["Valheim/Valheim Saves/worlds/a.db".to_string()];
    let ranked = rank(&changed, "Valheim");
    assert_eq!(ranked[0].folder, "Valheim/Valheim Saves");
}

#[test]
fn embedded_manifest_parses_and_matches_by_steam_id() {
    let m = Manifest::embedded();
    let paths = m.paths_for(Some(2709570), "anything");
    assert_eq!(
        paths,
        vec!["<home>/AppData/LocalLow/DDTNL/Supermarket Together"]
    );
}

#[test]
fn matches_by_name_when_no_steam_id() {
    let m = Manifest::embedded();
    assert!(!m.paths_for(None, "valheim").is_empty());
    assert!(m.paths_for(None, "no such game").is_empty());
}

#[test]
fn unknown_steam_id_falls_back_to_name() {
    let m = Manifest::new(vec![
        SaveEntry { name: "Alpha".into(), steam_id: Some(1), paths: vec!["<home>/a".into()] },
        SaveEntry { name: "Beta: The Game".into(), steam_id: None, paths: vec!["<home>/b".into(), "<base>/c".into()] },
    ]);
    assert_eq!(m.paths_for(Some(1), "Beta"), vec!["<home>/a"]);
    assert_eq!(m.paths_for(Some(99), "beta the game"), vec!["<home>/b", "<base>/c"]);
    assert!(m.paths_for(None, "Gamma").is_empty());
}

#[test]
fn resolves_known_placeholders() {
    let ph = Placeholders {
        home: Some("C:/Users/Me".into()),
        local_app_data: Some("C:/Users/Me/AppData/Local".into()),
        ..Placeholders::none()
    };
    assert_eq!(
        ph.resolve("<home>/AppData/LocalLow/DDTNL/Supermarket Together"),
        Some("C:/Users/Me/AppData/LocalLow/DDTNL/Supermarket Together".to_string())
    );
    assert_eq!(
        ph.resolve("<winLocalAppData>/Pal/Saved"),
        Some("C:/Users/Me/AppData/Local/Pal/Saved".to_string())
    );
}

#[test]
fn rejects_unknown_or_remaining_placeholders() {
    let ph = Placeholders {
        home: Some("C:/Users/Me".into()),
        ..Placeholders::none()
    };
    assert_eq!(ph.resolve("<winSavedGames>/x"), None); // unknown head
    assert_eq!(ph.resolve("<home>/Steam/<storeUserId>/remote"), None); // leftover
    assert_eq!(ph.resolve("<winDocuments>/x"), None); // missing base
}

#[test]
fn resolve_turns_backslashes_into_separators() {
    let ph = Placeholders { install_dir: Some("D:/Games/X".into()), ..Placeholders::none() };
    assert_eq!(ph.resolve("<base>\\saves\\slot1"), Some("D:/Games/X/saves/slot1".to_string()));
    assert_eq!(ph.resolve("<root>"), Some("D:/Games/X".to_string()));
}

#[test]
fn save_search_roots_includes_localappdata_when_set() {
    // Compute against an explicit profile/localappdata so the test is
    // deterministic regardless of the real environment.
    let roots = roots_from(Some("C:/Users/Tester"), Some("C:/Users/Tester/AppData/Local"));
    assert!(roots.iter().any(|p| p == "C:/Users/Tester/AppData/Local"));
    assert!(roots.iter().any(|p| p == "C:/Users/Tester/AppData/LocalLow"));
    assert!(roots.iter().any(|p| p.ends_with("Saved Games")));
    assert!(roots.iter().any(|p| p.ends_with("My Games")));
}

#[test]
fn missing_env_yields_empty() {
    assert!(roots_from(None, None).is_empty());
}

#[test]
fn roots_come_in_search_order() {
    assert_eq!(
        roots_from(Some("/home/u"), None),
        vec!["/home/u/AppData/LocalLow", "/home/u/Documents/My Games", "/home/u/Saved Games"]
    );
}

fn entry(size: u64, mtime_ms: u64) -> Entry {
    Entry { size, mtime_ms }
}

#[test]
fn diff_reports_added_and_changed_paths() {
    let mut before = Snapshot::new();
    before.record("keep.txt".into(), entry(4, 10));
    before.record("change.txt".into(), entry(3, 10));
    let mut after = Snapshot::new();
    after.record("keep.txt".into(), entry(4, 10));
    after.record("change.txt".into(), entry(18, 20));
    after.record("added.txt".into(), entry(1, 20));
    let mut changed = diff(&before, &after);
    changed.sort();
    assert_eq!(changed, vec!["added.txt".to_string(), "change.txt".to_string()]);
}

#[test]
fn diff_of_a_snapshot_with_itself_is_empty() {
    let mut s = Snapshot::new();
    s.record("a".into(), entry(1, 1));
    s.record("b/c".into(), entry(2, 2));
    assert!(diff(&s, &s).is_empty());
}

#[test]
fn capture_depth_rules() {
    // A file directly in the root sits at depth 1.
    assert!(records_files_at(0, 2));
    assert!(records_files_at(1, 2));
    assert!(!records_files_at(2, 2));
    assert!(descends_at(0, 2));
    assert!(!descends_at(1, 2));
}

#[test]
fn parses_one_acf_into_a_game() {
    let text = "\"AppState\"\n{\n  \"appid\" \"892970\"\n  \"name\" \"Valheim\"\n  \"installdir\" \"Valheim\"\n}\n";
    let g = game_from_acf(text, "/lib/steamapps").unwrap().unwrap();
    assert_eq!(g.id, "steam:892970");
    assert_eq!(g.name, "Valheim");
    assert_eq!(g.launcher, Launcher::Steam);
    assert_eq!(g.install_dir, "/lib/steamapps/common/Valheim");
}

#[test]
fn acf_without_all_fields_is_no_game() {
    let text = "\"AppState\" { \"appid\" \"1\" }";
    assert!(game_from_acf(text, "/x").unwrap().is_none());
    assert!(matches!(game_from_acf("\"AppState\" {", "/x"), Err(DetectError::Parse(_))));
}

#[test]
fn app_manifest_names() {
    assert!(is_app_manifest("appmanifest_892970.acf"));
    assert!(!is_app_manifest("appmanifest_892970.txt"));
    assert!(!is_app_manifest("libraryfolders.vdf"));
}

#[test]
fn library_folders_lists_extra_libraries() {
    let content = "\"libraryfolders\"\n{\n  \"0\" { \"path\" \"/games/lib2\" }\n  \"1\" { \"label\" \"x\" }\n}\n";
    let libs = library_paths_in(content).unwrap();
    assert_eq!(libs, vec!["/games/lib2".to_string()]);
}

#[test]
fn libraries_merge_without_duplicates() {
    let extras = vec!["/steam/".to_string(), "/lib2".to_string(), "/lib2".to_string()];
    assert_eq!(merge_libraries("/steam", &extras), vec!["/steam", "/lib2"]);
}

#[test]
fn parses_one_manifest_into_a_game() {
    let g = game_from_epic("Fortnite", Some("Fortnite"), "C:/Epic/Fortnite");
    assert_eq!(g.id, "epic:Fortnite");
    assert_eq!(g.name, "Fortnite");
    assert_eq!(g.launcher, Launcher::Epic);
    assert_eq!(g.install_dir, "C:/Epic/Fortnite");
    let h = game_from_epic("Sugar", None, "C:/Epic/Sugar");
    assert_eq!(h.name, "Sugar");
}

#[test]
fn ignores_non_item_files() {
    assert!(is_item_manifest("abc.item"));
    assert!(!is_item_manifest("abc.item.bak"));
    assert!(!is_item_manifest(".item"));
    assert!(!is_item_manifest("notes.txt"));
}

#[test]
fn save_file_extensions() {
    assert!(is_save_file("slot1.sav"));
    assert!(is_save_file("WORLD.SAVE"));
    assert!(is_save_file("game.es3"));
    assert!(!is_save_file("notes.txt"));
    assert!(!is_save_file(".sav"));
    assert!(!is_save_file("sav"));
}

#[test]
fn score_dir_weighs_name_folder_and_files() {
    assert_eq!(score_dir("Valheim", Some("IronGate"), "valheim", 0), 100);
    assert_eq!(score_dir("Saves", Some("SomeStudio"), "totallyunrelatedtitle", 1), 40 + 11);
    assert_eq!(score_dir("saves", Some("Valheim"), "valheim", 50), 40 + 60 + 30);
    assert_eq!(score_dir("Random", None, "valheim", 0), 0);
}

fn visited(path: &str, name: &str, parent: Option<&str>, save_files: usize) -> VisitedDir {
    VisitedDir { path: path.into(), name: name.into(), parent_name: parent.map(|p| p.to_string()), save_files }
}

#[test]
fn heuristic_finds_game_named_folder() {
    let v = vec![
        visited("/r/IronGate", "IronGate", Some("r"), 0),
        visited("/r/IronGate/Valheim", "Valheim", Some("IronGate"), 0),
        visited("/r/IronGate/Valheim/worlds", "worlds", Some("Valheim"), 0),
    ];
    assert_eq!(best_save_dir("Valheim", &v), Some("/r/IronGate/Valheim".to_string()));
}

#[test]
fn heuristic_finds_save_subfolder_by_files() {
    let v = vec![
        visited("/r/SomeStudio", "SomeStudio", Some("r"), 0),
        visited("/r/SomeStudio/Saves", "Saves", Some("SomeStudio"), 1),
    ];
    assert_eq!(best_save_dir("Totally Unrelated Title", &v), Some("/r/SomeStudio/Saves".to_string()));
}

#[test]
fn nothing_relevant_yields_none() {
    let v = vec![visited("/r/Random", "Random", Some("r"), 0)];
    assert_eq!(find_save_dir("Valheim", None, &v), None);
}

#[test]
fn manifest_hit_wins_when_path_exists() {
    let m = Manifest::new(vec![SaveEntry {
        name: "Supermarket Together".into(),
        steam_id: Some(2709570),
        paths: vec!["<home>/DDTNL/Supermarket Together".into()],
    }]);
    let ph = Placeholders { home: Some("/tmp/h".into()), ..Placeholders::none() };
    let dirs = manifest_dirs("Supermarket Together", Some(2709570), &m, &ph);
    assert_eq!(dirs, vec!["/tmp/h/DDTNL/Supermarket Together".to_string()]);
    let v = vec![visited("/r/Supermarket Together", "Supermarket Together", None, 0)];
    assert_eq!(
        find_save_dir("Supermarket Together", Some(dirs[0].clone()), &v),
        Some("/tmp/h/DDTNL/Supermarket Together".to_string())
    );
}

#[test]
fn search_descends_two_levels_below_each_entry() {
    assert!(descends_from(0));
    assert!(descends_from(1));
    assert!(!descends_from(2));
}

#[test]
fn earlier_directory_wins_a_tie() {
    let v = vec![visited("/a/Valheim", "Valheim", None, 0), visited("/b/Valheim", "Valheim", None, 0)];
    assert_eq!(best_save_dir("Valheim", &v), Some("/a/Valheim".to_string()));
}

#[test]
fn name_matching_ignores_order() {
    let pairs = [
        ("valheim", "valheimsaves"),
        ("ab", "abc"),
        ("abc", "abc"),
        ("abc", "abd"),
        ("", "abc"),
        ("café", "cafés"),
    ];
    for (a, b) in pairs {
        assert_eq!(name_matches(a, b), name_matches(b, a));
    }
    assert!(name_matches("valheim", "valheimsaves"));
    assert!(!name_matches("ab", "abc"));
    assert!(name_matches("abc", "abc"));
    assert!(!name_matches("abc", "abd"));
}

#[test]
fn backslash_paths_match_component_wise() {
    let games = vec![game("steam:1", "C:\\Steam\\common\\Valheim")];
    let m = match_process_to_game(&games, "c:/steam/common/valheim/valheim.exe");
    assert_eq!(m.unwrap().id, "steam:1");
    let m = match_process_to_game(&games, "C:\\Steam\\common\\Valheim\\valheim.exe");
    assert_eq!(m.unwrap().id, "steam:1");
    assert!(match_process_to_game(&games, "C:\\Steam\\common\\Valheim2\\game.exe").is_none());
    let extras = vec!["D:\\SteamLibrary".to_string(), "D:/SteamLibrary".to_string()];
    assert_eq!(merge_libraries("C:\\Steam", &extras), vec!["C:\\Steam", "D:\\SteamLibrary"]);
}

#[test]
fn names_match_when_one_holds_the_other() {
    assert!(name_matches("abc", "xabcx"));
    assert!(name_matches("xabcx", "abc"));
    assert!(!name_matches("abc", "abd"));
    assert!(!name_matches("", ""));
    assert!(!name_matches("ab", "ab"));
}
