use deathlog::date::Date;
use deathlog::mods::cache_entry_fresh;
use deathlog::mods::get_mods;
use deathlog::mods::mod_from_filename;
use deathlog::mods::neoforge_version;
use deathlog::mods::primary_file_index;
use deathlog::mods::recommended_mods;
use deathlog::mods::select_version;
use deathlog::mods::server_mods;
use deathlog::mods::build_project;
use deathlog::mods::version_id;
use deathlog::mods::Hashes;
use deathlog::mods::Mod;
use deathlog::mods::ModPack;
use deathlog::mods::Version;
use deathlog::mods::VersionFile;

#[test]
fn jar_names_parse_to_mods() {
    let m = mod_from_filename("create-6.0.4.jar").expect("should match");
    assert_eq!(m.name, "create");
    assert_eq!(m.slug, "create");
    assert_eq!(m.version, "6.0.4");
    assert!(m.mandatory);
    assert!(!m.client_side_only);

    let v = mod_from_filename("voicechat-neoforge-2.6.3.jar").expect("should match");
    assert_eq!(v.name, "simple-voice-chat");
    assert_eq!(v.slug, "simple-voice-chat");
    assert_eq!(v.version, "neoforge-2.6.3");
    assert!(v.mandatory);

    let j = mod_from_filename("jei-19.21.0.247.jar").expect("should match");
    assert_eq!(j.name, "jei");
    assert!(!j.mandatory);

    assert!(mod_from_filename("create-6.0.4.zip").is_none());
    assert!(mod_from_filename("create6.0.4.jar").is_none());
    assert!(mod_from_filename("unknown-1.0.jar").is_none());
}

#[test]
fn server_mods_keeps_file_order() {
    let names = vec![
        "jei-19.21.0.247.jar".to_string(),
        "readme.txt".to_string(),
        "create-6.0.4.jar".to_string(),
    ];
    let mods = server_mods(&names);
    assert_eq!(mods.len(), 2);
    assert_eq!(mods[0].name, "jei");
    assert_eq!(mods[1].name, "create");
}

#[test]
fn recommended_mods_track_latest() {
    let mods = recommended_mods();
    assert_eq!(mods.len(), 9);
    assert_eq!(mods[0].name, "sodium");
    assert_eq!(mods[8].name, "mouse-tweaks");
    for m in &mods {
        assert_eq!(m.version, "latest");
        assert!(!m.mandatory);
        assert!(m.client_side_only);
        assert_eq!(m.name, m.slug);
    }
}

#[test]
fn neoforge_version_extracted_from_start_script() {
    let script = "#!/bin/sh\njava @libraries/net/neoforged/neoforge/21.1.77/unix_args.txt \"$@\"\n";
    let v = neoforge_version(script).expect("should extract");
    assert_eq!(v, "21.1.77");
    assert!(neoforge_version("no loader path here").is_none());
}

fn version(numbers: &str, loaders: &[&str], games: &[&str], files: Vec<VersionFile>) -> Version {
    Version {
        game_versions: games.iter().map(|s| s.to_string()).collect(),
        loaders: loaders.iter().map(|s| s.to_string()).collect(),
        version_number: numbers.to_string(),
        files,
    }
}

fn file(name: &str, primary: bool) -> VersionFile {
    VersionFile {
        hashes: Hashes { sha512: "f00d".to_string(), sha1: "beef".to_string() },
        url: format!("https://example.invalid/{name}"),
        filename: name.to_string(),
        size: 4,
        primary,
    }
}

#[test]
fn version_selection_matches_loader_game_and_version() {
    let m = Mod {
        name: "create".to_string(),
        slug: "create".to_string(),
        version: "6.0.4".to_string(),
        mandatory: true,
        client_side_only: false,
    };
    let versions = vec![
        version("6.0.4+fabric", &["fabric"], &["1.21.1"], vec![]),
        version("6.0.3", &["neoforge"], &["1.21.1"], vec![]),
        version("6.0.4", &["neoforge"], &["1.21.1"], vec![]),
    ];
    assert_eq!(select_version(&versions, &m), Some(2));

    let client = Mod { client_side_only: true, ..copy(&m) };
    // a client-side mod takes the first fitting build whatever its number
    assert_eq!(select_version(&versions, &client), Some(1));

    let off_game = vec![version("6.0.4", &["neoforge"], &["1.20.1"], vec![])];
    assert_eq!(select_version(&off_game, &m), None);
}

fn copy(m: &Mod) -> Mod {
    Mod {
        name: m.name.clone(),
        slug: m.slug.clone(),
        version: m.version.clone(),
        mandatory: m.mandatory,
        client_side_only: m.client_side_only,
    }
}

#[test]
fn primary_file_wins_else_first() {
    let files = vec![file("a.jar", false), file("b.jar", true), file("c.jar", true)];
    assert_eq!(primary_file_index(&files), 1);
    let none_primary = vec![file("a.jar", false), file("b.jar", false)];
    assert_eq!(primary_file_index(&none_primary), 0);
}

#[test]
fn project_entry_from_chosen_file() {
    let m = Mod {
        name: "create".to_string(),
        slug: "create".to_string(),
        version: "6.0.4".to_string(),
        mandatory: true,
        client_side_only: false,
    };
    let f = file("create-6.0.4.jar", true);
    let p = build_project(&m, &f);
    assert_eq!(p.path, "mods/create-6.0.4.jar");
    assert_eq!(p.env.client, "required");
    assert_eq!(p.downloads.len(), 1);
    assert_eq!(p.file_size, 4);
    assert_eq!(p.version, "6.0.4");
}

#[test]
fn cache_freshness_policy() {
    // pinned versions stay fresh only on an exact match
    assert!(cache_entry_fresh("6.0.4", "6.0.4", 0, 1_000_000));
    assert!(!cache_entry_fresh("6.0.5", "6.0.4", 0, 1_000_000));
    // a cached `latest` answer goes stale after 72 hours
    assert!(cache_entry_fresh("latest", "latest", 1_000, 1_000 + 259_199));
    assert!(!cache_entry_fresh("latest", "latest", 1_000, 1_000 + 259_200));
    // a cache stamp from the future is never fresh
    assert!(!cache_entry_fresh("latest", "latest", 2_000, 1_000));
}

#[test]
fn version_id_is_dotted_date() {
    let d = Date { year: 2024, month: 3, day: 7 };
    assert_eq!(version_id(&d), "2024.03.07");
    let d2 = Date { year: 987, month: 12, day: 31 };
    assert_eq!(version_id(&d2), "0987.12.31");
}

#[test]
fn modpack_manifest_constants() {
    let pack = ModPack::new(Vec::new(), "21.1.77".to_string(), "2024.03.07".to_string());
    assert_eq!(pack.game, "minecraft");
    assert_eq!(pack.format_version, 1);
    assert_eq!(pack.name, "large biomes pack");
    assert_eq!(pack.summary, "the modpack for the large biomes server");
    assert_eq!(pack.dependencies.minecraft, "1.21.1");
    assert_eq!(pack.dependencies.neoforge, "21.1.77");
    assert_eq!(pack.version_id, "2024.03.07");
    assert_eq!(pack.files.len(), 0);
}

#[test]
fn mod_lists_are_partitioned_and_sorted() {
    let names = vec![
        "voicechat-2.6.3.jar".to_string(),
        "no-chat-reports-2.12.0.jar".to_string(),
        "create-6.0.4.jar".to_string(),
        "DistantHorizons-2.3.4.jar".to_string(),
    ];
    let server = server_mods(&names);
    let client = recommended_mods();
    let mods = get_mods(server, client, "21.1.77".to_string());
    assert_eq!(mods.neoforge_version, "21.1.77");
    let req: Vec<&str> = mods.required.iter().map(|m| m.name.as_str()).collect();
    assert_eq!(req, vec!["create", "simple-voice-chat"]);
    let rec: Vec<&str> = mods.recommended.iter().map(|m| m.name.as_str()).collect();
    assert_eq!(rec, vec!["DistantHorizons", "no-chat-reports"]);
    assert_eq!(mods.client_side.len(), 9);
}
