use storytime_launcher::classifier::{
    classify, classify_lowered, flavor, has_child_named, has_marker_child, is_marker_name,
    is_valid_minecraft_folder, matches_name, score, Flavor,
};
use storytime_launcher::listing::{DirEntry, EntryKind};

fn d(name: &str) -> DirEntry {
    DirEntry { name: name.to_string(), kind: EntryKind::Dir }
}

fn f(name: &str) -> DirEntry {
    DirEntry { name: name.to_string(), kind: EntryKind::File }
}

#[test]
fn marker_child_makes_a_match_whatever_the_name() {
    for marker in ["mods", "saves"] {
        let entries = vec![d("photos"), d(marker)];
        let c = classify("/home/u/holiday", Some(&entries)).unwrap();
        assert!(c.is_match);
        assert_eq!(c.flavor, Flavor::Unknown);
        assert!(is_valid_minecraft_folder("/home/u/holiday", &entries));
        assert!(has_marker_child(&entries));
    }
    let entries = vec![f("options.txt")];
    assert!(classify("/srv/x", Some(&entries)).unwrap().is_match);
    assert!(classify("/", Some(&entries)).unwrap().is_match);
}

#[test]
fn every_marker_name_counts() {
    for name in [
        "saves", "resourcepacks", "shaderpacks", "mods", "versions", "assets", "logs", "config",
        "screenshots", "options.txt", "launcher_profiles.json",
    ] {
        assert!(is_marker_name(name));
        assert!(has_marker_child(&vec![f("readme.md"), d(name)]));
        assert!(is_valid_minecraft_folder("/srv/data", &vec![f("readme.md"), d(name)]));
    }
    for name in ["Mods", "mod", "options", "saves2", "", "launcher_profiles"] {
        assert!(!is_marker_name(name));
    }
}

#[test]
fn a_directory_without_markers_gives_no_content_signal() {
    assert!(!has_marker_child(&vec![]));
    assert!(!has_marker_child(&vec![d("src"), f("Cargo.toml")]));
}

#[test]
fn validity_goes_by_name_or_content() {
    let empty: Vec<DirEntry> = vec![];
    assert!(is_valid_minecraft_folder("/t/MC", &empty));
    assert!(is_valid_minecraft_folder("/t/.minecraft", &empty));
    assert!(is_valid_minecraft_folder("/t/Instance-1", &empty));
    assert!(is_valid_minecraft_folder("/t/plain", &vec![f("options.txt")]));
    assert!(is_valid_minecraft_folder("/t/MC", &vec![d("saves")]));
    assert!(!is_valid_minecraft_folder("/t/plain", &empty));
    assert!(!is_valid_minecraft_folder("/t/plain", &vec![d("src"), f("Cargo.toml")]));
    assert!(!is_valid_minecraft_folder("/mc/plain", &empty));
}

#[test]
fn the_name_alone_is_enough() {
    let empty: Vec<DirEntry> = vec![];
    assert!(classify("/home/u/MC", Some(&empty)).unwrap().is_match);
    assert!(classify("/home/u/.minecraft", Some(&empty)).unwrap().is_match);
    assert!(classify("/games/My Instance 3", Some(&empty)).unwrap().is_match);
    assert!(classify("/games/Minecraft Server", Some(&empty)).unwrap().is_match);
    assert!(!classify("/home/u/documents", Some(&empty)).unwrap().is_match);
    assert!(!classify("/", Some(&empty)).unwrap().is_match);
}

#[test]
fn the_name_is_lower_cased_before_it_is_read() {
    let empty: Vec<DirEntry> = vec![];
    assert!(classify("/opt/MINECRAFT", Some(&empty)).unwrap().is_match);
    assert!(classify("/opt/SomeINSTANCE", Some(&empty)).unwrap().is_match);
    assert!(!matches_name("MINECRAFT"));
    assert!(matches_name("minecraft"));
}

#[test]
fn only_the_base_name_gives_the_name_signal() {
    let empty: Vec<DirEntry> = vec![];
    assert!(!classify("/home/u/.minecraft/data", Some(&empty)).unwrap().is_match);
    assert!(!classify("/mc/stuff", Some(&empty)).unwrap().is_match);
}

#[test]
fn an_unlisted_directory_gets_no_verdict() {
    assert_eq!(classify("/home/u/.minecraft", None), None);
}

#[test]
fn name_signal_tokens() {
    assert!(matches_name("minecraft"));
    assert!(matches_name(".minecraft"));
    assert!(matches_name("my-instance"));
    assert!(matches_name("mc"));
    assert!(matches_name("gamcenter"));
    assert!(!matches_name("games"));
    assert!(!matches_name(""));
}

#[test]
fn classify_lowered_takes_the_name_as_given() {
    let empty: Vec<DirEntry> = vec![];
    let c = classify_lowered("/x/Whatever", Some("mc"), &empty);
    assert!(c.is_match);
    let c = classify_lowered("/x/mc", None, &empty);
    assert!(!c.is_match);
    let c = classify_lowered("/x/y", Some("y"), &vec![d("logs")]);
    assert!(c.is_match);
}

#[test]
fn flavor_goes_by_brand_names_in_the_path() {
    assert_eq!(flavor("/home/u/.minecraft"), Flavor::Vanilla);
    assert_eq!(flavor("/home/u/curseforge/minecraft/Instances/a"), Flavor::CurseForge);
    assert_eq!(flavor("/home/u/.local/share/multimc/instances/a/.minecraft"), Flavor::PrismOrMultiMC);
    assert_eq!(flavor("/home/u/.local/share/prismlauncher/instances/a"), Flavor::PrismOrMultiMC);
    assert_eq!(flavor("/home/u/.tlauncher/x"), Flavor::TLauncher);
    assert_eq!(flavor("/home/u/.atlauncher/instances/x"), Flavor::ATLauncher);
    assert_eq!(flavor("/home/u/gdlauncher_next/instances/x"), Flavor::GDLauncher);
    assert_eq!(flavor("/home/u/games/MC"), Flavor::Unknown);
    assert_eq!(flavor("/home/u/CurseForge/x"), Flavor::Unknown);
}

#[test]
fn score_follows_the_table() {
    let none: Vec<DirEntry> = vec![];
    let mods = vec![d("mods")];
    assert_eq!(score("/home/u/.minecraft", &none), 100);
    assert_eq!(score("/home/u/prismlauncher/instances/a/.minecraft", &none), 100);
    assert_eq!(score("/home/u/prismlauncher/instances/a", &none), 90);
    assert_eq!(score("/home/u/multimc/a", &mods), 90);
    assert_eq!(score("/home/u/curseforge/minecraft/Instances/a", &none), 80);
    assert_eq!(score("/home/u/.tlauncher/a", &none), 70);
    assert_eq!(score("/home/u/gdlauncher/instances/a", &none), 60);
    assert_eq!(score("/home/u/games/instances/a", &mods), 50);
    assert_eq!(score("/home/u/games/a", &mods), 40);
    assert_eq!(score("/home/u/games/a", &none), 10);
    assert_eq!(score("/home/u/games/a", &vec![d("saves")]), 10);
}

#[test]
fn has_child_named_looks_at_names_only() {
    let entries = vec![d("a"), f("mods")];
    assert!(has_child_named(&entries, "mods"));
    assert!(has_child_named(&entries, "a"));
    assert!(!has_child_named(&entries, "b"));
    assert!(!has_child_named(&vec![], "mods"));
}
