use storytime_launcher::registry::{
    clean_query, compatible_versions, file_name_from_url, hit_for_choice, hit_label,
    is_compatible, loader_options, search_url, summarize, trim, version_for_choice,
    version_label, versions_url, ModFile, ModHit, ModSummary, ModVersion, VersionEntry,
};

fn some(s: &str) -> Option<String> {
    Some(s.to_string())
}

fn list(v: &[&str]) -> Option<Vec<Option<String>>> {
    Some(v.iter().map(|s| some(s)).collect())
}

fn entry(name: &str, games: &[&str], loaders: &[&str], file: &str) -> VersionEntry {
    VersionEntry {
        name: some(name),
        game_versions: list(games),
        loaders: list(loaders),
        files: Some(vec![ModFile {
            filename: some(file),
            url: Some(format!("https://cdn.example/{}", file)),
        }]),
    }
}

#[test]
fn trim_agrees_with_the_standard_library() {
    for s in [
        "  sodium  ",
        "sodium",
        "",
        "   ",
        "\t\n iris \r\n",
        "\u{a0}fabric api\u{3000}",
        " a b ",
        "\u{2003}x\u{205f}",
        "\u{200b}x",
        "\u{85}\u{1680}y\u{2028}\u{2029}\u{202f}",
    ] {
        assert_eq!(trim(s), s.trim());
    }
}

#[test]
fn an_empty_query_is_no_query() {
    assert_eq!(clean_query("  sodium "), some("sodium"));
    assert_eq!(clean_query(""), None);
    assert_eq!(clean_query(" \t "), None);
}

#[test]
fn the_addresses_of_the_registry() {
    assert_eq!(search_url("sodium"), "https://api.modrinth.com/v2/search?query=sodium&limit=20");
    assert_eq!(versions_url("AANobbMI"), "https://api.modrinth.com/v2/project/AANobbMI/version");
}

#[test]
fn a_hit_is_shown_with_defaults_and_a_short_description() {
    let long = "x".repeat(75);
    let hit = ModHit { title: some("Sodium"), description: Some(long), project_id: some("AANobbMI") };
    let s = summarize(&hit);
    assert_eq!(s.title, "Sodium");
    assert_eq!(s.description, format!("{}...", "x".repeat(60)));
    assert_eq!(s.project_id, "AANobbMI");
    let bare = summarize(&ModHit { title: None, description: None, project_id: None });
    assert_eq!(bare.title, "Без названия");
    assert_eq!(bare.description, "Без описания...");
    assert_eq!(bare.project_id, "");
}

#[test]
fn descriptions_are_cut_at_sixty_characters() {
    for n in [0usize, 1, 59, 60, 61, 200] {
        let text: String = "я".repeat(n);
        let s = summarize(&ModHit { title: None, description: Some(text.clone()), project_id: None });
        let expected: String = text.chars().take(60).collect::<String>() + "...";
        assert_eq!(s.description, expected);
    }
}

#[test]
fn hit_entries_lead_back_to_their_hit() {
    let hits = vec![
        ModSummary { title: "A".into(), description: "one...".into(), project_id: "1".into() },
        ModSummary { title: "B".into(), description: "two...".into(), project_id: "2".into() },
        ModSummary { title: "A".into(), description: "one...".into(), project_id: "3".into() },
    ];
    assert_eq!(hit_label(&hits[1]), "B - two...");
    assert_eq!(hit_for_choice(&hits, "B - two..."), Some(1));
    assert_eq!(hit_for_choice(&hits, "A - one..."), Some(0));
    assert_eq!(hit_for_choice(&hits, "C - three..."), None);
}

#[test]
fn only_versions_for_the_game_and_the_loader_fit() {
    let e = entry("1.0", &["1.20.1", "1.20.2"], &["fabric", "quilt"], "a.jar");
    assert!(is_compatible(&e, "1.20.1", "fabric"));
    assert!(is_compatible(&e, "1.20.2", "quilt"));
    assert!(!is_compatible(&e, "1.19", "fabric"));
    assert!(!is_compatible(&e, "1.20.1", "forge"));
    let mut no_files = entry("1.0", &["1.20.1"], &["fabric"], "a.jar");
    no_files.files = Some(vec![]);
    assert!(!is_compatible(&no_files, "1.20.1", "fabric"));
    no_files.files = None;
    assert!(!is_compatible(&no_files, "1.20.1", "fabric"));
    let mut no_list = entry("1.0", &["1.20.1"], &["fabric"], "a.jar");
    no_list.loaders = None;
    assert!(!is_compatible(&no_list, "1.20.1", "fabric"));
    let mut odd = entry("1.0", &[], &["fabric"], "a.jar");
    odd.game_versions = Some(vec![None, some("1.20.1")]);
    assert!(is_compatible(&odd, "1.20.1", "fabric"));
}

#[test]
fn compatible_versions_come_by_descending_name() {
    let entries = vec![
        entry("1.2.0", &["1.20.1"], &["fabric"], "m-1.2.0.jar"),
        entry("1.10.0", &["1.20.1"], &["fabric"], "m-1.10.0.jar"),
        entry("2.0.0", &["1.19"], &["fabric"], "m-2.0.0.jar"),
        entry("1.3.0", &["1.20.1"], &["forge"], "m-1.3.0.jar"),
        entry("1.9.0", &["1.20.1"], &["fabric"], "m-1.9.0.jar"),
    ];
    let out = compatible_versions(&entries, "1.20.1", "fabric");
    let names: Vec<&str> = out.iter().map(|v| v.name.as_str()).collect();
    assert_eq!(names, vec!["1.9.0", "1.2.0", "1.10.0"]);
    assert_eq!(out[0].filename, "m-1.9.0.jar");
    assert_eq!(out[0].url, "https://cdn.example/m-1.9.0.jar");
}

#[test]
fn versions_of_the_same_name_keep_their_order() {
    let entries = vec![
        entry("same", &["1.20.1"], &["fabric"], "first.jar"),
        entry("zzz", &["1.20.1"], &["fabric"], "z.jar"),
        entry("same", &["1.20.1"], &["fabric"], "second.jar"),
        entry("same", &["1.20.1"], &["fabric"], "third.jar"),
    ];
    let out = compatible_versions(&entries, "1.20.1", "fabric");
    let files: Vec<&str> = out.iter().map(|v| v.filename.as_str()).collect();
    assert_eq!(files, vec!["z.jar", "first.jar", "second.jar", "third.jar"]);
}

#[test]
fn compatible_versions_agree_with_a_stable_sort() {
    let names = ["b", "a", "c", "a", "b", "", "ab", "c"];
    let entries: Vec<VersionEntry> = names
        .iter()
        .enumerate()
        .map(|(i, n)| entry(n, &["1"], &["l"], &format!("{}.jar", i)))
        .collect();
    let out = compatible_versions(&entries, "1", "l");
    let mut expected: Vec<(String, String)> =
        names.iter().enumerate().map(|(i, n)| (n.to_string(), format!("{}.jar", i))).collect();
    expected.sort_by(|a, b| b.0.cmp(&a.0));
    let got: Vec<(String, String)> =
        out.iter().map(|v| (v.name.clone(), v.filename.clone())).collect();
    assert_eq!(got, expected);
}

#[test]
fn missing_fields_of_a_version_get_defaults() {
    let e = VersionEntry {
        name: None,
        game_versions: list(&["1.20.1"]),
        loaders: list(&["fabric"]),
        files: Some(vec![
            ModFile { filename: None, url: None },
            ModFile { filename: some("other.jar"), url: some("u") },
        ]),
    };
    let out = compatible_versions(&vec![e], "1.20.1", "fabric");
    assert_eq!(out.len(), 1);
    assert_eq!(out[0].name, "Без названия");
    assert_eq!(out[0].filename, "mod.jar");
    assert_eq!(out[0].url, "");
}

#[test]
fn version_entries_lead_back_to_their_version() {
    let list = vec![
        ModVersion { name: "1.0".into(), filename: "a.jar".into(), url: "u1".into() },
        ModVersion { name: "2.0".into(), filename: "b.jar".into(), url: "u2".into() },
    ];
    assert_eq!(version_label(&list[0]), "1.0 (a.jar)");
    assert_eq!(version_for_choice(&list, "2.0 (b.jar)"), Some(1));
    assert_eq!(version_for_choice(&list, "2.0"), None);
}

#[test]
fn the_file_name_is_the_end_of_the_address() {
    assert_eq!(file_name_from_url("https://cdn.modrinth.com/data/x/sodium-0.5.jar"), "sodium-0.5.jar");
    assert_eq!(file_name_from_url("sodium.jar"), "sodium.jar");
    assert_eq!(file_name_from_url("https://cdn.modrinth.com/data/"), "");
    assert_eq!(file_name_from_url(""), "");
    for url in ["a/b/c", "/", "a//", "x"] {
        assert_eq!(file_name_from_url(url), url.split('/').last().unwrap_or("mod.jar"));
    }
}

#[test]
fn the_loaders_on_offer() {
    assert_eq!(loader_options(), vec!["fabric", "forge", "quilt", "neoforge"]);
}
