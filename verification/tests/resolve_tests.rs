use storytime_launcher::listing::{find_record, DirEntry, DirRecord, EntryKind};
use storytime_launcher::resolve::{ancestors, resolve_root};

fn rd(name: &str) -> DirEntry {
    DirEntry { name: name.to_string(), kind: EntryKind::Dir }
}

fn rec(path: &str, entries: Vec<DirEntry>) -> DirRecord {
    DirRecord { path: path.to_string(), entries }
}

fn records() -> Vec<DirRecord> {
    vec![
        rec("/", vec![rd("home")]),
        rec("/home", vec![rd("u")]),
        rec("/home/u", vec![rd("games")]),
        rec("/home/u/games", vec![rd("pack")]),
        rec("/home/u/games/pack", vec![rd("mods"), rd("data")]),
        rec("/home/u/games/pack/mods", vec![]),
        rec("/home/u/games/pack/data", vec![rd("x")]),
        rec("/home/u/games/pack/data/x", vec![]),
        rec("/home/u/docs", vec![rd("a")]),
        rec("/home/u/docs/a", vec![]),
    ]
}

#[test]
fn a_directory_inside_an_installation_resolves_to_its_root() {
    let r = records();
    assert_eq!(resolve_root("/home/u/games/pack/mods", &r), Some("/home/u/games/pack".to_string()));
    assert_eq!(resolve_root("/home/u/games/pack/data/x", &r), Some("/home/u/games/pack".to_string()));
}

#[test]
fn a_matching_directory_resolves_to_itself() {
    let r = records();
    assert_eq!(resolve_root("/home/u/games/pack", &r), Some("/home/u/games/pack".to_string()));
    assert_eq!(resolve_root("/home/u/games/pack/", &r), Some("/home/u/games/pack".to_string()));
}

#[test]
fn resolution_ends_with_none_at_the_root() {
    let r = records();
    assert_eq!(resolve_root("/home/u/docs/a", &r), None);
    assert_eq!(resolve_root("/", &r), None);
    assert_eq!(resolve_root("/nowhere/at/all", &r), None);
}

#[test]
fn resolving_twice_gives_the_same_root() {
    let r = records();
    for p in ["/home/u/games/pack/mods", "/home/u/games/pack/data/x", "/home/u/games/pack"] {
        let once = resolve_root(p, &r).unwrap();
        assert_eq!(resolve_root(&once, &r), Some(once.clone()));
    }
}

#[test]
fn the_nearest_match_wins() {
    let mut r = records();
    r.push(rec("/home/u/games/pack/data/mc", vec![]));
    r.push(rec("/home/u/games/pack/data/mc/inner", vec![]));
    assert_eq!(
        resolve_root("/home/u/games/pack/data/mc/inner", &r),
        Some("/home/u/games/pack/data/mc".to_string())
    );
}

#[test]
fn a_directory_without_a_record_is_no_match() {
    let r = vec![rec("/a", vec![rd("mods")])];
    assert_eq!(resolve_root("/a/minecraft", &r), Some("/a".to_string()));
}

#[test]
fn ancestors_lists_the_directory_and_all_above_it() {
    assert_eq!(
        ancestors("/home/u//x/"),
        vec!["/home/u/x".to_string(), "/home/u".to_string(), "/home".to_string(), "/".to_string()]
    );
    assert_eq!(ancestors("a/b"), vec!["a/b".to_string(), "a".to_string(), ".".to_string()]);
    assert_eq!(ancestors("/"), vec!["/".to_string()]);
}

#[test]
fn find_record_takes_the_first_record_with_the_path() {
    let r = vec![rec("/a", vec![rd("one")]), rec("/b", vec![]), rec("/a", vec![rd("two")])];
    assert_eq!(find_record(&r, "/a").unwrap()[0].name, "one");
    assert!(find_record(&r, "/b").unwrap().is_empty());
    assert!(find_record(&r, "/c").is_none());
    assert!(find_record(&r, "/a/").is_none());
}
