use storytime_launcher::classifier::Flavor;
use storytime_launcher::discovery::{candidate_for, candidate_here, discover};
use storytime_launcher::listing::{DirEntry, DirRecord, EntryKind};
use storytime_launcher::traverse::{Traverser, Visit, WalkMode};

fn dd(name: &str) -> DirEntry {
    DirEntry { name: name.to_string(), kind: EntryKind::Dir }
}

fn drec(path: &str, names: &[&str]) -> DirRecord {
    DirRecord { path: path.to_string(), entries: names.iter().map(|n| dd(n)).collect() }
}

fn world() -> Vec<DirRecord> {
    vec![
        drec("/home/u", &[".minecraft", "games", "curseforge"]),
        drec("/home/u/.minecraft", &["mods", "saves"]),
        drec("/home/u/games", &["pack", "empty"]),
        drec("/home/u/games/pack", &["mods"]),
        drec("/home/u/games/pack/mods", &[]),
        drec("/home/u/games/empty", &[]),
        drec("/home/u/curseforge", &["minecraft"]),
        drec("/home/u/curseforge/minecraft", &["Instances"]),
        drec("/home/u/curseforge/minecraft/Instances", &["Big"]),
        drec("/home/u/curseforge/minecraft/Instances/Big", &["mods", "config"]),
    ]
}

#[test]
fn a_walk_and_the_standard_places_give_one_ranked_list() {
    let records = world();
    let mut walker = Traverser::new("/home/u", 8, WalkMode::Heuristic);
    while let Some(dir) = walker.next_dir() {
        let listing = records.iter().find(|r| r.path == dir).map(|r| &r.entries);
        walker.visit(listing);
    }
    let finds = walker.finish();
    let standard = vec!["/home/u/.minecraft".to_string(), "/home/u/.config/.minecraft".to_string()];
    let list = discover(&finds, &standard, &records);
    let shown: Vec<(String, u32, Flavor)> =
        list.iter().map(|c| (c.path.clone(), c.score, c.flavor)).collect();
    assert_eq!(
        shown,
        vec![
            ("/home/u/.minecraft".to_string(), 100, Flavor::Vanilla),
            ("/home/u/curseforge/minecraft".to_string(), 80, Flavor::CurseForge),
            ("/home/u/curseforge/minecraft/Instances".to_string(), 80, Flavor::CurseForge),
            ("/home/u/curseforge/minecraft/Instances/Big".to_string(), 80, Flavor::CurseForge),
            ("/home/u/games/pack".to_string(), 40, Flavor::Unknown),
        ]
    );
}

#[test]
fn a_find_inside_an_installation_is_listed_under_its_root() {
    let records = world();
    let finds = vec![
        Visit { path: "/home/u/games/pack/mods".to_string(), depth: 3 },
        Visit { path: "/home/u/games/pack".to_string(), depth: 2 },
    ];
    let list = discover(&finds, &vec![], &records);
    assert_eq!(list.len(), 1);
    assert_eq!(list[0].path, "/home/u/games/pack");
}

#[test]
fn a_find_without_an_installation_above_it_is_dropped() {
    let records = world();
    let finds = vec![Visit { path: "/home/u/games/empty".to_string(), depth: 2 }];
    assert!(discover(&finds, &vec![], &records).is_empty());
}

#[test]
fn a_standard_place_that_is_missing_is_left_out() {
    let records = world();
    let list = discover(&vec![], &vec!["/home/u/.config/.minecraft".to_string()], &records);
    assert!(list.is_empty());
}

#[test]
fn candidate_here_looks_at_the_directory_itself() {
    let records = world();
    assert_eq!(candidate_here(&records, "/home/u/.minecraft/").unwrap().score, 100);
    assert!(candidate_here(&records, "/home/u/games/pack/mods").is_none());
    assert!(candidate_here(&records, "/not/recorded").is_none());
}

#[test]
fn candidate_for_looks_upward() {
    let records = world();
    let c = candidate_for(&records, "/home/u/games/pack/mods").unwrap();
    assert_eq!(c.path, "/home/u/games/pack");
    assert_eq!(c.score, 40);
    assert!(candidate_for(&records, "/home/u/games/empty").is_none());
}

#[test]
fn the_order_of_the_finds_does_not_change_the_list() {
    let records = world();
    let paths = [
        "/home/u/games/pack/mods",
        "/home/u/.minecraft",
        "/home/u/curseforge/minecraft/Instances/Big",
        "/home/u/games/pack",
        "/home/u/curseforge/minecraft",
    ];
    let run = |order: &[usize]| -> Vec<String> {
        let finds: Vec<Visit> =
            order.iter().map(|i| Visit { path: paths[*i].to_string(), depth: 1 }).collect();
        discover(&finds, &vec!["/home/u/.minecraft".to_string()], &records)
            .iter()
            .map(|c| c.path.clone())
            .collect()
    };
    let first = run(&[0, 1, 2, 3, 4]);
    assert_eq!(first.len(), 4);
    for order in [[4, 3, 2, 1, 0], [2, 4, 0, 3, 1], [3, 0, 1, 4, 2]] {
        assert_eq!(run(&order), first);
    }
}
