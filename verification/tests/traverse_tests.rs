use storytime_launcher::listing::{DirEntry, DirRecord, EntryKind};
use storytime_launcher::traverse::{should_skip, traverse, Traverser, Visit, WalkMode};

fn td(name: &str) -> DirEntry {
    DirEntry { name: name.to_string(), kind: EntryKind::Dir }
}

fn tf(name: &str) -> DirEntry {
    DirEntry { name: name.to_string(), kind: EntryKind::File }
}

/// A small tree in memory: the entries of each directory that can be listed.
fn tree() -> Vec<(&'static str, Vec<DirEntry>)> {
    vec![
        ("/h", vec![td("games"), td(".git"), td("node_modules"), td("Target"), tf("notes.txt"), td("locked")]),
        ("/h/games", vec![td("MC"), td("pack"), td(".hidden")]),
        ("/h/games/MC", vec![]),
        ("/h/games/pack", vec![td("mods"), td("deep")]),
        ("/h/games/pack/mods", vec![tf("a.jar")]),
        ("/h/games/pack/deep", vec![td("deeper")]),
        ("/h/games/pack/deep/deeper", vec![td("saves")]),
        ("/h/games/pack/deep/deeper/saves", vec![]),
        ("/h/games/.hidden", vec![td("mods")]),
        ("/h/.git", vec![td("mods"), td("saves")]),
        ("/h/node_modules", vec![td("mods")]),
        ("/h/Target", vec![td("mods")]),
    ]
}

fn listing_of<'a>(t: &'a [(&'static str, Vec<DirEntry>)], path: &str) -> Option<&'a Vec<DirEntry>> {
    t.iter().find(|(p, _)| *p == path).map(|(_, e)| e)
}

fn walk(root: &str, max_depth: usize, mode: WalkMode) -> (Vec<Visit>, Vec<String>) {
    let t = tree();
    let mut walker = Traverser::new(root, max_depth, mode);
    let mut listed = Vec::new();
    while let Some(dir) = walker.next_dir() {
        listed.push(dir.clone());
        walker.visit(listing_of(&t, &dir));
    }
    assert!(walker.is_done());
    (walker.finish(), listed)
}

fn paths(hits: &[Visit]) -> Vec<String> {
    let mut v: Vec<String> = hits.iter().map(|h| h.path.clone()).collect();
    v.sort();
    v
}

#[test]
fn the_walk_reports_what_the_classifier_accepts() {
    let (hits, _) = walk("/h", 8, WalkMode::Heuristic);
    assert_eq!(
        paths(&hits),
        vec![
            "/h/games/MC".to_string(),
            "/h/games/pack".to_string(),
            "/h/games/pack/deep/deeper".to_string(),
        ]
    );
}

#[test]
fn pruned_directories_are_never_listed() {
    let (hits, listed) = walk("/h", 8, WalkMode::Heuristic);
    for p in &listed {
        assert!(!p.contains(".git"));
        assert!(!p.contains("node_modules"));
        assert!(!p.contains(".hidden"));
        assert!(!p.contains("Target"));
    }
    for h in &hits {
        assert!(!h.path.contains("/.git"));
        assert!(!h.path.contains("node_modules"));
    }
}

#[test]
fn nothing_below_the_depth_limit_is_reported() {
    for limit in 0..6 {
        let (hits, listed) = walk("/h", limit, WalkMode::Heuristic);
        for h in &hits {
            assert!(h.depth <= limit);
        }
        for p in &listed {
            let depth = p.matches('/').count() - 1;
            assert!(depth <= limit);
        }
    }
}

#[test]
fn a_directory_at_the_limit_is_classified_but_not_entered() {
    let (hits, listed) = walk("/h", 2, WalkMode::Heuristic);
    assert_eq!(paths(&hits), vec!["/h/games/MC".to_string(), "/h/games/pack".to_string()]);
    assert!(listed.contains(&"/h/games/pack".to_string()));
    assert!(!listed.contains(&"/h/games/pack/mods".to_string()));
}

#[test]
fn depth_zero_looks_at_the_root_only() {
    let (hits, listed) = walk("/h/games/pack", 0, WalkMode::Heuristic);
    assert_eq!(listed, vec!["/h/games/pack".to_string()]);
    assert_eq!(hits.len(), 1);
    assert_eq!(hits[0].depth, 0);
}

#[test]
fn an_unreadable_directory_is_passed_over() {
    let (hits, listed) = walk("/h", 8, WalkMode::Heuristic);
    assert!(listed.contains(&"/h/locked".to_string()));
    assert!(!paths(&hits).contains(&"/h/locked".to_string()));
}

#[test]
fn hits_carry_their_depth() {
    let (hits, _) = walk("/h", 8, WalkMode::Heuristic);
    for h in &hits {
        assert_eq!(h.depth, h.path.matches('/').count() - 1);
    }
}

#[test]
fn should_skip_knows_the_skip_list_and_hidden_names() {
    for name in ["node_modules", ".git", ".idea", "target", "build", "__pycache__"] {
        assert!(should_skip(name, name));
    }
    assert!(should_skip(".cache", ".cache"));
    assert!(should_skip("Build", "build"));
    assert!(!should_skip("Build", "Build"));
    assert!(!should_skip("mods", "mods"));
    assert!(!should_skip("", ""));
}

#[test]
fn files_are_never_entered() {
    let (_, listed) = walk("/h", 8, WalkMode::Heuristic);
    assert!(!listed.contains(&"/h/notes.txt".to_string()));
}

#[test]
fn visit_without_next_dir_changes_nothing() {
    let mut walker = Traverser::new("/h", 3, WalkMode::Heuristic);
    walker.visit(Some(&vec![td("mods")]));
    assert!(walker.hits().is_empty());
    assert!(!walker.is_done());
    assert_eq!(walker.next_dir(), Some("/h".to_string()));
}

#[test]
fn next_dir_on_a_finished_walk_gives_none() {
    let mut walker = Traverser::new("/h", 0, WalkMode::Heuristic);
    assert_eq!(walker.next_dir(), Some("/h".to_string()));
    walker.visit(None);
    assert_eq!(walker.next_dir(), None);
    assert!(walker.is_done());
}

#[test]
fn several_roots_are_all_walked() {
    let t = tree();
    let roots = vec!["/h/games/MC".to_string(), "/h/games/pack".to_string()];
    let mut walker = Traverser::with_roots(&roots, 0, WalkMode::Heuristic);
    let mut listed = Vec::new();
    while let Some(dir) = walker.next_dir() {
        listed.push(dir.clone());
        walker.visit(listing_of(&t, &dir));
    }
    listed.sort();
    assert_eq!(listed, roots);
    assert_eq!(walker.hits().len(), 2);
}

#[test]
fn exact_name_mode_collects_dot_minecraft_only() {
    let t: Vec<(&'static str, Vec<DirEntry>)> = vec![
        ("/u", vec![td(".minecraft"), td(".config"), td("mc")]),
        ("/u/.minecraft", vec![td("mods")]),
        ("/u/.config", vec![td(".minecraft")]),
        ("/u/.config/.minecraft", vec![]),
        ("/u/mc", vec![td("saves")]),
    ];
    let mut walker = Traverser::new("/u", 3, WalkMode::ExactName);
    while let Some(dir) = walker.next_dir() {
        walker.visit(listing_of(&t, &dir));
    }
    let hits = walker.finish();
    assert_eq!(
        paths(&hits),
        vec!["/u/.config/.minecraft".to_string(), "/u/.minecraft".to_string()]
    );
}

#[test]
fn entries_without_a_proper_name_are_not_entered() {
    let mut walker = Traverser::new("/r", 4, WalkMode::ExactName);
    assert_eq!(walker.next_dir(), Some("/r".to_string()));
    walker.visit(Some(&vec![td("a/b"), td("."), td(""), td(".."), td("ok")]));
    let mut queued = Vec::new();
    while let Some(dir) = walker.next_dir() {
        queued.push(dir);
        walker.visit(None);
    }
    queued.sort();
    assert_eq!(queued, vec!["/r/..".to_string(), "/r/ok".to_string()]);
}

#[test]
fn no_directory_below_a_root_bears_a_pruned_name() {
    let (_, listed) = walk("/h", 8, WalkMode::Heuristic);
    for p in listed.iter().filter(|p| *p != "/h") {
        let name = p.rsplit('/').next().unwrap();
        assert!(!should_skip(name, &name.to_lowercase()));
    }
}

fn recorded() -> Vec<DirRecord> {
    tree()
        .into_iter()
        .map(|(path, entries)| DirRecord { path: path.to_string(), entries })
        .collect()
}

#[test]
fn a_walk_over_records_reports_in_listing_order() {
    let hits = traverse("/h", 8, WalkMode::Heuristic, &recorded());
    let shown: Vec<(String, usize)> = hits.iter().map(|h| (h.path.clone(), h.depth)).collect();
    assert_eq!(
        shown,
        vec![
            ("/h/games/MC".to_string(), 2),
            ("/h/games/pack".to_string(), 2),
            ("/h/games/pack/deep/deeper".to_string(), 4),
        ]
    );
}

#[test]
fn a_walk_over_records_agrees_with_the_machine() {
    for mode in [WalkMode::Heuristic, WalkMode::ExactName] {
        for limit in 0..6 {
            for root in ["/h", "/h/games", "/h/games/pack", "/h/.git", "/nowhere"] {
                let (by_machine, _) = walk(root, limit, mode);
                let by_records = traverse(root, limit, mode, &recorded());
                assert_eq!(paths(&by_machine), paths(&by_records));
                for h in &by_records {
                    assert!(h.depth <= limit);
                }
            }
        }
    }
}

#[test]
fn a_pruned_root_is_still_looked_at() {
    let hits = traverse("/h/.git", 3, WalkMode::Heuristic, &recorded());
    assert_eq!(paths(&hits), vec!["/h/.git".to_string()]);
}
