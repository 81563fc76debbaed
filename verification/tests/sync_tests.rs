use storytime_launcher::listing::{DirEntry, EntryKind};
use storytime_launcher::sync::{
    archive_files, is_archive, is_excluded_name, ModSync, SyncAction, SyncReport,
};

fn sfile(name: &str) -> DirEntry {
    DirEntry { name: name.to_string(), kind: EntryKind::File }
}

fn sdir(name: &str) -> DirEntry {
    DirEntry { name: name.to_string(), kind: EntryKind::Dir }
}

/// Runs a synchronisation against a destination kept in memory. A copy
/// fails for the names in `failing`; a removal fails for the names in
/// `stuck`. Returns the report, the removed count, the actions in order and
/// the names in the destination at the end.
fn run(
    source: &Vec<DirEntry>,
    dest: Option<Vec<DirEntry>>,
    clean: bool,
    failing: &[&str],
    stuck: &[&str],
) -> (Result<SyncReport, String>, usize, Vec<String>, Vec<String>) {
    let mut files: Vec<String> = dest.iter().flatten().map(|e| e.name.clone()).collect();
    let mut log = Vec::new();
    let mut sync = ModSync::begin(source, dest.as_ref(), clean);
    loop {
        match sync.next_action() {
            SyncAction::CreateDestination => {
                log.push("create".to_string());
                sync.record(Ok(()));
            }
            SyncAction::Remove(name) => {
                log.push(format!("remove {}", name));
                if stuck.contains(&name.as_str()) {
                    sync.record(Err("busy".to_string()));
                } else {
                    files.retain(|f| *f != name);
                    sync.record(Ok(()));
                }
            }
            SyncAction::Copy(name) => {
                log.push(format!("copy {}", name));
                if failing.contains(&name.as_str()) {
                    sync.record(Err("disk full".to_string()));
                } else {
                    if !files.contains(&name) {
                        files.push(name);
                    }
                    sync.record(Ok(()));
                }
            }
            SyncAction::Skip(name) => {
                log.push(format!("skip {}", name));
                sync.record(Ok(()));
            }
            SyncAction::Done => break,
        }
    }
    assert!(sync.is_over());
    assert_eq!(sync.position(), sync.total());
    assert_eq!(sync.expected_names(), &files);
    let removed = sync.removed_count();
    (sync.into_report(), removed, log, files)
}

#[test]
fn every_eligible_file_is_installed_beside_what_was_there() {
    for n in 0..4usize {
        for m in 0..4usize {
            let dest: Vec<DirEntry> = (0..n).map(|i| sfile(&format!("old{}.jar", i))).collect();
            let source: Vec<DirEntry> = (0..m).map(|i| sfile(&format!("new{}.jar", i))).collect();
            let (report, removed, _, files) = run(&source, Some(dest), false, &[], &[]);
            let report = report.unwrap();
            assert_eq!(report.installed, m);
            assert_eq!(report.skipped, 0);
            assert!(report.failed.is_empty());
            assert_eq!(removed, 0);
            assert_eq!(files.len(), n + m);
        }
    }
}

#[test]
fn an_excluded_file_is_skipped_and_never_copied() {
    let source = vec![sfile("a.jar"), sfile("&OptionalMod.jar"), sfile("b.jar")];
    let (report, _, log, files) = run(&source, Some(vec![]), false, &[], &[]);
    let report = report.unwrap();
    assert_eq!(report.installed, 2);
    assert_eq!(report.skipped, 1);
    assert!(report.failed.is_empty());
    assert_eq!(
        log,
        vec![
            "copy a.jar".to_string(),
            "skip &OptionalMod.jar".to_string(),
            "copy b.jar".to_string(),
        ]
    );
    assert!(!files.contains(&"&OptionalMod.jar".to_string()));
}

#[test]
fn a_clean_removes_every_archive_before_any_copy() {
    let dest = vec![sfile("x.jar"), sfile("readme.txt"), sfile("y.jar"), sdir("cache.jar"), sfile("z.jar")];
    let source = vec![sfile("a.jar"), sfile("&b.jar"), sfile("c.jar")];
    let (report, removed, log, files) = run(&source, Some(dest), true, &["c.jar"], &[]);
    let report = report.unwrap();
    assert_eq!(removed, 3);
    assert_eq!(
        log,
        vec![
            "remove x.jar".to_string(),
            "remove y.jar".to_string(),
            "remove z.jar".to_string(),
            "copy a.jar".to_string(),
            "skip &b.jar".to_string(),
            "copy c.jar".to_string(),
        ]
    );
    assert_eq!(report.installed, 1);
    assert_eq!(report.skipped, 1);
    assert_eq!(report.failed.len(), 1);
    assert_eq!(files, vec!["readme.txt".to_string(), "cache.jar".to_string(), "a.jar".to_string()]);
}

#[test]
fn the_removed_count_does_not_depend_on_the_copies() {
    let dest = || Some(vec![sfile("x.jar"), sfile("y.jar"), sfile("z.jar")]);
    let source = vec![sfile("a.jar"), sfile("b.jar")];
    let (_, removed_ok, _, _) = run(&source, dest(), true, &[], &[]);
    let (_, removed_failing, _, _) = run(&source, dest(), true, &["a.jar", "b.jar"], &[]);
    let (_, removed_empty, _, _) = run(&vec![], dest(), true, &[], &[]);
    assert_eq!(removed_ok, 3);
    assert_eq!(removed_failing, 3);
    assert_eq!(removed_empty, 3);
}

#[test]
fn without_clean_nothing_is_removed() {
    let dest = vec![sfile("x.jar"), sfile("y.jar")];
    let (_, removed, log, files) = run(&vec![sfile("a.jar")], Some(dest), false, &[], &[]);
    assert_eq!(removed, 0);
    assert_eq!(log, vec!["copy a.jar".to_string()]);
    assert_eq!(files.len(), 3);
}

#[test]
fn a_failed_copy_is_noted_and_the_run_goes_on() {
    let source = vec![sfile("a.jar"), sfile("b.jar"), sfile("c.jar")];
    let (report, _, log, _) = run(&source, Some(vec![]), false, &["b.jar"], &[]);
    let report = report.unwrap();
    assert_eq!(report.installed, 2);
    assert_eq!(report.skipped, 0);
    assert_eq!(report.failed.len(), 1);
    assert_eq!(report.failed[0].name, "b.jar");
    assert_eq!(report.failed[0].error, "disk full");
    assert_eq!(log.len(), 3);
}

#[test]
fn a_missing_destination_is_created_first() {
    let source = vec![sfile("a.jar")];
    let (report, _, log, _) = run(&source, None, true, &[], &[]);
    assert_eq!(log, vec!["create".to_string(), "copy a.jar".to_string()]);
    assert_eq!(report.unwrap().installed, 1);
}

#[test]
fn a_destination_that_cannot_be_created_ends_the_run() {
    let source = vec![sfile("a.jar")];
    let mut sync = ModSync::begin(&source, None, false);
    assert!(matches!(sync.next_action(), SyncAction::CreateDestination));
    sync.record(Err("read-only file system".to_string()));
    assert!(sync.is_over());
    assert!(matches!(sync.next_action(), SyncAction::Done));
    sync.record(Ok(()));
    assert_eq!(sync.removed_count(), 0);
    assert_eq!(sync.into_report().unwrap_err(), "read-only file system");
}

#[test]
fn a_failed_removal_ends_the_clean_but_not_the_run() {
    let dest = vec![sfile("x.jar"), sfile("y.jar"), sfile("z.jar")];
    let source = vec![sfile("a.jar")];
    let mut sync = ModSync::begin(&source, Some(&dest), true);
    assert!(matches!(sync.next_action(), SyncAction::Remove(n) if n == "x.jar"));
    sync.record(Ok(()));
    assert!(matches!(sync.next_action(), SyncAction::Remove(n) if n == "y.jar"));
    sync.record(Err("busy".to_string()));
    assert_eq!(sync.clean_failure(), Some("busy".to_string()));
    assert_eq!(sync.removed_count(), 1);
    assert!(matches!(sync.next_action(), SyncAction::Copy(n) if n == "a.jar"));
    sync.record(Ok(()));
    assert!(sync.is_over());
    assert_eq!(sync.removed_count(), 1);
    assert_eq!(sync.into_report().unwrap().installed, 1);
}

#[test]
fn only_top_level_archive_files_are_eligible() {
    let source = vec![
        sfile("a.jar"),
        sdir("nested.jar"),
        sfile("notes.txt"),
        sfile("b.JAR"),
        sfile(".jar"),
        sfile("c.jar.bak"),
        sfile("d.zip"),
        sfile("e.tar.jar"),
    ];
    assert_eq!(archive_files(&source), vec!["a.jar".to_string(), "e.tar.jar".to_string()]);
}

#[test]
fn archive_names_end_in_dot_jar_after_something() {
    assert!(is_archive("mod.jar"));
    assert!(is_archive("&mod.jar"));
    assert!(is_archive("a..jar"));
    assert!(!is_archive(".jar"));
    assert!(!is_archive("jar"));
    assert!(!is_archive("mod.jar "));
    assert!(!is_archive("mod.Jar"));
    assert!(!is_archive(""));
}

#[test]
fn the_exclusion_mark_is_a_leading_ampersand() {
    assert!(is_excluded_name("&OptionalMod.jar"));
    assert!(is_excluded_name("&"));
    assert!(!is_excluded_name("Optional&Mod.jar"));
    assert!(!is_excluded_name(""));
}

#[test]
fn copies_overwrite_files_of_the_same_name() {
    let dest = vec![sfile("a.jar"), sfile("keep.jar")];
    let source = vec![sfile("a.jar"), sfile("b.jar")];
    let (report, _, _, files) = run(&source, Some(dest), false, &[], &[]);
    assert_eq!(report.unwrap().installed, 2);
    assert_eq!(files.len(), 3);
}

#[test]
fn a_run_with_nothing_to_do_is_over_at_once() {
    let sync = ModSync::begin(&vec![sfile("notes.txt")], Some(&vec![sfile("x.jar")]), false);
    assert!(sync.is_over());
    assert!(matches!(sync.next_action(), SyncAction::Done));
    let report = sync.into_report().unwrap();
    assert_eq!(report.installed, 0);
    assert_eq!(report.skipped, 0);
}

#[test]
fn an_excluded_file_is_skipped_whatever_is_recorded_for_it() {
    let mut sync = ModSync::begin(&vec![sfile("&only.jar")], Some(&vec![]), true);
    assert!(!sync.is_over());
    assert_eq!(sync.position(), 0);
    assert_eq!(sync.total(), 1);
    assert!(matches!(sync.next_action(), SyncAction::Skip(n) if n == "&only.jar"));
    sync.record(Err("ignored".to_string()));
    assert!(sync.is_over());
    let report = sync.into_report().unwrap();
    assert_eq!(report.installed, 0);
    assert_eq!(report.skipped, 1);
    assert!(report.failed.is_empty());
}

#[test]
fn the_expected_names_follow_the_actions() {
    let dest = vec![sfile("x.jar"), sfile("readme.txt"), sdir("sub")];
    let source = vec![sfile("a.jar"), sfile("x.jar")];
    let mut sync = ModSync::begin(&source, Some(&dest), true);
    assert_eq!(sync.expected_names(), &vec!["x.jar", "readme.txt", "sub"]);
    sync.record(Ok(()));
    assert_eq!(sync.expected_names(), &vec!["readme.txt", "sub"]);
    sync.record(Err("no space".to_string()));
    assert_eq!(sync.expected_names(), &vec!["readme.txt", "sub"]);
    sync.record(Ok(()));
    assert_eq!(sync.expected_names(), &vec!["readme.txt", "sub", "x.jar"]);
    assert!(sync.is_over());
}

#[test]
fn the_position_moves_with_every_archive() {
    let source = vec![sfile("a.jar"), sfile("&b.jar"), sfile("c.jar")];
    let mut sync = ModSync::begin(&source, Some(&vec![]), false);
    for expected in 0..3 {
        assert_eq!(sync.position(), expected);
        sync.record(Ok(()));
    }
    assert_eq!(sync.position(), 3);
    assert!(sync.is_over());
}

#[test]
fn a_rerun_on_the_same_listings_gives_the_same_report() {
    let source = vec![sfile("a.jar"), sfile("&b.jar"), sfile("c.jar")];
    let first = run(&source, Some(vec![]), false, &[], &[]).0.unwrap();
    let second = run(&source, Some(vec![sfile("a.jar"), sfile("c.jar")]), false, &[], &[]).0.unwrap();
    assert_eq!(first.installed, second.installed);
    assert_eq!(first.skipped, second.skipped);
    assert_eq!(first.failed.len(), second.failed.len());
}
