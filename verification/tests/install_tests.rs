use storytime_launcher::install::{
    install, progress_due, repo_url, temp_repo_path, InstallEvent, InstallRun, InstallStep,
    RunOutcome,
};
use storytime_launcher::listing::{DirEntry, EntryKind};
use storytime_launcher::menu::BuildType;

const CLIENT: &str = "\u{f030c} Клиентская сборка";
const SERVER: &str = "\u{f0453} Серверная сборка";

fn ifile(name: &str) -> DirEntry {
    DirEntry { name: name.to_string(), kind: EntryKind::File }
}

fn idir(name: &str) -> DirEntry {
    DirEntry { name: name.to_string(), kind: EntryKind::Dir }
}

/// What the world answers to the steps of a run.
struct World {
    mods_path: Option<&'static str>,
    dest: Option<Vec<DirEntry>>,
    source: Result<Vec<DirEntry>, &'static str>,
    create_fails: bool,
    stuck: Vec<&'static str>,
    failing: Vec<&'static str>,
}

impl World {
    fn new(dest: Option<Vec<DirEntry>>, source: Vec<DirEntry>) -> World {
        World {
            mods_path: Some("/m/mods"),
            dest,
            source: Ok(source),
            create_fails: false,
            stuck: vec![],
            failing: vec![],
        }
    }
}

/// Drives a run to its end and returns the steps in order and the outcome.
fn drive(mut run: InstallRun, world: &World) -> (Vec<String>, Option<RunOutcome>) {
    let mut log = Vec::new();
    loop {
        assert_eq!(run.is_over(), matches!(run.next_step(), InstallStep::Done));
        let event = match run.next_step() {
            InstallStep::ChooseModsDirectory => {
                log.push("choose".to_string());
                match world.mods_path {
                    Some(p) => InstallEvent::Chosen {
                        mods_path: p.to_string(),
                        listing: world.dest.as_ref().map(|d| {
                            d.iter().map(|e| DirEntry { name: e.name.clone(), kind: e.kind }).collect()
                        }),
                    },
                    None => InstallEvent::Cancelled,
                }
            }
            InstallStep::CreateDestination(p) => {
                log.push(format!("create {}", p));
                if world.create_fails {
                    InstallEvent::Failed("read-only".to_string())
                } else {
                    InstallEvent::Succeeded
                }
            }
            InstallStep::ClearTemp(p) => {
                log.push(format!("clear {}", p));
                InstallEvent::Failed("was not there".to_string())
            }
            InstallStep::Fetch { url, into } => {
                log.push(format!("fetch {} {}", url, into));
                match &world.source {
                    Ok(s) => InstallEvent::Fetched(
                        s.iter().map(|e| DirEntry { name: e.name.clone(), kind: e.kind }).collect(),
                    ),
                    Err(e) => InstallEvent::Failed(e.to_string()),
                }
            }
            InstallStep::Remove(n) => {
                log.push(format!("remove {}", n));
                if world.stuck.contains(&n.as_str()) {
                    InstallEvent::Failed("busy".to_string())
                } else {
                    InstallEvent::Succeeded
                }
            }
            InstallStep::Copy(n) => {
                log.push(format!("copy {}", n));
                if world.failing.contains(&n.as_str()) {
                    InstallEvent::Failed("disk full".to_string())
                } else {
                    InstallEvent::Succeeded
                }
            }
            InstallStep::Skip(n) => {
                log.push(format!("skip {}", n));
                InstallEvent::Succeeded
            }
            InstallStep::RemoveTemp(p) => {
                log.push(format!("tidy {}", p));
                InstallEvent::Succeeded
            }
            InstallStep::Done => break,
        };
        run.record(event);
    }
    (log, run.into_outcome())
}

fn strs(v: &[&str]) -> Vec<String> {
    v.iter().map(|s| s.to_string()).collect()
}

#[test]
fn each_build_has_its_repository() {
    assert_eq!(
        repo_url(BuildType::Client),
        "https://github.com/Frog1-cell/StoryTime-ServerKlient-Mods.git"
    );
    assert_eq!(
        repo_url(BuildType::Server),
        "https://github.com/Frog1-cell/StoryTime-ServerBuild-Mods.git"
    );
}

#[test]
fn the_repository_is_fetched_below_the_installation() {
    assert_eq!(temp_repo_path("/home/u/.minecraft"), "/home/u/.minecraft/.storytime-mods-temp");
}

#[test]
fn without_a_build_choice_there_is_no_run() {
    assert!(install("/m", None, false).is_none());
    assert!(install("/m", None, true).is_none());
}

#[test]
fn the_repository_follows_the_answer() {
    let world = World::new(Some(vec![]), vec![]);
    let (log, _) = drive(install("/m", Some(CLIENT), false).unwrap(), &world);
    assert_eq!(
        log[2],
        "fetch https://github.com/Frog1-cell/StoryTime-ServerKlient-Mods.git /m/.storytime-mods-temp"
    );
    for choice in [SERVER, "?"] {
        let (log, _) = drive(install("/m", Some(choice), false).unwrap(), &world);
        assert_eq!(
            log[2],
            "fetch https://github.com/Frog1-cell/StoryTime-ServerBuild-Mods.git /m/.storytime-mods-temp"
        );
    }
}

#[test]
fn a_clean_run_removes_everything_before_the_first_copy() {
    let dest = vec![ifile("a.jar"), ifile("old.jar"), idir("cfg"), ifile("x.jar"), ifile("n.txt")];
    let source = vec![ifile("a.jar"), ifile("&opt.jar"), ifile("b.jar"), ifile("README.md")];
    let world = World::new(Some(dest), source);
    let (log, outcome) = drive(install("/m", Some(CLIENT), true).unwrap(), &world);
    assert_eq!(
        log,
        strs(&[
            "choose",
            "clear /m/.storytime-mods-temp",
            "fetch https://github.com/Frog1-cell/StoryTime-ServerKlient-Mods.git /m/.storytime-mods-temp",
            "remove a.jar",
            "remove old.jar",
            "remove x.jar",
            "copy a.jar",
            "skip &opt.jar",
            "copy b.jar",
            "tidy /m/.storytime-mods-temp",
        ])
    );
    match outcome {
        Some(RunOutcome::Completed { removed, clean_error, report }) => {
            assert_eq!(removed, 3);
            assert_eq!(clean_error, None);
            assert_eq!(report.installed, 2);
            assert_eq!(report.skipped, 1);
            assert!(report.failed.is_empty());
        }
        other => panic!("{:?}", other),
    }
}

#[test]
fn the_removed_count_is_the_same_whatever_the_source_holds() {
    let dest = || Some(vec![ifile("x.jar"), ifile("y.jar"), ifile("z.jar")]);
    let sources = vec![
        vec![],
        vec![ifile("&a.jar"), ifile("&b.jar")],
        vec![ifile("a.jar"), ifile("b.jar")],
    ];
    for source in sources {
        let mut world = World::new(dest(), source);
        world.failing = vec!["a.jar", "b.jar"];
        let (_, outcome) = drive(install("/m", Some(SERVER), true).unwrap(), &world);
        match outcome {
            Some(RunOutcome::Completed { removed, report, .. }) => {
                assert_eq!(removed, 3);
                assert_eq!(report.installed, 0);
            }
            other => panic!("{:?}", other),
        }
    }
}

#[test]
fn a_run_without_clean_removes_nothing() {
    let dest = vec![ifile("x.jar"), ifile("y.jar")];
    let world = World::new(Some(dest), vec![ifile("a.jar")]);
    let (log, outcome) = drive(install("/m", Some(CLIENT), false).unwrap(), &world);
    assert!(log.iter().all(|l| !l.starts_with("remove")));
    match outcome {
        Some(RunOutcome::Completed { removed, report, .. }) => {
            assert_eq!(removed, 0);
            assert_eq!(report.installed, 1);
        }
        other => panic!("{:?}", other),
    }
}

#[test]
fn a_missing_mods_directory_is_created_first() {
    let world = World::new(None, vec![ifile("a.jar")]);
    let (log, outcome) = drive(install("/m", Some(CLIENT), true).unwrap(), &world);
    assert_eq!(log[0], "choose");
    assert_eq!(log[1], "create /m/mods");
    assert_eq!(log[2], "clear /m/.storytime-mods-temp");
    assert!(log[3].starts_with("fetch "));
    assert_eq!(log[4], "copy a.jar");
    assert!(matches!(outcome, Some(RunOutcome::Completed { removed: 0, .. })));
}

#[test]
fn a_mods_directory_that_cannot_be_created_ends_the_run() {
    let mut world = World::new(None, vec![ifile("a.jar")]);
    world.create_fails = true;
    let (log, outcome) = drive(install("/m", Some(CLIENT), true).unwrap(), &world);
    assert_eq!(log, strs(&["choose", "create /m/mods"]));
    match outcome {
        Some(RunOutcome::DestinationFailed(e)) => assert_eq!(e, "read-only"),
        other => panic!("{:?}", other),
    }
}

#[test]
fn a_failed_clean_does_not_stop_the_copying() {
    let dest = vec![ifile("x.jar"), ifile("y.jar"), ifile("z.jar")];
    let mut world = World::new(Some(dest), vec![ifile("a.jar"), ifile("b.jar")]);
    world.stuck = vec!["y.jar"];
    let (log, outcome) = drive(install("/m", Some(CLIENT), true).unwrap(), &world);
    assert_eq!(
        &log[3..],
        &strs(&["remove x.jar", "remove y.jar", "copy a.jar", "copy b.jar", "tidy /m/.storytime-mods-temp"])[..]
    );
    match outcome {
        Some(RunOutcome::Completed { removed, clean_error, report }) => {
            assert_eq!(removed, 1);
            assert_eq!(clean_error, Some("busy".to_string()));
            assert_eq!(report.installed, 2);
            assert!(report.failed.is_empty());
        }
        other => panic!("{:?}", other),
    }
}

#[test]
fn a_failed_fetch_leaves_the_mods_directory_alone() {
    let mut world = World::new(Some(vec![ifile("x.jar")]), vec![]);
    world.source = Err("no network");
    let (log, outcome) = drive(install("/m", Some(CLIENT), true).unwrap(), &world);
    assert_eq!(log.len(), 3);
    assert!(log.iter().all(|l| !l.starts_with("remove") && !l.starts_with("copy")));
    match outcome {
        Some(RunOutcome::FetchFailed(e)) => assert_eq!(e, "no network"),
        other => panic!("{:?}", other),
    }
}

#[test]
fn a_run_without_a_mods_directory_is_cancelled() {
    let mut world = World::new(None, vec![]);
    world.mods_path = None;
    let (log, outcome) = drive(install("/m", Some(CLIENT), true).unwrap(), &world);
    assert_eq!(log, strs(&["choose"]));
    assert!(matches!(outcome, Some(RunOutcome::Cancelled)));
}

#[test]
fn an_event_that_answers_no_step_is_passed_over() {
    let mut run = install("/m", Some(CLIENT), false).unwrap();
    run.record(InstallEvent::Succeeded);
    run.record(InstallEvent::Fetched(vec![ifile("a.jar")]));
    assert!(matches!(run.next_step(), InstallStep::ChooseModsDirectory));
    run.record(InstallEvent::Chosen { mods_path: "/m/mods".to_string(), listing: Some(vec![]) });
    assert_eq!(run.mods_path(), "/m/mods");
    run.record(InstallEvent::Cancelled);
    assert!(matches!(run.next_step(), InstallStep::ClearTemp(_)));
    run.record(InstallEvent::Succeeded);
    run.record(InstallEvent::Succeeded);
    assert!(matches!(run.next_step(), InstallStep::Fetch { .. }));
    assert!(!run.is_over());
    assert!(run.into_outcome().is_none());
}

#[test]
fn progress_follows_the_copying() {
    let mut run = install("/m", Some(CLIENT), true).unwrap();
    assert_eq!(run.progress(), (0, 0));
    run.record(InstallEvent::Chosen {
        mods_path: "/m/mods".to_string(),
        listing: Some(vec![ifile("old.jar")]),
    });
    run.record(InstallEvent::Succeeded);
    run.record(InstallEvent::Fetched(vec![ifile("a.jar"), ifile("&b.jar"), ifile("c.jar")]));
    assert_eq!(run.progress(), (0, 3));
    assert!(matches!(run.next_step(), InstallStep::Remove(n) if n == "old.jar"));
    run.record(InstallEvent::Succeeded);
    for position in 0..3 {
        assert_eq!(run.progress(), (position, 3));
        run.record(InstallEvent::Succeeded);
    }
    assert_eq!(run.progress(), (3, 3));
    assert!(matches!(run.next_step(), InstallStep::RemoveTemp(_)));
}

#[test]
fn a_run_that_is_over_stays_over() {
    let mut run = install("/m", Some(CLIENT), false).unwrap();
    run.record(InstallEvent::Cancelled);
    assert!(run.is_over());
    run.record(InstallEvent::Chosen { mods_path: "/x".to_string(), listing: None });
    run.record(InstallEvent::Succeeded);
    assert!(run.is_over());
    assert!(matches!(run.into_outcome(), Some(RunOutcome::Cancelled)));
}

#[test]
fn progress_is_due_at_every_fifth_file() {
    let due: Vec<usize> = (0..12).filter(|i| progress_due(*i)).collect();
    assert_eq!(due, vec![0, 5, 10]);
}
