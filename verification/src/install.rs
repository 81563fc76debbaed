//! One installation run, from the choice of the build to the removal of
//! the fetched copy, as a machine that the caller drives: the machine says
//! what is to be done next, the caller does it and tells how it went.
//!
//! The run has a fixed order. The mods directory is chosen; if it is
//! missing it is created, and a failure there ends the run before anything
//! else is touched. Then the repository is fetched, and only then does the
//! synchroniser clean the mods directory, if that was asked for, and copy
//! the mods. At the end the fetched copy is removed.

use vstd::prelude::*;
use vstd::string::*;
use crate::listing::DirEntry;
use crate::menu::{build_of, build_type, BuildType};
use crate::path::{child_of, child_path};
use crate::roots::text;
use crate::sync::{
    action_of, after, archive_names, consistent, entry_names, failures, initial,
    lemma_after_consistent, lemma_initial_consistent, text_of, with_name, ActionView, ModSync,
    Phase, SyncAction, SyncReport, SyncView,
};

verus! {

/// The repository of the client build.
pub const CLIENT_REPO_URL: &'static str =
    "https://github.com/Frog1-cell/StoryTime-ServerKlient-Mods.git";

/// The repository of the server build.
pub const SERVER_REPO_URL: &'static str =
    "https://github.com/Frog1-cell/StoryTime-ServerBuild-Mods.git";

/// The directory below the installation into which the repository is
/// fetched, and which is removed afterwards.
pub const TEMP_DIR: &'static str = ".storytime-mods-temp";

/// How often the progress line is renewed, in files.
pub const PROGRESS_STEP: usize = 5;

/// The repository that holds the mods of a build.
pub open spec fn repo_of(build: BuildType) -> Seq<char> {
    match build {
        BuildType::Client => CLIENT_REPO_URL@,
        BuildType::Server => SERVER_REPO_URL@,
    }
}

/// The repository that holds the mods of a build.
pub fn repo_url(build: BuildType) -> (r: String)
    ensures
        r@ == repo_of(build),
{
    match build {
        BuildType::Client => String::from_str(CLIENT_REPO_URL),
        BuildType::Server => String::from_str(SERVER_REPO_URL),
    }
}

/// Where the repository is fetched to for the installation at
/// `minecraft_path`.
pub fn temp_repo_path(minecraft_path: &str) -> (r: String)
    ensures
        r@ == child_of(minecraft_path@, TEMP_DIR@),
{
    child_path(minecraft_path, TEMP_DIR)
}

/// Whether the progress line is renewed before the file at this position
/// of the listing: at every fifth file, from the first on.
pub fn progress_due(index: usize) -> (r: bool)
    ensures
        r == (index % 5 == 0),
{
    index % PROGRESS_STEP == 0
}

/// Where a run stands.
#[derive(Clone, Copy, Debug, PartialEq, Eq, Structural)]
pub enum Stage {
    /// The mods directory has to be chosen.
    Choosing,
    /// The chosen mods directory is missing and has to be created.
    Preparing,
    /// What an earlier run left of the fetched copy has to go.
    Clearing,
    /// The repository has to be fetched.
    Fetching,
    /// The synchroniser is at work: cleaning, then copying.
    Syncing,
    /// The fetched copy has to be removed.
    Tidying,
    /// The run is through.
    Finished,
    /// No mods directory was chosen; nothing was touched.
    Cancelled,
    /// The mods directory could not be created; nothing else was touched.
    DestinationFailed,
    /// The repository could not be fetched; the mods directory is as it
    /// was.
    FetchFailed,
}

/// What the caller is to do next.
#[derive(Debug)]
pub enum InstallStep {
    /// Ask where the mods go, and list that directory.
    ChooseModsDirectory,
    /// Create this directory and its parents.
    CreateDestination(String),
    /// Remove this directory if it is there; it does not matter how that
    /// goes.
    ClearTemp(String),
    /// Fetch the repository at `url` into the directory `into`, and list it.
    Fetch { url: String, into: String },
    /// Delete the file of this name from the mods directory.
    Remove(String),
    /// Copy the file of this name from the fetched copy into the mods
    /// directory.
    Copy(String),
    /// Leave the file of this name where it is.
    Skip(String),
    /// Remove the fetched copy; it does not matter how that goes.
    RemoveTemp(String),
    /// Nothing: the run is over.
    Done,
}

/// A step as plain values.
pub enum StepView {
    ChooseModsDirectory,
    CreateDestination(Seq<char>),
    ClearTemp(Seq<char>),
    Fetch { url: Seq<char>, into: Seq<char> },
    Remove(Seq<char>),
    Copy(Seq<char>),
    Skip(Seq<char>),
    RemoveTemp(Seq<char>),
    Done,
}

impl View for InstallStep {
    type V = StepView;

    open spec fn view(&self) -> StepView {
        match self {
            InstallStep::ChooseModsDirectory => StepView::ChooseModsDirectory,
            InstallStep::CreateDestination(p) => StepView::CreateDestination(p@),
            InstallStep::ClearTemp(p) => StepView::ClearTemp(p@),
            InstallStep::Fetch { url, into } => StepView::Fetch { url: url@, into: into@ },
            InstallStep::Remove(n) => StepView::Remove(n@),
            InstallStep::Copy(n) => StepView::Copy(n@),
            InstallStep::Skip(n) => StepView::Skip(n@),
            InstallStep::RemoveTemp(p) => StepView::RemoveTemp(p@),
            InstallStep::Done => StepView::Done,
        }
    }
}

/// What the caller tells of the step it was asked to do.
#[derive(Debug)]
pub enum InstallEvent {
    /// The mods directory was chosen; `listing` holds its entries, or
    /// `None` if it does not exist.
    Chosen { mods_path: String, listing: Option<Vec<DirEntry>> },
    /// No mods directory was chosen.
    Cancelled,
    /// The repository was fetched; these are the entries of the copy.
    Fetched(Vec<DirEntry>),
    /// The step went well.
    Succeeded,
    /// The step failed, with this error.
    Failed(String),
}

/// An event as plain values.
pub enum EventView {
    Chosen { mods_path: Seq<char>, listing: Option<Seq<DirEntry>> },
    Cancelled,
    Fetched(Seq<DirEntry>),
    Succeeded,
    Failed(Seq<char>),
}

impl View for InstallEvent {
    type V = EventView;

    open spec fn view(&self) -> EventView {
        match self {
            InstallEvent::Chosen { mods_path, listing } => EventView::Chosen {
                mods_path: mods_path@,
                listing: match listing {
                    Some(l) => Some(l@),
                    None => None,
                },
            },
            InstallEvent::Cancelled => EventView::Cancelled,
            InstallEvent::Fetched(l) => EventView::Fetched(l@),
            InstallEvent::Succeeded => EventView::Succeeded,
            InstallEvent::Failed(e) => EventView::Failed(e@),
        }
    }
}

/// The state of a run as plain values.
pub struct RunView {
    pub stage: Stage,
    /// The repository to fetch.
    pub repo_url: Seq<char>,
    /// The directory to fetch it into.
    pub repo_path: Seq<char>,
    /// Whether the mods directory is cleaned before the mods are copied.
    pub clean: bool,
    /// The mods directory, once chosen.
    pub mods_path: Seq<char>,
    /// The entries of the mods directory as they were when it was chosen;
    /// none for a directory that the run creates.
    pub dest: Seq<DirEntry>,
    /// The state of the synchroniser, once the repository is fetched.
    pub sync: Option<SyncView>,
    /// The error that ended the run, if one did.
    pub error: Option<Seq<char>>,
}

/// The state in which a run begins.
pub open spec fn initial_run(repo_url: Seq<char>, repo_path: Seq<char>, clean: bool) -> RunView {
    RunView {
        stage: Stage::Choosing,
        repo_url,
        repo_path,
        clean,
        mods_path: Seq::empty(),
        dest: Seq::empty(),
        sync: None,
        error: None,
    }
}

/// The step of the run that the synchroniser's action stands for.
pub open spec fn step_for(action: ActionView, mods_path: Seq<char>) -> StepView {
    match action {
        ActionView::CreateDestination => StepView::CreateDestination(mods_path),
        ActionView::Remove(n) => StepView::Remove(n),
        ActionView::Copy(n) => StepView::Copy(n),
        ActionView::Skip(n) => StepView::Skip(n),
        ActionView::Done => StepView::Done,
    }
}

/// The step that a state asks for.
pub open spec fn step_of(s: RunView) -> StepView {
    match s.stage {
        Stage::Choosing => StepView::ChooseModsDirectory,
        Stage::Preparing => StepView::CreateDestination(s.mods_path),
        Stage::Clearing => StepView::ClearTemp(s.repo_path),
        Stage::Fetching => StepView::Fetch { url: s.repo_url, into: s.repo_path },
        Stage::Syncing => match s.sync {
            Some(v) => step_for(action_of(v), s.mods_path),
            None => StepView::Done,
        },
        Stage::Tidying => StepView::RemoveTemp(s.repo_path),
        _ => StepView::Done,
    }
}

/// The stage in which the synchroniser's state leaves the run.
pub open spec fn stage_for(v: SyncView) -> Stage {
    if v.phase == Phase::Finished {
        Stage::Tidying
    } else {
        Stage::Syncing
    }
}

/// The state after the step of `s` went as `event` says. An event that is
/// no answer to the step is passed over.
///
/// A mods directory that cannot be created ends the run, and so does a
/// repository that cannot be fetched. How the removal of the fetched copy
/// goes, before or after, does not matter. The synchroniser takes its own
/// events as they come: a removal that fails ends the clean and not the
/// run, a copy that fails is noted.
pub open spec fn after_event(s: RunView, event: EventView) -> RunView {
    match s.stage {
        Stage::Choosing => match event {
            EventView::Chosen { mods_path, listing } => match listing {
                Some(l) => RunView { stage: Stage::Clearing, mods_path, dest: l, ..s },
                None => RunView { stage: Stage::Preparing, mods_path, dest: Seq::empty(), ..s },
            },
            EventView::Cancelled => RunView { stage: Stage::Cancelled, ..s },
            _ => s,
        },
        Stage::Preparing => match event {
            EventView::Succeeded => RunView { stage: Stage::Clearing, ..s },
            EventView::Failed(e) => RunView {
                stage: Stage::DestinationFailed,
                error: Some(e),
                ..s
            },
            _ => s,
        },
        Stage::Clearing => match event {
            EventView::Succeeded => RunView { stage: Stage::Fetching, ..s },
            EventView::Failed(_) => RunView { stage: Stage::Fetching, ..s },
            _ => s,
        },
        Stage::Fetching => match event {
            EventView::Fetched(source) => {
                let v = initial(source, Some(s.dest), s.clean);
                RunView { stage: stage_for(v), sync: Some(v), ..s }
            },
            EventView::Failed(e) => RunView { stage: Stage::FetchFailed, error: Some(e), ..s },
            _ => s,
        },
        Stage::Syncing => match s.sync {
            Some(v) => match event {
                EventView::Succeeded => {
                    let next = after(v, None);
                    RunView { stage: stage_for(next), sync: Some(next), ..s }
                },
                EventView::Failed(e) => {
                    let next = after(v, Some(e));
                    RunView { stage: stage_for(next), sync: Some(next), ..s }
                },
                _ => s,
            },
            None => s,
        },
        Stage::Tidying => match event {
            EventView::Succeeded => RunView { stage: Stage::Finished, ..s },
            EventView::Failed(_) => RunView { stage: Stage::Finished, ..s },
            _ => s,
        },
        _ => s,
    }
}

/// What ties the synchroniser to the run it works in: it removes what the
/// run's clean flag and the mods directory give, and without a clean it
/// has removed nothing and the mods directory holds all it held.
pub open spec fn tied(s: RunView, v: SyncView) -> bool {
    &&& consistent(v)
    &&& v.removals == if s.clean {
        archive_names(s.dest)
    } else {
        Seq::empty()
    }
    &&& !s.clean ==> v.removed == 0
    &&& !s.clean ==> forall|i: int|
        0 <= i < s.dest.len() ==> v.holdings.contains(#[trigger] entry_names(s.dest)[i])
}

/// The states that a run can be in.
pub open spec fn sound(s: RunView) -> bool {
    match s.stage {
        Stage::Choosing => s.sync is None && s.error is None,
        Stage::Preparing => s.sync is None && s.error is None && s.dest.len() == 0,
        Stage::Clearing => s.sync is None && s.error is None,
        Stage::Fetching => s.sync is None && s.error is None,
        Stage::Syncing => s.error is None && s.sync is Some && tied(s, s.sync->0) && (
        s.sync->0.phase == Phase::Cleaning || s.sync->0.phase == Phase::Copying),
        Stage::Tidying => s.error is None && s.sync is Some && tied(s, s.sync->0)
            && s.sync->0.phase == Phase::Finished,
        Stage::Finished => s.error is None && s.sync is Some && tied(s, s.sync->0)
            && s.sync->0.phase == Phase::Finished,
        Stage::Cancelled => s.sync is None && s.error is None,
        Stage::DestinationFailed => s.sync is None && s.error is Some,
        Stage::FetchFailed => s.sync is None && s.error is Some,
    }
}

/// How a run ended.
#[derive(Debug)]
pub enum RunOutcome {
    /// No mods directory was chosen.
    Cancelled,
    /// The mods directory could not be created, for this reason.
    DestinationFailed(String),
    /// The repository could not be fetched, for this reason.
    FetchFailed(String),
    /// The run went through. The count of the files that the clean removed
    /// and the error that ended the clean early stand beside the report of
    /// the copying and are no part of it.
    Completed { removed: usize, clean_error: Option<String>, report: SyncReport },
}

/// One installation run.
pub struct InstallRun {
    stage: Stage,
    repo_url: String,
    repo_path: String,
    clean: bool,
    mods_path: String,
    dest: Vec<DirEntry>,
    sync: Option<ModSync>,
    error: Option<String>,
}

impl View for InstallRun {
    type V = RunView;

    closed spec fn view(&self) -> RunView {
        RunView {
            stage: self.stage,
            repo_url: self.repo_url@,
            repo_path: self.repo_path@,
            clean: self.clean,
            mods_path: self.mods_path@,
            dest: self.dest@,
            sync: match self.sync {
                Some(m) => Some(m@),
                None => None,
            },
            error: text_of(self.error),
        }
    }
}

/// The run that installs into the installation at `minecraft_path`, given
/// the answer to the question for the build: none without an answer, else
/// a run that fetches the client build's repository for the client entry
/// and the server build's for any other answer. With `clean_install` the
/// mods that are there are removed before the new ones are copied.
pub fn install(minecraft_path: &str, build_choice: Option<&str>, clean_install: bool) -> (r: Option<
    InstallRun,
>)
    ensures
        match text(build_choice) {
            None => r is None,
            Some(c) => r is Some && r->0@ == initial_run(
                repo_of(build_of(c)),
                child_of(minecraft_path@, TEMP_DIR@),
                clean_install,
            ) && sound(r->0@),
        },
{
    match build_choice {
        None => None,
        Some(c) => {
            let run = InstallRun {
                stage: Stage::Choosing,
                repo_url: repo_url(build_type(c)),
                repo_path: temp_repo_path(minecraft_path),
                clean: clean_install,
                mods_path: String::new(),
                dest: Vec::new(),
                sync: None,
                error: None,
            };
            assert(run@.dest =~= Seq::<DirEntry>::empty());
            assert(run@.mods_path =~= Seq::<char>::empty());
            Some(run)
        },
    }
}

impl InstallRun {
    /// What the caller is to do next.
    pub fn next_step(&self) -> (r: InstallStep)
        requires
            sound(self@),
        ensures
            r@ == step_of(self@),
    {
        match self.stage {
            Stage::Choosing => InstallStep::ChooseModsDirectory,
            Stage::Preparing => InstallStep::CreateDestination(self.mods_path.clone()),
            Stage::Clearing => InstallStep::ClearTemp(self.repo_path.clone()),
            Stage::Fetching => InstallStep::Fetch {
                url: self.repo_url.clone(),
                into: self.repo_path.clone(),
            },
            Stage::Syncing => match &self.sync {
                Some(m) => match m.next_action() {
                    SyncAction::CreateDestination => InstallStep::CreateDestination(
                        self.mods_path.clone(),
                    ),
                    SyncAction::Remove(n) => InstallStep::Remove(n),
                    SyncAction::Copy(n) => InstallStep::Copy(n),
                    SyncAction::Skip(n) => InstallStep::Skip(n),
                    SyncAction::Done => InstallStep::Done,
                },
                None => InstallStep::Done,
            },
            Stage::Tidying => InstallStep::RemoveTemp(self.repo_path.clone()),
            _ => InstallStep::Done,
        }
    }

    /// Takes in how the step last asked for went. An event that is no
    /// answer to that step changes nothing, and neither does any event once
    /// the run is over.
    pub fn record(&mut self, event: InstallEvent)
        requires
            sound(old(self)@),
        ensures
            final(self)@ == after_event(old(self)@, event@),
            sound(final(self)@),
    {
        proof {
            lemma_sound_kept(self@, event@);
        }
        match self.stage {
            Stage::Choosing => match event {
                InstallEvent::Chosen { mods_path, listing } => {
                    self.mods_path = mods_path;
                    match listing {
                        Some(l) => {
                            self.dest = l;
                            self.stage = Stage::Clearing;
                        },
                        None => {
                            self.dest = Vec::new();
                            self.stage = Stage::Preparing;
                            assert(self@.dest =~= Seq::<DirEntry>::empty());
                        },
                    }
                },
                InstallEvent::Cancelled => {
                    self.stage = Stage::Cancelled;
                },
                _ => {},
            },
            Stage::Preparing => match event {
                InstallEvent::Succeeded => {
                    self.stage = Stage::Clearing;
                },
                InstallEvent::Failed(e) => {
                    self.error = Some(e);
                    self.stage = Stage::DestinationFailed;
                },
                _ => {},
            },
            Stage::Clearing => match event {
                InstallEvent::Succeeded => {
                    self.stage = Stage::Fetching;
                },
                InstallEvent::Failed(_) => {
                    self.stage = Stage::Fetching;
                },
                _ => {},
            },
            Stage::Fetching => match event {
                InstallEvent::Fetched(source) => {
                    let m = ModSync::begin(&source, Some(&self.dest), self.clean);
                    self.stage = if m.is_over() {
                        Stage::Tidying
                    } else {
                        Stage::Syncing
                    };
                    self.sync = Some(m);
                },
                InstallEvent::Failed(e) => {
                    self.error = Some(e);
                    self.stage = Stage::FetchFailed;
                },
                _ => {},
            },
            Stage::Syncing => {
                let outcome: Option<Result<(), String>> = match event {
                    InstallEvent::Succeeded => Some(Ok(())),
                    InstallEvent::Failed(e) => Some(Err(e)),
                    _ => None,
                };
                if let Some(o) = outcome {
                    let taken = self.sync.take();
                    if let Some(mut m) = taken {
                        m.record(o);
                        if m.is_over() {
                            self.stage = Stage::Tidying;
                        }
                        self.sync = Some(m);
                    }
                }
            },
            Stage::Tidying => match event {
                InstallEvent::Succeeded => {
                    self.stage = Stage::Finished;
                },
                InstallEvent::Failed(_) => {
                    self.stage = Stage::Finished;
                },
                _ => {},
            },
            _ => {},
        }
    }

    /// Whether the run is over, in one way or the other.
    pub fn is_over(&self) -> (r: bool)
        requires
            sound(self@),
        ensures
            r == (step_of(self@) is Done),
            r == (self@.stage == Stage::Finished || self@.stage == Stage::Cancelled
                || self@.stage == Stage::DestinationFailed || self@.stage == Stage::FetchFailed),
    {
        match self.stage {
            Stage::Finished => true,
            Stage::Cancelled => true,
            Stage::DestinationFailed => true,
            Stage::FetchFailed => true,
            _ => false,
        }
    }

    /// The mods directory, once it is chosen; empty before.
    pub fn mods_path(&self) -> (r: &String)
        ensures
            r@ == self@.mods_path,
    {
        &self.mods_path
    }

    /// How far the copying is: the position of the file whose turn it is
    /// among the archives of the fetched copy, and their number. Both are
    /// zero before the repository is fetched.
    pub fn progress(&self) -> (r: (usize, usize))
        ensures
            match self@.sync {
                Some(v) => r.1 == v.eligible.len() && r.0 == if v.phase == Phase::Copying
                    || v.phase == Phase::Finished {
                    v.cursor
                } else {
                    0
                },
                None => r == (0usize, 0usize),
            },
    {
        match &self.sync {
            Some(m) => (m.position(), m.total()),
            None => (0, 0),
        }
    }

    /// Ends the run and tells how it ended; `None` if it is not over.
    pub fn into_outcome(self) -> (r: Option<RunOutcome>)
        requires
            sound(self@),
        ensures
            match self@.stage {
                Stage::Finished => match r {
                    Some(RunOutcome::Completed { removed, clean_error, report }) => {
                        let v = self@.sync->0;
                        &&& removed == v.removed
                        &&& text_of(clean_error) == v.clean_error
                        &&& report.installed == v.installed
                        &&& report.skipped == v.skipped
                        &&& failures(report.failed@) == v.failed
                    },
                    _ => false,
                },
                Stage::Cancelled => r matches Some(RunOutcome::Cancelled),
                Stage::DestinationFailed => match r {
                    Some(RunOutcome::DestinationFailed(e)) => self@.error == Some(e@),
                    _ => false,
                },
                Stage::FetchFailed => match r {
                    Some(RunOutcome::FetchFailed(e)) => self@.error == Some(e@),
                    _ => false,
                },
                _ => r is None,
            },
    {
        match self.stage {
            Stage::Finished => match self.sync {
                Some(m) => {
                    let removed = m.removed_count();
                    let clean_error = m.clean_failure();
                    match m.into_report() {
                        Ok(report) => Some(RunOutcome::Completed { removed, clean_error, report }),
                        Err(_) => None,
                    }
                },
                None => None,
            },
            Stage::Cancelled => Some(RunOutcome::Cancelled),
            Stage::DestinationFailed => match self.error {
                Some(e) => Some(RunOutcome::DestinationFailed(e)),
                None => None,
            },
            Stage::FetchFailed => match self.error {
                Some(e) => Some(RunOutcome::FetchFailed(e)),
                None => None,
            },
            _ => None,
        }
    }
}

/// What the destination holds stays in it when a name is put among its
/// names.
proof fn lemma_with_name_keeps(names: Seq<Seq<char>>, new: Seq<char>, kept: Seq<char>)
    requires
        names.contains(kept),
    ensures
        with_name(names, new).contains(kept),
{
    let i = choose|i: int| 0 <= i < names.len() && names[i] == kept;
    if !names.contains(new) {
        assert(names.push(new)[i] == kept);
    }
}

/// The synchroniser stays tied to its run through every step.
proof fn lemma_tied_kept(s: RunView, v: SyncView, outcome: Option<Seq<char>>)
    requires
        tied(s, v),
        v.phase == Phase::Cleaning || v.phase == Phase::Copying,
    ensures
        tied(s, after(v, outcome)),
        after(v, outcome).phase == Phase::Cleaning || after(v, outcome).phase == Phase::Copying
            || after(v, outcome).phase == Phase::Finished,
{
    lemma_after_consistent(v, outcome);
    let next = after(v, outcome);
    if !s.clean {
        assert forall|i: int| 0 <= i < s.dest.len() implies next.holdings.contains(
            #[trigger] entry_names(s.dest)[i],
        ) by {
            assert(v.holdings.contains(entry_names(s.dest)[i]));
            if next.holdings != v.holdings {
                lemma_with_name_keeps(
                    v.holdings,
                    v.eligible[v.cursor as int],
                    entry_names(s.dest)[i],
                );
            }
        }
    }
}

/// A run begins in a state that a run can be in.
pub proof fn lemma_initial_run_sound(repo_url: Seq<char>, repo_path: Seq<char>, clean: bool)
    ensures
        sound(initial_run(repo_url, repo_path, clean)),
{
}

/// One step leads from a state that a run can be in to another.
pub proof fn lemma_sound_kept(s: RunView, event: EventView)
    requires
        sound(s),
    ensures
        sound(after_event(s, event)),
{
    match s.stage {
        Stage::Fetching => match event {
            EventView::Fetched(source) => {
                lemma_initial_consistent(source, Some(s.dest), s.clean);
                let v = initial(source, Some(s.dest), s.clean);
                assert forall|i: int| 0 <= i < s.dest.len() implies v.holdings.contains(
                    #[trigger] entry_names(s.dest)[i],
                ) by {
                    assert(v.holdings[i] == entry_names(s.dest)[i]);
                }
            },
            _ => {},
        },
        Stage::Syncing => match event {
            EventView::Succeeded => {
                lemma_tied_kept(s, s.sync->0, None);
            },
            EventView::Failed(e) => {
                lemma_tied_kept(s, s.sync->0, Some(e));
            },
            _ => {},
        },
        _ => {},
    }
}

/// The state that a run reaches from `s` when its steps go as `events`
/// say, one after the other.
pub open spec fn played(s: RunView, events: Seq<EventView>) -> RunView
    decreases events.len(),
{
    if events.len() == 0 {
        s
    } else {
        after_event(played(s, events.drop_last()), events.last())
    }
}

/// Every state that a run passes through is one that a run can be in.
pub proof fn lemma_played_sound(s: RunView, events: Seq<EventView>)
    requires
        sound(s),
    ensures
        sound(played(s, events)),
    decreases events.len(),
{
    if events.len() > 0 {
        lemma_played_sound(s, events.drop_last());
        lemma_sound_kept(played(s, events.drop_last()), events.last());
    }
}

/// The clean lies behind: the copying has begun or is over.
pub open spec fn past_clean(s: RunView) -> bool {
    match s.stage {
        Stage::Syncing => s.sync is Some && s.sync->0.phase == Phase::Copying,
        Stage::Tidying => true,
        Stage::Finished => true,
        _ => false,
    }
}

/// A step that touches the mods directory before any mod is copied into
/// it: its creation or the removal of a file.
pub open spec fn is_groundwork(step: StepView) -> bool {
    step is CreateDestination || step is Remove
}

/// All removals come before the first copy. A state that asks for a copy,
/// or to pass over a file, has the clean behind it; and from a state that
/// has the clean behind it, whatever happens, no state follows that asks
/// for a removal or for the creation of the mods directory, and the count
/// of removed files stays as it is.
pub proof fn lemma_removals_precede_copies(s: RunView, events: Seq<EventView>)
    requires
        sound(s),
        step_of(s) is Copy || step_of(s) is Skip || past_clean(s),
    ensures
        past_clean(s),
        past_clean(played(s, events)),
        !is_groundwork(step_of(played(s, events))),
        played(s, events).sync->0.removed == s.sync->0.removed,
        played(s, events).sync->0.clean_error == s.sync->0.clean_error,
    decreases events.len(),
{
    if events.len() > 0 {
        lemma_removals_precede_copies(s, events.drop_last());
        lemma_played_sound(s, events.drop_last());
    }
}

/// The count of removed files is kept apart from the counts of the
/// copying: a removal changes it and none of them, and what happens to a
/// file of the source changes them and not it.
pub proof fn lemma_removed_count_stands_apart(s: RunView, event: EventView)
    requires
        sound(s),
        s.stage == Stage::Syncing,
    ensures
        ({
            let v = s.sync->0;
            let next = after_event(s, event).sync->0;
            &&& step_of(s) is Remove ==> next.installed == 0 && next.skipped == 0
                && next.failed.len() == 0 && next.removed == v.removed + if event is Succeeded {
                1nat
            } else {
                0nat
            }
            &&& !(step_of(s) is Remove) ==> next.removed == v.removed
        }),
{
}

/// Without a clean nothing is deleted: no state of the run asks for a
/// removal, the count of removed files is zero, and every name that the
/// mods directory held when it was chosen is among those it holds.
pub proof fn lemma_without_clean_nothing_is_deleted(
    repo_url: Seq<char>,
    repo_path: Seq<char>,
    events: Seq<EventView>,
)
    ensures
        ({
            let s = played(initial_run(repo_url, repo_path, false), events);
            &&& !(step_of(s) is Remove)
            &&& s.sync is Some ==> s.sync->0.removed == 0 && s.sync->0.removals.len() == 0
                && forall|i: int|
                0 <= i < s.dest.len() ==> s.sync->0.holdings.contains(
                    #[trigger] entry_names(s.dest)[i],
                )
        }),
{
    let start = initial_run(repo_url, repo_path, false);
    lemma_played_sound(start, events);
    lemma_played_keeps_settings(start, events);
}

/// The repository, the place it is fetched to and the clean flag are the
/// same in every state of a run.
pub proof fn lemma_played_keeps_settings(s: RunView, events: Seq<EventView>)
    ensures
        played(s, events).clean == s.clean,
        played(s, events).repo_url == s.repo_url,
        played(s, events).repo_path == s.repo_path,
    decreases events.len(),
{
    if events.len() > 0 {
        lemma_played_keeps_settings(s, events.drop_last());
    }
}

/// A missing mods directory is created before anything else is done. If
/// that fails the run is over with this error: no removal, no fetch and no
/// copy is asked for, then or ever after, and there is no report.
pub proof fn lemma_missing_destination_comes_first(
    repo_url: Seq<char>,
    repo_path: Seq<char>,
    clean: bool,
    mods_path: Seq<char>,
    error: Seq<char>,
    later: Seq<EventView>,
)
    ensures
        ({
            let chosen = after_event(
                initial_run(repo_url, repo_path, clean),
                EventView::Chosen { mods_path, listing: None },
            );
            let failed = after_event(chosen, EventView::Failed(error));
            let created = after_event(chosen, EventView::Succeeded);
            &&& step_of(chosen) == StepView::CreateDestination(mods_path)
            &&& failed.stage == Stage::DestinationFailed
            &&& failed.error == Some(error)
            &&& played(failed, later) == failed
            &&& step_of(played(failed, later)) is Done
            &&& played(failed, later).sync is None
            &&& step_of(created) == StepView::ClearTemp(repo_path)
        }),
    decreases later.len(),
{
    if later.len() > 0 {
        lemma_missing_destination_comes_first(
            repo_url,
            repo_path,
            clean,
            mods_path,
            error,
            later.drop_last(),
        );
    }
}

/// A removal that fails ends the clean and not the run: its error is kept
/// apart from the report, nothing more is removed, and what is asked for
/// next is the first file of the source, or the removal of the fetched
/// copy if the source holds no archive.
pub proof fn lemma_failed_clean_does_not_block(s: RunView, error: Seq<char>)
    requires
        sound(s),
        step_of(s) is Remove,
    ensures
        ({
            let next = after_event(s, EventView::Failed(error));
            &&& next.sync->0.clean_error == Some(error)
            &&& next.sync->0.removed == s.sync->0.removed
            &&& next.sync->0.installed == 0 && next.sync->0.skipped == 0
                && next.sync->0.failed.len() == 0
            &&& past_clean(next)
            &&& next.sync->0.eligible.len() > 0 ==> (step_of(next) is Copy || step_of(next) is Skip)
            &&& next.sync->0.eligible.len() == 0 ==> step_of(next) is RemoveTemp
        }),
{
}

/// Nothing is fetched before the mods directory is known to be there, and
/// nothing in it is touched before the repository is fetched: a state
/// that asks for the fetch has no synchroniser yet, and a state that has
/// one has left the fetch behind.
pub proof fn lemma_fetch_lies_between(s: RunView)
    requires
        sound(s),
    ensures
        step_of(s) is Fetch ==> s.sync is None && s.stage == Stage::Fetching,
        (step_of(s) is Remove || step_of(s) is Copy || step_of(s) is Skip) ==> s.stage
            == Stage::Syncing,
{
}

} // verus!
