//! Synchronises mod archives from a source directory into a destination:
//! an optional clean of the destination, then a copy of every eligible file,
//! with a count of what was installed, skipped and failed.
//!
//! The work on the file system is the caller's. The machine here decides
//! what is done next and keeps the books: the caller asks for the next
//! action, performs it, and records how it went.

use vstd::prelude::*;
use crate::listing::{DirEntry, EntryKind};
use crate::path::views;
use crate::text::{chars_of, ends_with, has_suffix};

verus! {

/// A mod archive is a file whose name has the extension `jar`: something,
/// then `.jar`.
pub open spec fn is_archive_name(name: Seq<char>) -> bool {
    name.len() > ".jar"@.len() && has_suffix(name, ".jar"@)
}

/// A name that begins with `&` marks a mod that is offered but not
/// installed.
pub open spec fn is_excluded(name: Seq<char>) -> bool {
    name.len() > 0 && name[0] == '&'
}

/// The names of the archive files among the entries, in listing order.
/// Only regular files count: a directory, or anything else that is no
/// file, is passed over whatever it is called.
pub open spec fn archive_names(entries: Seq<DirEntry>) -> Seq<Seq<char>>
    decreases entries.len(),
{
    if entries.len() == 0 {
        Seq::empty()
    } else {
        let before = archive_names(entries.drop_last());
        let e = entries.last();
        if e.kind == EntryKind::File && is_archive_name(e.name@) {
            before.push(e.name@)
        } else {
            before
        }
    }
}

/// How many of the names are excluded.
pub open spec fn excluded_count(names: Seq<Seq<char>>) -> nat
    decreases names.len(),
{
    if names.len() == 0 {
        0
    } else {
        excluded_count(names.drop_last()) + if is_excluded(names.last()) {
            1nat
        } else {
            0nat
        }
    }
}

/// The names of the entries, in listing order.
pub open spec fn entry_names(entries: Seq<DirEntry>) -> Seq<Seq<char>> {
    Seq::new(entries.len(), |i: int| entries[i].name@)
}

/// The names without `gone`, wherever it stood.
pub open spec fn without(names: Seq<Seq<char>>, gone: Seq<char>) -> Seq<Seq<char>>
    decreases names.len(),
{
    if names.len() == 0 {
        names
    } else if names.last() == gone {
        without(names.drop_last(), gone)
    } else {
        without(names.drop_last(), gone).push(names.last())
    }
}

/// The names with `new` among them: at the end, unless it was there.
pub open spec fn with_name(names: Seq<Seq<char>>, new: Seq<char>) -> Seq<Seq<char>> {
    if names.contains(new) {
        names
    } else {
        names.push(new)
    }
}

/// Where a run stands.
#[derive(Clone, Copy, Debug, PartialEq, Eq, Structural)]
pub enum Phase {
    /// The destination is missing and has to be created.
    Preparing,
    /// Archives are being removed from the destination.
    Cleaning,
    /// Archives are being copied.
    Copying,
    /// Nothing is left to do.
    Finished,
    /// The destination could not be created; nothing else was tried.
    Aborted,
}

/// What the caller is to do next.
#[derive(Debug)]
pub enum SyncAction {
    /// Create the destination directory and its parents.
    CreateDestination,
    /// Delete the file of this name from the destination.
    Remove(String),
    /// Copy the file of this name from the source into the destination,
    /// over any file of the same name.
    Copy(String),
    /// Leave the file of this name where it is: it bears the exclusion
    /// mark.
    Skip(String),
    /// Nothing: the run is over.
    Done,
}

/// An action as plain values.
pub enum ActionView {
    CreateDestination,
    Remove(Seq<char>),
    Copy(Seq<char>),
    Skip(Seq<char>),
    Done,
}

impl View for SyncAction {
    type V = ActionView;

    open spec fn view(&self) -> ActionView {
        match self {
            SyncAction::CreateDestination => ActionView::CreateDestination,
            SyncAction::Remove(n) => ActionView::Remove(n@),
            SyncAction::Copy(n) => ActionView::Copy(n@),
            SyncAction::Skip(n) => ActionView::Skip(n@),
            SyncAction::Done => ActionView::Done,
        }
    }
}

/// A file that could not be copied, and why.
#[derive(Debug)]
pub struct FailedItem {
    pub name: String,
    pub error: String,
}

/// The account of a run.
#[derive(Debug)]
pub struct SyncReport {
    pub installed: usize,
    pub skipped: usize,
    pub failed: Vec<FailedItem>,
}

/// The failures as pairs of name and error text.
pub open spec fn failures(v: Seq<FailedItem>) -> Seq<(Seq<char>, Seq<char>)> {
    Seq::new(v.len(), |i: int| (v[i].name@, v[i].error@))
}

/// The state of a run as plain values.
pub struct SyncView {
    pub phase: Phase,
    /// The files that the clean removes.
    pub removals: Seq<Seq<char>>,
    /// The archive files of the source.
    pub eligible: Seq<Seq<char>>,
    /// The position in `removals` while cleaning, in `eligible` afterwards.
    pub cursor: nat,
    /// How many files the clean has removed.
    pub removed: nat,
    /// The error that ended the clean early.
    pub clean_error: Option<Seq<char>>,
    /// The error that kept the destination from being created.
    pub abort_error: Option<Seq<char>>,
    pub installed: nat,
    pub skipped: nat,
    pub failed: Seq<(Seq<char>, Seq<char>)>,
    /// The names that the destination holds, as far as the run knows: what
    /// was listed at the start, less what was removed, with what was copied.
    pub holdings: Seq<Seq<char>>,
}

/// Ends the run once every archive of the source has had its turn.
pub open spec fn close_if_done(s: SyncView) -> SyncView {
    if s.cursor >= s.eligible.len() {
        SyncView { phase: Phase::Finished, ..s }
    } else {
        s
    }
}

/// Leaves the clean behind and turns to the first archive of the source.
pub open spec fn enter_copying(s: SyncView) -> SyncView {
    close_if_done(SyncView { phase: Phase::Copying, cursor: 0, ..s })
}

/// Begins the work in an existing destination: the clean if there is
/// anything to remove, else the copying.
pub open spec fn start_work(s: SyncView) -> SyncView {
    if s.removals.len() > 0 {
        SyncView { phase: Phase::Cleaning, cursor: 0, ..s }
    } else {
        enter_copying(s)
    }
}

/// The state in which a run begins. A missing destination (`dest` is
/// `None`) is created first; an existing one is cleaned if `clean` is set.
pub open spec fn initial(source: Seq<DirEntry>, dest: Option<Seq<DirEntry>>, clean: bool) -> SyncView {
    let blank = SyncView {
        phase: Phase::Preparing,
        removals: if clean && dest is Some {
            archive_names(dest->0)
        } else {
            Seq::empty()
        },
        eligible: archive_names(source),
        cursor: 0,
        removed: 0,
        clean_error: None,
        abort_error: None,
        installed: 0,
        skipped: 0,
        failed: Seq::empty(),
        holdings: if dest is Some {
            entry_names(dest->0)
        } else {
            Seq::empty()
        },
    };
    if dest is Some {
        start_work(blank)
    } else {
        blank
    }
}

/// The action that a state asks for.
pub open spec fn action_of(s: SyncView) -> ActionView {
    match s.phase {
        Phase::Preparing => ActionView::CreateDestination,
        Phase::Cleaning => ActionView::Remove(s.removals[s.cursor as int]),
        Phase::Copying => if is_excluded(s.eligible[s.cursor as int]) {
            ActionView::Skip(s.eligible[s.cursor as int])
        } else {
            ActionView::Copy(s.eligible[s.cursor as int])
        },
        Phase::Finished => ActionView::Done,
        Phase::Aborted => ActionView::Done,
    }
}

/// The state after the action of `s` went as `outcome` says: `None` for
/// success, or the error text.
///
/// A destination that cannot be created ends the run. A file that cannot be
/// removed ends the clean, and the copying goes on. A file that cannot be
/// copied is noted, and the next file follows. An excluded file counts as
/// skipped whatever the outcome says.
pub open spec fn after(s: SyncView, outcome: Option<Seq<char>>) -> SyncView {
    match s.phase {
        Phase::Preparing => match outcome {
            None => start_work(s),
            Some(e) => SyncView { phase: Phase::Aborted, abort_error: Some(e), ..s },
        },
        Phase::Cleaning => match outcome {
            None => {
                let next = SyncView {
                    removed: s.removed + 1,
                    cursor: s.cursor + 1,
                    holdings: without(s.holdings, s.removals[s.cursor as int]),
                    ..s
                };
                if next.cursor >= s.removals.len() {
                    enter_copying(next)
                } else {
                    next
                }
            },
            Some(e) => enter_copying(SyncView { clean_error: Some(e), ..s }),
        },
        Phase::Copying => if is_excluded(s.eligible[s.cursor as int]) {
            close_if_done(SyncView { skipped: s.skipped + 1, cursor: s.cursor + 1, ..s })
        } else {
            match outcome {
                None => close_if_done(
                    SyncView {
                        installed: s.installed + 1,
                        cursor: s.cursor + 1,
                        holdings: with_name(s.holdings, s.eligible[s.cursor as int]),
                        ..s
                    },
                ),
                Some(e) => close_if_done(
                    SyncView {
                        failed: s.failed.push((s.eligible[s.cursor as int], e)),
                        cursor: s.cursor + 1,
                        ..s
                    },
                ),
            }
        },
        Phase::Finished => s,
        Phase::Aborted => s,
    }
}

/// The books of the copying balance: every file before the cursor was
/// installed, skipped or failed, and the skipped ones are the excluded
/// ones.
pub open spec fn balanced(s: SyncView) -> bool {
    &&& s.cursor <= s.eligible.len()
    &&& s.skipped == excluded_count(s.eligible.take(s.cursor as int))
    &&& s.installed + s.failed.len() + s.skipped == s.cursor
    &&& s.removed <= s.removals.len()
    &&& s.clean_error is None ==> s.removed == s.removals.len()
    &&& s.abort_error is None
}

/// The states that a run can be in.
pub open spec fn consistent(s: SyncView) -> bool {
    match s.phase {
        Phase::Preparing => s.cursor == 0 && s.removed == 0 && s.installed == 0 && s.skipped == 0
            && s.failed.len() == 0 && s.clean_error is None && s.abort_error is None,
        Phase::Cleaning => s.cursor < s.removals.len() && s.removed == s.cursor && s.installed == 0
            && s.skipped == 0 && s.failed.len() == 0 && s.clean_error is None
            && s.abort_error is None,
        Phase::Copying => balanced(s) && s.cursor < s.eligible.len(),
        Phase::Finished => balanced(s) && s.cursor == s.eligible.len(),
        Phase::Aborted => s.abort_error is Some && s.removed == 0 && s.installed == 0 && s.skipped
            == 0 && s.failed.len() == 0,
    }
}

/// Whether a file name has the archive extension.
pub fn is_archive(name: &str) -> (r: bool)
    ensures
        r == is_archive_name(name@),
{
    let n = chars_of(name);
    let ext = chars_of(".jar");
    n.len() > ext.len() && ends_with(&n, &ext)
}

/// Whether a file name bears the exclusion mark.
pub fn is_excluded_name(name: &str) -> (r: bool)
    ensures
        r == is_excluded(name@),
{
    let n = chars_of(name);
    n.len() > 0 && n[0] == '&'
}

/// The names of the archive files among the entries, in listing order.
pub fn archive_files(entries: &Vec<DirEntry>) -> (r: Vec<String>)
    ensures
        views(r@) == archive_names(entries@),
{
    let mut out: Vec<String> = Vec::new();
    let mut i: usize = 0;
    assert(entries@.take(0) =~= Seq::<DirEntry>::empty());
    assert(views(out@) =~= Seq::<Seq<char>>::empty());
    while i < entries.len()
        invariant
            i <= entries.len(),
            views(out@) == archive_names(entries@.take(i as int)),
        decreases entries.len() - i,
    {
        proof {
            assert(entries@.take(i + 1).drop_last() =~= entries@.take(i as int));
            assert(entries@.take(i + 1).last() == entries@[i as int]);
        }
        let ghost before = views(out@);
        if entries[i].kind == EntryKind::File && is_archive(entries[i].name.as_str()) {
            out.push(entries[i].name.clone());
            assert(views(out@) =~= before.push(entries@[i as int].name@));
        }
        i += 1;
    }
    assert(entries@.take(i as int) =~= entries@);
    out
}

/// The names of the entries, in listing order.
fn names_of(entries: &Vec<DirEntry>) -> (r: Vec<String>)
    ensures
        views(r@) == entry_names(entries@),
{
    let mut out: Vec<String> = Vec::new();
    let mut i: usize = 0;
    while i < entries.len()
        invariant
            i <= entries.len(),
            out.len() == i,
            forall|j: int| 0 <= j < i ==> (#[trigger] out[j])@ == entries[j].name@,
        decreases entries.len() - i,
    {
        out.push(entries[i].name.clone());
        i += 1;
    }
    assert(views(out@) =~= entry_names(entries@));
    out
}

/// The names without `gone`.
fn drop_name(names: &Vec<String>, gone: &str) -> (r: Vec<String>)
    ensures
        views(r@) == without(views(names@), gone@),
{
    let mut out: Vec<String> = Vec::new();
    let mut i: usize = 0;
    assert(views(names@).take(0) =~= Seq::<Seq<char>>::empty());
    assert(views(out@) =~= Seq::<Seq<char>>::empty());
    while i < names.len()
        invariant
            i <= names.len(),
            views(out@) == without(views(names@).take(i as int), gone@),
        decreases names.len() - i,
    {
        proof {
            assert(views(names@).take(i + 1).drop_last() =~= views(names@).take(i as int));
            assert(views(names@).take(i + 1).last() == names@[i as int]@);
        }
        let ghost before = views(out@);
        if !crate::text::str_eq(names[i].as_str(), gone) {
            out.push(names[i].clone());
            assert(views(out@) =~= before.push(names@[i as int]@));
        }
        i += 1;
    }
    assert(views(names@).take(i as int) =~= views(names@));
    out
}

/// Puts `new` among the names, unless it is there.
fn add_name(names: &mut Vec<String>, new: &str)
    ensures
        views(final(names)@) == with_name(views(old(names)@), new@),
{
    let ghost before = views(names@);
    let mut i: usize = 0;
    while i < names.len()
        invariant
            i <= names.len(),
            before == views(names@),
            forall|j: int| 0 <= j < i ==> (#[trigger] before[j]) != new@,
        decreases names.len() - i,
    {
        if crate::text::str_eq(names[i].as_str(), new) {
            assert(before[i as int] == new@);
            return ;
        }
        i += 1;
    }
    names.push(new.to_owned());
    assert(views(names@) =~= before.push(new@));
}

/// One run of the synchroniser.
pub struct ModSync {
    phase: Phase,
    removals: Vec<String>,
    eligible: Vec<String>,
    cursor: usize,
    removed: usize,
    clean_error: Option<String>,
    abort_error: Option<String>,
    report: SyncReport,
    present: Vec<String>,
}

/// The text of an optional string.
pub open spec fn text_of(s: Option<String>) -> Option<Seq<char>> {
    match s {
        Some(t) => Some(t@),
        None => None,
    }
}

impl View for ModSync {
    type V = SyncView;

    closed spec fn view(&self) -> SyncView {
        SyncView {
            phase: self.phase,
            removals: views(self.removals@),
            eligible: views(self.eligible@),
            cursor: self.cursor as nat,
            removed: self.removed as nat,
            clean_error: text_of(self.clean_error),
            abort_error: text_of(self.abort_error),
            installed: self.report.installed as nat,
            skipped: self.report.skipped as nat,
            failed: failures(self.report.failed@),
            holdings: views(self.present@),
        }
    }
}

impl ModSync {
    /// Ends the run once every archive of the source has had its turn.
    fn settle(&mut self)
        requires
            old(self).phase == Phase::Copying,
            balanced(old(self)@),
        ensures
            final(self)@ == close_if_done(old(self)@),
            consistent(final(self)@),
    {
        if self.cursor >= self.eligible.len() {
            self.phase = Phase::Finished;
        }
    }

    /// Begins the work in an existing destination.
    fn start(&mut self)
        requires
            old(self).phase == Phase::Preparing,
            consistent(old(self)@),
        ensures
            final(self)@ == start_work(old(self)@),
            consistent(final(self)@),
    {
        if self.removals.len() > 0 {
            self.phase = Phase::Cleaning;
            self.cursor = 0;
        } else {
            self.turn_to_copying();
        }
    }

    /// Leaves the clean behind.
    fn turn_to_copying(&mut self)
        requires
            old(self).phase == Phase::Preparing || old(self).phase == Phase::Cleaning,
            old(self)@.removed <= old(self)@.removals.len(),
            old(self)@.clean_error is None ==> old(self)@.removed == old(self)@.removals.len(),
            old(self)@.installed == 0,
            old(self)@.skipped == 0,
            old(self)@.failed.len() == 0,
            old(self)@.abort_error is None,
        ensures
            final(self)@ == enter_copying(old(self)@),
            consistent(final(self)@),
    {
        self.phase = Phase::Copying;
        self.cursor = 0;
        assert(views(self.eligible@).take(0) =~= Seq::<Seq<char>>::empty());
        self.settle();
    }

    /// A run that brings the archives listed in `source` into the
    /// destination. `dest` holds the entries of the destination, or `None`
    /// if it does not exist yet; with `clean` set, the archives found there
    /// are removed before anything is copied.
    pub fn begin(source: &Vec<DirEntry>, dest: Option<&Vec<DirEntry>>, clean: bool) -> (r: ModSync)
        ensures
            r@ == initial(
                source@,
                match dest {
                    Some(d) => Some(d@),
                    None => None,
                },
                clean,
            ),
            consistent(r@),
    {
        let removals = match dest {
            Some(d) => if clean {
                archive_files(d)
            } else {
                Vec::new()
            },
            None => Vec::new(),
        };
        let eligible = archive_files(source);
        let present = match dest {
            Some(d) => names_of(d),
            None => Vec::new(),
        };
        let mut run = ModSync {
            phase: Phase::Preparing,
            removals,
            eligible,
            cursor: 0,
            removed: 0,
            clean_error: None,
            abort_error: None,
            report: SyncReport { installed: 0, skipped: 0, failed: Vec::new() },
            present,
        };
        assert(run@.holdings =~= if dest is Some {
            entry_names(dest->0@)
        } else {
            Seq::empty()
        });
        assert(run@.removals =~= if clean && dest is Some {
            archive_names(dest->0@)
        } else {
            Seq::empty()
        });
        assert(run@.failed =~= Seq::empty());
        if dest.is_some() {
            run.start();
        }
        run
    }

    /// What the caller is to do next.
    pub fn next_action(&self) -> (r: SyncAction)
        requires
            consistent(self@),
        ensures
            r@ == action_of(self@),
    {
        match self.phase {
            Phase::Preparing => SyncAction::CreateDestination,
            Phase::Cleaning => SyncAction::Remove(self.removals[self.cursor].clone()),
            Phase::Copying => {
                let name = self.eligible[self.cursor].clone();
                if is_excluded_name(name.as_str()) {
                    SyncAction::Skip(name)
                } else {
                    SyncAction::Copy(name)
                }
            },
            Phase::Finished => SyncAction::Done,
            Phase::Aborted => SyncAction::Done,
        }
    }

    /// Takes in how the action last asked for went: `Ok`, or the error
    /// text. Once the run is over this changes nothing.
    pub fn record(&mut self, outcome: Result<(), String>)
        requires
            consistent(old(self)@),
        ensures
            final(self)@ == after(
                old(self)@,
                match outcome {
                    Ok(_) => None,
                    Err(e) => Some(e@),
                },
            ),
            consistent(final(self)@),
    {
        match self.phase {
            Phase::Preparing => match outcome {
                Ok(_) => {
                    self.start();
                },
                Err(e) => {
                    self.abort_error = Some(e);
                    self.phase = Phase::Aborted;
                },
            },
            Phase::Cleaning => match outcome {
                Ok(_) => {
                    assert(self.removed < self.removals.len());
                    let left = drop_name(&self.present, self.removals[self.cursor].as_str());
                    self.present = left;
                    self.removed = self.removed + 1;
                    self.cursor = self.cursor + 1;
                    if self.cursor >= self.removals.len() {
                        self.turn_to_copying();
                    }
                },
                Err(e) => {
                    self.clean_error = Some(e);
                    self.turn_to_copying();
                },
            },
            Phase::Copying => {
                proof {
                    let names = views(self.eligible@);
                    assert(names.take(self.cursor + 1).drop_last() =~= names.take(
                        self.cursor as int,
                    ));
                    assert(names.take(self.cursor + 1).last() == names[self.cursor as int]);
                }
                if is_excluded_name(self.eligible[self.cursor].as_str()) {
                    assert(self.report.skipped < self.eligible.len());
                    self.report.skipped = self.report.skipped + 1;
                } else {
                    match outcome {
                        Ok(_) => {
                            assert(self.report.installed < self.eligible.len());
                            let name = self.eligible[self.cursor].clone();
                            add_name(&mut self.present, name.as_str());
                            self.report.installed = self.report.installed + 1;
                        },
                        Err(e) => {
                            let ghost before = failures(self.report.failed@);
                            let name = self.eligible[self.cursor].clone();
                            self.report.failed.push(FailedItem { name, error: e });
                            assert(failures(self.report.failed@) =~= before.push(
                                (self.eligible@[self.cursor as int]@, e@),
                            ));
                        },
                    }
                }
                assert(self.cursor < self.eligible.len());
                self.cursor = self.cursor + 1;
                self.settle();
            },
            Phase::Finished => {},
            Phase::Aborted => {},
        }
    }

    /// Whether the run is over, in one way or the other.
    pub fn is_over(&self) -> (r: bool)
        ensures
            r == (self@.phase == Phase::Finished || self@.phase == Phase::Aborted),
    {
        match self.phase {
            Phase::Finished => true,
            Phase::Aborted => true,
            _ => false,
        }
    }

    /// The position, among the archives of the source, of the one whose
    /// turn it is; their number once the run is finished.
    pub fn position(&self) -> (r: usize)
        ensures
            self@.phase == Phase::Copying || self@.phase == Phase::Finished ==> r == self@.cursor,
            !(self@.phase == Phase::Copying || self@.phase == Phase::Finished) ==> r == 0,
    {
        match self.phase {
            Phase::Copying => self.cursor,
            Phase::Finished => self.cursor,
            _ => 0,
        }
    }

    /// How many archives the source holds.
    pub fn total(&self) -> (r: usize)
        ensures
            r == self@.eligible.len(),
    {
        self.eligible.len()
    }

    /// The names that the destination holds, as far as the run knows: what
    /// was listed at the start, less what was removed, with what was copied.
    pub fn expected_names(&self) -> (r: &Vec<String>)
        ensures
            views(r@) == self@.holdings,
    {
        &self.present
    }

    /// How many files the clean has removed.
    pub fn removed_count(&self) -> (r: usize)
        ensures
            r == self@.removed,
    {
        self.removed
    }

    /// The error that ended the clean early, if one did.
    pub fn clean_failure(&self) -> (r: Option<String>)
        ensures
            text_of(r) == self@.clean_error,
    {
        match &self.clean_error {
            Some(e) => Some(e.clone()),
            None => None,
        }
    }

    /// Ends the run and gives up its account: the report, or the error that
    /// kept the destination from being created.
    pub fn into_report(self) -> (r: Result<SyncReport, String>)
        requires
            consistent(self@),
        ensures
            match r {
                Ok(report) => self@.phase != Phase::Aborted && report.installed == self@.installed
                    && report.skipped == self@.skipped && failures(report.failed@) == self@.failed,
                Err(e) => self@.phase == Phase::Aborted && self@.abort_error == Some(e@),
            },
    {
        match self.abort_error {
            Some(e) => Err(e),
            None => Ok(self.report),
        }
    }
}

/// When no archive of the source is excluded and no copy fails, a finished
/// run has installed every one of them and skipped none.
pub proof fn lemma_all_installed(s: SyncView)
    requires
        consistent(s),
        s.phase == Phase::Finished,
        excluded_count(s.eligible) == 0,
        s.failed.len() == 0,
    ensures
        s.installed == s.eligible.len(),
        s.skipped == 0,
{
    assert(s.eligible.take(s.cursor as int) =~= s.eligible);
}

/// In a finished run every archive of the source is accounted for: it was
/// installed, it failed, or it was skipped; and the skipped ones are
/// exactly the excluded ones.
pub proof fn lemma_books_balance(s: SyncView)
    requires
        consistent(s),
        s.phase == Phase::Finished,
    ensures
        s.installed + s.failed.len() + s.skipped == s.eligible.len(),
        s.skipped == excluded_count(s.eligible),
{
    assert(s.eligible.take(s.cursor as int) =~= s.eligible);
}

/// A file that bears the exclusion mark is never handed out for copying,
/// and when its turn is over it has been counted as skipped and as nothing
/// else, whatever outcome was recorded for it.
pub proof fn lemma_excluded_never_copied(s: SyncView, outcome: Option<Seq<char>>)
    requires
        consistent(s),
    ensures
        action_of(s) matches ActionView::Copy(name) ==> !is_excluded(name),
        action_of(s) matches ActionView::Skip(name) ==> is_excluded(name) && after(
            s,
            outcome,
        ).skipped == s.skipped + 1 && after(s, outcome).installed == s.installed && after(
            s,
            outcome,
        ).failed == s.failed,
{
}

/// The clean comes before the copying and is over when the copying
/// begins: from then on no removal is asked for, and the count of removed
/// files stays as it is, whatever becomes of the copies.
pub proof fn lemma_clean_precedes_copying(s: SyncView, outcome: Option<Seq<char>>)
    requires
        consistent(s),
        s.phase == Phase::Copying,
    ensures
        after(s, outcome).removed == s.removed,
        !(action_of(after(s, outcome)) is Remove),
        !(action_of(after(s, outcome)) is CreateDestination),
{
}

/// A clean that met no error has removed every archive that was in the
/// destination, and it has done so before the first copy.
pub proof fn lemma_clean_removes_all(s: SyncView)
    requires
        consistent(s),
        s.phase == Phase::Copying || s.phase == Phase::Finished,
        s.clean_error is None,
    ensures
        s.removed == s.removals.len(),
{
}

/// The state that a run reaches from `s` when its actions go as
/// `outcomes` say, one after the other.
pub open spec fn run(s: SyncView, outcomes: Seq<Option<Seq<char>>>) -> SyncView
    decreases outcomes.len(),
{
    if outcomes.len() == 0 {
        s
    } else {
        after(run(s, outcomes.drop_last()), outcomes.last())
    }
}

/// `n` actions that all went well.
pub open spec fn all_fine(n: nat) -> Seq<Option<Seq<char>>> {
    Seq::new(n, |i: int| None)
}

/// A run without clean into a destination that holds none of the source's
/// archives, none of which is excluded or listed twice, and whose copies
/// all succeed: after `k` copies `k` archives are installed, none is
/// skipped or failed, and the destination holds what it held and these `k`.
/// When all are through, the run is finished, and the destination holds as
/// many names as it held before and the source has archives.
pub proof fn lemma_install_adds_all(source: Seq<DirEntry>, dest: Seq<DirEntry>, k: nat)
    requires
        forall|i: int|
            0 <= i < archive_names(source).len() ==> !is_excluded(
                #[trigger] archive_names(source)[i],
            ),
        archive_names(source).no_duplicates(),
        forall|i: int|
            0 <= i < archive_names(source).len() ==> !entry_names(dest).contains(
                #[trigger] archive_names(source)[i],
            ),
        k <= archive_names(source).len(),
    ensures
        ({
            let s = run(initial(source, Some(dest), false), all_fine(k));
            &&& s.installed == k
            &&& s.skipped == 0
            &&& s.failed.len() == 0
            &&& s.removed == 0
            &&& s.cursor == k
            &&& s.eligible == archive_names(source)
            &&& s.holdings == entry_names(dest) + archive_names(source).take(k as int)
            &&& s.holdings.len() == dest.len() + k
            &&& s.phase == if k < archive_names(source).len() {
                Phase::Copying
            } else {
                Phase::Finished
            }
        }),
    decreases k,
{
    let names = archive_names(source);
    let start = initial(source, Some(dest), false);
    if k == 0 {
        assert(all_fine(0).len() == 0);
        assert(start.holdings =~= entry_names(dest) + names.take(0));
    } else {
        let j = (k - 1) as nat;
        lemma_install_adds_all(source, dest, j);
        let before = run(start, all_fine(j));
        assert(all_fine(k).drop_last() =~= all_fine(j));
        assert(all_fine(k).last() == None::<Seq<char>>);
        assert(run(start, all_fine(k)) == after(before, None));
        let name = names[j as int];
        assert(!before.holdings.contains(name)) by {
            if before.holdings.contains(name) {
                let i = choose|i: int| 0 <= i < before.holdings.len() && before.holdings[i] == name;
                if i < dest.len() {
                    assert(entry_names(dest)[i] == name);
                    assert(entry_names(dest).contains(name));
                } else {
                    assert(names.take(j as int)[i - dest.len()] == name);
                    assert(names[i - dest.len()] == names[j as int]);
                }
            }
        }
        assert(before.holdings.push(name) =~= entry_names(dest) + names.take(k as int));
    }
}

/// A run with clean begins with the removal of every archive that the
/// destination holds, in listing order, and no file of the source has had
/// its turn before the last of them is gone: after `k` removals that went
/// well, `k` files are counted as removed, the next action is the removal
/// of the next archive, and only when none is left does the copying begin.
pub proof fn lemma_clean_comes_first(source: Seq<DirEntry>, dest: Seq<DirEntry>, k: nat)
    requires
        k <= archive_names(dest).len(),
    ensures
        ({
            let s = run(initial(source, Some(dest), true), all_fine(k));
            &&& s.removed == k
            &&& s.removals == archive_names(dest)
            &&& s.installed == 0
            &&& s.skipped == 0
            &&& s.failed.len() == 0
            &&& s.clean_error is None
            &&& k < archive_names(dest).len() ==> s.phase == Phase::Cleaning && s.cursor == k
                && action_of(s) == ActionView::Remove(archive_names(dest)[k as int])
            &&& k == archive_names(dest).len() ==> (s.phase == Phase::Copying || s.phase
                == Phase::Finished) && s.cursor == 0
        }),
    decreases k,
{
    let start = initial(source, Some(dest), true);
    if k == 0 {
        assert(all_fine(0).len() == 0);
    } else {
        let j = (k - 1) as nat;
        lemma_clean_comes_first(source, dest, j);
        assert(all_fine(k).drop_last() =~= all_fine(j));
        assert(all_fine(k).last() == None::<Seq<char>>);
        assert(run(start, all_fine(k)) == after(run(start, all_fine(j)), None));
    }
}

/// A file that was copied is held by the destination from then on: the
/// copy puts its name among the names held, and nothing that happens while
/// files are copied takes a name away.
pub proof fn lemma_copied_files_stay(s: SyncView, outcome: Option<Seq<char>>, name: Seq<char>)
    requires
        consistent(s),
        s.phase == Phase::Copying,
    ensures
        action_of(s) == ActionView::Copy(name) && outcome is None ==> after(
            s,
            outcome,
        ).holdings.contains(name),
        s.holdings.contains(name) ==> after(s, outcome).holdings.contains(name),
{
    let held = s.holdings;
    let new = s.eligible[s.cursor as int];
    if held.contains(name) {
        let i = choose|i: int| 0 <= i < held.len() && held[i] == name;
        assert(held.push(new)[i] == name);
    }
    if !held.contains(new) {
        assert(held.push(new)[held.len() as int] == new);
    }
}

/// What `archive_names` returns are names of archive files among the
/// entries.
pub proof fn lemma_archive_names_are_archives(entries: Seq<DirEntry>, i: int)
    requires
        0 <= i < archive_names(entries).len(),
    ensures
        is_archive_name(archive_names(entries)[i]),
        exists|j: int|
            0 <= j < entries.len() && (#[trigger] entries[j]).kind == EntryKind::File
                && entries[j].name@
                == archive_names(entries)[i],
    decreases entries.len(),
{
    let before = archive_names(entries.drop_last());
    if i < before.len() {
        lemma_archive_names_are_archives(entries.drop_last(), i);
        let j = choose|j: int|
            0 <= j < entries.drop_last().len() && (#[trigger] entries.drop_last()[j]).kind
                == EntryKind::File
                && entries.drop_last()[j].name@ == before[i];
        assert(entries[j] == entries.drop_last()[j]);
    } else {
        assert(entries[entries.len() - 1].kind == EntryKind::File);
    }
}

/// Whatever happens, a run touches archive files only: a file that it
/// asks to remove is an archive file listed in the destination, and a file
/// that it asks to copy or passes over is an archive file listed in the
/// source.
pub proof fn lemma_run_touches_archives_only(
    source: Seq<DirEntry>,
    dest: Option<Seq<DirEntry>>,
    clean: bool,
    outcomes: Seq<Option<Seq<char>>>,
)
    ensures
        ({
            let s = run(initial(source, dest, clean), outcomes);
            &&& s.eligible == archive_names(source)
            &&& s.removals == if clean && dest is Some {
                archive_names(dest->0)
            } else {
                Seq::empty()
            }
            &&& consistent(s)
            &&& match action_of(s) {
                ActionView::Remove(name) => clean && dest is Some && archive_names(
                    dest->0,
                ).contains(name) && is_archive_name(name),
                ActionView::Copy(name) => archive_names(source).contains(name) && is_archive_name(
                    name,
                ),
                ActionView::Skip(name) => archive_names(source).contains(name) && is_archive_name(
                    name,
                ),
                _ => true,
            }
        }),
    decreases outcomes.len(),
{
    let start = initial(source, dest, clean);
    lemma_initial_consistent(source, dest, clean);
    lemma_run_consistent(start, outcomes);
    if outcomes.len() > 0 {
        lemma_run_touches_archives_only(source, dest, clean, outcomes.drop_last());
    }
    let s = run(start, outcomes);
    match action_of(s) {
        ActionView::Remove(name) => {
            lemma_archive_names_are_archives(dest->0, s.cursor as int);
        },
        ActionView::Copy(name) => {
            lemma_archive_names_are_archives(source, s.cursor as int);
        },
        ActionView::Skip(name) => {
            lemma_archive_names_are_archives(source, s.cursor as int);
        },
        _ => {},
    }
}

/// A run begins in a state that a run can be in.
pub proof fn lemma_initial_consistent(source: Seq<DirEntry>, dest: Option<Seq<DirEntry>>, clean: bool)
    ensures
        consistent(initial(source, dest, clean)),
{
    assert(archive_names(source).take(0) =~= Seq::<Seq<char>>::empty());
}

/// Every state that a run passes through is one that a run can be in.
pub proof fn lemma_run_consistent(s: SyncView, outcomes: Seq<Option<Seq<char>>>)
    requires
        consistent(s),
    ensures
        consistent(run(s, outcomes)),
    decreases outcomes.len(),
{
    if outcomes.len() > 0 {
        lemma_run_consistent(s, outcomes.drop_last());
        lemma_after_consistent(run(s, outcomes.drop_last()), outcomes.last());
    }
}

/// One step leads from a state that a run can be in to another.
pub proof fn lemma_after_consistent(s: SyncView, outcome: Option<Seq<char>>)
    requires
        consistent(s),
    ensures
        consistent(after(s, outcome)),
{
    if s.phase == Phase::Copying {
        assert(s.eligible.take(s.cursor as int + 1).drop_last() =~= s.eligible.take(s.cursor as int));
        assert(s.eligible.take(s.cursor as int + 1).last() == s.eligible[s.cursor as int]);
    }
    assert(s.eligible.take(0) =~= Seq::<Seq<char>>::empty());
}

} // verus!
