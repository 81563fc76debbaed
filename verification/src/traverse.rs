//! The directory walk, as a machine that the caller drives: the machine
//! says which directory to list next, the caller lists it and hands the
//! entries back.
//!
//! The walk is bounded by a depth limit and nothing else, so links that
//! lead back into the tree are followed until the limit cuts them off.
//!
//! The same walk can be made in one go over listings that were recorded
//! earlier; see `traverse`.

use vstd::prelude::*;
use crate::classifier::{classify, lowered_base_of, verdict};
use crate::listing::{find_record, lookup, DirEntry, DirRecord, EntryKind};
use crate::path::{
    base_name, base_of, child_of, child_path, is_component, is_component_name, lemma_base_of_child,
};
use crate::text::{chars_of, lowercase_of, same_chars, str_eq, to_lowercase};

verus! {

/// What the walk looks for.
#[derive(Clone, Copy, Debug, PartialEq, Eq, Structural)]
pub enum WalkMode {
    /// Every directory that the classifier accepts; hidden directories and
    /// build or cache directories are not entered.
    Heuristic,
    /// Every directory called `.minecraft`; every directory is entered.
    ExactName,
}

/// A directory and its distance from the root of the walk.
#[derive(Debug)]
pub struct Visit {
    pub path: String,
    pub depth: usize,
}

/// A directory and its distance from the root of the walk, as plain values.
pub struct Place {
    pub path: Seq<char>,
    pub depth: nat,
}

impl Visit {
    /// The plain value of this record.
    pub open spec fn place(&self) -> Place {
        Place { path: self.path@, depth: self.depth as nat }
    }
}

/// The plain values of a sequence of records.
pub open spec fn places(v: Seq<Visit>) -> Seq<Place> {
    Seq::new(v.len(), |i: int| v[i].place())
}

/// No member lies deeper than `limit`.
pub open spec fn within(ps: Seq<Place>, limit: nat) -> bool {
    forall|i: int| 0 <= i < ps.len() ==> (#[trigger] ps[i]).depth <= limit
}

/// The names of directories that are never entered.
pub open spec fn in_skip_list(name: Seq<char>) -> bool {
    ||| name == "node_modules"@
    ||| name == ".git"@
    ||| name == ".idea"@
    ||| name == "target"@
    ||| name == "build"@
    ||| name == "__pycache__"@
}

/// A directory is pruned when its name, as written or lower-cased, is on
/// the skip list, or when it is hidden.
pub open spec fn is_pruned(name: Seq<char>, lowered: Seq<char>) -> bool {
    in_skip_list(name) || in_skip_list(lowered) || (name.len() > 0 && name[0] == '.')
}

/// The entries of an optional listing.
pub open spec fn seen(listing: Option<&Vec<DirEntry>>) -> Option<Seq<DirEntry>> {
    match listing {
        Some(entries) => Some(entries@),
        None => None,
    }
}

/// Whether the directory at `path` is reported.
pub open spec fn is_hit(mode: WalkMode, path: Seq<char>, listing: Option<Seq<DirEntry>>) -> bool {
    match mode {
        WalkMode::Heuristic => listing is Some && verdict(
            path,
            lowered_base_of(path),
            listing->0,
        ).is_match,
        WalkMode::ExactName => base_of(path) == Some(".minecraft"@),
    }
}

/// Whether the walk enters this entry of a directory: a directory with a
/// proper name that is not pruned.
pub open spec fn enters(mode: WalkMode, entry: DirEntry) -> bool {
    entry.kind == EntryKind::Dir && is_component(entry.name@) && (mode == WalkMode::ExactName || !is_pruned(
        entry.name@,
        lowercase_of(entry.name@),
    ))
}

/// A place below a root was entered by its name, and in the heuristic walk
/// this name is not pruned.
pub open spec fn arrived(mode: WalkMode, p: Place) -> bool {
    p.depth > 0 ==> match base_of(p.path) {
        Some(name) => mode == WalkMode::ExactName || !is_pruned(name, lowercase_of(name)),
        None => false,
    }
}

/// Every member was reached as `arrived` says.
pub open spec fn all_arrived(mode: WalkMode, ps: Seq<Place>) -> bool {
    forall|i: int| 0 <= i < ps.len() ==> arrived(mode, #[trigger] ps[i])
}

/// The directories that the walk enters from the directory `dir` at
/// `depth`, in the order of its entries.
pub open spec fn descents(mode: WalkMode, dir: Seq<char>, depth: nat, entries: Seq<DirEntry>) -> Seq<
    Place,
>
    decreases entries.len(),
{
    if entries.len() == 0 {
        Seq::empty()
    } else {
        let before = descents(mode, dir, depth, entries.drop_last());
        if enters(mode, entries.last()) {
            before.push(Place { path: child_of(dir, entries.last().name@), depth: depth + 1 })
        } else {
            before
        }
    }
}

fn on_skip_list(name: &Vec<char>) -> (r: bool)
    ensures
        r == in_skip_list(name@),
{
    let a = chars_of("node_modules");
    let b = chars_of(".git");
    let c = chars_of(".idea");
    let d = chars_of("target");
    let e = chars_of("build");
    let f = chars_of("__pycache__");
    same_chars(name, &a) || same_chars(name, &b) || same_chars(name, &c) || same_chars(name, &d)
        || same_chars(name, &e) || same_chars(name, &f)
}

/// Whether a directory of this name, with this lower-cased form, is left
/// out of the walk.
pub fn should_skip(name: &str, lowered: &str) -> (r: bool)
    ensures
        r == is_pruned(name@, lowered@),
{
    let n = chars_of(name);
    let l = chars_of(lowered);
    on_skip_list(&n) || on_skip_list(&l) || (n.len() > 0 && n[0] == '.')
}

/// The directories to enter from `dir`, given its entries.
fn children_to_visit(mode: WalkMode, dir: &Visit, entries: &Vec<DirEntry>) -> (out: Vec<Visit>)
    requires
        dir.depth < usize::MAX,
    ensures
        places(out@) == descents(mode, dir.path@, dir.depth as nat, entries@),
{
    let mut out: Vec<Visit> = Vec::new();
    let mut i: usize = 0;
    assert(entries@.take(0) =~= Seq::<DirEntry>::empty());
    assert(places(out@) =~= Seq::<Place>::empty());
    while i < entries.len()
        invariant
            i <= entries.len(),
            dir.depth < usize::MAX,
            places(out@) == descents(mode, dir.path@, dir.depth as nat, entries@.take(i as int)),
        decreases entries.len() - i,
    {
        let entry = &entries[i];
        let ghost before = places(out@);
        proof {
            assert(entries@.take(i + 1).drop_last() =~= entries@.take(i as int));
            assert(entries@.take(i + 1).last() == entries@[i as int]);
        }
        let mut enter = entry.kind == EntryKind::Dir && is_component_name(entry.name.as_str());
        if enter {
            match mode {
                WalkMode::ExactName => {},
                WalkMode::Heuristic => {
                    let lowered = to_lowercase(entry.name.as_str());
                    enter = !should_skip(entry.name.as_str(), lowered.as_str());
                },
            }
        }
        if enter {
            let child = child_path(dir.path.as_str(), entry.name.as_str());
            out.push(Visit { path: child, depth: dir.depth + 1 });
            assert(places(out@) =~= before.push(
                Place { path: child_of(dir.path@, entry.name@), depth: (dir.depth + 1) as nat },
            ));
        }
        i += 1;
    }
    assert(entries@.take(i as int) =~= entries@);
    out
}

/// The state of one walk.
pub struct Traverser {
    mode: WalkMode,
    max_depth: usize,
    queue: Vec<Visit>,
    current: Option<Visit>,
    hits: Vec<Visit>,
}

impl Traverser {
    /// What the walk looks for.
    pub closed spec fn mode(&self) -> WalkMode {
        self.mode
    }

    /// The depth below which nothing is entered.
    pub closed spec fn limit(&self) -> nat {
        self.max_depth as nat
    }

    /// The directories still to be listed; the last one is next.
    pub closed spec fn pending(&self) -> Seq<Place> {
        places(self.queue@)
    }

    /// The directory handed out for listing and not yet visited.
    pub closed spec fn visiting(&self) -> Option<Place> {
        match self.current {
            Some(v) => Some(v.place()),
            None => None,
        }
    }

    /// The directories reported so far, in the order of their visits.
    pub closed spec fn found(&self) -> Seq<Place> {
        places(self.hits@)
    }

    /// Nothing that the walk holds lies deeper than the limit, and
    /// everything below a root was entered by a name that is not pruned.
    pub open spec fn wf(&self) -> bool {
        &&& within(self.pending(), self.limit())
        &&& within(self.found(), self.limit())
        &&& self.visiting() is Some ==> self.visiting()->0.depth <= self.limit()
        &&& all_arrived(self.mode(), self.pending())
        &&& all_arrived(self.mode(), self.found())
        &&& self.visiting() is Some ==> arrived(self.mode(), self.visiting()->0)
    }

    /// A walk that starts at `root` and enters nothing deeper than
    /// `max_depth` levels below it.
    pub fn new(root: &str, max_depth: usize, mode: WalkMode) -> (t: Traverser)
        ensures
            t.wf(),
            t.mode() == mode,
            t.limit() == max_depth,
            t.pending() == seq![Place { path: root@, depth: 0 }],
            t.visiting() is None,
            t.found() == Seq::<Place>::empty(),
    {
        let mut queue: Vec<Visit> = Vec::new();
        queue.push(Visit { path: root.to_owned(), depth: 0 });
        let t = Traverser { mode, max_depth, queue, current: None, hits: Vec::new() };
        assert(t.pending() =~= seq![Place { path: root@, depth: 0 }]);
        assert(t.found() =~= Seq::<Place>::empty());
        t
    }

    /// A walk that starts at each of `roots`, the last one first.
    pub fn with_roots(roots: &Vec<String>, max_depth: usize, mode: WalkMode) -> (t: Traverser)
        ensures
            t.wf(),
            t.mode() == mode,
            t.limit() == max_depth,
            t.pending().len() == roots.len(),
            forall|i: int|
                0 <= i < roots.len() ==> (#[trigger] t.pending()[i]) == (Place {
                    path: roots[i]@,
                    depth: 0,
                }),
            t.visiting() is None,
            t.found() == Seq::<Place>::empty(),
    {
        let mut queue: Vec<Visit> = Vec::new();
        let mut i: usize = 0;
        while i < roots.len()
            invariant
                i <= roots.len(),
                queue.len() == i,
                forall|j: int|
                    0 <= j < i ==> (#[trigger] queue[j]).place() == (Place {
                        path: roots[j]@,
                        depth: 0,
                    }),
            decreases roots.len() - i,
        {
            queue.push(Visit { path: roots[i].clone(), depth: 0 });
            i += 1;
        }
        let t = Traverser { mode, max_depth, queue, current: None, hits: Vec::new() };
        assert(t.found() =~= Seq::<Place>::empty());
        t
    }

    /// Whether every directory has been listed.
    pub fn is_done(&self) -> (r: bool)
        ensures
            r == (self.pending().len() == 0 && self.visiting() is None),
    {
        self.queue.len() == 0 && self.current.is_none()
    }

    /// Takes the next directory to list and returns its path; `None` when
    /// none is left. A directory handed out earlier and never visited is
    /// given up. What is handed out lies no deeper than the limit, and
    /// below a root it bears a name that is not pruned.
    pub fn next_dir(&mut self) -> (r: Option<String>)
        requires
            old(self).wf(),
        ensures
            final(self).wf(),
            final(self).mode() == old(self).mode(),
            final(self).limit() == old(self).limit(),
            final(self).found() == old(self).found(),
            old(self).pending().len() == 0 ==> r is None && final(self).visiting() is None
                && final(self).pending() == old(self).pending(),
            old(self).pending().len() > 0 ==> r is Some && r->0@ == old(self).pending().last().path
                && final(self).visiting() == Some(old(self).pending().last())
                && final(self).pending() == old(self).pending().drop_last()
                && old(self).pending().last().depth <= old(self).limit() && arrived(
                old(self).mode(),
                old(self).pending().last(),
            ),
    {
        let ghost before = places(self.queue@);
        match self.queue.pop() {
            None => {
                self.current = None;
                None
            },
            Some(next) => {
                let path = next.path.clone();
                assert(next.place() == before.last());
                assert(places(self.queue@) =~= before.drop_last());
                assert(within(places(self.queue@), self.max_depth as nat)) by {
                    assert forall|i: int| 0 <= i < places(self.queue@).len() implies (
                    #[trigger] places(self.queue@)[i]).depth <= self.max_depth by {
                        assert(places(self.queue@)[i] == before[i]);
                    }
                }
                assert(all_arrived(self.mode, places(self.queue@))) by {
                    assert forall|i: int| 0 <= i < places(self.queue@).len() implies arrived(
                        self.mode,
                        #[trigger] places(self.queue@)[i],
                    ) by {
                        assert(places(self.queue@)[i] == before[i]);
                    }
                }
                self.current = Some(next);
                Some(path)
            },
        }
    }

    /// Takes in the entries of the directory that `next_dir` handed out;
    /// `None` stands for a directory that could not be listed, which is
    /// passed over. The directory is reported if it is a hit, and its
    /// subdirectories are queued unless it lies at the depth limit or they
    /// are pruned.
    pub fn visit(&mut self, listing: Option<&Vec<DirEntry>>)
        requires
            old(self).wf(),
        ensures
            final(self).wf(),
            final(self).mode() == old(self).mode(),
            final(self).limit() == old(self).limit(),
            final(self).visiting() is None,
            old(self).visiting() is None ==> final(self).pending() == old(self).pending()
                && final(self).found() == old(self).found(),
            old(self).visiting() matches Some(dir) ==> {
                &&& final(self).found() == if is_hit(old(self).mode(), dir.path, seen(listing)) {
                    old(self).found().push(dir)
                } else {
                    old(self).found()
                }
                &&& final(self).pending() == if listing is Some && dir.depth < old(self).limit() {
                    old(self).pending() + descents(
                        old(self).mode(),
                        dir.path,
                        dir.depth,
                        listing->0@,
                    )
                } else {
                    old(self).pending()
                }
                &&& final(self).pending() == after_pair(
                    old(self).pending().push(dir),
                    old(self).mode(),
                    old(self).limit(),
                    seen(listing),
                )
            },
    {
        let ghost queued = places(self.queue@);
        proof {
            if self.current is Some {
                let dir = self.current->0.place();
                assert(queued.push(dir).drop_last() =~= queued);
                assert(queued.push(dir).last() == dir);
            }
        }
        let ghost reported = places(self.hits@);
        let cur = self.current.take();
        match cur {
            None => {},
            Some(dir) => {
                let hit = match self.mode {
                    WalkMode::Heuristic => match classify(dir.path.as_str(), listing) {
                        Some(c) => c.is_match,
                        None => false,
                    },
                    WalkMode::ExactName => match base_name(dir.path.as_str()) {
                        Some(name) => str_eq(name.as_str(), ".minecraft"),
                        None => false,
                    },
                };
                if let Some(entries) = listing {
                    if dir.depth < self.max_depth {
                        let mut more = children_to_visit(self.mode, &dir, entries);
                        let ghost added = places(more@);
                        proof {
                            lemma_descents_depth(
                                self.mode,
                                dir.path@,
                                dir.depth as nat,
                                entries@,
                            );
                            lemma_descents_arrived(
                                self.mode,
                                dir.path@,
                                dir.depth as nat,
                                entries@,
                            );
                        }
                        self.queue.append(&mut more);
                        assert(places(self.queue@) =~= queued + added);
                    }
                }
                if hit {
                    let ghost place = dir.place();
                    self.hits.push(dir);
                    assert(places(self.hits@) =~= reported.push(place));
                }
            },
        }
    }

    /// The directories reported so far, in the order of their visits. None
    /// of them lies deeper than the limit.
    pub fn hits(&self) -> (r: &Vec<Visit>)
        requires
            self.wf(),
        ensures
            places(r@) == self.found(),
            within(places(r@), self.limit()),
            all_arrived(self.mode(), places(r@)),
    {
        &self.hits
    }

    /// Ends the walk and gives up the directories reported. None of them
    /// lies deeper than the limit.
    pub fn finish(self) -> (r: Vec<Visit>)
        requires
            self.wf(),
        ensures
            places(r@) == self.found(),
            within(places(r@), self.limit()),
            all_arrived(self.mode(), places(r@)),
    {
        self.hits
    }
}

/// Every directory entered from a directory at `depth` lies one level
/// deeper.
pub proof fn lemma_descents_depth(mode: WalkMode, dir: Seq<char>, depth: nat, entries: Seq<DirEntry>)
    ensures
        forall|k: int|
            0 <= k < descents(mode, dir, depth, entries).len() ==> (#[trigger] descents(
                mode,
                dir,
                depth,
                entries,
            )[k]).depth == depth + 1,
    decreases entries.len(),
{
    let d = descents(mode, dir, depth, entries);
    if entries.len() > 0 {
        let before = descents(mode, dir, depth, entries.drop_last());
        lemma_descents_depth(mode, dir, depth, entries.drop_last());
        assert forall|k: int| 0 <= k < d.len() implies (#[trigger] d[k]).depth == depth + 1 by {
            if k < before.len() {
                assert(d[k] == before[k]);
            }
        }
    }
}

/// Every directory entered is the child for some entry that the walk
/// enters.
pub proof fn lemma_descents_origin(
    mode: WalkMode,
    dir: Seq<char>,
    depth: nat,
    entries: Seq<DirEntry>,
    k: int,
) -> (i: int)
    requires
        0 <= k < descents(mode, dir, depth, entries).len(),
    ensures
        0 <= i < entries.len(),
        enters(mode, entries[i]),
        descents(mode, dir, depth, entries)[k].path == child_of(dir, entries[i].name@),
    decreases entries.len(),
{
    let before = descents(mode, dir, depth, entries.drop_last());
    if enters(mode, entries.last()) && k == before.len() {
        entries.len() - 1
    } else {
        lemma_descents_origin(mode, dir, depth, entries.drop_last(), k)
    }
}

/// Every directory entered was entered by its name, and in the heuristic
/// walk this name is not pruned.
pub proof fn lemma_descents_arrived(mode: WalkMode, dir: Seq<char>, depth: nat, entries: Seq<DirEntry>)
    ensures
        all_arrived(mode, descents(mode, dir, depth, entries)),
{
    let d = descents(mode, dir, depth, entries);
    assert forall|k: int| 0 <= k < d.len() implies arrived(mode, #[trigger] d[k]) by {
        let i = lemma_descents_origin(mode, dir, depth, entries, k);
        lemma_base_of_child(dir, entries[i].name@);
    }
}

/// Two children of one directory with the same path have the same name.
pub proof fn lemma_child_of_injective(dir: Seq<char>, a: Seq<char>, b: Seq<char>)
    requires
        child_of(dir, a) == child_of(dir, b),
    ensures
        a == b,
{
    if dir.len() == 0 {
    } else if dir.last() == '/' {
        assert((dir + a).skip(dir.len() as int) =~= a);
        assert((dir + b).skip(dir.len() as int) =~= b);
    } else {
        assert((dir + seq!['/'] + a).skip(dir.len() as int + 1) =~= a);
        assert((dir + seq!['/'] + b).skip(dir.len() as int + 1) =~= b);
    }
}

/// The heuristic walk never enters a directory whose name is on the skip
/// list or begins with a dot: no such child of `dir` is among the
/// directories queued from it, whatever else the directory holds.
pub proof fn lemma_never_enters_pruned(
    dir: Seq<char>,
    depth: nat,
    entries: Seq<DirEntry>,
    name: Seq<char>,
)
    requires
        in_skip_list(name) || (name.len() > 0 && name[0] == '.'),
    ensures
        forall|k: int|
            0 <= k < descents(WalkMode::Heuristic, dir, depth, entries).len() ==> (
            #[trigger] descents(WalkMode::Heuristic, dir, depth, entries)[k]).path != child_of(
                dir,
                name,
            ),
{
    let d = descents(WalkMode::Heuristic, dir, depth, entries);
    assert forall|k: int| 0 <= k < d.len() implies (#[trigger] d[k]).path != child_of(
        dir,
        name,
    ) by {
        let i = lemma_descents_origin(WalkMode::Heuristic, dir, depth, entries, k);
        if d[k].path == child_of(dir, name) {
            lemma_child_of_injective(dir, entries[i].name@, name);
        }
    }
}

/// How many of the places lie at `depth`.
pub open spec fn count_at(ps: Seq<Place>, depth: nat) -> nat
    decreases ps.len(),
{
    if ps.len() == 0 {
        0
    } else {
        count_at(ps.drop_last(), depth) + if ps.last().depth == depth {
            1nat
        } else {
            0nat
        }
    }
}

/// What is left to list after the last of `pending` was handed out by
/// `next_dir` and its listing was taken in by `visit`.
pub open spec fn after_pair(
    pending: Seq<Place>,
    mode: WalkMode,
    limit: nat,
    listing: Option<Seq<DirEntry>>,
) -> Seq<Place> {
    let dir = pending.last();
    if listing is Some && dir.depth < limit {
        pending.drop_last() + descents(mode, dir.path, dir.depth, listing->0)
    } else {
        pending.drop_last()
    }
}

proof fn lemma_count_at_joined(a: Seq<Place>, b: Seq<Place>, depth: nat)
    ensures
        count_at(a + b, depth) == count_at(a, depth) + count_at(b, depth),
    decreases b.len(),
{
    if b.len() == 0 {
        assert(a + b =~= a);
    } else {
        assert((a + b).drop_last() =~= a + b.drop_last());
        assert((a + b).last() == b.last());
        lemma_count_at_joined(a, b.drop_last(), depth);
    }
}

proof fn lemma_count_at_none(ps: Seq<Place>, depth: nat)
    requires
        forall|i: int| 0 <= i < ps.len() ==> (#[trigger] ps[i]).depth != depth,
    ensures
        count_at(ps, depth) == 0,
    decreases ps.len(),
{
    if ps.len() > 0 {
        assert forall|i: int| 0 <= i < ps.drop_last().len() implies (
        #[trigger] ps.drop_last()[i]).depth != depth by {
            assert(ps.drop_last()[i] == ps[i]);
        }
        lemma_count_at_none(ps.drop_last(), depth);
        assert(ps[ps.len() - 1].depth != depth);
    }
}

/// The walk comes to an end: with every pair of `next_dir` and `visit` the
/// load falls. The load is the number of directories still to be listed,
/// told by depth and read from the root down: the pair takes one directory
/// away at its depth, adds none at that depth or above it, and whatever it
/// adds lies one level deeper and no deeper than the limit. A load that
/// falls in this order cannot fall for ever.
pub proof fn lemma_pair_lowers_the_load(
    pending: Seq<Place>,
    mode: WalkMode,
    limit: nat,
    listing: Option<Seq<DirEntry>>,
    depth: nat,
)
    requires
        pending.len() > 0,
        within(pending, limit),
    ensures
        within(after_pair(pending, mode, limit, listing), limit),
        depth < pending.last().depth ==> count_at(
            after_pair(pending, mode, limit, listing),
            depth,
        ) == count_at(pending, depth),
        depth == pending.last().depth ==> count_at(
            after_pair(pending, mode, limit, listing),
            depth,
        ) + 1 == count_at(pending, depth),
{
    let dir = pending.last();
    let rest = pending.drop_last();
    let left = after_pair(pending, mode, limit, listing);
    assert(within(rest, limit)) by {
        assert forall|i: int| 0 <= i < rest.len() implies (#[trigger] rest[i]).depth <= limit by {
            assert(rest[i] == pending[i]);
        }
    }
    assert(pending[pending.len() - 1].depth <= limit);
    if listing is Some && dir.depth < limit {
        let more = descents(mode, dir.path, dir.depth, listing->0);
        lemma_descents_depth(mode, dir.path, dir.depth, listing->0);
        lemma_count_at_joined(rest, more, depth);
        if depth <= dir.depth {
            lemma_count_at_none(more, depth);
        }
        assert forall|i: int| 0 <= i < left.len() implies (#[trigger] left[i]).depth <= limit by {
            if i < rest.len() {
                assert(left[i] == rest[i]);
            } else {
                assert(left[i] == more[i - rest.len()]);
            }
        }
    }
}

/// What a walk over recorded listings reports from the directory at
/// `path`, which lies `depth` levels below the root: the directory itself if
/// it is a hit, then what is reported from each directory entered from it,
/// in the order of its entries. A directory without a record counts as
/// unreadable; nothing is entered from a directory at the limit.
pub open spec fn walked(
    records: Seq<DirRecord>,
    mode: WalkMode,
    limit: nat,
    path: Seq<char>,
    depth: nat,
) -> Seq<Place>
    decreases limit - depth, 0nat,
{
    let listing = lookup(records, path);
    let here = if is_hit(mode, path, listing) {
        seq![Place { path, depth }]
    } else {
        Seq::empty()
    };
    if listing is Some && depth < limit {
        here + walked_each(
            records,
            mode,
            limit,
            descents(mode, path, depth, listing->0),
            depth + 1,
        )
    } else {
        here
    }
}

/// What the walk reports from each of the directories `dirs`, which all
/// lie at `depth`, one after the other.
pub open spec fn walked_each(
    records: Seq<DirRecord>,
    mode: WalkMode,
    limit: nat,
    dirs: Seq<Place>,
    depth: nat,
) -> Seq<Place>
    decreases limit - depth, dirs.len() + 1,
{
    if dirs.len() == 0 || depth > limit {
        Seq::empty()
    } else {
        walked_each(records, mode, limit, dirs.drop_last(), depth) + walked(
            records,
            mode,
            limit,
            dirs.last().path,
            depth,
        )
    }
}

/// Walks from `dir` through the recorded listings and adds what is
/// reported to `out`.
fn walk_into(
    records: &Vec<DirRecord>,
    mode: WalkMode,
    max_depth: usize,
    dir: Visit,
    out: &mut Vec<Visit>,
)
    requires
        dir.depth <= max_depth,
    ensures
        places(final(out)@) == places(old(out)@) + walked(
            records@,
            mode,
            max_depth as nat,
            dir.path@,
            dir.depth as nat,
        ),
    decreases max_depth - dir.depth,
{
    let ghost start = places(out@);
    let ghost here = dir.place();
    let listing = find_record(records, dir.path.as_str());
    let hit = match mode {
        WalkMode::Heuristic => match classify(dir.path.as_str(), listing) {
            Some(c) => c.is_match,
            None => false,
        },
        WalkMode::ExactName => match base_name(dir.path.as_str()) {
            Some(name) => str_eq(name.as_str(), ".minecraft"),
            None => false,
        },
    };
    assert(hit == is_hit(mode, here.path, lookup(records@, here.path)));
    let mut children: Vec<Visit> = Vec::new();
    if let Some(entries) = listing {
        if dir.depth < max_depth {
            children = children_to_visit(mode, &dir, entries);
            proof {
                lemma_descents_depth(mode, dir.path@, dir.depth as nat, entries@);
            }
        }
    }
    let ghost below = places(children@);
    let ghost deeper = (here.depth + 1) as nat;
    if hit {
        out.push(dir);
        assert(places(out@) =~= start + seq![here]);
    } else {
        assert(places(out@) =~= start + Seq::<Place>::empty());
    }
    let ghost first = places(out@);
    // The children are moved over in reverse, so that taking them from the
    // end of `kept` goes through them in listing order.
    let mut rest = children;
    let n = rest.len();
    let mut kept: Vec<Visit> = Vec::new();
    while rest.len() > 0
        invariant
            kept.len() + rest.len() == n,
            n == below.len(),
            forall|j: int| 0 <= j < rest.len() ==> (#[trigger] rest[j]).place() == below[j],
            forall|j: int|
                0 <= j < kept.len() ==> (#[trigger] kept[j]).place() == below[n - 1 - j],
            forall|j: int| 0 <= j < below.len() ==> (#[trigger] below[j]).depth == deeper,
            deeper <= max_depth || n == 0,
        decreases rest.len(),
    {
        let last = rest.pop();
        match last {
            Some(v) => {
                kept.push(v);
            },
            None => {},
        }
    }
    let mut k: usize = 0;
    assert(below.take(0) =~= Seq::<Place>::empty());
    assert(places(out@) =~= first + walked_each(
        records@,
        mode,
        max_depth as nat,
        below.take(0),
        deeper,
    ));
    while kept.len() > 0
        invariant
            k + kept.len() == n,
            n == below.len(),
            forall|j: int|
                0 <= j < kept.len() ==> (#[trigger] kept[j]).place() == below[n - 1 - j],
            forall|j: int| 0 <= j < below.len() ==> (#[trigger] below[j]).depth == deeper,
            deeper <= max_depth || n == 0,
            deeper == here.depth + 1,
            here.depth == dir.depth,
            places(out@) == first + walked_each(
                records@,
                mode,
                max_depth as nat,
                below.take(k as int),
                deeper,
            ),
        decreases kept.len(),
    {
        let next = kept.pop();
        match next {
            Some(child) => {
                assert(child.place() == below[k as int]);
                proof {
                    assert(below.take(k + 1).drop_last() =~= below.take(k as int));
                    assert(below.take(k + 1).last() == below[k as int]);
                }
                walk_into(records, mode, max_depth, child, out);
                assert(places(out@) =~= first + walked_each(
                    records@,
                    mode,
                    max_depth as nat,
                    below.take(k + 1),
                    deeper,
                ));
            },
            None => {},
        }
        k += 1;
    }
    assert(below.take(k as int) =~= below);
}

/// What a walk from `root` reports, going by recorded listings instead of
/// the file system: every directory at most `max_depth` levels below the
/// root that is a hit, each before what lies below it, and entries in
/// listing order. The records are looked up by the paths that the walk
/// builds from `root`.
pub fn traverse(root: &str, max_depth: usize, mode: WalkMode, records: &Vec<DirRecord>) -> (out:
    Vec<Visit>)
    ensures
        places(out@) == walked(records@, mode, max_depth as nat, root@, 0),
{
    let mut out: Vec<Visit> = Vec::new();
    let ghost none = places(out@);
    walk_into(records, mode, max_depth, Visit { path: root.to_owned(), depth: 0 }, &mut out);
    assert(places(out@) =~= walked(records@, mode, max_depth as nat, root@, 0)) by {
        assert(none =~= Seq::<Place>::empty());
    }
    out
}

/// Nothing that a walk reports from a directory at `depth` lies above
/// `depth` or below the limit, and what it reports from below that
/// directory was entered by a name that is not pruned.
pub proof fn lemma_walked_bounds(
    records: Seq<DirRecord>,
    mode: WalkMode,
    limit: nat,
    path: Seq<char>,
    depth: nat,
)
    requires
        depth <= limit,
    ensures
        forall|i: int|
            0 <= i < walked(records, mode, limit, path, depth).len() ==> {
                let p = #[trigger] walked(records, mode, limit, path, depth)[i];
                &&& depth <= p.depth <= limit
                &&& p.depth > depth ==> arrived(mode, p)
                &&& p.depth == depth ==> p.path == path
            },
    decreases limit - depth, 0nat,
{
    let listing = lookup(records, path);
    let all = walked(records, mode, limit, path, depth);
    if listing is Some && depth < limit {
        let below = descents(mode, path, depth, listing->0);
        lemma_descents_depth(mode, path, depth, listing->0);
        lemma_descents_arrived(mode, path, depth, listing->0);
        lemma_walked_each_bounds(records, mode, limit, below, depth + 1);
        let deeper = walked_each(records, mode, limit, below, depth + 1);
        assert forall|i: int| 0 <= i < all.len() implies {
            let p = #[trigger] all[i];
            &&& depth <= p.depth <= limit
            &&& p.depth > depth ==> arrived(mode, p)
            &&& p.depth == depth ==> p.path == path
        } by {
            let head: int = if is_hit(mode, path, listing) { 1 } else { 0 };
            if i >= head {
                assert(all[i] == deeper[i - head]);
            }
        }
    }
}

/// The same for a row of directories at one depth, each of which, if it
/// lies below the root, was itself entered by a name that is not pruned.
pub proof fn lemma_walked_each_bounds(
    records: Seq<DirRecord>,
    mode: WalkMode,
    limit: nat,
    dirs: Seq<Place>,
    depth: nat,
)
    requires
        all_arrived(mode, dirs),
        forall|j: int| 0 <= j < dirs.len() ==> (#[trigger] dirs[j]).depth == depth,
    ensures
        forall|i: int|
            0 <= i < walked_each(records, mode, limit, dirs, depth).len() ==> {
                let p = #[trigger] walked_each(records, mode, limit, dirs, depth)[i];
                &&& depth <= p.depth <= limit
                &&& arrived(mode, p)
            },
    decreases limit - depth, dirs.len() + 1,
{
    let all = walked_each(records, mode, limit, dirs, depth);
    if dirs.len() > 0 && depth <= limit {
        let front = dirs.drop_last();
        assert(all_arrived(mode, front)) by {
            assert forall|j: int| 0 <= j < front.len() implies arrived(mode, #[trigger] front[j]) by {
                assert(front[j] == dirs[j]);
            }
        }
        assert forall|j: int| 0 <= j < front.len() implies (#[trigger] front[j]).depth == depth by {
            assert(front[j] == dirs[j]);
        }
        lemma_walked_each_bounds(records, mode, limit, front, depth);
        lemma_walked_bounds(records, mode, limit, dirs.last().path, depth);
        let a = walked_each(records, mode, limit, front, depth);
        let b = walked(records, mode, limit, dirs.last().path, depth);
        assert forall|i: int| 0 <= i < all.len() implies {
            let p = #[trigger] all[i];
            &&& depth <= p.depth <= limit
            &&& arrived(mode, p)
        } by {
            if i < a.len() {
                assert(all[i] == a[i]);
            } else {
                assert(all[i] == b[i - a.len()]);
                let p = b[i - a.len()];
                if p.depth == depth {
                    assert(p.path == dirs.last().path);
                    assert(arrived(mode, dirs[dirs.len() - 1]));
                    assert(p == dirs[dirs.len() - 1]);
                }
            }
        }
    }
}

} // verus!
