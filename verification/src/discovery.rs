//! From the finds of the walk to the list that is offered: every find is
//! traced to its installation root, classified and scored, and the
//! candidates are merged with those at the well-known places.

use vstd::prelude::*;
use crate::aggregate::{
    aggregate, agreeing, assess, by_rank, candidate_of, deduped, distinct_paths, in_rank_order,
    keeps_first_of_each, lemma_arrival_order_is_no_matter, ranked, same_members, Candidate,
    Ranked,
};
use crate::classifier::{flavor_of, score_of};
use crate::listing::has_child;
use crate::path::lemma_normalized_idempotent;
use crate::listing::{find_record, lookup, DirRecord};
use crate::path::{normalize, normalized, views};
use crate::resolve::{resolve_root, resolved};
use crate::traverse::{places, Place, Visit};

verus! {

/// The candidate for the directory at `path` as it stands, going by what is
/// recorded under its normal path.
pub open spec fn candidate_at(records: Seq<DirRecord>, path: Seq<char>) -> Option<Ranked> {
    match lookup(records, normalized(path)) {
        Some(entries) => candidate_of(path, entries),
        None => None,
    }
}

/// The candidate for the installation root of the directory at `path`.
pub open spec fn candidate_above(records: Seq<DirRecord>, path: Seq<char>) -> Option<Ranked> {
    match resolved(records, path) {
        Some(root) => candidate_at(records, root),
        None => None,
    }
}

/// The candidates for the roots of the finds, in the order of the finds.
pub open spec fn candidates_above(records: Seq<DirRecord>, finds: Seq<Place>) -> Seq<Ranked>
    decreases finds.len(),
{
    if finds.len() == 0 {
        Seq::empty()
    } else {
        let before = candidates_above(records, finds.drop_last());
        match candidate_above(records, finds.last().path) {
            Some(c) => before.push(c),
            None => before,
        }
    }
}

/// The candidates at the given places, in their order.
pub open spec fn candidates_at(records: Seq<DirRecord>, paths: Seq<Seq<char>>) -> Seq<Ranked>
    decreases paths.len(),
{
    if paths.len() == 0 {
        Seq::empty()
    } else {
        let before = candidates_at(records, paths.drop_last());
        match candidate_at(records, paths.last()) {
            Some(c) => before.push(c),
            None => before,
        }
    }
}

/// The candidate for the directory at `path` as it stands.
pub fn candidate_here(records: &Vec<DirRecord>, path: &str) -> (r: Option<Candidate>)
    ensures
        match r {
            Some(c) => candidate_at(records@, path@) == Some(c@),
            None => candidate_at(records@, path@) is None,
        },
{
    let key = normalize(path);
    assess(path, find_record(records, key.as_str()))
}

/// The candidate for the installation root of the directory at `path`.
pub fn candidate_for(records: &Vec<DirRecord>, path: &str) -> (r: Option<Candidate>)
    ensures
        match r {
            Some(c) => candidate_above(records@, path@) == Some(c@),
            None => candidate_above(records@, path@) is None,
        },
{
    match resolve_root(path, records) {
        Some(root) => candidate_here(records, root.as_str()),
        None => None,
    }
}

/// The list offered for selection: the roots of the finds and the
/// well-known places, as far as the records show them to be installations,
/// without duplicates and in rank order.
pub fn discover(finds: &Vec<Visit>, standard: &Vec<String>, records: &Vec<DirRecord>) -> (out: Vec<
    Candidate,
>)
    ensures
        ranked(out@) == by_rank(
            deduped(
                candidates_above(records@, places(finds@)) + candidates_at(
                    records@,
                    views(standard@),
                ),
            ),
        ),
        in_rank_order(ranked(out@)),
        distinct_paths(ranked(out@)),
        keeps_first_of_each(
            candidates_above(records@, places(finds@)) + candidates_at(records@, views(standard@)),
            ranked(out@),
        ),
{
    let mut raw: Vec<Candidate> = Vec::new();
    let mut i: usize = 0;
    assert(places(finds@).take(0) =~= Seq::<Place>::empty());
    assert(ranked(raw@) =~= Seq::<Ranked>::empty());
    while i < finds.len()
        invariant
            i <= finds.len(),
            ranked(raw@) == candidates_above(records@, places(finds@).take(i as int)),
        decreases finds.len() - i,
    {
        proof {
            assert(places(finds@).take(i + 1).drop_last() =~= places(finds@).take(i as int));
            assert(places(finds@).take(i + 1).last().path == finds@[i as int].path@);
        }
        let ghost before = ranked(raw@);
        if let Some(c) = candidate_for(records, finds[i].path.as_str()) {
            raw.push(c);
            assert(ranked(raw@) =~= before.push(c@));
        }
        i += 1;
    }
    assert(places(finds@).take(i as int) =~= places(finds@));
    let mut usual: Vec<Candidate> = Vec::new();
    let mut j: usize = 0;
    assert(views(standard@).take(0) =~= Seq::<Seq<char>>::empty());
    assert(ranked(usual@) =~= Seq::<Ranked>::empty());
    while j < standard.len()
        invariant
            j <= standard.len(),
            ranked(usual@) == candidates_at(records@, views(standard@).take(j as int)),
        decreases standard.len() - j,
    {
        proof {
            assert(views(standard@).take(j + 1).drop_last() =~= views(standard@).take(j as int));
            assert(views(standard@).take(j + 1).last() == standard@[j as int]@);
        }
        let ghost before = ranked(usual@);
        if let Some(c) = candidate_here(records, standard[j].as_str()) {
            usual.push(c);
            assert(ranked(usual@) =~= before.push(c@));
        }
        j += 1;
    }
    assert(views(standard@).take(j as int) =~= views(standard@));
    aggregate(&raw, &usual)
}

/// The candidate is what the records make of its path: the path is in
/// normal form and recorded, and score and flavor are those that the path
/// and the recorded entries give.
pub open spec fn read_off(records: Seq<DirRecord>, c: Ranked) -> bool {
    &&& normalized(c.path) == c.path
    &&& lookup(records, c.path) is Some
    &&& c.score == score_of(c.path, has_child(lookup(records, c.path)->0, "mods"@))
    &&& c.flavor == flavor_of(c.path)
}

proof fn lemma_candidate_at_read_off(records: Seq<DirRecord>, path: Seq<char>)
    ensures
        candidate_at(records, path) is Some ==> read_off(records, candidate_at(records, path)->0),
{
    lemma_normalized_idempotent(path);
}

proof fn lemma_candidates_at_read_off(records: Seq<DirRecord>, paths: Seq<Seq<char>>)
    ensures
        forall|i: int|
            0 <= i < candidates_at(records, paths).len() ==> read_off(
                records,
                #[trigger] candidates_at(records, paths)[i],
            ),
    decreases paths.len(),
{
    if paths.len() > 0 {
        lemma_candidates_at_read_off(records, paths.drop_last());
        lemma_candidate_at_read_off(records, paths.last());
        let before = candidates_at(records, paths.drop_last());
        let all = candidates_at(records, paths);
        assert forall|i: int| 0 <= i < all.len() implies read_off(records, #[trigger] all[i]) by {
            if i < before.len() {
                assert(all[i] == before[i]);
            }
        }
    }
}

proof fn lemma_candidates_above_read_off(records: Seq<DirRecord>, finds: Seq<Place>)
    ensures
        forall|i: int|
            0 <= i < candidates_above(records, finds).len() ==> read_off(
                records,
                #[trigger] candidates_above(records, finds)[i],
            ),
    decreases finds.len(),
{
    if finds.len() > 0 {
        lemma_candidates_above_read_off(records, finds.drop_last());
        if resolved(records, finds.last().path) is Some {
            lemma_candidate_at_read_off(records, resolved(records, finds.last().path)->0);
        }
        let before = candidates_above(records, finds.drop_last());
        let all = candidates_above(records, finds);
        assert forall|i: int| 0 <= i < all.len() implies read_off(records, #[trigger] all[i]) by {
            if i < before.len() {
                assert(all[i] == before[i]);
            }
        }
    }
}

/// The list that `discover` makes does not depend on the order in which
/// the finds arrive. The candidates that it makes from one set of records
/// have the score and the flavor that go with their path; so any other
/// arrangement of the same candidates gives the same list, entry for
/// entry.
pub proof fn lemma_discovery_order_is_no_matter(
    records: Seq<DirRecord>,
    finds: Seq<Place>,
    standard: Seq<Seq<char>>,
    other: Seq<Ranked>,
)
    requires
        same_members(
            candidates_above(records, finds) + candidates_at(records, standard),
            other,
        ),
    ensures
        agreeing(candidates_above(records, finds) + candidates_at(records, standard)),
        by_rank(deduped(other)) == by_rank(
            deduped(candidates_above(records, finds) + candidates_at(records, standard)),
        ),
{
    let a = candidates_above(records, finds);
    let b = candidates_at(records, standard);
    let all = a + b;
    lemma_candidates_above_read_off(records, finds);
    lemma_candidates_at_read_off(records, standard);
    assert forall|i: int| 0 <= i < all.len() implies read_off(records, #[trigger] all[i]) by {
        if i < a.len() {
            assert(all[i] == a[i]);
        } else {
            assert(all[i] == b[i - a.len()]);
        }
    }
    assert(agreeing(all)) by {
        assert forall|i: int, j: int|
            0 <= i < all.len() && 0 <= j < all.len() && normalized((#[trigger] all[i]).path)
                == normalized((#[trigger] all[j]).path) implies all[i].score == all[j].score
            && all[i].flavor == all[j].flavor by {
            assert(read_off(records, all[i]) && read_off(records, all[j]));
        }
    }
    lemma_arrival_order_is_no_matter(all, other);
}

} // verus!
