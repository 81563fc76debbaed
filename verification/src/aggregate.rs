//! Turns the raw finds of a discovery run into the list that is offered
//! for selection: one entry per directory, best first.

use vstd::prelude::*;
use crate::classifier::{classify, flavor, flavor_of, lowered_base_of, score, score_of, verdict, Flavor};
use crate::listing::{has_child, DirEntry};
use crate::path::{normalize, normalized};
use crate::text::{
    chars_of, lemma_lex_total, lemma_lex_transitive, lex_before, lex_lt, same_chars,
};

verus! {

/// A directory believed to be an installation.
#[derive(Debug)]
pub struct Candidate {
    pub path: String,
    pub score: u32,
    pub flavor: Flavor,
}

/// A candidate as plain values.
pub struct Ranked {
    pub path: Seq<char>,
    pub score: u32,
    pub flavor: Flavor,
}

impl View for Candidate {
    type V = Ranked;

    open spec fn view(&self) -> Ranked {
        Ranked { path: self.path@, score: self.score, flavor: self.flavor }
    }
}

impl Candidate {
    /// A candidate with the same path, score and flavor.
    pub fn duplicate(&self) -> (r: Candidate)
        ensures
            r == *self,
    {
        Candidate { path: self.path.clone(), score: self.score, flavor: self.flavor }
    }
}

/// The plain values of a sequence of candidates.
pub open spec fn ranked(v: Seq<Candidate>) -> Seq<Ranked> {
    Seq::new(v.len(), |i: int| v[i]@)
}

/// The order of the list: higher score first, and among equal scores the
/// lexicographically smaller path first.
pub open spec fn ranks_before(a: Ranked, b: Ranked) -> bool {
    a.score > b.score || (a.score == b.score && lex_lt(a.path, b.path))
}

/// Each member ranks before every later one.
pub open spec fn in_rank_order(s: Seq<Ranked>) -> bool {
    forall|i: int, j: int| 0 <= i < j < s.len() ==> ranks_before(#[trigger] s[i], #[trigger] s[j])
}

/// No two members share a path.
pub open spec fn distinct_paths(s: Seq<Ranked>) -> bool {
    forall|i: int, j: int|
        0 <= i < s.len() && 0 <= j < s.len() && i != j ==> (#[trigger] s[i]).path != (
        #[trigger] s[j]).path
}

/// The candidate with its path in normal form.
pub open spec fn with_normal_path(c: Ranked) -> Ranked {
    Ranked { path: normalized(c.path), score: c.score, flavor: c.flavor }
}

/// No earlier member of `input` has the same normal path as member `k`.
pub open spec fn is_first(input: Seq<Ranked>, k: int) -> bool {
    forall|e: int| 0 <= e < k ==> normalized((#[trigger] input[e]).path) != normalized(input[k].path)
}

/// `c` is the first member of `input` with its normal path, brought into
/// normal form.
pub open spec fn is_first_of(input: Seq<Ranked>, c: Ranked) -> bool {
    exists|k: int|
        0 <= k < input.len() && #[trigger] is_first(input, k) && c == with_normal_path(input[k])
}

/// Some member of `out` has the path `p`.
pub open spec fn lists_path(out: Seq<Ranked>, p: Seq<char>) -> bool {
    exists|i: int| 0 <= i < out.len() && (#[trigger] out[i]).path == p
}

/// `out` holds, for every normal path that occurs in `input`, the first
/// member of `input` with that path, and nothing else.
pub open spec fn keeps_first_of_each(input: Seq<Ranked>, out: Seq<Ranked>) -> bool {
    &&& forall|i: int| 0 <= i < out.len() ==> is_first_of(input, #[trigger] out[i])
    &&& forall|k: int|
        0 <= k < input.len() ==> lists_path(out, normalized((#[trigger] input[k]).path))
}

/// The candidates in normal form, each path once: a candidate is kept
/// unless an earlier one has the same normal path.
pub open spec fn deduped(input: Seq<Ranked>) -> Seq<Ranked>
    decreases input.len(),
{
    if input.len() == 0 {
        Seq::empty()
    } else {
        let before = deduped(input.drop_last());
        let c = with_normal_path(input.last());
        if lists_path(before, c.path) {
            before
        } else {
            before.push(c)
        }
    }
}

/// The candidate that an observed directory makes, if it is a match: its
/// normal path with the flavor and score that this path and the entries
/// give.
pub open spec fn candidate_of(path: Seq<char>, entries: Seq<DirEntry>) -> Option<Ranked> {
    let p = normalized(path);
    if verdict(p, lowered_base_of(p), entries).is_match {
        Some(Ranked { path: p, score: score_of(p, has_child(entries, "mods"@)), flavor: flavor_of(p) })
    } else {
        None
    }
}

/// Classifies and scores one observed directory. A directory that could
/// not be listed, or that the classifier rejects, gives no candidate.
pub fn assess(path: &str, listing: Option<&Vec<DirEntry>>) -> (r: Option<Candidate>)
    ensures
        match r {
            Some(c) => listing is Some && candidate_of(path@, listing->0@) == Some(c@),
            None => listing is None || candidate_of(path@, listing->0@) is None,
        },
{
    let p = normalize(path);
    match listing {
        None => None,
        Some(entries) => {
            let hit = match classify(p.as_str(), listing) {
                Some(c) => c.is_match,
                None => false,
            };
            if hit {
                let s = score(p.as_str(), entries);
                let f = flavor(p.as_str());
                Some(Candidate { path: p, score: s, flavor: f })
            } else {
                None
            }
        },
    }
}

/// Whether `a` is listed before `b`.
pub fn comes_before(a: &Candidate, b: &Candidate) -> (r: bool)
    ensures
        r == ranks_before(a@, b@),
{
    if a.score != b.score {
        a.score > b.score
    } else {
        let x = chars_of(a.path.as_str());
        let y = chars_of(b.path.as_str());
        lex_before(&x, &y)
    }
}

/// Of two candidates with different paths one ranks before the other.
pub proof fn lemma_rank_total(a: Ranked, b: Ranked)
    requires
        a.path != b.path,
    ensures
        ranks_before(a, b) != ranks_before(b, a),
{
    lemma_lex_total(a.path, b.path);
}

/// Ranking is transitive.
pub proof fn lemma_rank_transitive(a: Ranked, b: Ranked, c: Ranked)
    requires
        ranks_before(a, b),
        ranks_before(b, c),
    ensures
        ranks_before(a, c),
{
    if a.score == b.score && b.score == c.score {
        lemma_lex_transitive(a.path, b.path, c.path);
    }
}

/// Whether some member of `list` has exactly this path.
fn holds_path(list: &Vec<Candidate>, path: &Vec<char>) -> (r: bool)
    ensures
        r == exists|i: int| 0 <= i < list.len() && (#[trigger] list@[i])@.path == path@,
{
    let mut i: usize = 0;
    while i < list.len()
        invariant
            i <= list.len(),
            forall|j: int| 0 <= j < i ==> (#[trigger] list@[j])@.path != path@,
        decreases list.len() - i,
    {
        let p = chars_of(list[i].path.as_str());
        if same_chars(&p, path) {
            return true;
        }
        i += 1;
    }
    false
}

/// Brings every path into normal form and keeps, of the candidates that
/// then share a path, the one that came first. The order of arrival is
/// kept.
pub fn dedup_by_path(input: &Vec<Candidate>) -> (out: Vec<Candidate>)
    ensures
        ranked(out@) == deduped(ranked(input@)),
        keeps_first_of_each(ranked(input@), ranked(out@)),
        distinct_paths(ranked(out@)),
{
    let ghost src = ranked(input@);
    let mut out: Vec<Candidate> = Vec::new();
    let ghost mut origin: Seq<int> = Seq::empty();
    let ghost mut holder: Seq<int> = Seq::empty();
    let mut n: usize = 0;
    assert(src.take(0) =~= Seq::<Ranked>::empty());
    assert(ranked(out@) =~= Seq::<Ranked>::empty());
    while n < input.len()
        invariant
            n <= input.len(),
            src == ranked(input@),
            ranked(out@) == deduped(src.take(n as int)),
            origin.len() == out.len(),
            holder.len() == n,
            forall|i: int|
                0 <= i < out.len() ==> 0 <= #[trigger] origin[i] < n && is_first(src, origin[i])
                    && out@[i]@ == with_normal_path(src[origin[i]]),
            forall|k: int|
                0 <= k < n ==> 0 <= #[trigger] holder[k] < out.len() && out@[holder[k]]@.path
                    == normalized(src[k].path),
            distinct_paths(ranked(out@)),
        decreases input.len() - n,
    {
        let p = normalize(input[n].path.as_str());
        let pv = chars_of(p.as_str());
        assert(src[n as int] == input@[n as int]@);
        proof {
            assert(src.take(n + 1).drop_last() =~= src.take(n as int));
            assert(src.take(n + 1).last() == src[n as int]);
        }
        let known = holds_path(&out, &pv);
        proof {
            let sofar = ranked(out@);
            if known {
                let i = choose|i: int| 0 <= i < out.len() && (#[trigger] out@[i])@.path == pv@;
                assert(sofar[i].path == pv@);
                assert(lists_path(sofar, pv@));
            } else {
                if lists_path(sofar, pv@) {
                    let i = choose|i: int| 0 <= i < sofar.len() && (#[trigger] sofar[i]).path == pv@;
                    assert(out@[i]@.path == pv@);
                }
            }
        }
        if known {
            proof {
                let i = choose|i: int| 0 <= i < out.len() && (#[trigger] out@[i])@.path == pv@;
                holder = holder.push(i);
            }
        } else {
            proof {
                assert(is_first(src, n as int)) by {
                    assert forall|e: int| 0 <= e < n implies normalized(
                        (#[trigger] src[e]).path,
                    ) != normalized(src[n as int].path) by {
                        assert(out@[holder[e]]@.path == normalized(src[e].path));
                    }
                }
                origin = origin.push(n as int);
                holder = holder.push(out.len() as int);
            }
            let ghost before = ranked(out@);
            out.push(Candidate { path: p, score: input[n].score, flavor: input[n].flavor });
            assert(ranked(out@) =~= before.push(with_normal_path(src[n as int])));
            assert(distinct_paths(ranked(out@))) by {
                assert forall|i: int, j: int|
                    0 <= i < out.len() && 0 <= j < out.len() && i != j implies (
                #[trigger] ranked(out@)[i]).path != (#[trigger] ranked(out@)[j]).path by {
                    if i < before.len() && j < before.len() {
                        assert(ranked(out@)[i] == before[i]);
                        assert(ranked(out@)[j] == before[j]);
                    }
                }
            }
        }
        n += 1;
    }
    proof {
        let res = ranked(out@);
        assert(src.take(n as int) =~= src);
        assert forall|i: int| 0 <= i < res.len() implies is_first_of(src, #[trigger] res[i]) by {
            assert(res[i] == out@[i]@);
            let k = origin[i];
            assert(0 <= k < src.len() && is_first(src, k) && res[i] == with_normal_path(src[k]));
        }
        assert forall|k: int| 0 <= k < src.len() implies lists_path(
            res,
            normalized((#[trigger] src[k]).path),
        ) by {
            let i = holder[k];
            assert(res[i] == out@[i]@);
            assert(0 <= i < res.len() && res[i].path == normalized(src[k].path));
        }
    }
    out
}

/// The position at which a candidate joins a list in rank order: before
/// the first member that it ranks before.
pub open spec fn rank_slot(sorted: Seq<Ranked>, c: Ranked) -> int
    decreases sorted.len(),
{
    if sorted.len() == 0 {
        0
    } else if ranks_before(c, sorted[0]) {
        0
    } else {
        1 + rank_slot(sorted.drop_first(), c)
    }
}

/// The candidates by rank; candidates that rank alike keep their order.
pub open spec fn by_rank(s: Seq<Ranked>) -> Seq<Ranked>
    decreases s.len(),
{
    if s.len() == 0 {
        s
    } else {
        let before = by_rank(s.drop_last());
        before.insert(rank_slot(before, s.last()), s.last())
    }
}

proof fn lemma_rank_slot_step(sorted: Seq<Ranked>, c: Ranked, pos: int)
    requires
        0 <= pos < sorted.len(),
        rank_slot(sorted, c) == pos + rank_slot(sorted.skip(pos), c),
        !ranks_before(c, sorted[pos]),
    ensures
        rank_slot(sorted, c) == pos + 1 + rank_slot(sorted.skip(pos + 1), c),
{
    assert(sorted.skip(pos).drop_first() =~= sorted.skip(pos + 1));
    assert(sorted.skip(pos)[0] == sorted[pos]);
}

/// No member ranks before an earlier one.
pub open spec fn no_inversion(s: Seq<Ranked>) -> bool {
    forall|i: int, j: int|
        0 <= i < j < s.len() ==> !ranks_before(#[trigger] s[j], #[trigger] s[i])
}

/// A candidate that joins a list without inversions behind everything it
/// does not rank before, and before something it ranks before, leaves the
/// list without inversions.
proof fn lemma_insert_keeps_order(before: Seq<Ranked>, pos: int, x: Ranked)
    requires
        no_inversion(before),
        0 <= pos <= before.len(),
        forall|a: int| 0 <= a < pos ==> !ranks_before(x, #[trigger] before[a]),
        pos < before.len() ==> ranks_before(x, before[pos]),
    ensures
        no_inversion(before.insert(pos, x)),
{
    let after = before.insert(pos, x);
    assert forall|i: int, j: int| 0 <= i < j < after.len() implies !ranks_before(
        #[trigger] after[j],
        #[trigger] after[i],
    ) by {
        if j == pos {
            assert(after[i] == before[i]);
        } else if i == pos {
            assert(after[j] == before[j - 1]);
            if j - 1 > pos {
                assert(!ranks_before(before[j - 1], before[pos]));
            }
            if ranks_before(after[j], after[i]) {
                lemma_rank_transitive(after[j], x, before[pos]);
                if j - 1 == pos {
                    lemma_rank_irreflexive(before[pos]);
                }
            }
        } else {
            let oi = if i < pos { i } else { i - 1 };
            let oj = if j < pos { j } else { j - 1 };
            assert(after[i] == before[oi] && after[j] == before[oj]);
            assert(!ranks_before(before[oj], before[oi]));
        }
    }
}

/// Orders the candidates by rank. Candidates that rank alike keep the order
/// in which they came.
pub fn sort_by_rank(list: &Vec<Candidate>) -> (out: Vec<Candidate>)
    ensures
        ranked(out@) == by_rank(ranked(list@)),
        no_inversion(ranked(out@)),
        ranked(out@).to_multiset() == ranked(list@).to_multiset(),
        distinct_paths(ranked(list@)) ==> distinct_paths(ranked(out@)),
{
    let ghost src = ranked(list@);
    let mut out: Vec<Candidate> = Vec::new();
    let ghost mut origin: Seq<int> = Seq::empty();
    let mut m: usize = 0;
    assert(src.take(0) =~= Seq::<Ranked>::empty());
    assert(ranked(out@) =~= Seq::<Ranked>::empty());
    while m < list.len()
        invariant
            m <= list.len(),
            src == ranked(list@),
            ranked(out@) == by_rank(src.take(m as int)),
            no_inversion(ranked(out@)),
            ranked(out@).to_multiset() == src.take(m as int).to_multiset(),
            origin.len() == out.len(),
            forall|i: int|
                0 <= i < out.len() ==> 0 <= #[trigger] origin[i] < m && out@[i]@ == src[origin[i]],
            forall|i: int, j: int|
                0 <= i < out.len() && 0 <= j < out.len() && i != j ==> #[trigger] origin[i]
                    != #[trigger] origin[j],
        decreases list.len() - m,
    {
        let item = list[m].duplicate();
        assert(item@ == src[m as int]);
        let mut pos: usize = 0;
        let ghost before = ranked(out@);
        assert(before.skip(0) =~= before);
        loop
            invariant_except_break
                rank_slot(before, item@) == pos + rank_slot(before.skip(pos as int), item@),
            invariant
                pos <= out.len(),
                before == ranked(out@),
                forall|a: int| 0 <= a < pos ==> !ranks_before(item@, #[trigger] out@[a]@),
            ensures
                rank_slot(before, item@) == pos,
                pos < out.len() ==> ranks_before(item@, out@[pos as int]@),
            decreases out.len() - pos,
        {
            if pos >= out.len() {
                break ;
            }
            assert(before.skip(pos as int)[0] == before[pos as int]);
            assert(before[pos as int] == out@[pos as int]@);
            if comes_before(&item, &out[pos]) {
                break ;
            }
            proof {
                lemma_rank_slot_step(before, item@, pos as int);
            }
            pos += 1;
        }
        let ghost old_origin = origin;
        out.insert(pos, item);
        proof {
            origin = old_origin.insert(pos as int, m as int);
            let after = ranked(out@);
            assert(after =~= before.insert(pos as int, src[m as int]));
            assert(src.take(m + 1).drop_last() =~= src.take(m as int));
            assert(src.take(m + 1).last() == src[m as int]);
            vstd::seq_lib::to_multiset_insert(before, pos as int, src[m as int]);
            vstd::seq_lib::to_multiset_build(src.take(m as int), src[m as int]);
            assert(src.take(m + 1) =~= src.take(m as int).push(src[m as int]));
            lemma_insert_keeps_order(before, pos as int, src[m as int]);
            assert forall|i: int| 0 <= i < out.len() implies 0 <= #[trigger] origin[i] < m + 1
                && out@[i]@ == src[origin[i]] by {
                assert(after[i] == out@[i]@);
                if i < pos {
                    assert(after[i] == before[i]);
                    assert(origin[i] == old_origin[i]);
                } else if i > pos {
                    assert(after[i] == before[i - 1]);
                    assert(origin[i] == old_origin[i - 1]);
                }
            }
            assert forall|i: int, j: int|
                0 <= i < out.len() && 0 <= j < out.len() && i != j implies #[trigger] origin[i]
                != #[trigger] origin[j] by {
                let oi = if i < pos { i } else { i - 1 };
                let oj = if j < pos { j } else { j - 1 };
                if i != pos {
                    assert(origin[i] == old_origin[oi]);
                }
                if j != pos {
                    assert(origin[j] == old_origin[oj]);
                }
            }
        }
        m += 1;
    }
    proof {
        assert(src.take(m as int) =~= src);
        if distinct_paths(src) {
            let res = ranked(out@);
            assert forall|i: int, j: int|
                0 <= i < res.len() && 0 <= j < res.len() && i != j implies (#[trigger] res[i]).path
                != (#[trigger] res[j]).path by {
                assert(res[i] == src[origin[i]]);
                assert(res[j] == src[origin[j]]);
            }
        }
    }
    out
}

/// Nothing ranks before itself.
pub proof fn lemma_rank_irreflexive(a: Ranked)
    ensures
        !ranks_before(a, a),
{
    crate::text::lemma_lex_irreflexive(a.path);
}

/// The two lists one after the other.
fn chained(first: &Vec<Candidate>, second: &Vec<Candidate>) -> (all: Vec<Candidate>)
    ensures
        ranked(all@) == ranked(first@) + ranked(second@),
{
    let mut all: Vec<Candidate> = Vec::new();
    let mut i: usize = 0;
    while i < first.len()
        invariant
            i <= first.len(),
            ranked(all@) == ranked(first@).take(i as int),
        decreases first.len() - i,
    {
        let ghost before = ranked(all@);
        all.push(first[i].duplicate());
        assert(ranked(all@) =~= before.push(first@[i as int]@));
        assert(ranked(first@).take(i + 1) =~= ranked(first@).take(i as int).push(
            ranked(first@)[i as int],
        ));
        i += 1;
    }
    let mut j: usize = 0;
    assert(ranked(first@).take(i as int) =~= ranked(first@));
    assert(ranked(all@) =~= ranked(first@) + ranked(second@).take(0));
    while j < second.len()
        invariant
            j <= second.len(),
            ranked(all@) == ranked(first@) + ranked(second@).take(j as int),
        decreases second.len() - j,
    {
        let ghost before = ranked(all@);
        all.push(second[j].duplicate());
        assert(ranked(all@) =~= before.push(second@[j as int]@));
        assert(ranked(second@).take(j + 1) =~= ranked(second@).take(j as int).push(
            ranked(second@)[j as int],
        ));
        assert(ranked(all@) =~= ranked(first@) + ranked(second@).take(j + 1));
        j += 1;
    }
    assert(ranked(second@).take(j as int) =~= ranked(second@));
    all
}

/// The list offered for selection, made of the finds of the walk and of
/// the candidates at the well-known standard places. Paths are brought
/// into normal form; of candidates with the same path the first is kept,
/// finds before standard places; the result is in rank order and holds no
/// path twice.
///
/// The normal form is made from the text of a path alone. Two spellings of
/// one directory that differ by more than separators and dots, such as a
/// relative and an absolute one, stay two entries: hand in paths that
/// `absolute_form` has made absolute where that can happen.
pub fn aggregate(raw: &Vec<Candidate>, standard: &Vec<Candidate>) -> (out: Vec<Candidate>)
    ensures
        ranked(out@) == by_rank(deduped(ranked(raw@) + ranked(standard@))),
        in_rank_order(ranked(out@)),
        distinct_paths(ranked(out@)),
        keeps_first_of_each(ranked(raw@) + ranked(standard@), ranked(out@)),
{
    let all = chained(raw, standard);
    let uniq = dedup_by_path(&all);
    let out = sort_by_rank(&uniq);
    proof {
        let input = ranked(raw@) + ranked(standard@);
        let mid = ranked(uniq@);
        let res = ranked(out@);
        mid.to_multiset_ensures();
        res.to_multiset_ensures();
        assert forall|i: int, j: int| 0 <= i < j < res.len() implies ranks_before(
            #[trigger] res[i],
            #[trigger] res[j],
        ) by {
            lemma_rank_total(res[i], res[j]);
        }
        assert forall|i: int| 0 <= i < res.len() implies is_first_of(input, #[trigger] res[i]) by {
            assert(res.contains(res[i]));
            assert(res.to_multiset().count(res[i]) > 0);
            assert(mid.to_multiset().count(res[i]) > 0);
            assert(mid.contains(res[i]));
            let a = choose|a: int| 0 <= a < mid.len() && mid[a] == res[i];
            assert(is_first_of(input, mid[a]));
        }
        assert forall|k: int| 0 <= k < input.len() implies lists_path(
            res,
            normalized((#[trigger] input[k]).path),
        ) by {
            assert(lists_path(mid, normalized(input[k].path)));
            let a = choose|a: int|
                0 <= a < mid.len() && (#[trigger] mid[a]).path == normalized(input[k].path);
            assert(mid.contains(mid[a]));
            assert(mid.to_multiset().count(mid[a]) > 0);
            assert(res.to_multiset().count(mid[a]) > 0);
            assert(res.contains(mid[a]));
            let i = choose|i: int| 0 <= i < res.len() && res[i] == mid[a];
            assert(res[i].path == normalized(input[k].path));
        }
    }
    out
}

/// No two members of an aggregated list have the same normal path.
pub proof fn lemma_no_duplicate_normal_paths(input: Seq<Ranked>, out: Seq<Ranked>, i: int, j: int)
    requires
        keeps_first_of_each(input, out),
        distinct_paths(out),
        0 <= i < out.len(),
        0 <= j < out.len(),
        i != j,
    ensures
        normalized(out[i].path) != normalized(out[j].path),
{
    assert(is_first_of(input, out[i]));
    assert(is_first_of(input, out[j]));
    let a = choose|k: int|
        0 <= k < input.len() && #[trigger] is_first(input, k) && out[i] == with_normal_path(
            input[k],
        );
    let b = choose|k: int|
        0 <= k < input.len() && #[trigger] is_first(input, k) && out[j] == with_normal_path(
            input[k],
        );
    crate::path::lemma_normalized_idempotent(input[a].path);
    crate::path::lemma_normalized_idempotent(input[b].path);
}

/// Each list holds every member of the other.
pub open spec fn same_members(a: Seq<Ranked>, b: Seq<Ranked>) -> bool {
    &&& forall|i: int| 0 <= i < a.len() ==> b.contains(#[trigger] a[i])
    &&& forall|j: int| 0 <= j < b.len() ==> a.contains(#[trigger] b[j])
}

/// Candidates with the same normal path have the same score and flavor,
/// as candidates have whose score and flavor were read off their path.
pub open spec fn agreeing(s: Seq<Ranked>) -> bool {
    forall|i: int, j: int|
        0 <= i < s.len() && 0 <= j < s.len() && normalized((#[trigger] s[i]).path) == normalized(
            (#[trigger] s[j]).path,
        ) ==> s[i].score == s[j].score && s[i].flavor == s[j].flavor
}

/// What `deduped` returns: normal forms of members of the input, one for
/// every normal path that occurs in it, and none twice.
pub proof fn lemma_deduped_members(input: Seq<Ranked>)
    ensures
        forall|i: int|
            0 <= i < deduped(input).len() ==> exists|k: int|
                0 <= k < input.len() && #[trigger] deduped(input)[i] == with_normal_path(
                    #[trigger] input[k],
                ),
        forall|k: int|
            0 <= k < input.len() ==> lists_path(
                deduped(input),
                normalized((#[trigger] input[k]).path),
            ),
        distinct_paths(deduped(input)),
    decreases input.len(),
{
    let out = deduped(input);
    if input.len() > 0 {
        let front = input.drop_last();
        let before = deduped(front);
        let c = with_normal_path(input.last());
        lemma_deduped_members(front);
        assert forall|i: int| 0 <= i < out.len() implies exists|k: int|
            0 <= k < input.len() && #[trigger] out[i] == with_normal_path(#[trigger] input[k]) by {
            if i < before.len() {
                assert(out[i] == before[i]);
                let k = choose|k: int|
                    0 <= k < front.len() && #[trigger] before[i] == with_normal_path(
                        #[trigger] front[k],
                    );
                assert(front[k] == input[k]);
                assert(out[i] == with_normal_path(input[k]));
            } else {
                assert(out[i] == with_normal_path(input[input.len() - 1]));
            }
        }
        assert forall|k: int| 0 <= k < input.len() implies lists_path(
            out,
            normalized((#[trigger] input[k]).path),
        ) by {
            if k < front.len() {
                assert(front[k] == input[k]);
                assert(lists_path(before, normalized(front[k].path)));
                let i = choose|i: int|
                    0 <= i < before.len() && (#[trigger] before[i]).path == normalized(
                        front[k].path,
                    );
                assert(out[i] == before[i]);
            } else {
                if lists_path(before, c.path) {
                } else {
                    assert(out[out.len() - 1].path == c.path);
                }
            }
        }
        assert forall|i: int, j: int|
            0 <= i < out.len() && 0 <= j < out.len() && i != j implies (#[trigger] out[i]).path != (
        #[trigger] out[j]).path by {
            if i < before.len() && j < before.len() {
                assert(out[i] == before[i] && out[j] == before[j]);
            } else if i < before.len() {
                assert(out[i] == before[i]);
            } else if j < before.len() {
                assert(out[j] == before[j]);
            }
        }
    }
}

proof fn lemma_rank_slot_is_right(sorted: Seq<Ranked>, c: Ranked)
    ensures
        0 <= rank_slot(sorted, c) <= sorted.len(),
        forall|a: int| 0 <= a < rank_slot(sorted, c) ==> !ranks_before(c, #[trigger] sorted[a]),
        rank_slot(sorted, c) < sorted.len() ==> ranks_before(c, sorted[rank_slot(sorted, c)]),
    decreases sorted.len(),
{
    if sorted.len() > 0 && !ranks_before(c, sorted[0]) {
        let rest = sorted.drop_first();
        lemma_rank_slot_is_right(rest, c);
        let p = rank_slot(rest, c);
        assert forall|a: int| 0 <= a < p + 1 implies !ranks_before(c, #[trigger] sorted[a]) by {
            if a > 0 {
                assert(sorted[a] == rest[a - 1]);
            }
        }
        if p + 1 < sorted.len() {
            assert(sorted[p + 1] == rest[p]);
        }
    }
}

proof fn lemma_by_rank_order(s: Seq<Ranked>)
    ensures
        no_inversion(by_rank(s)),
        by_rank(s).len() == s.len(),
    decreases s.len(),
{
    if s.len() > 0 {
        let before = by_rank(s.drop_last());
        lemma_by_rank_order(s.drop_last());
        lemma_rank_slot_is_right(before, s.last());
        lemma_insert_keeps_order(before, rank_slot(before, s.last()), s.last());
    }
}

proof fn lemma_by_rank_same(s: Seq<Ranked>)
    ensures
        same_members(by_rank(s), s),
    decreases s.len(),
{
    let out = by_rank(s);
    if s.len() > 0 {
        let front = s.drop_last();
        let before = by_rank(front);
        let x = s.last();
        lemma_by_rank_same(front);
        lemma_by_rank_order(front);
        lemma_rank_slot_is_right(before, x);
        let p = rank_slot(before, x);
        assert(out == before.insert(p, x));
        assert forall|i: int| 0 <= i < out.len() implies s.contains(#[trigger] out[i]) by {
            if i == p {
                assert(s[s.len() - 1] == x);
            } else {
                let o = if i < p { i } else { i - 1 };
                assert(out[i] == before[o]);
                assert(front.contains(before[o]));
                let k = choose|k: int| 0 <= k < front.len() && front[k] == before[o];
                assert(s[k] == front[k]);
            }
        }
        assert forall|j: int| 0 <= j < s.len() implies out.contains(#[trigger] s[j]) by {
            if j == s.len() - 1 {
                assert(out[p] == x);
            } else {
                assert(front[j] == s[j]);
                assert(before.contains(front[j]));
                let o = choose|o: int| 0 <= o < before.len() && before[o] == front[j];
                let i = if o < p { o } else { o + 1 };
                assert(out[i] == before[o]);
            }
        }
    }
}

proof fn lemma_by_rank_distinct(s: Seq<Ranked>)
    requires
        distinct_paths(s),
    ensures
        distinct_paths(by_rank(s)),
    decreases s.len(),
{
    let out = by_rank(s);
    if s.len() > 0 {
        let front = s.drop_last();
        let before = by_rank(front);
        let x = s.last();
        assert(distinct_paths(front)) by {
            assert forall|i: int, j: int|
                0 <= i < front.len() && 0 <= j < front.len() && i != j implies (
            #[trigger] front[i]).path != (#[trigger] front[j]).path by {
                assert(front[i] == s[i] && front[j] == s[j]);
            }
        }
        lemma_by_rank_distinct(front);
        lemma_by_rank_same(front);
        lemma_by_rank_order(front);
        lemma_rank_slot_is_right(before, x);
        let p = rank_slot(before, x);
        assert(out == before.insert(p, x));
        assert forall|o: int| 0 <= o < before.len() implies (#[trigger] before[o]).path
            != x.path by {
            assert(front.contains(before[o]));
            let k = choose|k: int| 0 <= k < front.len() && front[k] == before[o];
            assert(s[k] == front[k]);
            assert(s[k].path != s[s.len() - 1].path);
        }
        assert forall|i: int, j: int|
            0 <= i < out.len() && 0 <= j < out.len() && i != j implies (#[trigger] out[i]).path
            != (#[trigger] out[j]).path by {
            let oi = if i < p { i } else { i - 1 };
            let oj = if j < p { j } else { j - 1 };
            if i != p {
                assert(out[i] == before[oi]);
            }
            if j != p {
                assert(out[j] == before[oj]);
            }
        }
    }
}

/// What `by_rank` returns: the members of the list, without inversions,
/// and in rank order with no path twice if the list had none twice.
pub proof fn lemma_by_rank_members(s: Seq<Ranked>)
    ensures
        no_inversion(by_rank(s)),
        same_members(by_rank(s), s),
        by_rank(s).len() == s.len(),
        distinct_paths(s) ==> distinct_paths(by_rank(s)) && in_rank_order(by_rank(s)),
{
    let out = by_rank(s);
    lemma_by_rank_order(s);
    lemma_by_rank_same(s);
    if distinct_paths(s) {
        lemma_by_rank_distinct(s);
        assert forall|i: int, j: int| 0 <= i < j < out.len() implies ranks_before(
            #[trigger] out[i],
            #[trigger] out[j],
        ) by {
            lemma_rank_total(out[i], out[j]);
        }
    }
}

/// Two lists in rank order that hold the same members are the same list.
pub proof fn lemma_rank_order_is_unique(a: Seq<Ranked>, b: Seq<Ranked>)
    requires
        in_rank_order(a),
        in_rank_order(b),
        same_members(a, b),
    ensures
        a == b,
    decreases a.len(),
{
    if a.len() == 0 {
        if b.len() > 0 {
            assert(a.contains(b[0]));
        }
        assert(a =~= b);
    } else {
        assert(b.contains(a[0]));
        let j = choose|j: int| 0 <= j < b.len() && b[j] == a[0];
        assert(a.contains(b[0]));
        let i = choose|i: int| 0 <= i < a.len() && a[i] == b[0];
        if i > 0 && j > 0 {
            assert(ranks_before(a[0], a[i]));
            assert(ranks_before(b[0], b[j]));
            lemma_rank_transitive(a[0], b[0], a[0]);
            lemma_rank_irreflexive(a[0]);
        }
        assert(a[0] == b[0]);
        let ta = a.drop_first();
        let tb = b.drop_first();
        assert forall|x: int, y: int| 0 <= x < y < ta.len() implies ranks_before(
            #[trigger] ta[x],
            #[trigger] ta[y],
        ) by {
            assert(ta[x] == a[x + 1] && ta[y] == a[y + 1]);
        }
        assert forall|x: int, y: int| 0 <= x < y < tb.len() implies ranks_before(
            #[trigger] tb[x],
            #[trigger] tb[y],
        ) by {
            assert(tb[x] == b[x + 1] && tb[y] == b[y + 1]);
        }
        assert forall|x: int| 0 <= x < ta.len() implies tb.contains(#[trigger] ta[x]) by {
            assert(ta[x] == a[x + 1]);
            assert(b.contains(a[x + 1]));
            let y = choose|y: int| 0 <= y < b.len() && b[y] == a[x + 1];
            if y == 0 {
                assert(ranks_before(a[0], a[x + 1]));
                lemma_rank_irreflexive(a[0]);
            }
            assert(tb[y - 1] == b[y]);
        }
        assert forall|y: int| 0 <= y < tb.len() implies ta.contains(#[trigger] tb[y]) by {
            assert(tb[y] == b[y + 1]);
            assert(a.contains(b[y + 1]));
            let x = choose|x: int| 0 <= x < a.len() && a[x] == b[y + 1];
            if x == 0 {
                assert(ranks_before(b[0], b[y + 1]));
                lemma_rank_irreflexive(b[0]);
            }
            assert(ta[x - 1] == a[x]);
        }
        lemma_rank_order_is_unique(ta, tb);
        assert(a =~= seq![a[0]] + ta);
        assert(b =~= seq![b[0]] + tb);
    }
}

/// The aggregated list does not depend on the order in which the
/// candidates arrive: two inputs that hold the same candidates, each of
/// which has the score and the flavor that go with its path, give the same
/// list, entry for entry.
pub proof fn lemma_arrival_order_is_no_matter(x: Seq<Ranked>, y: Seq<Ranked>)
    requires
        same_members(x, y),
        agreeing(x),
    ensures
        by_rank(deduped(x)) == by_rank(deduped(y)),
{
    let dx = deduped(x);
    let dy = deduped(y);
    lemma_deduped_members(x);
    lemma_deduped_members(y);
    assert(agreeing(y)) by {
        assert forall|i: int, j: int|
            0 <= i < y.len() && 0 <= j < y.len() && normalized((#[trigger] y[i]).path)
                == normalized((#[trigger] y[j]).path) implies y[i].score == y[j].score
            && y[i].flavor == y[j].flavor by {
            assert(x.contains(y[i]));
            assert(x.contains(y[j]));
            let a = choose|a: int| 0 <= a < x.len() && x[a] == y[i];
            let b = choose|b: int| 0 <= b < x.len() && x[b] == y[j];
            assert(normalized(x[a].path) == normalized(x[b].path));
        }
    }
    lemma_deduped_carries_over(x, y);
    lemma_deduped_carries_over(y, x);
    lemma_by_rank_members(dx);
    lemma_by_rank_members(dy);
    let a = by_rank(dx);
    let b = by_rank(dy);
    assert forall|i: int| 0 <= i < a.len() implies b.contains(#[trigger] a[i]) by {
        assert(dx.contains(a[i]));
        let k = choose|k: int| 0 <= k < dx.len() && dx[k] == a[i];
        assert(dy.contains(dx[k]));
        let m = choose|m: int| 0 <= m < dy.len() && dy[m] == dx[k];
        assert(b.contains(dy[m]));
    }
    assert forall|j: int| 0 <= j < b.len() implies a.contains(#[trigger] b[j]) by {
        assert(dy.contains(b[j]));
        let k = choose|k: int| 0 <= k < dy.len() && dy[k] == b[j];
        assert(dx.contains(dy[k]));
        let m = choose|m: int| 0 <= m < dx.len() && dx[m] == dy[k];
        assert(a.contains(dx[m]));
    }
    lemma_rank_order_is_unique(a, b);
}

/// Every member of `deduped(x)` is a member of `deduped(y)` when `y` holds
/// the members of `x` and its candidates agree.
proof fn lemma_deduped_carries_over(x: Seq<Ranked>, y: Seq<Ranked>)
    requires
        same_members(x, y),
        agreeing(y),
    ensures
        forall|i: int| 0 <= i < deduped(x).len() ==> deduped(y).contains(#[trigger] deduped(x)[i]),
{
    let dx = deduped(x);
    let dy = deduped(y);
    lemma_deduped_members(x);
    lemma_deduped_members(y);
    assert forall|i: int| 0 <= i < dx.len() implies dy.contains(#[trigger] dx[i]) by {
        let k = choose|k: int|
            0 <= k < x.len() && #[trigger] dx[i] == with_normal_path(#[trigger] x[k]);
        assert(y.contains(x[k]));
        let m = choose|m: int| 0 <= m < y.len() && y[m] == x[k];
        assert(lists_path(dy, normalized(y[m].path)));
        let j = choose|j: int|
            0 <= j < dy.len() && (#[trigger] dy[j]).path == normalized(y[m].path);
        let n = choose|n: int|
            0 <= n < y.len() && #[trigger] dy[j] == with_normal_path(#[trigger] y[n]);
        assert(normalized(y[n].path) == normalized(y[m].path));
        assert(y[n].score == y[m].score && y[n].flavor == y[m].flavor);
        assert(dy[j] == dx[i]);
    }
}

/// In the aggregated list scores never rise, and among equal scores paths
/// strictly ascend.
pub proof fn lemma_rank_order_reads(s: Seq<Ranked>, i: int, j: int)
    requires
        in_rank_order(s),
        0 <= i < j < s.len(),
    ensures
        s[i].score >= s[j].score,
        s[i].score == s[j].score ==> lex_lt(s[i].path, s[j].path),
{
    assert(ranks_before(s[i], s[j]));
}

} // verus!
