//! Finds the installation that a directory belongs to: the directory
//! itself or the nearest directory above it that the classifier accepts.

use vstd::prelude::*;
use crate::classifier::{classify, lowered_base_of, verdict};
use crate::listing::{find_record, lookup, DirRecord};
use crate::path::{
    all_components, components, is_absolute, is_absolute_path, lemma_components_shape,
    lemma_render_roundtrip, render, render_path, split_path, views,
};

verus! {

/// Whether the directory at `path` is a match according to what has been
/// recorded of it. A directory without a record is none.
pub open spec fn accepted(records: Seq<DirRecord>, path: Seq<char>) -> bool {
    match lookup(records, path) {
        Some(entries) => verdict(path, lowered_base_of(path), entries).is_match,
        None => false,
    }
}

/// The number of leading components of the nearest accepted directory at
/// or above the one with the first `k` components; none if the walk passes
/// the root without a match.
pub open spec fn nearest(
    records: Seq<DirRecord>,
    absolute: bool,
    parts: Seq<Seq<char>>,
    k: nat,
) -> Option<nat>
    decreases k,
{
    if accepted(records, render(absolute, parts.take(k as int))) {
        Some(k)
    } else if k == 0 {
        None
    } else {
        nearest(records, absolute, parts, (k - 1) as nat)
    }
}

/// The installation root for `path`: the nearest accepted directory at or
/// above it, in normal form.
pub open spec fn resolved(records: Seq<DirRecord>, path: Seq<char>) -> Option<Seq<char>> {
    let parts = components(path);
    match nearest(records, is_absolute(path), parts, parts.len()) {
        Some(k) => Some(render(is_absolute(path), parts.take(k as int))),
        None => None,
    }
}

/// The directory itself and every directory above it, nearest first, each
/// in normal form. These are the paths that `resolve_root` looks up.
pub fn ancestors(path: &str) -> (r: Vec<String>)
    ensures
        r.len() == components(path@).len() + 1,
        forall|j: int|
            0 <= j < r.len() ==> (#[trigger] r[j])@ == render(
                is_absolute(path@),
                components(path@).take(components(path@).len() - j),
            ),
{
    let parts = split_path(path);
    let absolute = is_absolute_path(path);
    let mut out: Vec<String> = Vec::new();
    let mut k: usize = parts.len();
    loop
        invariant
            k <= parts.len(),
            views(parts@) == components(path@),
            absolute == is_absolute(path@),
            out.len() == parts.len() - k,
            forall|j: int|
                0 <= j < out.len() ==> (#[trigger] out[j])@ == render(
                    absolute,
                    components(path@).take(components(path@).len() - j),
                ),
        decreases k,
    {
        out.push(render_path(absolute, &parts, k));
        if k == 0 {
            return out;
        }
        k -= 1;
    }
}

/// Walks from `path` towards the root and returns the first directory that
/// the classifier accepts, going by `records`; `None` if the root is passed
/// without a match.
pub fn resolve_root(path: &str, records: &Vec<DirRecord>) -> (r: Option<String>)
    ensures
        match r {
            Some(root) => resolved(records@, path@) == Some(root@),
            None => resolved(records@, path@) is None,
        },
{
    let parts = split_path(path);
    let absolute = is_absolute_path(path);
    let mut k: usize = parts.len();
    loop
        invariant
            k <= parts.len(),
            views(parts@) == components(path@),
            absolute == is_absolute(path@),
            nearest(records@, absolute, components(path@), components(path@).len()) == nearest(
                records@,
                absolute,
                components(path@),
                k as nat,
            ),
        decreases k,
    {
        let here = render_path(absolute, &parts, k);
        let listing = find_record(records, here.as_str());
        let hit = match classify(here.as_str(), listing) {
            Some(c) => c.is_match,
            None => false,
        };
        assert(hit == accepted(records@, here@));
        if hit {
            return Some(here);
        }
        if k == 0 {
            return None;
        }
        k -= 1;
    }
}

/// Resolving is idempotent: the root found for a path is its own root.
pub proof fn lemma_resolved_idempotent(records: Seq<DirRecord>, path: Seq<char>)
    requires
        resolved(records, path) is Some,
    ensures
        resolved(records, resolved(records, path)->0) == resolved(records, path),
{
    let parts = components(path);
    let absolute = is_absolute(path);
    let k = nearest(records, absolute, parts, parts.len())->0;
    lemma_nearest_accepted(records, absolute, parts, parts.len());
    let root = render(absolute, parts.take(k as int));
    lemma_components_shape(path);
    assert(all_components(parts.take(k as int))) by {
        assert forall|i: int| 0 <= i < parts.take(k as int).len() implies crate::path::is_component(
            #[trigger] parts.take(k as int)[i],
        ) by {
            assert(parts.take(k as int)[i] == parts[i]);
        }
    }
    lemma_render_roundtrip(absolute, parts.take(k as int));
    assert(parts.take(k as int).take(k as int) =~= parts.take(k as int));
}

/// What `nearest` returns is accepted, lies at or above the start, and
/// nothing between it and the start is accepted.
pub proof fn lemma_nearest_accepted(
    records: Seq<DirRecord>,
    absolute: bool,
    parts: Seq<Seq<char>>,
    k: nat,
)
    ensures
        match nearest(records, absolute, parts, k) {
            Some(n) => n <= k && accepted(records, render(absolute, parts.take(n as int)))
                && forall|m: nat|
                n < m <= k ==> !accepted(records, #[trigger] render(absolute, parts.take(m as int))),
            None => forall|m: nat|
                m <= k ==> !accepted(records, #[trigger] render(absolute, parts.take(m as int))),
        },
    decreases k,
{
    if !accepted(records, render(absolute, parts.take(k as int))) && k > 0 {
        lemma_nearest_accepted(records, absolute, parts, (k - 1) as nat);
    }
}

} // verus!
