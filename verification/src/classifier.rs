//! Decides whether a directory looks like a game installation, which
//! launcher it belongs to, and how it ranks among other finds.
//!
//! Two signals are combined, and either is enough: the directory's own name,
//! and the presence of a well-known child. A directory that is merely called
//! `MC` therefore matches even when empty; later steps let the user discard
//! such a pick.

use vstd::prelude::*;
use crate::listing::DirEntry;
use crate::path::{base_name, base_of};
use crate::text::{chars_of, contains_chars, has_sub, lowercase_of, same_chars, to_lowercase};

verus! {

/// The launcher that an installation belongs to, as far as its path tells.
#[derive(Clone, Copy, Debug, PartialEq, Eq, Structural)]
pub enum Flavor {
    Vanilla,
    PrismOrMultiMC,
    CurseForge,
    TLauncher,
    GDLauncher,
    ATLauncher,
    Unknown,
}

/// The verdict on one directory.
#[derive(Clone, Copy, Debug, PartialEq, Eq, Structural)]
pub struct Classification {
    pub flavor: Flavor,
    pub is_match: bool,
}

/// The names of the children that mark an installation: nine directories
/// and two files.
pub open spec fn is_marker(name: Seq<char>) -> bool {
    ||| name == "saves"@
    ||| name == "resourcepacks"@
    ||| name == "shaderpacks"@
    ||| name == "mods"@
    ||| name == "versions"@
    ||| name == "assets"@
    ||| name == "logs"@
    ||| name == "config"@
    ||| name == "screenshots"@
    ||| name == "options.txt"@
    ||| name == "launcher_profiles.json"@
}

/// The content signal: some child bears a marker name.
pub open spec fn content_signal(entries: Seq<DirEntry>) -> bool {
    exists|i: int| 0 <= i < entries.len() && is_marker((#[trigger] entries[i]).name@)
}

/// The name signal, on the lower-cased base name of the directory.
pub open spec fn name_signal(lowered: Seq<char>) -> bool {
    ||| has_sub(lowered, "minecraft"@)
    ||| has_sub(lowered, "instance"@)
    ||| has_sub(lowered, "mc"@)
    ||| lowered == ".minecraft"@
}

/// The launcher named in a path. Brand names are looked for before the
/// plain `.minecraft`, so that a launcher's instance that holds a
/// `.minecraft` directory keeps the launcher's flavor.
pub open spec fn flavor_of(path: Seq<char>) -> Flavor {
    if has_sub(path, "curseforge"@) {
        Flavor::CurseForge
    } else if has_sub(path, "multimc"@) || has_sub(path, "prismlauncher"@) {
        Flavor::PrismOrMultiMC
    } else if has_sub(path, "atlauncher"@) {
        Flavor::ATLauncher
    } else if has_sub(path, "tlauncher"@) {
        Flavor::TLauncher
    } else if has_sub(path, "gdlauncher"@) {
        Flavor::GDLauncher
    } else if has_sub(path, ".minecraft"@) {
        Flavor::Vanilla
    } else {
        Flavor::Unknown
    }
}

/// The priority of a path: the first row of the table that applies. A path
/// that names ATLauncher holds `tlauncher` and ranks with TLauncher.
pub open spec fn score_of(path: Seq<char>, has_mods: bool) -> u32 {
    if has_sub(path, ".minecraft"@) {
        100
    } else if has_sub(path, "prismlauncher"@) || has_sub(path, "multimc"@) {
        90
    } else if has_sub(path, "curseforge"@) {
        80
    } else if has_sub(path, "tlauncher"@) {
        70
    } else if has_sub(path, "gdlauncher"@) {
        60
    } else if has_sub(path, "instances"@) {
        50
    } else if has_mods {
        40
    } else {
        10
    }
}

/// The verdict on a directory, given its path, the lower-cased form of its
/// base name (none for a path without components) and its entries.
pub open spec fn verdict(
    path: Seq<char>,
    lowered_base: Option<Seq<char>>,
    entries: Seq<DirEntry>,
) -> Classification {
    Classification {
        flavor: flavor_of(path),
        is_match: content_signal(entries) || (lowered_base is Some && name_signal(
            lowered_base->0,
        )),
    }
}

/// The lower-cased base name of a path, as `classify` computes it.
pub open spec fn lowered_base_of(path: Seq<char>) -> Option<Seq<char>> {
    match base_of(path) {
        Some(name) => Some(lowercase_of(name)),
        None => None,
    }
}

fn is_literal(name: &Vec<char>, literal: &str) -> (r: bool)
    ensures
        r == (name@ == literal@),
{
    let l = chars_of(literal);
    same_chars(name, &l)
}

fn holds(hay: &Vec<char>, literal: &str) -> (r: bool)
    ensures
        r == has_sub(hay@, literal@),
{
    let l = chars_of(literal);
    contains_chars(hay, &l)
}

/// Whether a child of this name marks an installation.
pub fn is_marker_name(name: &str) -> (r: bool)
    ensures
        r == is_marker(name@),
{
    let n = chars_of(name);
    is_literal(&n, "saves") || is_literal(&n, "resourcepacks") || is_literal(&n, "shaderpacks")
        || is_literal(&n, "mods") || is_literal(&n, "versions") || is_literal(&n, "assets")
        || is_literal(&n, "logs") || is_literal(&n, "config") || is_literal(&n, "screenshots")
        || is_literal(&n, "options.txt") || is_literal(&n, "launcher_profiles.json")
}

/// Whether a directory with these entries holds at least one of the
/// children that mark an installation: the content signal alone.
pub fn has_marker_child(entries: &Vec<DirEntry>) -> (r: bool)
    ensures
        r == content_signal(entries@),
{
    let mut i: usize = 0;
    while i < entries.len()
        invariant
            i <= entries.len(),
            forall|j: int| 0 <= j < i ==> !is_marker((#[trigger] entries@[j]).name@),
        decreases entries.len() - i,
    {
        if is_marker_name(entries[i].name.as_str()) {
            return true;
        }
        i += 1;
    }
    false
}

/// Whether a lower-cased base name gives the name signal.
pub fn matches_name(lowered: &str) -> (r: bool)
    ensures
        r == name_signal(lowered@),
{
    let n = chars_of(lowered);
    holds(&n, "minecraft") || holds(&n, "instance") || holds(&n, "mc") || is_literal(
        &n,
        ".minecraft",
    )
}

/// The launcher named in a path.
pub fn flavor(path: &str) -> (r: Flavor)
    ensures
        r == flavor_of(path@),
{
    let p = chars_of(path);
    if holds(&p, "curseforge") {
        Flavor::CurseForge
    } else if holds(&p, "multimc") || holds(&p, "prismlauncher") {
        Flavor::PrismOrMultiMC
    } else if holds(&p, "atlauncher") {
        Flavor::ATLauncher
    } else if holds(&p, "tlauncher") {
        Flavor::TLauncher
    } else if holds(&p, "gdlauncher") {
        Flavor::GDLauncher
    } else if holds(&p, ".minecraft") {
        Flavor::Vanilla
    } else {
        Flavor::Unknown
    }
}

/// Whether some entry bears the given name.
pub fn has_child_named(entries: &Vec<DirEntry>, name: &str) -> (r: bool)
    ensures
        r == crate::listing::has_child(entries@, name@),
{
    let wanted = chars_of(name);
    let mut i: usize = 0;
    while i < entries.len()
        invariant
            i <= entries.len(),
            wanted@ == name@,
            forall|j: int| 0 <= j < i ==> (#[trigger] entries@[j]).name@ != name@,
        decreases entries.len() - i,
    {
        let n = chars_of(entries[i].name.as_str());
        if same_chars(&n, &wanted) {
            return true;
        }
        i += 1;
    }
    false
}

/// The priority of a directory among the finds: the higher, the earlier it
/// is offered.
pub fn score(path: &str, entries: &Vec<DirEntry>) -> (r: u32)
    ensures
        r == score_of(path@, crate::listing::has_child(entries@, "mods"@)),
{
    let p = chars_of(path);
    if holds(&p, ".minecraft") {
        100
    } else if holds(&p, "prismlauncher") || holds(&p, "multimc") {
        90
    } else if holds(&p, "curseforge") {
        80
    } else if holds(&p, "tlauncher") {
        70
    } else if holds(&p, "gdlauncher") {
        60
    } else if holds(&p, "instances") {
        50
    } else if has_child_named(entries, "mods") {
        40
    } else {
        10
    }
}

/// The verdict on a directory whose base name has already been lower-cased.
pub fn classify_lowered(path: &str, lowered_base: Option<&str>, entries: &Vec<DirEntry>) -> (r:
    Classification)
    ensures
        r == verdict(
            path@,
            match lowered_base {
                Some(l) => Some(l@),
                None => None,
            },
            entries@,
        ),
{
    let by_content = has_marker_child(entries);
    let by_name = match lowered_base {
        Some(l) => matches_name(l),
        None => false,
    };
    Classification { flavor: flavor(path), is_match: by_content || by_name }
}

/// The verdict on the directory at `path`. A directory that could not be
/// listed (`listing` is `None`) gets no verdict; any other gets one, and a
/// marker child makes it a match whatever the directory is called.
pub fn classify(path: &str, listing: Option<&Vec<DirEntry>>) -> (r: Option<Classification>)
    ensures
        match listing {
            Some(entries) => r == Some(verdict(path@, lowered_base_of(path@), entries@)),
            None => r is None,
        },
        listing is Some && content_signal(listing->0@) ==> r is Some && r->0.is_match,
{
    match listing {
        None => None,
        Some(entries) => {
            match base_name(path) {
                Some(name) => {
                    let lowered = to_lowercase(name.as_str());
                    Some(classify_lowered(path, Some(lowered.as_str()), entries))
                },
                None => Some(classify_lowered(path, None, entries)),
            }
        },
    }
}

/// Whether the directory at `path`, with these entries, is an
/// installation: by what it holds or by what it is called, either being
/// enough.
pub fn is_valid_minecraft_folder(path: &str, entries: &Vec<DirEntry>) -> (r: bool)
    ensures
        r == verdict(path@, lowered_base_of(path@), entries@).is_match,
        content_signal(entries@) ==> r,
{
    match classify(path, Some(entries)) {
        Some(c) => c.is_match,
        None => false,
    }
}

/// A child named `mods`, `saves` or `options.txt` makes a directory a match,
/// whatever its own name is.
pub proof fn lemma_marker_child_matches(
    path: Seq<char>,
    lowered_base: Option<Seq<char>>,
    entries: Seq<DirEntry>,
    i: int,
)
    requires
        0 <= i < entries.len(),
        entries[i].name@ == "mods"@ || entries[i].name@ == "saves"@ || entries[i].name@
            == "options.txt"@,
    ensures
        verdict(path, lowered_base, entries).is_match,
{
    assert(is_marker(entries[i].name@));
}

} // verus!
