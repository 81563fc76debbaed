//! The mod registry, as far as it can be decided without asking it: the
//! addresses to ask, what to show of an answer, which versions of a mod fit
//! a game version and a loader, and what a downloaded file is called.

use vstd::prelude::*;
use vstd::string::*;
use crate::path::views;
use crate::text::{chars_of, lex_before, lex_lt, same_chars, str_eq};

verus! {

/// The address of the registry's interface.
pub const MODRINTH_API: &'static str = "https://api.modrinth.com/v2";

/// The title shown for a mod or a version that has none.
pub const NO_TITLE: &'static str = "Без названия";

/// The description shown for a mod that has none.
pub const NO_DESCRIPTION: &'static str = "Без описания";

/// The name given to a file whose name the registry does not tell.
pub const DEFAULT_FILE_NAME: &'static str = "mod.jar";

/// The game version that is proposed.
pub const DEFAULT_GAME_VERSION: &'static str = "1.20.1";

/// How many characters of a description are shown.
pub const DESCRIPTION_WIDTH: usize = 60;

/// White space, as the Unicode standard defines it.
pub open spec fn is_space(c: char) -> bool {
    ||| '\u{9}' <= c <= '\u{d}'
    ||| c == ' '
    ||| c == '\u{85}'
    ||| c == '\u{a0}'
    ||| c == '\u{1680}'
    ||| '\u{2000}' <= c <= '\u{200a}'
    ||| c == '\u{2028}'
    ||| c == '\u{2029}'
    ||| c == '\u{202f}'
    ||| c == '\u{205f}'
    ||| c == '\u{3000}'
}

/// `s` without the white space at its start.
pub open spec fn without_leading_space(s: Seq<char>) -> Seq<char>
    decreases s.len(),
{
    if s.len() > 0 && is_space(s[0]) {
        without_leading_space(s.drop_first())
    } else {
        s
    }
}

/// `s` without the white space at its end.
pub open spec fn without_trailing_space(s: Seq<char>) -> Seq<char>
    decreases s.len(),
{
    if s.len() > 0 && is_space(s.last()) {
        without_trailing_space(s.drop_last())
    } else {
        s
    }
}

/// `s` without the white space at either end.
pub open spec fn trimmed(s: Seq<char>) -> Seq<char> {
    without_trailing_space(without_leading_space(s))
}

fn is_space_char(c: char) -> (r: bool)
    ensures
        r == is_space(c),
{
    ('\u{9}' <= c && c <= '\u{d}') || c == ' ' || c == '\u{85}' || c == '\u{a0}' || c
        == '\u{1680}' || ('\u{2000}' <= c && c <= '\u{200a}') || c == '\u{2028}' || c
        == '\u{2029}' || c == '\u{202f}' || c == '\u{205f}' || c == '\u{3000}'
}

/// `s` without the white space at either end.
pub fn trim(s: &str) -> (r: String)
    ensures
        r@ == trimmed(s@),
{
    let v = chars_of(s);
    let mut start: usize = 0;
    assert(v@.skip(0) =~= v@);
    while start < v.len() && is_space_char(v[start])
        invariant
            start <= v.len(),
            without_leading_space(v@) == without_leading_space(v@.skip(start as int)),
        decreases v.len() - start,
    {
        assert(v@.skip(start as int).drop_first() =~= v@.skip(start + 1));
        start += 1;
    }
    let mut end: usize = v.len();
    assert(v@.subrange(start as int, end as int) =~= v@.skip(start as int));
    while end > start && is_space_char(v[end - 1])
        invariant
            start <= end <= v.len(),
            without_trailing_space(v@.skip(start as int)) == without_trailing_space(
                v@.subrange(start as int, end as int),
            ),
        decreases end,
    {
        assert(v@.subrange(start as int, end as int).drop_last() =~= v@.subrange(
            start as int,
            end - 1,
        ));
        end -= 1;
    }
    s.substring_char(start, end).to_owned()
}

/// The text to search for, from what was typed: the typed text without the
/// white space around it, or nothing if nothing else was typed.
pub fn clean_query(typed: &str) -> (r: Option<String>)
    ensures
        match r {
            Some(q) => q@ == trimmed(typed@) && q@.len() > 0,
            None => trimmed(typed@).len() == 0,
        },
{
    let q = trim(typed);
    if q.as_str().unicode_len() == 0 {
        None
    } else {
        Some(q)
    }
}

/// The address that answers a search.
pub open spec fn search_url_of(query: Seq<char>) -> Seq<char> {
    MODRINTH_API@ + "/search?query="@ + query + "&limit=20"@
}

/// The address that lists the versions of a project.
pub open spec fn versions_url_of(project_id: Seq<char>) -> Seq<char> {
    MODRINTH_API@ + "/project/"@ + project_id + "/version"@
}

/// The address that answers a search.
pub fn search_url(query: &str) -> (r: String)
    ensures
        r@ == search_url_of(query@),
{
    let mut out = String::from_str(MODRINTH_API);
    out.append("/search?query=");
    out.append(query);
    out.append("&limit=20");
    out
}

/// The address that lists the versions of a project.
pub fn versions_url(project_id: &str) -> (r: String)
    ensures
        r@ == versions_url_of(project_id@),
{
    let mut out = String::from_str(MODRINTH_API);
    out.append("/project/");
    out.append(project_id);
    out.append("/version");
    out
}

/// The text of an optional string, or a default.
pub open spec fn text_or(s: Option<String>, default: Seq<char>) -> Seq<char> {
    match s {
        Some(t) => t@,
        None => default,
    }
}

fn owned_or(s: &Option<String>, default: &str) -> (r: String)
    ensures
        r@ == text_or(*s, default@),
{
    match s {
        Some(t) => t.clone(),
        None => String::from_str(default),
    }
}

/// One hit of a search, as the registry gives it: each field may be
/// missing.
#[derive(Debug)]
pub struct ModHit {
    pub title: Option<String>,
    pub description: Option<String>,
    pub project_id: Option<String>,
}

/// One hit of a search, as it is shown.
#[derive(Debug)]
pub struct ModSummary {
    pub title: String,
    pub description: String,
    pub project_id: String,
}

/// The start of a description that is shown, with the dots that follow it.
pub open spec fn shortened(description: Seq<char>) -> Seq<char> {
    (if description.len() <= 60 {
        description
    } else {
        description.take(60)
    }) + "..."@
}

/// What is shown of a hit: its title, the start of its description, and its
/// project, each replaced by a default where the registry gave none.
pub fn summarize(hit: &ModHit) -> (r: ModSummary)
    ensures
        r.title@ == text_or(hit.title, NO_TITLE@),
        r.description@ == shortened(text_or(hit.description, NO_DESCRIPTION@)),
        r.project_id@ == text_or(hit.project_id, ""@),
{
    proof {
        reveal_strlit("");
    }
    let full = owned_or(&hit.description, NO_DESCRIPTION);
    let n = full.as_str().unicode_len();
    let shown = if n <= DESCRIPTION_WIDTH {
        assert(full@.subrange(0, n as int) =~= full@);
        full.as_str().substring_char(0, n)
    } else {
        full.as_str().substring_char(0, DESCRIPTION_WIDTH)
    };
    let mut description = String::from_str(shown);
    description.append("...");
    ModSummary {
        title: owned_or(&hit.title, NO_TITLE),
        description,
        project_id: owned_or(&hit.project_id, ""),
    }
}

/// The entry shown for a hit.
pub open spec fn hit_label_of(title: Seq<char>, description: Seq<char>) -> Seq<char> {
    title + " - "@ + description
}

/// The entry shown for a hit.
pub fn hit_label(hit: &ModSummary) -> (r: String)
    ensures
        r@ == hit_label_of(hit.title@, hit.description@),
{
    let mut out = hit.title.clone();
    out.append(" - ");
    out.append(hit.description.as_str());
    out
}

/// The hit that an answer stands for: the first whose entry reads like the
/// answer.
pub fn hit_for_choice(hits: &Vec<ModSummary>, choice: &str) -> (r: Option<usize>)
    ensures
        match r {
            Some(i) => i < hits.len() && hit_label_of(hits[i as int].title@, hits[i as int].description@)
                == choice@ && forall|j: int|
                0 <= j < i ==> hit_label_of((#[trigger] hits[j]).title@, hits[j].description@)
                    != choice@,
            None => forall|j: int|
                0 <= j < hits.len() ==> hit_label_of((#[trigger] hits[j]).title@, hits[j].description@)
                    != choice@,
        },
{
    let mut i: usize = 0;
    while i < hits.len()
        invariant
            i <= hits.len(),
            forall|j: int|
                0 <= j < i ==> hit_label_of((#[trigger] hits[j]).title@, hits[j].description@)
                    != choice@,
        decreases hits.len() - i,
    {
        let label = hit_label(&hits[i]);
        if str_eq(label.as_str(), choice) {
            return Some(i);
        }
        i += 1;
    }
    None
}

/// The part of an address after its last slash; the whole address if it has
/// none.
pub open spec fn last_segment(url: Seq<char>) -> Seq<char>
    decreases url.len(),
{
    if url.len() == 0 {
        url
    } else if url.last() == '/' {
        Seq::empty()
    } else {
        last_segment(url.drop_last()).push(url.last())
    }
}

/// The name under which the file at an address is stored: the part of the
/// address after its last slash.
pub fn file_name_from_url(url: &str) -> (r: String)
    ensures
        r@ == last_segment(url@),
{
    let v = chars_of(url);
    let mut start: usize = 0;
    let mut i: usize = 0;
    assert(v@.take(0) =~= Seq::<char>::empty());
    assert(v@.subrange(0, 0) =~= Seq::<char>::empty());
    while i < v.len()
        invariant
            start <= i <= v.len(),
            last_segment(v@.take(i as int)) == v@.subrange(start as int, i as int),
        decreases v.len() - i,
    {
        proof {
            assert(v@.take(i + 1).drop_last() =~= v@.take(i as int));
            assert(v@.take(i + 1).last() == v@[i as int]);
        }
        if v[i] == '/' {
            start = i + 1;
            assert(v@.subrange(start as int, i + 1) =~= Seq::<char>::empty());
        } else {
            assert(v@.subrange(start as int, i + 1) =~= v@.subrange(start as int, i as int).push(
                v@[i as int],
            ));
        }
        i += 1;
    }
    assert(v@.take(i as int) =~= v@);
    url.substring_char(start, i).to_owned()
}

/// One file of a version, as the registry gives it.
#[derive(Debug)]
pub struct ModFile {
    pub filename: Option<String>,
    pub url: Option<String>,
}

/// One version of a mod, as the registry gives it: each field may be
/// missing, and a list may hold members that are no text.
#[derive(Debug)]
pub struct VersionEntry {
    pub name: Option<String>,
    pub game_versions: Option<Vec<Option<String>>>,
    pub loaders: Option<Vec<Option<String>>>,
    pub files: Option<Vec<ModFile>>,
}

/// A version that can be downloaded.
#[derive(Debug)]
pub struct ModVersion {
    pub name: String,
    pub filename: String,
    pub url: String,
}

/// A downloadable version as plain values.
pub struct Offer {
    pub name: Seq<char>,
    pub filename: Seq<char>,
    pub url: Seq<char>,
}

impl View for ModVersion {
    type V = Offer;

    open spec fn view(&self) -> Offer {
        Offer { name: self.name@, filename: self.filename@, url: self.url@ }
    }
}

/// The plain values of a sequence of versions.
pub open spec fn offers(v: Seq<ModVersion>) -> Seq<Offer> {
    Seq::new(v.len(), |i: int| v[i]@)
}

/// The list is there and holds `wanted` as one of its members.
pub open spec fn names(list: Option<Vec<Option<String>>>, wanted: Seq<char>) -> bool {
    match list {
        Some(v) => exists|i: int| 0 <= i < v@.len() && holds_text(#[trigger] v@[i], wanted),
        None => false,
    }
}

/// The member is a text, and this one.
pub open spec fn holds_text(member: Option<String>, wanted: Seq<char>) -> bool {
    match member {
        Some(t) => t@ == wanted,
        None => false,
    }
}

/// A version fits when it names the game version and the loader and has a
/// file.
pub open spec fn fits(e: VersionEntry, game_version: Seq<char>, loader: Seq<char>) -> bool {
    names(e.game_versions, game_version) && names(e.loaders, loader) && match e.files {
        Some(f) => f@.len() > 0,
        None => false,
    }
}

/// What is offered of a version that fits: its name and its first file.
pub open spec fn offer_of(e: VersionEntry) -> Offer
    recommends
        e.files matches Some(f) && f@.len() > 0,
{
    let first = e.files->0@[0];
    Offer {
        name: text_or(e.name, NO_TITLE@),
        filename: text_or(first.filename, DEFAULT_FILE_NAME@),
        url: text_or(first.url, ""@),
    }
}

/// The offers of the versions that fit, in the order of the entries.
pub open spec fn fitting(entries: Seq<VersionEntry>, game_version: Seq<char>, loader: Seq<char>) -> Seq<
    Offer,
>
    decreases entries.len(),
{
    if entries.len() == 0 {
        Seq::empty()
    } else {
        let before = fitting(entries.drop_last(), game_version, loader);
        if fits(entries.last(), game_version, loader) {
            before.push(offer_of(entries.last()))
        } else {
            before
        }
    }
}

/// The position at which an offer of this name joins a list in descending
/// order: before the first offer with a smaller name.
pub open spec fn slot(sorted: Seq<Offer>, name: Seq<char>) -> int
    decreases sorted.len(),
{
    if sorted.len() == 0 {
        0
    } else if lex_lt(sorted[0].name, name) {
        0
    } else {
        1 + slot(sorted.drop_first(), name)
    }
}

/// The offers by descending name; offers of the same name keep their
/// order.
pub open spec fn arranged(s: Seq<Offer>) -> Seq<Offer>
    decreases s.len(),
{
    if s.len() == 0 {
        s
    } else {
        let before = arranged(s.drop_last());
        before.insert(slot(before, s.last().name), s.last())
    }
}

/// No offer has a smaller name than a later one.
pub open spec fn descending(s: Seq<Offer>) -> bool {
    forall|i: int, j: int| 0 <= i < j < s.len() ==> !lex_lt(#[trigger] s[i].name, #[trigger] s[j].name)
}

fn holds_member(v: &Vec<Option<String>>, wanted: &str) -> (r: bool)
    ensures
        r == exists|i: int| 0 <= i < v@.len() && holds_text(#[trigger] v@[i], wanted@),
{
    let mut i: usize = 0;
    while i < v.len()
        invariant
            i <= v.len(),
            forall|j: int| 0 <= j < i ==> !holds_text(#[trigger] v@[j], wanted@),
        decreases v.len() - i,
    {
        match &v[i] {
            Some(t) => {
                if str_eq(t.as_str(), wanted) {
                    assert(holds_text(v@[i as int], wanted@));
                    return true;
                }
            },
            None => {},
        }
        i += 1;
    }
    false
}

fn list_names(list: &Option<Vec<Option<String>>>, wanted: &str) -> (r: bool)
    ensures
        r == names(*list, wanted@),
{
    match list {
        None => false,
        Some(v) => holds_member(v, wanted),
    }
}

/// Whether a version names the game version and the loader and has a file.
pub fn is_compatible(e: &VersionEntry, game_version: &str, loader: &str) -> (r: bool)
    ensures
        r == fits(*e, game_version@, loader@),
{
    if !list_names(&e.game_versions, game_version) {
        return false;
    }
    if !list_names(&e.loaders, loader) {
        return false;
    }
    match &e.files {
        Some(f) => f.len() > 0,
        None => false,
    }
}

proof fn lemma_slot_step(sorted: Seq<Offer>, name: Seq<char>, pos: int)
    requires
        0 <= pos < sorted.len(),
        slot(sorted, name) == pos + slot(sorted.skip(pos), name),
        !lex_lt(sorted[pos].name, name),
    ensures
        slot(sorted, name) == pos + 1 + slot(sorted.skip(pos + 1), name),
{
    assert(sorted.skip(pos).drop_first() =~= sorted.skip(pos + 1));
    assert(sorted.skip(pos)[0] == sorted[pos]);
}

/// The versions that fit the game version and the loader, by descending
/// name; versions of the same name keep the order of the entries.
pub fn compatible_versions(entries: &Vec<VersionEntry>, game_version: &str, loader: &str) -> (out:
    Vec<ModVersion>)
    ensures
        offers(out@) == arranged(fitting(entries@, game_version@, loader@)),
{
    proof {
        reveal_strlit("");
    }
    let mut out: Vec<ModVersion> = Vec::new();
    let mut n: usize = 0;
    assert(entries@.take(0) =~= Seq::<VersionEntry>::empty());
    assert(offers(out@) =~= Seq::<Offer>::empty());
    while n < entries.len()
        invariant
            n <= entries.len(),
            offers(out@) == arranged(fitting(entries@.take(n as int), game_version@, loader@)),
        decreases entries.len() - n,
    {
        proof {
            assert(entries@.take(n + 1).drop_last() =~= entries@.take(n as int));
            assert(entries@.take(n + 1).last() == entries@[n as int]);
        }
        let e = &entries[n];
        if is_compatible(e, game_version, loader) {
            let ghost chosen = fitting(entries@.take(n as int), game_version@, loader@);
            let ghost sorted = offers(out@);
            let files = match &e.files {
                Some(f) => f,
                None => {
                    n += 1;
                    continue ;
                },
            };
            let first = &files[0];
            let item = ModVersion {
                name: owned_or(&e.name, NO_TITLE),
                filename: owned_or(&first.filename, DEFAULT_FILE_NAME),
                url: owned_or(&first.url, ""),
            };
            assert(item@ == offer_of(*e));
            let key = chars_of(item.name.as_str());
            let mut pos: usize = 0;
            assert(sorted.skip(0) =~= sorted);
            loop
                invariant_except_break
                    slot(sorted, key@) == pos + slot(sorted.skip(pos as int), key@),
                invariant
                    pos <= out.len(),
                    sorted == offers(out@),
                    key@ == item@.name,
                ensures
                    slot(sorted, key@) == pos,
                decreases out.len() - pos,
            {
                if pos >= out.len() {
                    break ;
                }
                let here = chars_of(out[pos].name.as_str());
                assert(sorted.skip(pos as int)[0] == sorted[pos as int]);
                if lex_before(&here, &key) {
                    break ;
                }
                proof {
                    lemma_slot_step(sorted, key@, pos as int);
                }
                pos += 1;
            }
            let ghost added = item@;
            out.insert(pos, item);
            assert(offers(out@) =~= sorted.insert(pos as int, added));
            assert(fitting(entries@.take(n + 1), game_version@, loader@) == chosen.push(added));
            assert(chosen.push(added).drop_last() =~= chosen);
        }
        n += 1;
    }
    assert(entries@.take(n as int) =~= entries@);
    out
}

/// An offer joins a descending list at its slot without breaking the
/// order.
proof fn lemma_slot_keeps_order(sorted: Seq<Offer>, x: Offer)
    requires
        descending(sorted),
    ensures
        0 <= slot(sorted, x.name) <= sorted.len(),
        forall|i: int| 0 <= i < slot(sorted, x.name) ==> !lex_lt((#[trigger] sorted[i]).name, x.name),
        slot(sorted, x.name) < sorted.len() ==> lex_lt(sorted[slot(sorted, x.name)].name, x.name),
    decreases sorted.len(),
{
    if sorted.len() > 0 && !lex_lt(sorted[0].name, x.name) {
        let rest = sorted.drop_first();
        assert(descending(rest)) by {
            assert forall|i: int, j: int| 0 <= i < j < rest.len() implies !lex_lt(
                #[trigger] rest[i].name,
                #[trigger] rest[j].name,
            ) by {
                assert(rest[i] == sorted[i + 1] && rest[j] == sorted[j + 1]);
            }
        }
        lemma_slot_keeps_order(rest, x);
        let p = slot(rest, x.name);
        assert forall|i: int| 0 <= i < p + 1 implies !lex_lt((#[trigger] sorted[i]).name, x.name) by {
            if i > 0 {
                assert(sorted[i] == rest[i - 1]);
            }
        }
        if p + 1 < sorted.len() {
            assert(sorted[p + 1] == rest[p]);
        }
    }
}

/// The arranged list is in descending order of names, and it holds the
/// same offers as the list it was made from.
pub proof fn lemma_arranged_descending(s: Seq<Offer>)
    ensures
        descending(arranged(s)),
        arranged(s).to_multiset() == s.to_multiset(),
    decreases s.len(),
{
    if s.len() > 0 {
        let before = arranged(s.drop_last());
        let x = s.last();
        lemma_arranged_descending(s.drop_last());
        lemma_slot_keeps_order(before, x);
        let p = slot(before, x.name);
        let after = before.insert(p, x);
        assert forall|i: int, j: int| 0 <= i < j < after.len() implies !lex_lt(
            #[trigger] after[i].name,
            #[trigger] after[j].name,
        ) by {
            if j == p {
                assert(after[i] == before[i]);
            } else if i == p {
                assert(after[j] == before[j - 1]);
                assert(lex_lt(before[p].name, x.name));
                if j - 1 > p {
                    assert(!lex_lt(before[p].name, before[j - 1].name));
                }
                if lex_lt(x.name, after[j].name) {
                    crate::text::lemma_lex_transitive(before[p].name, x.name, after[j].name);
                    if j - 1 == p {
                        crate::text::lemma_lex_irreflexive(before[p].name);
                    }
                }
            } else {
                let oi = if i < p { i } else { i - 1 };
                let oj = if j < p { j } else { j - 1 };
                assert(after[i] == before[oi] && after[j] == before[oj]);
            }
        }
        vstd::seq_lib::to_multiset_insert(before, p, x);
        vstd::seq_lib::to_multiset_build(s.drop_last(), x);
        assert(s.drop_last().push(x) =~= s);
    } else {
        assert(arranged(s) =~= s);
    }
}

/// The entry shown for a version.
pub open spec fn version_label_of(name: Seq<char>, filename: Seq<char>) -> Seq<char> {
    name + " ("@ + filename + ")"@
}

/// The entry shown for a version.
pub fn version_label(v: &ModVersion) -> (r: String)
    ensures
        r@ == version_label_of(v.name@, v.filename@),
{
    let mut out = v.name.clone();
    out.append(" (");
    out.append(v.filename.as_str());
    out.append(")");
    out
}

/// The version that an answer stands for: the first whose entry reads like
/// the answer.
pub fn version_for_choice(list: &Vec<ModVersion>, choice: &str) -> (r: Option<usize>)
    ensures
        match r {
            Some(i) => i < list.len() && version_label_of(list[i as int].name@, list[i as int].filename@)
                == choice@ && forall|j: int|
                0 <= j < i ==> version_label_of((#[trigger] list[j]).name@, list[j].filename@)
                    != choice@,
            None => forall|j: int|
                0 <= j < list.len() ==> version_label_of((#[trigger] list[j]).name@, list[j].filename@)
                    != choice@,
        },
{
    let mut i: usize = 0;
    while i < list.len()
        invariant
            i <= list.len(),
            forall|j: int|
                0 <= j < i ==> version_label_of((#[trigger] list[j]).name@, list[j].filename@)
                    != choice@,
        decreases list.len() - i,
    {
        let label = version_label(&list[i]);
        if str_eq(label.as_str(), choice) {
            return Some(i);
        }
        i += 1;
    }
    None
}

/// The loaders that can be chosen, in the order shown.
pub fn loader_options() -> (r: Vec<String>)
    ensures
        views(r@) == seq!["fabric"@, "forge"@, "quilt"@, "neoforge"@],
{
    let mut out: Vec<String> = Vec::new();
    out.push(String::from_str("fabric"));
    out.push(String::from_str("forge"));
    out.push(String::from_str("quilt"));
    out.push(String::from_str("neoforge"));
    assert(views(out@) =~= seq!["fabric"@, "forge"@, "quilt"@, "neoforge"@]);
    out
}

} // verus!
