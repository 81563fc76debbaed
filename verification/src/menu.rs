//! The choices that the launcher offers, and what each answer means.
//!
//! Nothing here asks anything: a function either builds the entries to
//! show, or says what an answer stands for.

use vstd::prelude::*;
use vstd::string::*;
use crate::aggregate::{Candidate, Ranked};
use crate::classifier::{is_valid_minecraft_folder, lowered_base_of, verdict, Flavor};
use crate::listing::DirEntry;
use crate::path::{child_of, child_path, views};
use crate::roots::{home_dir, native, native_path, text, Platform};
use crate::text::{begins_with, chars_of, has_sub, replace_all, replaced, str_contains, str_eq};

verus! {

/// What the user asks the launcher to do.
#[derive(Clone, Copy, Debug, PartialEq, Eq, Structural)]
pub enum MenuAction {
    Install,
    Reinstall,
    DownloadFromRegistry,
    SetDefaultFolder,
    Quit,
}

/// The entry that installs the mods.
pub const INSTALL_LABEL: &'static str = "\u{f01bd} Установить моды";

/// The entry that removes the mods that are there and installs them anew.
pub const REINSTALL_LABEL: &'static str = "\u{f10b5} Переустановить моды";

/// The entry that downloads a single mod from the registry.
pub const REGISTRY_LABEL: &'static str = "\u{f06a8} Загрузить моды с Modrinth";

/// The entry that sets the default installation folder.
pub const DEFAULT_FOLDER_LABEL: &'static str = "\u{f0493} Установить папку по умолчанию";

/// The entry that ends the program.
pub const QUIT_LABEL: &'static str = "\u{f0156} Выйти";

/// The action that an answer to the main menu stands for. No answer, or an
/// answer that is none of the known ones, ends the program.
pub open spec fn action_for(choice: Option<Seq<char>>) -> MenuAction {
    match choice {
        Some(c) => if c == INSTALL_LABEL@ {
            MenuAction::Install
        } else if c == REINSTALL_LABEL@ {
            MenuAction::Reinstall
        } else if c == REGISTRY_LABEL@ {
            MenuAction::DownloadFromRegistry
        } else if c == DEFAULT_FOLDER_LABEL@ {
            MenuAction::SetDefaultFolder
        } else {
            MenuAction::Quit
        },
        None => MenuAction::Quit,
    }
}

/// The entries of the main menu, in the order shown.
pub fn main_menu_options() -> (r: Vec<String>)
    ensures
        views(r@) == seq![INSTALL_LABEL@, REINSTALL_LABEL@, QUIT_LABEL@],
{
    let mut out: Vec<String> = Vec::new();
    out.push(String::from_str(INSTALL_LABEL));
    out.push(String::from_str(REINSTALL_LABEL));
    out.push(String::from_str(QUIT_LABEL));
    assert(views(out@) =~= seq![INSTALL_LABEL@, REINSTALL_LABEL@, QUIT_LABEL@]);
    out
}

/// The action that an answer to the main menu stands for.
pub fn menu_action(choice: Option<&str>) -> (r: MenuAction)
    ensures
        r == action_for(text(choice)),
{
    match choice {
        Some(c) => {
            if str_eq(c, INSTALL_LABEL) {
                MenuAction::Install
            } else if str_eq(c, REINSTALL_LABEL) {
                MenuAction::Reinstall
            } else if str_eq(c, REGISTRY_LABEL) {
                MenuAction::DownloadFromRegistry
            } else if str_eq(c, DEFAULT_FOLDER_LABEL) {
                MenuAction::SetDefaultFolder
            } else {
                MenuAction::Quit
            }
        },
        None => MenuAction::Quit,
    }
}

/// How the installation directory is to be found.
#[derive(Clone, Copy, Debug, PartialEq, Eq, Structural)]
pub enum FolderSource {
    AutoSearch,
    Manual,
    Cancel,
}

/// The entry that starts the search.
pub const AUTO_SEARCH_LABEL: &'static str = "\u{f075a} Автоматически найти (глубокий поиск)";

/// The entry that leads to typing a path.
pub const MANUAL_LABEL: &'static str = "\u{f0a60} Ввести вручную";

/// The entry that gives up.
pub const CANCEL_LABEL: &'static str = "\u{f0156} Отмена";

/// The ways of finding the installation directory, in the order shown.
pub fn folder_source_options() -> (r: Vec<String>)
    ensures
        views(r@) == seq![AUTO_SEARCH_LABEL@, MANUAL_LABEL@, CANCEL_LABEL@],
{
    let mut out: Vec<String> = Vec::new();
    out.push(String::from_str(AUTO_SEARCH_LABEL));
    out.push(String::from_str(MANUAL_LABEL));
    out.push(String::from_str(CANCEL_LABEL));
    assert(views(out@) =~= seq![AUTO_SEARCH_LABEL@, MANUAL_LABEL@, CANCEL_LABEL@]);
    out
}

/// What an answer to the question of how to find the directory stands
/// for. No answer and any other answer cancel.
pub fn folder_source(choice: Option<&str>) -> (r: FolderSource)
    ensures
        r == match text(choice) {
            Some(c) => if c == AUTO_SEARCH_LABEL@ {
                FolderSource::AutoSearch
            } else if c == MANUAL_LABEL@ {
                FolderSource::Manual
            } else {
                FolderSource::Cancel
            },
            None => FolderSource::Cancel,
        },
{
    match choice {
        Some(c) => {
            if str_eq(c, AUTO_SEARCH_LABEL) {
                FolderSource::AutoSearch
            } else if str_eq(c, MANUAL_LABEL) {
                FolderSource::Manual
            } else {
                FolderSource::Cancel
            }
        },
        None => FolderSource::Cancel,
    }
}

/// The mark that every entry of a list of directories begins with.
pub const ENTRY_MARK: &'static str = "\u{f075a} ";

/// The entry that leads to typing a path by hand.
pub const TYPE_PATH_LABEL: &'static str = "\u{f0a60} Ввести путь вручную";

/// The name of a launcher as it is shown before a path; nothing for an
/// unknown one.
pub open spec fn flavor_prefix(f: Flavor) -> Seq<char> {
    match f {
        Flavor::CurseForge => "CurseForge: "@,
        Flavor::PrismOrMultiMC => "MultiMC/Prism: "@,
        Flavor::Vanilla => "Vanilla: "@,
        Flavor::TLauncher => "TLauncher: "@,
        Flavor::GDLauncher => "GDLauncher: "@,
        Flavor::ATLauncher => "ATLauncher: "@,
        Flavor::Unknown => Seq::empty(),
    }
}

/// A path as it is shown: with `~` for the home directory where the path
/// begins with it.
pub open spec fn simplified(path: Seq<char>, home: Seq<char>) -> Seq<char> {
    if home.is_prefix_of(path) {
        seq!['~'] + path.skip(home.len() as int)
    } else {
        path
    }
}

/// The entry shown for a candidate.
pub open spec fn label_of(c: Ranked, home: Seq<char>) -> Seq<char> {
    ENTRY_MARK@ + flavor_prefix(c.flavor) + simplified(c.path, home)
}

/// A path as it is shown, for the given home directory.
pub fn simplify(path: &str, home: &str) -> (r: String)
    ensures
        r@ == simplified(path@, home@),
{
    let p = chars_of(path);
    let h = chars_of(home);
    if begins_with(&p, &h) {
        proof {
            reveal_strlit("~");
        }
        let mut out = String::from_str("~");
        let rest = path.substring_char(h.len(), p.len());
        out.append(rest);
        assert(out@ =~= seq!['~'] + path@.skip(home@.len() as int));
        out
    } else {
        path.to_owned()
    }
}

/// A path as it is shown on this machine: simplified for the home
/// directory that the system reports, or for the empty one if it reports
/// none.
pub fn simplify_path_display(path: &str) -> (r: String)
    ensures
        exists|home: Seq<char>| r@ == simplified(path@, home),
{
    let r = match home_dir() {
        Some(home) => simplify(path, home.as_str()),
        None => simplify(path, ""),
    };
    r
}

/// The entry shown for a candidate.
pub fn folder_label(c: &Candidate, home: &str) -> (r: String)
    ensures
        r@ == label_of(c@, home@),
{
    let mut out = String::from_str(ENTRY_MARK);
    match c.flavor {
        Flavor::CurseForge => out.append("CurseForge: "),
        Flavor::PrismOrMultiMC => out.append("MultiMC/Prism: "),
        Flavor::Vanilla => out.append("Vanilla: "),
        Flavor::TLauncher => out.append("TLauncher: "),
        Flavor::GDLauncher => out.append("GDLauncher: "),
        Flavor::ATLauncher => out.append("ATLauncher: "),
        Flavor::Unknown => {},
    }
    assert(out@ =~= ENTRY_MARK@ + flavor_prefix(c.flavor));
    let shown = simplify(c.path.as_str(), home);
    out.append(shown.as_str());
    out
}

/// The entries shown for a list of candidates: one for each, in order, and
/// the entry for typing a path at the end.
pub fn folder_options(list: &Vec<Candidate>, home: &str) -> (r: Vec<String>)
    ensures
        r.len() == list.len() + 1,
        forall|i: int| 0 <= i < list.len() ==> (#[trigger] r[i])@ == label_of(list[i]@, home@),
        r[list.len() as int]@ == TYPE_PATH_LABEL@,
{
    let mut out: Vec<String> = Vec::new();
    let mut i: usize = 0;
    while i < list.len()
        invariant
            i <= list.len(),
            out.len() == i,
            forall|j: int| 0 <= j < i ==> (#[trigger] out[j])@ == label_of(list[j]@, home@),
        decreases list.len() - i,
    {
        out.push(folder_label(&list[i], home));
        i += 1;
    }
    out.push(String::from_str(TYPE_PATH_LABEL));
    out
}

/// What an answer to a list of directories stands for.
#[derive(Clone, Copy, Debug, PartialEq, Eq, Structural)]
pub enum FolderChoice {
    /// The path is to be typed by hand.
    TypePath,
    /// The candidate at this position.
    Listed(usize),
    /// The answer is none of the entries.
    Unknown,
}

/// What an answer to the list of directories stands for: the entry for
/// typing a path, or the first candidate whose entry reads like the answer.
pub fn folder_for_choice(list: &Vec<Candidate>, home: &str, choice: &str) -> (r: FolderChoice)
    ensures
        choice@ == TYPE_PATH_LABEL@ ==> r == FolderChoice::TypePath,
        choice@ != TYPE_PATH_LABEL@ ==> match r {
            FolderChoice::Listed(i) => i < list.len() && label_of(list[i as int]@, home@) == choice@
                && forall|j: int| 0 <= j < i ==> label_of(#[trigger] list[j]@, home@) != choice@,
            FolderChoice::Unknown => forall|j: int|
                0 <= j < list.len() ==> label_of(#[trigger] list[j]@, home@) != choice@,
            FolderChoice::TypePath => false,
        },
{
    if str_eq(choice, TYPE_PATH_LABEL) {
        return FolderChoice::TypePath;
    }
    let mut i: usize = 0;
    while i < list.len()
        invariant
            i <= list.len(),
            choice@ != TYPE_PATH_LABEL@,
            forall|j: int| 0 <= j < i ==> label_of(#[trigger] list[j]@, home@) != choice@,
        decreases list.len() - i,
    {
        let label = folder_label(&list[i], home);
        if str_eq(label.as_str(), choice) {
            return FolderChoice::Listed(i);
        }
        i += 1;
    }
    FolderChoice::Unknown
}

/// What to make of a path that was typed by hand.
#[derive(Clone, Copy, Debug, PartialEq, Eq, Structural)]
pub enum ManualVerdict {
    /// The classifier takes the directory for an installation: take it.
    Accept,
    /// The directory exists but does not look like an installation: ask
    /// whether to take it all the same.
    ConfirmUnlikely,
    /// There is no such directory: ask whether to try again.
    Missing,
}

/// What to make of the path that was typed by hand, given the entries of
/// the directory there, or `None` if there is no such directory. The
/// classifier is asked, by name and by content; its answer advises, and
/// the user decides.
pub fn judge_manual_path(path: &str, listing: Option<&Vec<DirEntry>>) -> (r: ManualVerdict)
    ensures
        r == match listing {
            Some(entries) => if verdict(path@, lowered_base_of(path@), entries@).is_match {
                ManualVerdict::Accept
            } else {
                ManualVerdict::ConfirmUnlikely
            },
            None => ManualVerdict::Missing,
        },
{
    match listing {
        Some(entries) => {
            if is_valid_minecraft_folder(path, entries) {
                ManualVerdict::Accept
            } else {
                ManualVerdict::ConfirmUnlikely
            }
        },
        None => ManualVerdict::Missing,
    }
}

/// Whether a path names its place by itself. On Windows that takes a drive
/// and a root, or two separators at the start; elsewhere a leading slash.
pub open spec fn stands_alone(platform: Platform, path: Seq<char>) -> bool {
    let p = native(platform, path);
    if platform == Platform::Windows {
        (p.len() >= 3 && p[1] == ':' && p[2] == '/') || (p.len() >= 2 && p[0] == '/' && p[1]
            == '/')
    } else {
        p.len() > 0 && p[0] == '/'
    }
}

/// The path that a typed path means: itself if it stands alone or no
/// working directory is known, else the path below the working directory.
pub open spec fn typed_path_of(platform: Platform, input: Seq<char>, cwd: Option<Seq<char>>) -> Seq<
    char,
> {
    if stands_alone(platform, input) || cwd is None {
        native(platform, input)
    } else {
        child_of(native(platform, cwd->0), native(platform, input))
    }
}

/// The path that a typed path means.
pub fn typed_path(platform: Platform, input: &str, cwd: Option<&str>) -> (r: String)
    ensures
        r@ == typed_path_of(platform, input@, text(cwd)),
{
    let p = native_path(platform, input);
    let v = chars_of(p.as_str());
    let alone = match platform {
        Platform::Windows => (v.len() >= 3 && v[1] == ':' && v[2] == '/') || (v.len() >= 2 && v[0]
            == '/' && v[1] == '/'),
        _ => v.len() > 0 && v[0] == '/',
    };
    match cwd {
        Some(c) => {
            if alone {
                p
            } else {
                let base = native_path(platform, c);
                child_path(base.as_str(), p.as_str())
            }
        },
        None => p,
    }
}

/// The usual place below the home directory.
pub const HOME_PATTERN: &'static str = "~/.minecraft";

/// The usual place on Windows, below the home directory.
pub const ROAMING_PATTERN: &'static str = "~/AppData/Roaming/.minecraft";

/// The usual place on Windows, written out for the user.
pub const WINDOWS_PATTERN: &'static str = "C:\\Users\\%USERNAME%\\.minecraft";

/// The usual place on Linux, written out for the user.
pub const UNIX_PATTERN: &'static str = "/home/%USER%/.minecraft";

/// A pattern with the user's name filled in.
pub open spec fn filled(pattern: Seq<char>, user: Seq<char>) -> Seq<char> {
    replaced(replaced(pattern, "%USERNAME%"@, user), "%USER%"@, user)
}

/// The suggestion that a pattern gives for what has been typed: the
/// pattern filled in, if it holds the typed text.
pub open spec fn offered(pattern: Seq<char>, input: Seq<char>, user: Seq<char>) -> Seq<Seq<char>> {
    if has_sub(pattern, input) {
        seq![filled(pattern, user)]
    } else {
        Seq::empty()
    }
}

/// The paths suggested for what has been typed so far.
pub open spec fn suggestions_of(input: Seq<char>, user: Seq<char>) -> Seq<Seq<char>> {
    offered(HOME_PATTERN@, input, user) + offered(ROAMING_PATTERN@, input, user) + offered(
        WINDOWS_PATTERN@,
        input,
        user,
    ) + offered(UNIX_PATTERN@, input, user)
}

fn offer(out: &mut Vec<String>, pattern: &str, input: &str, user: &str)
    ensures
        views(final(out)@) == views(old(out)@) + offered(pattern@, input@, user@),
{
    let ghost before = views(out@);
    if str_contains(pattern, input) {
        let first = replace_all(pattern, "%USERNAME%", user);
        let second = replace_all(first.as_str(), "%USER%", user);
        out.push(second);
        assert(views(out@) =~= before + seq![filled(pattern@, user@)]);
    } else {
        assert(views(out@) =~= before + Seq::<Seq<char>>::empty());
    }
}

/// The paths suggested for what has been typed so far, for the given user
/// name.
pub fn suggestions(input: &str, user: &str) -> (r: Vec<String>)
    ensures
        views(r@) == suggestions_of(input@, user@),
{
    let mut out: Vec<String> = Vec::new();
    assert(views(out@) =~= Seq::<Seq<char>>::empty());
    offer(&mut out, HOME_PATTERN, input, user);
    offer(&mut out, ROAMING_PATTERN, input, user);
    offer(&mut out, WINDOWS_PATTERN, input, user);
    offer(&mut out, UNIX_PATTERN, input, user);
    assert(views(out@) =~= suggestions_of(input@, user@));
    out
}

/// Calls `whoami::username`: the name of the user who runs the program.
/// Nothing is claimed of the result, which depends on the environment.
#[verifier::external_body]
fn username() -> (r: String) {
    whoami::username()
}

/// The paths suggested for what has been typed so far, with the name of
/// the user who runs the program, whatever it is.
pub fn autocomplete_minecraft_paths(input: &str) -> (r: Vec<String>)
    ensures
        exists|user: Seq<char>| views(r@) == suggestions_of(input@, user),
{
    let user = username();
    let r = suggestions(input, user.as_str());
    assert(views(r@) == suggestions_of(input@, user@));
    r
}

/// Where the mods of an installation may lie, in the order of preference.
pub open spec fn mods_places(root: Seq<char>) -> Seq<Seq<char>> {
    seq![
        child_of(root, "mods"@),
        child_of(child_of(root, "minecraft"@), "mods"@),
        child_of(child_of(root, ".minecraft"@), "mods"@),
    ]
}

/// Those of the places that exist, going by the flags given for them in
/// order; a place without a flag counts as missing.
pub open spec fn existing(places: Seq<Seq<char>>, exists: Seq<bool>) -> Seq<Seq<char>>
    decreases places.len(),
{
    if places.len() == 0 {
        Seq::empty()
    } else {
        let before = existing(places.drop_last(), exists);
        if places.len() <= exists.len() && exists[places.len() - 1] {
            before.push(places.last())
        } else {
            before
        }
    }
}

/// Where the mods of an installation may lie, in the order of preference.
pub fn possible_mods_paths(minecraft_path: &str) -> (r: Vec<String>)
    ensures
        views(r@) == mods_places(minecraft_path@),
{
    let mut out: Vec<String> = Vec::new();
    out.push(child_path(minecraft_path, "mods"));
    let inner = child_path(minecraft_path, "minecraft");
    out.push(child_path(inner.as_str(), "mods"));
    let hidden = child_path(minecraft_path, ".minecraft");
    out.push(child_path(hidden.as_str(), "mods"));
    assert(views(out@) =~= mods_places(minecraft_path@));
    out
}

/// Where the mods go.
#[derive(Debug)]
pub enum InstanceChoice {
    /// No mods directory exists: offer to create this one.
    Create(String),
    /// Exactly one exists: this one.
    Use(String),
    /// Several exist: let the user pick.
    Ask(Vec<String>),
}

/// Decides where the mods of the installation at `minecraft_path` go,
/// given for each of its possible mods directories whether it exists.
pub fn select_instance(minecraft_path: &str, exists: &Vec<bool>) -> (r: InstanceChoice)
    ensures
        ({
            let found = existing(mods_places(minecraft_path@), exists@);
            match r {
                InstanceChoice::Create(p) => found.len() == 0 && p@ == child_of(
                    minecraft_path@,
                    "mods"@,
                ),
                InstanceChoice::Use(p) => found.len() == 1 && p@ == found[0],
                InstanceChoice::Ask(list) => found.len() > 1 && views(list@) == found,
            }
        }),
{
    let places = possible_mods_paths(minecraft_path);
    let mut found: Vec<String> = Vec::new();
    let mut i: usize = 0;
    assert(views(places@).take(0) =~= Seq::<Seq<char>>::empty());
    assert(views(found@) =~= Seq::<Seq<char>>::empty());
    while i < places.len()
        invariant
            i <= places.len(),
            views(found@) == existing(views(places@).take(i as int), exists@),
        decreases places.len() - i,
    {
        proof {
            assert(views(places@).take(i + 1).drop_last() =~= views(places@).take(i as int));
            assert(views(places@).take(i + 1).last() == places@[i as int]@);
        }
        let ghost before = views(found@);
        if i < exists.len() && exists[i] {
            found.push(places[i].clone());
            assert(views(found@) =~= before.push(places@[i as int]@));
        }
        i += 1;
    }
    assert(views(places@).take(i as int) =~= views(places@));
    if found.len() == 0 {
        InstanceChoice::Create(child_path(minecraft_path, "mods"))
    } else if found.len() == 1 {
        let only = found[0].clone();
        InstanceChoice::Use(only)
    } else {
        InstanceChoice::Ask(found)
    }
}

/// What is said of a mods directory that is offered.
pub const EXISTING_NOTE: &'static str = "Существующая папка";

/// The entry shown for a mods directory that exists.
pub open spec fn instance_label_of(path: Seq<char>) -> Seq<char> {
    ENTRY_MARK@ + path + " - "@ + EXISTING_NOTE@
}

/// The entry shown for a mods directory that exists.
pub fn instance_label(path: &str) -> (r: String)
    ensures
        r@ == instance_label_of(path@),
{
    let mut out = String::from_str(ENTRY_MARK);
    out.append(path);
    out.append(" - ");
    out.append(EXISTING_NOTE);
    out
}

/// The mods directory that an answer stands for: the first whose entry
/// reads like the answer.
pub fn instance_for_choice(available: &Vec<String>, choice: &str) -> (r: Option<usize>)
    ensures
        match r {
            Some(i) => i < available.len() && instance_label_of(available[i as int]@) == choice@
                && forall|j: int|
                0 <= j < i ==> instance_label_of(#[trigger] available[j]@) != choice@,
            None => forall|j: int|
                0 <= j < available.len() ==> instance_label_of(#[trigger] available[j]@)
                    != choice@,
        },
{
    let mut i: usize = 0;
    while i < available.len()
        invariant
            i <= available.len(),
            forall|j: int| 0 <= j < i ==> instance_label_of(#[trigger] available[j]@) != choice@,
        decreases available.len() - i,
    {
        let label = instance_label(available[i].as_str());
        if str_eq(label.as_str(), choice) {
            return Some(i);
        }
        i += 1;
    }
    None
}

/// Which set of mods is installed.
#[derive(Clone, Copy, Debug, PartialEq, Eq, Structural)]
pub enum BuildType {
    Client,
    Server,
}

/// The entry for the client build.
pub const CLIENT_LABEL: &'static str = "\u{f030c} Клиентская сборка";

/// The entry for the server build.
pub const SERVER_LABEL: &'static str = "\u{f0453} Серверная сборка";

/// The kinds of build, in the order shown.
pub fn build_type_options() -> (r: Vec<String>)
    ensures
        views(r@) == seq![CLIENT_LABEL@, SERVER_LABEL@],
{
    let mut out: Vec<String> = Vec::new();
    out.push(String::from_str(CLIENT_LABEL));
    out.push(String::from_str(SERVER_LABEL));
    assert(views(out@) =~= seq![CLIENT_LABEL@, SERVER_LABEL@]);
    out
}

/// The kind of build that an answer stands for: the client build for its
/// own entry, the server build for anything else.
pub open spec fn build_of(choice: Seq<char>) -> BuildType {
    if choice == CLIENT_LABEL@ {
        BuildType::Client
    } else {
        BuildType::Server
    }
}

/// The kind of build that an answer stands for.
pub fn build_type(choice: &str) -> (r: BuildType)
    ensures
        r == build_of(choice@),
{
    if str_eq(choice, CLIENT_LABEL) {
        BuildType::Client
    } else {
        BuildType::Server
    }
}

} // verus!
