//! Where a discovery run starts, and the well-known places that are looked
//! at in any case.

use vstd::prelude::*;
use crate::path::{child_of, child_path, slashed, views, with_forward_slashes};

verus! {

/// The operating system, as far as the layout of a home directory goes.
#[derive(Clone, Copy, Debug, PartialEq, Eq, Structural)]
pub enum Platform {
    Windows,
    Linux,
    MacOs,
    Other,
}

/// The text of an optional string slice.
pub open spec fn text(s: Option<&str>) -> Option<Seq<char>> {
    match s {
        Some(t) => Some(t@),
        None => None,
    }
}

/// A directory as this library reads it: on Windows with slashes for
/// backslashes, elsewhere as it stands.
pub open spec fn native(platform: Platform, dir: Seq<char>) -> Seq<char> {
    if platform == Platform::Windows {
        slashed(dir)
    } else {
        dir
    }
}

/// The directories below the home directory in which launchers keep their
/// data on this platform.
pub open spec fn data_roots_of(platform: Platform, home: Seq<char>) -> Seq<Seq<char>> {
    match platform {
        Platform::Windows => seq![
            child_of(child_of(home, "AppData"@), "Roaming"@),
            child_of(child_of(home, "AppData"@), "Local"@),
            child_of(home, "Documents"@),
            child_of(child_of(home, "OneDrive"@), "Documents"@),
        ],
        Platform::Linux => seq![child_of(child_of(home, ".local"@), "share"@)],
        Platform::MacOs => seq![child_of(child_of(home, "Library"@), "Application Support"@)],
        Platform::Other => Seq::empty(),
    }
}

/// The starting points of a discovery run: the home directory, the data
/// directories below it, and the working directory, as far as they are
/// known.
pub open spec fn roots_of(platform: Platform, home: Option<Seq<char>>, cwd: Option<Seq<char>>) -> Seq<
    Seq<char>,
> {
    let from_home = match home {
        Some(h) => seq![native(platform, h)] + data_roots_of(platform, native(platform, h)),
        None => Seq::empty(),
    };
    let from_cwd = match cwd {
        Some(c) => seq![native(platform, c)],
        None => Seq::empty(),
    };
    from_home + from_cwd
}

/// The places where an installation usually lies: `.minecraft` in the data
/// directory, in the configuration directory and in the home directory, and
/// the platform's own place.
pub open spec fn standard_of(
    platform: Platform,
    data: Option<Seq<char>>,
    config: Option<Seq<char>>,
    home: Option<Seq<char>>,
) -> Seq<Seq<char>> {
    let in_data = match data {
        Some(d) => seq![child_of(native(platform, d), ".minecraft"@)],
        None => Seq::empty(),
    };
    let in_config = match config {
        Some(c) => seq![child_of(native(platform, c), ".minecraft"@)],
        None => Seq::empty(),
    };
    let in_home = match home {
        Some(h) => seq![child_of(native(platform, h), ".minecraft"@)] + match platform {
            Platform::Windows => seq![
                child_of(
                    child_of(child_of(native(platform, h), "AppData"@), "Roaming"@),
                    ".minecraft"@,
                ),
            ],
            Platform::MacOs => seq![
                child_of(
                    child_of(child_of(native(platform, h), "Library"@), "Application Support"@),
                    "minecraft"@,
                ),
            ],
            _ => Seq::empty(),
        },
        None => Seq::empty(),
    };
    in_data + in_config + in_home
}

/// Calls `dirs::home_dir`: the user's home directory, if the system knows
/// one. Nothing is claimed of the result, which depends on the environment.
#[verifier::external_body]
pub(crate) fn home_dir() -> (r: Option<String>) {
    dirs::home_dir().map(|p| p.to_string_lossy().into_owned())
}

/// Calls `dirs::data_dir`: the user's data directory, if the system knows
/// one. Nothing is claimed of the result, which depends on the environment.
#[verifier::external_body]
fn data_dir() -> (r: Option<String>) {
    dirs::data_dir().map(|p| p.to_string_lossy().into_owned())
}

/// Calls `dirs::config_dir`: the user's configuration directory, if the
/// system knows one. Nothing is claimed of the result, which depends on the
/// environment.
#[verifier::external_body]
fn config_dir() -> (r: Option<String>) {
    dirs::config_dir().map(|p| p.to_string_lossy().into_owned())
}

/// A directory in the form in which this library reads it: on Windows
/// with slashes for backslashes, elsewhere as it stands.
pub fn native_path(platform: Platform, dir: &str) -> (r: String)
    ensures
        r@ == native(platform, dir@),
{
    match platform {
        Platform::Windows => with_forward_slashes(dir),
        _ => dir.to_owned(),
    }
}

fn below(dir: &str, first: &str, second: &str) -> (r: String)
    ensures
        r@ == child_of(child_of(dir@, first@), second@),
{
    let mid = child_path(dir, first);
    child_path(mid.as_str(), second)
}

/// The starting points of a discovery run for the given home and working
/// directory.
pub fn search_roots(platform: Platform, home: Option<&str>, cwd: Option<&str>) -> (r: Vec<String>)
    ensures
        views(r@) == roots_of(platform, text(home), text(cwd)),
{
    let mut out: Vec<String> = Vec::new();
    if let Some(h) = home {
        let h = native_path(platform, h);
        match platform {
            Platform::Windows => {
                out.push(h.clone());
                out.push(below(h.as_str(), "AppData", "Roaming"));
                out.push(below(h.as_str(), "AppData", "Local"));
                out.push(child_path(h.as_str(), "Documents"));
                out.push(below(h.as_str(), "OneDrive", "Documents"));
            },
            Platform::Linux => {
                out.push(h.clone());
                out.push(below(h.as_str(), ".local", "share"));
            },
            Platform::MacOs => {
                out.push(h.clone());
                out.push(below(h.as_str(), "Library", "Application Support"));
            },
            Platform::Other => {
                out.push(h);
            },
        }
    }
    if let Some(c) = cwd {
        out.push(native_path(platform, c));
    }
    assert(views(out@) =~= roots_of(platform, text(home), text(cwd)));
    out
}

/// The well-known places for the given data, configuration and home
/// directory.
pub fn standard_paths(
    platform: Platform,
    data: Option<&str>,
    config: Option<&str>,
    home: Option<&str>,
) -> (r: Vec<String>)
    ensures
        views(r@) == standard_of(platform, text(data), text(config), text(home)),
{
    let mut out: Vec<String> = Vec::new();
    if let Some(d) = data {
        let d = native_path(platform, d);
        out.push(child_path(d.as_str(), ".minecraft"));
    }
    if let Some(c) = config {
        let c = native_path(platform, c);
        out.push(child_path(c.as_str(), ".minecraft"));
    }
    if let Some(h) = home {
        let h = native_path(platform, h);
        out.push(child_path(h.as_str(), ".minecraft"));
        match platform {
            Platform::Windows => {
                let roaming = below(h.as_str(), "AppData", "Roaming");
                out.push(child_path(roaming.as_str(), ".minecraft"));
            },
            Platform::MacOs => {
                let support = below(h.as_str(), "Library", "Application Support");
                out.push(child_path(support.as_str(), "minecraft"));
            },
            _ => {},
        }
    }
    assert(views(out@) =~= standard_of(platform, text(data), text(config), text(home)));
    out
}

fn borrowed(s: &Option<String>) -> (r: Option<&str>)
    ensures
        text(r) == match s {
            Some(t) => Some(t@),
            None => None,
        },
{
    match s {
        Some(t) => Some(t.as_str()),
        None => None,
    }
}

/// The starting points of a discovery run on this machine: those that
/// `search_roots` gives for the home directory that the system reports,
/// whatever that is, and the given working directory.
pub fn get_extended_search_roots(platform: Platform, cwd: Option<&str>) -> (r: Vec<String>)
    ensures
        exists|home: Option<Seq<char>>| views(r@) == roots_of(platform, home, text(cwd)),
{
    let home = home_dir();
    let h = borrowed(&home);
    let r = search_roots(platform, h, cwd);
    assert(views(r@) == roots_of(platform, text(h), text(cwd)));
    r
}

/// The well-known places on this machine: those that `standard_paths`
/// gives for the directories that the system reports, whatever they are.
pub fn standard_paths_here(platform: Platform) -> (r: Vec<String>)
    ensures
        exists|data: Option<Seq<char>>, config: Option<Seq<char>>, home: Option<Seq<char>>|
            views(r@) == standard_of(platform, data, config, home),
{
    let data = data_dir();
    let config = config_dir();
    let home = home_dir();
    let d = borrowed(&data);
    let c = borrowed(&config);
    let h = borrowed(&home);
    let r = standard_paths(platform, d, c, h);
    assert(views(r@) == standard_of(platform, text(d), text(c), text(h)));
    r
}

} // verus!
