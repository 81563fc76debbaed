//! The launcher's settings: one optional default installation path, and the
//! place where the settings are kept.

use vstd::prelude::*;
use vstd::string::*;
use crate::path::{child_of, child_path};

verus! {

/// The settings that are kept between runs.
#[derive(Debug)]
pub struct Config {
    pub default_minecraft_path: Option<String>,
}

/// The text of the default path, if one is set.
pub open spec fn default_of(c: Config) -> Option<Seq<char>> {
    match c.default_minecraft_path {
        Some(p) => Some(p@),
        None => None,
    }
}

/// The settings file below the given configuration directory.
pub open spec fn config_file_of(config_dir: Seq<char>) -> Seq<char> {
    child_of(child_of(config_dir, "storytime-launcher"@), "config.toml"@)
}

impl Config {
    /// Settings without a default path: what a first run starts from.
    pub fn new() -> (c: Config)
        ensures
            default_of(c) is None,
    {
        Config { default_minecraft_path: None }
    }

    /// The default installation path, if one is set.
    pub fn get_default_path(&self) -> (r: Option<String>)
        ensures
            match r {
                Some(p) => default_of(*self) == Some(p@),
                None => default_of(*self) is None,
            },
    {
        match &self.default_minecraft_path {
            Some(p) => Some(p.clone()),
            None => None,
        }
    }

    /// Makes `path` the default installation path.
    pub fn set_default_path(&mut self, path: &str)
        ensures
            default_of(*final(self)) == Some(path@),
    {
        self.default_minecraft_path = Some(path.to_owned());
    }

    /// The directory that holds the settings file, below the user's
    /// configuration directory.
    pub fn config_dir_in(config_dir: &str) -> (r: String)
        ensures
            r@ == child_of(config_dir@, "storytime-launcher"@),
    {
        child_path(config_dir, "storytime-launcher")
    }

    /// The settings file, below the user's configuration directory.
    pub fn config_file_in(config_dir: &str) -> (r: String)
        ensures
            r@ == config_file_of(config_dir@),
    {
        let dir = child_path(config_dir, "storytime-launcher");
        child_path(dir.as_str(), "config.toml")
    }
}

} // verus!
