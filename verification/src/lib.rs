//! Discovery of game installation directories and synchronisation of mod
//! archives, with the decision logic stated and proved over plain values.

pub mod text;
pub mod path;
pub mod listing;
pub mod classifier;
pub mod traverse;
pub mod resolve;
pub mod aggregate;
pub mod sync;
pub mod config;
pub mod roots;
pub mod discovery;
pub mod menu;
pub mod install;
pub mod registry;
