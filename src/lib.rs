//! Selection, filtering and size accounting for a local package repository
//! laid out as `group / artifact / version` directories.

pub mod text;
pub mod version;
pub mod artifact;
pub mod group;
pub mod path;
pub mod repo;
pub mod command;
pub mod sizes;
pub mod conditions;
pub mod glob_match;
pub mod filter;
pub mod settings;
