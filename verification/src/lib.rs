//! Spyglass: the verified core of an incident-evidence engine and of the
//! deployer that guards its one mutating action.

pub mod text;
pub mod config;
pub mod time;
pub mod deployer;
pub mod drain;
pub mod sanitize;
pub mod identity;
pub mod investigation;
pub mod events;
pub mod tools;
pub mod replay;
pub mod rank;
pub mod changepoints;
pub mod bundle;
pub mod recovery;
pub mod store;
pub mod search;
pub mod deploys;
pub mod checks;
pub mod body;
pub mod lines;
pub mod rawtools;
pub mod ingest;
pub mod digest;
