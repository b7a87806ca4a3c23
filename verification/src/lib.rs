//! Core of a desired-state configuration manager.
//!
//! A user configuration is evaluated (outside this crate) into an ordered
//! list of declarative actions: set, append or delete a file, or register a
//! script unit of install/update/uninstall command lists.  This crate holds
//! the verified core that turns those actions into immutable, numbered
//! generations, persists them as binary records, and reconciles two
//! generations into the ordered list of concrete apply-actions that
//! transforms the state of the first into the state of the second.

pub mod codec;
pub mod config;
pub mod difference;
pub mod generations;
pub mod store;
