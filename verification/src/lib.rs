//! Cache keys derived from the files that a set of glob patterns selects.
//!
//! A key is made in three steps. The patterns are resolved to a list of
//! files ([`file_matcher`]), the files are digested into one digest
//! ([`hash_calculator`]), and the key's prefix is put in front of the
//! digest ([`cache_key`]).
//!
//! The library does not touch the disk. It works on a
//! [`snapshot::Snapshot`]: what expanding the patterns gave and what the
//! files hold, as the caller found them. What is computed from a snapshot
//! is stated in the contracts of the functions and proved of their code;
//! [`guarantees`] holds what follows from it for every key. SHA-256 itself
//! is computed by the `sha2` crate and taken on trust ([`digest`]).

pub mod cache_key;
pub mod digest;
pub mod error;
pub mod file_matcher;
pub mod guarantees;
pub mod hash_calculator;
pub mod manifest;
pub mod order;
pub mod path;
pub mod setting;
pub mod snapshot;
