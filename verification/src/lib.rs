//! Finds the dependencies that packages declare and do not use.
//!
//! A run searches directories for manifests ([`walk`]), looks up what is known about their
//! packages ([`db`]), has those analysed that are new or have changed ([`checksum`]), tells
//! the user what was found ([`report`]) and, if asked to, takes unused dependencies out of the
//! manifests ([`fix`], [`manifest`]).

pub mod args;
pub mod checksum;
pub mod db;
pub mod fix;
pub mod manifest;
pub mod path;
pub mod report;
pub mod text;
pub mod walk;
