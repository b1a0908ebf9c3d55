//! A registry switcher for a package manager: keeps a persisted profile of
//! named registry URLs (built-in defaults plus custom entries), rewrites the
//! single `registry=<url>` line of a line-oriented configuration file, and
//! reconciles the profile's notion of the active registry with whatever URL
//! that file actually holds.
//!
//! Everything that computes lives here and is verified; reading and writing
//! the two files, probing registries over the network, and the command-line
//! surface are left to the thin binary built on top of this crate.

pub mod codec;
pub mod error;
pub mod laws;
pub mod lines;
pub mod npmrc;
pub mod ops;
pub mod profile;
pub mod reconcile;
pub mod sort;
pub mod text;
