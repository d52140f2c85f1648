//! TorrentOxide's core: the decisions of a self-hosted BitTorrent web client
//! with a built-in PVR, each with a contract proved by Verus.
//!
//! - `text`, `sort`: character and ordering primitives the rest is built on.
//! - `types`: the shared wire types and their views.
//! - `ext`: the calls into `regex`, `torrent-name-parser` and `quick-xml`.
//! - `quality`, `xmlparse`, `scan`, `pvr`, `services`: release parsing and
//!   scoring, feed items, the media library, the PVR's rules and what it
//!   makes of TMDb and Torznab answers.
//! - `engine`, `paths`, `pending`: labels and limits for adds, path
//!   confinement, placeholder rows, seeding goals and capped histories.
//! - `config`, `auth`, `logbuf`: configuration, the login guard, the log.
//! - `ui`, `forms`, `scramble`, `fx`: what the web UI's views decide.

use vstd::prelude::*;

pub mod text;
pub mod sort;
pub mod types;
pub mod ext;
pub mod quality;
pub mod xmlparse;
pub mod scan;
pub mod pvr;
pub mod engine;
pub mod paths;
pub mod pending;
pub mod fx;
pub mod config;
pub mod auth;
pub mod ui;
pub mod logbuf;
pub mod services;
pub mod forms;
pub mod scramble;
pub mod tree;

verus! {
} // verus!
