//! A Debian-style package manager core: metadata parsing, version ordering,
//! dependency resolution, archive framing and install transactions.

pub mod apt_parser;
pub mod archive;
pub mod cache;
pub mod catalog;
pub mod delta;
pub mod downloader;
pub mod error;
pub mod index_gen;
pub mod installer;
pub mod package;
pub mod repo;
pub mod round_trip;
pub mod sandbox;
pub mod security;
pub mod solver;
pub mod text;
pub mod update;
pub mod upgrade;
pub mod version;
