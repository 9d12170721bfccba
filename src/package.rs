//! Package metadata: manifests and the files they list.

use vstd::prelude::*;

verus! {

/// Attributes of one file inside an archive.
#[derive(Debug)]
pub struct FileEntry {
    pub path: String,
    pub checksum: String,
    pub size: u64,
    pub mode: u32,
}

/// The metadata of one package version.
#[derive(Debug)]
pub struct PackageManifest {
    pub name: String,
    pub version: String,
    pub arch: String,
    pub provides: Vec<String>,
    pub depends: Vec<String>,
    pub conflicts: Vec<String>,
    pub replaces: Vec<String>,
    pub files: Vec<FileEntry>,
    pub size: u64,
    pub checksum: String,
    pub timestamp: i64,
    pub filename: Option<String>,
    pub repo_id: Option<i64>,
}

/// An opened archive: its manifest and where its bytes live.
#[derive(Debug)]
pub struct ApxPackage {
    pub manifest: PackageManifest,
    pub content_path: String,
}

/// The characters of each string.
pub open spec fn views(v: Seq<String>) -> Seq<Seq<char>> {
    v.map_values(|s: String| s@)
}

} // verus!
