//! Delta packages: when a delta is worth fetching instead of the full
//! archive.

use vstd::prelude::*;

verus! {

/// Metadata of a delta from one version of a package to another.
#[derive(Debug)]
pub struct DeltaMetadata {
    pub from_version: String,
    pub to_version: String,
    pub package_name: String,
    pub delta_size: u64,
    pub full_size: u64,
    pub algorithm: String,
    pub checksum: String,
}

impl DeltaMetadata {
    /// The delta saves at least a tenth of the full size.
    pub open spec fn worthwhile_spec(&self) -> bool {
        self.full_size > 0 && self.delta_size <= self.full_size && 10 * (self.full_size
            - self.delta_size) >= self.full_size
    }

    /// Whether fetching the delta saves at least 10% of the full size.
    pub fn is_worthwhile(&self) -> (r: bool)
        ensures
            r == self.worthwhile_spec(),
    {
        if self.full_size == 0 || self.delta_size > self.full_size {
            return false;
        }
        let saved = (self.full_size - self.delta_size) as u128;
        saved * 10 >= self.full_size as u128
    }
}

} // verus!
