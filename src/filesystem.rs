//! Changes in a container's filesystem.
use vstd::prelude::*;

verus! {

/// One changed path and the kind of change.
#[allow(non_snake_case)]
#[derive(Debug, Clone)]
pub struct FilesystemChange {
    pub Path: String,
    pub Kind: u8,
}

} // verus!
