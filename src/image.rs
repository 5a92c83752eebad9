//! Image records.
use vstd::prelude::*;

verus! {

/// An image as the listing reports it.
#[allow(non_snake_case)]
#[derive(Debug, Clone)]
pub struct Image {
    pub Created: u64,
    pub Id: String,
    pub ParentId: String,
    pub RepoTags: Vec<String>,
    pub Size: u64,
    pub VirtualSize: u64,
}

/// Progress of an image operation.
#[derive(Debug, Clone)]
pub struct ImageStatus {
    pub status: Option<String>,
    pub error: Option<String>,
}

} // verus!
