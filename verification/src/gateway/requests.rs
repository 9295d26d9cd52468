//! Request bodies of the gateway's story endpoints.
use vstd::prelude::*;

verus! {

/// The body of a request that creates a story.
#[derive(Debug)]
pub struct CreateStoryRequest {
    pub title: String,
    pub description: Option<String>,
    pub genre: Option<Vec<String>>,
}

/// The body of a request that changes a story; absent fields stay as they are.
#[derive(Debug)]
pub struct UpdateStoryRequest {
    pub title: Option<String>,
    pub description: Option<String>,
    pub genre: Option<Vec<String>>,
    pub world_rules: Option<serde_json::Value>,
    pub status: Option<String>,
}

} // verus!
