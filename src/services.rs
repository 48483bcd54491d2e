//! Handles for source control and language servers. Neither integration is
//! connected yet: a repository is never found, and a client does nothing.
use vstd::prelude::*;

verus! {

/// A source-control repository.
#[derive(Debug)]
pub struct Repository;

impl Repository {
    /// The repository that holds `path`; none is ever found.
    pub fn open(path: &str) -> (r: Option<Repository>)
        ensures
            r is None,
    {
        None
    }
}

/// How a line differs from the committed version.
#[derive(Debug, Clone, Copy, PartialEq, Eq, Structural)]
pub enum DiffStatus {
    Added,
    Modified,
    Removed,
}

/// A language-server client.
#[derive(Debug)]
pub struct LspClient;

impl LspClient {
    pub fn new() -> (r: LspClient) {
        LspClient
    }
}

impl Default for LspClient {
    fn default() -> (r: LspClient) {
        LspClient::new()
    }
}

} // verus!
