//! Error kinds surfaced by the pipelines. Every kind is terminal for the
//! invocation that raised it; nothing is retried.
use vstd::prelude::*;

verus! {

/// A failure to assemble the runtime configuration.
#[derive(Debug, Clone, PartialEq, Eq, Structural)]
pub enum JjaiConfigError {
    /// No API key was provided for the generation backend.
    MissingApiKey,
}

/// Any failure surfaced by the describe and backprop pipelines.
#[derive(Debug, Clone)]
pub enum JjaiError {
    /// Configuration could not be assembled.
    Config(JjaiConfigError),
    /// The generation backend failed.
    Llm(crate::llm::LlmError),
    /// Workspace discovery or loading failed.
    Workspace(String),
    /// A revision expression could not be parsed or evaluated.
    RevisionResolve { revision: String, reason: String },
    /// A revision expression matched no commit.
    RevisionNotFound { revision: String },
    /// A revision expression matched more than one commit where exactly one
    /// was required.
    RevisionAmbiguous { revision: String },
    /// A commit could not be read back from the store.
    CommitGet(String),
    /// Rendering a commit's patch failed.
    Diff(String),
    /// Rewriting a commit failed.
    CommitWrite(String),
    /// Re-parenting descendants onto rewritten commits failed.
    RebaseDescendants(String),
    /// Finishing the transaction failed.
    TransactionCommit(String),
}

} // verus!
