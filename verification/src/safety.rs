//! Errors of the library.
use vstd::prelude::*;

verus! {

/// Error raised by projection and query operations.
#[derive(Debug, Clone, PartialEq, Eq)]
pub enum GraphError {
    /// A durable artifact is malformed.
    CorruptFile { reason: String },
    /// A durable artifact has a version that this build does not read.
    IncompatibleVersion(String),
    /// An operation failed for an internal reason.
    Internal(String),
    /// An overlay would grow beyond its configured limit.
    OverlayLimit { kind: String, requested: usize, limit: usize },
    /// The operation is not supported in the current context.
    UnsupportedOperation { operation: String, reason: String },
    /// Another build, vacuum or compaction holds the artifact root.
    BuildLocked,
    /// The graph has not been built.
    NotBuilt,
    /// Query execution failed.
    GqlExecution { reason: String },
    /// A filter or predicate cannot be evaluated.
    InvalidFilter { reason: String },
    /// A query parameter is missing or cannot be used.
    GqlParameter { reason: String },
}

/// What a `GraphError` says, with its text as character sequences.
pub enum GraphErrorView {
    CorruptFile { reason: Seq<char> },
    IncompatibleVersion(Seq<char>),
    Internal(Seq<char>),
    OverlayLimit { kind: Seq<char>, requested: usize, limit: usize },
    UnsupportedOperation { operation: Seq<char>, reason: Seq<char> },
    BuildLocked,
    NotBuilt,
    GqlExecution { reason: Seq<char> },
    InvalidFilter { reason: Seq<char> },
    GqlParameter { reason: Seq<char> },
}

impl View for GraphError {
    type V = GraphErrorView;

    open spec fn view(&self) -> GraphErrorView {
        match self {
            GraphError::CorruptFile { reason } => GraphErrorView::CorruptFile { reason: reason@ },
            GraphError::IncompatibleVersion(text) => GraphErrorView::IncompatibleVersion(text@),
            GraphError::Internal(text) => GraphErrorView::Internal(text@),
            GraphError::OverlayLimit { kind, requested, limit } => GraphErrorView::OverlayLimit {
                kind: kind@,
                requested: *requested,
                limit: *limit,
            },
            GraphError::UnsupportedOperation { operation, reason } => {
                GraphErrorView::UnsupportedOperation { operation: operation@, reason: reason@ }
            },
            GraphError::BuildLocked => GraphErrorView::BuildLocked,
            GraphError::NotBuilt => GraphErrorView::NotBuilt,
            GraphError::GqlExecution { reason } => GraphErrorView::GqlExecution {
                reason: reason@,
            },
            GraphError::InvalidFilter { reason } => GraphErrorView::InvalidFilter {
                reason: reason@,
            },
            GraphError::GqlParameter { reason } => GraphErrorView::GqlParameter { reason: reason@ },
        }
    }
}

/// Result of a library operation.
pub type GraphResult<T> = Result<T, GraphError>;

/// A result with its value and its error taken by their views.
pub open spec fn outcome<T: View>(result: GraphResult<T>) -> Result<T::V, GraphErrorView> {
    match result {
        Ok(value) => Ok(value@),
        Err(error) => Err(error@),
    }
}

/// A result without a value, with its error taken by its view.
pub open spec fn refusal(result: GraphResult<()>) -> Option<GraphErrorView> {
    match result {
        Ok(_) => None,
        Err(error) => Some(error@),
    }
}

} // verus!
