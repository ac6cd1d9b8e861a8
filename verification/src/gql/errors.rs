//! Errors of parsing and binding, with their place in the query text.
use vstd::prelude::*;

use crate::text::owned;

verus! {

/// A range of the query text.
#[derive(Debug, Clone, Copy, PartialEq, Eq, Structural)]
pub struct Span {
    /// Byte offset of the first byte.
    pub start: usize,
    /// Byte offset after the last byte.
    pub end: usize,
}

/// What is wrong with a query.
#[derive(Debug, Clone, PartialEq, Eq)]
pub enum GqlErrorKind {
    /// The query text is malformed.
    Syntax { message: String },
    /// A name cannot be bound.
    Bind { message: String },
    /// The query is valid but outside the supported subset.
    Unsupported { message: String },
}

/// Error of the query front end.
#[derive(Debug, Clone, PartialEq, Eq)]
pub struct GqlError {
    /// Place in the query text.
    pub span: Span,
    /// What is wrong there.
    pub kind: GqlErrorKind,
}

/// What is wrong with a query, with its message as a character sequence.
pub enum GqlErrorKindView {
    Syntax { message: Seq<char> },
    Bind { message: Seq<char> },
    Unsupported { message: Seq<char> },
}

/// What a `GqlError` says.
pub struct GqlErrorView {
    pub span: Span,
    pub kind: GqlErrorKindView,
}

impl View for GqlErrorKind {
    type V = GqlErrorKindView;

    open spec fn view(&self) -> GqlErrorKindView {
        match self {
            GqlErrorKind::Syntax { message } => GqlErrorKindView::Syntax { message: message@ },
            GqlErrorKind::Bind { message } => GqlErrorKindView::Bind { message: message@ },
            GqlErrorKind::Unsupported { message } => GqlErrorKindView::Unsupported {
                message: message@,
            },
        }
    }
}

impl View for GqlError {
    type V = GqlErrorView;

    open spec fn view(&self) -> GqlErrorView {
        GqlErrorView { span: self.span, kind: self.kind@ }
    }
}

/// A syntax error.
pub open spec fn syntax_error(span: Span, message: Seq<char>) -> GqlErrorView {
    GqlErrorView { span, kind: GqlErrorKindView::Syntax { message } }
}

/// A binding error.
pub open spec fn bind_error(span: Span, message: Seq<char>) -> GqlErrorView {
    GqlErrorView { span, kind: GqlErrorKindView::Bind { message } }
}

/// An error for an unsupported query.
pub open spec fn unsupported_error(span: Span, message: Seq<char>) -> GqlErrorView {
    GqlErrorView { span, kind: GqlErrorKindView::Unsupported { message } }
}

impl GqlError {
    /// A syntax error.
    pub fn syntax(span: Span, message: &str) -> (error: GqlError)
        ensures
            error@ == syntax_error(span, message@),
    {
        GqlError { span, kind: GqlErrorKind::Syntax { message: owned(message) } }
    }

    /// A binding error.
    pub fn bind(span: Span, message: &str) -> (error: GqlError)
        ensures
            error@ == bind_error(span, message@),
    {
        GqlError { span, kind: GqlErrorKind::Bind { message: owned(message) } }
    }

    /// An error for an unsupported query.
    pub fn unsupported(span: Span, message: &str) -> (error: GqlError)
        ensures
            error@ == unsupported_error(span, message@),
    {
        GqlError { span, kind: GqlErrorKind::Unsupported { message: owned(message) } }
    }

    /// The message.
    pub fn message(&self) -> (message: &str)
        ensures
            message@ == (match self@.kind {
                GqlErrorKindView::Syntax { message } => message,
                GqlErrorKindView::Bind { message } => message,
                GqlErrorKindView::Unsupported { message } => message,
            }),
    {
        match &self.kind {
            GqlErrorKind::Syntax { message } => message.as_str(),
            GqlErrorKind::Bind { message } => message.as_str(),
            GqlErrorKind::Unsupported { message } => message.as_str(),
        }
    }
}

/// Result of the query front end.
pub type GqlResult<T> = Result<T, GqlError>;

/// A result with its value and its error taken by their views.
pub open spec fn outcome<T: View>(result: GqlResult<T>) -> Result<T::V, GqlErrorView> {
    match result {
        Ok(value) => Ok(value@),
        Err(error) => Err(error@),
    }
}

/// A result without a value, with its error taken by its view.
pub open spec fn refusal(result: GqlResult<()>) -> Option<GqlErrorView> {
    match result {
        Ok(_) => None,
        Err(error) => Some(error@),
    }
}

} // verus!
