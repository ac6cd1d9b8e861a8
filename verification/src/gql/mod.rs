//! Syntax trees of the graph query subset and the errors of its front end.

pub mod ast;
pub mod errors;
