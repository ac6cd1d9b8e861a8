//! Quoting of SQL identifiers and literals.

use pggraph::quote::{quote_ident, quote_literal};

#[test]
fn identifiers_are_quoted() {
    assert_eq!(quote_ident("users"), "\"users\"");
    assert_eq!(quote_ident("odd\"name"), "\"odd\"\"name\"");
    assert_eq!(quote_ident(""), "\"\"");
}

#[test]
fn literals_are_quoted() {
    assert_eq!(quote_literal("it's"), "'it''s'");
    assert_eq!(quote_literal("''"), "''''''");
    assert_ne!(quote_literal("'"), quote_literal("''"));
}
