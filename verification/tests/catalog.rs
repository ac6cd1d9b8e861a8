//! Labels of registered tables.

use pggraph::query::catalog_snapshot::{
    gql_label_from_regclass, needs_source_lookup, single_source_table, CatalogSnapshotImpl,
    RegisteredEdge, RegisteredTable,
};
use pggraph::safety::GraphError;

#[test]
fn gql_label_from_regclass_accepts_only_simple_unquoted_identifiers() {
    assert_eq!(gql_label_from_regclass("users").as_deref(), Some("users"));
    assert_eq!(
        gql_label_from_regclass("tenant_a.users").as_deref(),
        Some("users")
    );
    assert_eq!(gql_label_from_regclass("\"MixedCase\""), None);
    assert_eq!(
        gql_label_from_regclass("tenant-a.users").as_deref(),
        Some("users")
    );
    assert_eq!(gql_label_from_regclass("123users"), None);
}

#[test]
fn one_foreign_key_row_names_the_source_table() {
    assert_eq!(single_source_table(&vec![Some(16_384)]), Ok(Some(16_384)));
    assert_eq!(single_source_table(&vec![Some(0)]), Ok(Some(0)));
    assert_eq!(single_source_table(&vec![Some(4_294_967_295)]), Ok(Some(u32::MAX)));
    assert_eq!(single_source_table(&Vec::new()), Ok(None));
    assert_eq!(single_source_table(&vec![None]), Ok(None));
    assert_eq!(single_source_table(&vec![Some(1), Some(2)]), Ok(None));
    for oid in [-1, 4_294_967_296] {
        assert_eq!(
            single_source_table(&vec![Some(oid)]),
            Err(GraphError::Internal(
                "edge source foreign-key target read failed: out of range integral type \
                 conversion attempted"
                    .into()
            ))
        );
    }
}

fn table(name: &str, oid: u32) -> RegisteredTable {
    RegisteredTable {
        table_name: name.into(),
        table_oid: oid,
        columns: vec!["name".into()],
        id_columns: vec!["id".into()],
        tenant_column: None,
    }
}

#[test]
fn edges_of_unregistered_tables_are_looked_up() {
    let tables = vec![table("users", 10), table("companies", 20)];
    let edge = |from_table: &str, oid: u32, source: Option<u32>| RegisteredEdge {
        from_table: from_table.into(),
        from_table_oid: oid,
        from_column: "user_id".into(),
        to_table: "companies".into(),
        to_table_oid: 20,
        to_column: "company_id".into(),
        label: "works_at".into(),
        bidirectional: false,
        source_table_oid: source,
    };
    assert!(!needs_source_lookup(&tables, &edge("users", 10, None)));
    assert!(needs_source_lookup(&tables, &edge("employments", 30, None)));
    assert!(needs_source_lookup(&Vec::new(), &edge("users", 10, None)));

    let found = single_source_table(&vec![Some(10)]).unwrap();
    let snapshot = CatalogSnapshotImpl::load(&tables, &vec![edge("employments", 30, found)]);
    assert_eq!(snapshot.rels[0].from_table_oid, 10);
    assert_eq!(snapshot.rels[0].edge_mapping.as_ref().unwrap().edge_table_oid, 30);
}
