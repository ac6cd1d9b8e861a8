//! What names resolve to.
use vstd::prelude::*;

use crate::gql::errors::{GqlErrorView, Span};
use crate::query::catalog_snapshot::{
    self, CatalogSnapshot, CatalogSnapshotImpl, NodeLabelInfoView, RegisteredEdge, RegisteredTable,
    RelTypeInfoView,
};
use crate::views;

verus! {

// ---------------------------------------------------------------------------
// Labels
// ---------------------------------------------------------------------------

/// Whether a name is a simple identifier: letters, digits and underscores, not starting
/// with a digit.
pub open spec fn is_simple(name: Seq<char>) -> bool {
    &&& name.len() > 0
    &&& !('0' <= name[0] && name[0] <= '9')
    &&& forall|i: int|
        0 <= i < name.len() ==> {
            ||| 'a' <= #[trigger] name[i] && name[i] <= 'z'
            ||| 'A' <= name[i] && name[i] <= 'Z'
            ||| '0' <= name[i] && name[i] <= '9'
            ||| name[i] == '_'
        }
}

proof fn lemma_no_dots(name: Seq<char>)
    requires
        forall|i: int| 0 <= i < name.len() ==> #[trigger] name[i] != '.',
    ensures
        catalog_snapshot::after_last_dot(name) == name,
    decreases name.len(),
{
    if name.len() > 0 {
        let init = name.drop_last();
        assert forall|i: int| 0 <= i < init.len() implies #[trigger] init[i] != '.' by {
            assert(init[i] == name[i]);
        }
        lemma_no_dots(init);
        assert(init.push(name.last()) =~= name);
    }
    assert(catalog_snapshot::after_last_dot(name) =~= name);
}

proof fn lemma_after_schema(schema: Seq<char>, name: Seq<char>)
    requires
        forall|i: int| 0 <= i < name.len() ==> #[trigger] name[i] != '.',
    ensures
        catalog_snapshot::after_last_dot(schema.push('.') + name) == name,
    decreases name.len(),
{
    let whole = schema.push('.') + name;
    if name.len() == 0 {
        assert(whole.last() == '.');
        assert(name =~= Seq::empty());
    } else {
        let init = name.drop_last();
        assert forall|i: int| 0 <= i < init.len() implies #[trigger] init[i] != '.' by {
            assert(init[i] == name[i]);
        }
        lemma_after_schema(schema, init);
        assert(whole.drop_last() =~= schema.push('.') + init);
        assert(whole.last() == name.last());
        assert(init.push(name.last()) =~= name);
    }
}

/// A table is labelled by its name without its schema, where that is a simple
/// identifier, and else not at all.
pub proof fn lemma_tables_are_labelled_by_name(schema: Seq<char>, name: Seq<char>)
    requires
        forall|i: int| 0 <= i < name.len() ==> #[trigger] name[i] != '.',
    ensures
        is_simple(name) ==> catalog_snapshot::table_label(name) == Some(name)
            && catalog_snapshot::table_label(schema.push('.') + name) == Some(name),
        !is_simple(name) ==> catalog_snapshot::table_label(name) is None
            && catalog_snapshot::table_label(schema.push('.') + name) is None,
{
    lemma_no_dots(name);
    lemma_after_schema(schema, name);
    if is_simple(name) {
        assert forall|i: int| 0 <= i < name.len() implies catalog_snapshot::is_label_char(
            #[trigger] name[i],
        ) by {}
    } else if name.len() > 0 && catalog_snapshot::table_label(name) is Some {
        assert forall|i: int| 0 <= i < name.len() implies {
            ||| 'a' <= #[trigger] name[i] && name[i] <= 'z'
            ||| 'A' <= name[i] && name[i] <= 'Z'
            ||| '0' <= name[i] && name[i] <= '9'
            ||| name[i] == '_'
        } by {
            assert(catalog_snapshot::is_label_char(name[i]));
        }
    }
}

/// A labelled table can be read by its columns and key columns, and written by its columns
/// but the one of the tenant.
pub proof fn lemma_label_lists_columns(
    info: NodeLabelInfoView,
    table: RegisteredTable,
    name: Seq<char>,
)
    requires
        catalog_snapshot::is_label_of(info, table),
    ensures
        info.table_oid == table.table_oid,
        info.properties.contains(name) <==> {
            ||| exists|i: int| 0 <= i < table.columns@.len() && (#[trigger] table.columns@[i])@ == name
            ||| exists|i: int|
                0 <= i < table.id_columns@.len() && (#[trigger] table.id_columns@[i])@ == name
        },
        info.writable_properties.contains(name) <==> {
            &&& exists|i: int|
                0 <= i < table.columns@.len() && (#[trigger] table.columns@[i])@ == name
            &&& table.tenant_column matches Some(tenant) ==> tenant@ != name
        },
{
    lemma_named(table.columns@, name);
    lemma_named(table.id_columns@, name);
    assert(info.properties.contains(name) <==> info.properties.to_set().contains(name));
    assert(info.writable_properties.contains(name)
        <==> info.writable_properties.to_set().contains(name));
}

proof fn lemma_named(names: Seq<String>, name: Seq<char>)
    ensures
        catalog_snapshot::name_set(names).contains(name) <==> exists|i: int|
            0 <= i < names.len() && (#[trigger] names[i])@ == name,
{
    let all = views::views(names);
    if all.contains(name) {
        let i = choose|i: int| 0 <= i < all.len() && all[i] == name;
        assert(names[i]@ == name);
    }
    if exists|i: int| 0 <= i < names.len() && (#[trigger] names[i])@ == name {
        let i = choose|i: int| 0 <= i < names.len() && (#[trigger] names[i])@ == name;
        assert(all[i] == name);
    }
}

/// Whether label `at` is the only one of its name.
pub open spec fn only_named(labels: Seq<NodeLabelInfoView>, label: Seq<char>, at: int) -> bool {
    &&& 0 <= at < labels.len()
    &&& labels[at].label == label
    &&& forall|i: int| 0 <= i < labels.len() && (#[trigger] labels[i]).label == label ==> i == at
}

proof fn lemma_one_named(labels: Seq<NodeLabelInfoView>, label: Seq<char>)
    ensures
        ({
            let named = catalog_snapshot::labels_named(labels, label);
            &&& named.len() == 0 <==> forall|i: int|
                0 <= i < labels.len() ==> (#[trigger] labels[i]).label != label
            &&& named.len() == 1 ==> exists|at: int| #[trigger]
                only_named(labels, label, at) && named[0] == labels[at]
            &&& forall|at: int| #[trigger] only_named(labels, label, at) ==> named.len() == 1
        }),
    decreases labels.len(),
{
    reveal(Seq::filter);
    if labels.len() > 0 {
        let init = labels.drop_last();
        let last = labels.len() - 1;
        lemma_one_named(init, label);
        let earlier = catalog_snapshot::labels_named(init, label);
        let named = catalog_snapshot::labels_named(labels, label);
        assert forall|i: int| 0 <= i < init.len() implies #[trigger] init[i] == labels[i] by {}
        if labels[last].label == label {
            assert(named == earlier.push(labels[last]));
            if earlier.len() == 0 {
                assert forall|i: int|
                    0 <= i < labels.len() && (#[trigger] labels[i]).label == label implies i
                    == last by {
                    if i < last {
                        assert(init[i].label != label);
                    }
                }
                assert(only_named(labels, label, last));
            } else {
                assert forall|at: int| !#[trigger] only_named(labels, label, at) by {
                    if only_named(labels, label, at) {
                        assert(at == last);
                        assert forall|i: int| 0 <= i < init.len() implies (
                        #[trigger] init[i]).label != label by {
                            assert(labels[i].label != label || i == at);
                        }
                    }
                }
            }
        } else {
            assert(named == earlier);
            assert forall|at: int| #[trigger] only_named(init, label, at) implies only_named(
                labels,
                label,
                at,
            ) by {
                assert forall|i: int|
                    0 <= i < labels.len() && (#[trigger] labels[i]).label == label implies i
                    == at by {
                    assert(i < last);
                    assert(init[i].label == label);
                }
            }
            assert forall|at: int| #[trigger] only_named(labels, label, at) implies only_named(
                init,
                label,
                at,
            ) by {
                assert(at < last);
                assert(init[at].label == label);
                assert forall|i: int|
                    0 <= i < init.len() && (#[trigger] init[i]).label == label implies i == at by {
                    assert(labels[i].label == label);
                }
            }
            if named.len() == 1 {
                let at = choose|at: int| #[trigger]
                    only_named(init, label, at) && earlier[0] == init[at];
                assert(only_named(labels, label, at));
            }
            if forall|i: int| 0 <= i < labels.len() ==> (#[trigger] labels[i]).label != label {
                assert forall|i: int| 0 <= i < init.len() implies (#[trigger] init[i]).label
                    != label by {
                    assert(labels[i].label != label);
                }
            }
            if named.len() == 0 {
                assert forall|i: int| 0 <= i < labels.len() implies (#[trigger] labels[i]).label
                    != label by {
                    if i < last {
                        assert(init[i].label != label);
                    }
                }
            }
        }
    }
}

/// A label resolves exactly where one table has it, and then to that table.
pub proof fn lemma_labels_resolve_where_unique(
    catalog: CatalogSnapshotImpl,
    label: Seq<char>,
    span: Span,
)
    ensures
        ({
            let labels = views::views(catalog.labels@);
            &&& catalog.label_info(label, span) matches Ok(info) ==> exists|at: int| #[trigger]
                only_named(labels, label, at) && info == labels[at]
            &&& forall|at: int| #[trigger]
                only_named(labels, label, at) ==> catalog.label_info(label, span) == Ok::<
                    _,
                    GqlErrorView,
                >(labels[at])
        }),
{
    let labels = views::views(catalog.labels@);
    lemma_one_named(labels, label);
    let named = catalog_snapshot::labels_named(labels, label);
    assert forall|at: int| #[trigger] only_named(labels, label, at) implies catalog.label_info(
        label,
        span,
    ) == Ok::<_, GqlErrorView>(labels[at]) by {
        let other = choose|other: int| #[trigger]
            only_named(labels, label, other) && named[0] == labels[other];
        assert(labels[at].label == label);
        assert(at == other);
    }
}

// ---------------------------------------------------------------------------
// Relationship types
// ---------------------------------------------------------------------------

proof fn lemma_first_rel(
    rels: Seq<RelTypeInfoView>,
    rel_type: Seq<char>,
    from_table_oid: u32,
    to_table_oid: u32,
    at: int,
)
    requires
        0 <= at,
    ensures
        ({
            let found = catalog_snapshot::first_rel(
                rels,
                rel_type,
                from_table_oid,
                to_table_oid,
                at,
            );
            &&& found matches Some(rel) ==> rels.contains(rel) && rel.rel_type == rel_type
                && rel.from_table_oid == from_table_oid && rel.to_table_oid == to_table_oid
            &&& found is None ==> forall|i: int|
                at <= i < rels.len() ==> !((#[trigger] rels[i]).rel_type == rel_type
                    && rels[i].from_table_oid == from_table_oid && rels[i].to_table_oid
                    == to_table_oid)
        }),
    decreases rels.len() - at,
{
    if at < rels.len() {
        lemma_first_rel(rels, rel_type, from_table_oid, to_table_oid, at + 1);
        assert(rels.contains(rels[at]));
    }
}

/// A relationship type between two tables resolves to a registered relationship of that
/// type that leads from the one to the other, and is refused exactly where there is none.
pub proof fn lemma_relationships_resolve_by_type_and_ends(
    catalog: CatalogSnapshotImpl,
    rel_type: Seq<char>,
    from_table_oid: u32,
    to_table_oid: u32,
    span: Span,
)
    ensures
        ({
            let rels = views::views(catalog.rels@);
            let result = catalog.rel_info(rel_type, from_table_oid, to_table_oid, span);
            &&& result matches Ok(rel) ==> rels.contains(rel) && rel.rel_type == rel_type
                && rel.from_table_oid == from_table_oid && rel.to_table_oid == to_table_oid
            &&& result is Err <==> forall|i: int|
                0 <= i < rels.len() ==> !((#[trigger] rels[i]).rel_type == rel_type
                    && rels[i].from_table_oid == from_table_oid && rels[i].to_table_oid
                    == to_table_oid)
        }),
{
    lemma_first_rel(views::views(catalog.rels@), rel_type, from_table_oid, to_table_oid, 0);
}

/// Whether a relationship is that of an edge from one table: it has the type of the edge
/// and leads to its target, or back where the edge runs both ways.
pub open spec fn runs(edge: RegisteredEdge, source_table_oid: u32, rel: RelTypeInfoView) -> bool {
    &&& rel.rel_type == edge.label@
    &&& {
        ||| rel.from_table_oid == source_table_oid && rel.to_table_oid == edge.to_table_oid
        ||| edge.bidirectional && rel.from_table_oid == edge.to_table_oid && rel.to_table_oid
            == source_table_oid
    }
}

/// Whether a relationship has the rows of an edge table: a mapping of its columns.
pub open spec fn is_mapped(
    edge: RegisteredEdge,
    source_table_oid: u32,
    rel: RelTypeInfoView,
) -> bool {
    rel.edge_mapping matches Some(mapping) && mapping.edge_table_oid == edge.from_table_oid
        && mapping.source_table_oid == source_table_oid && mapping.target_table_oid
        == edge.to_table_oid && mapping.source_column == edge.from_column@
        && mapping.target_column == edge.to_column@ && mapping.bidirectional == edge.bidirectional
}

/// An edge of a registered node table leads from that table and needs no mapping. An edge
/// with a table of its own leads from the registered table that its source column
/// references, and is mapped by its columns; where there is none it is left out.
pub proof fn lemma_edges_register_relationships(
    tables: Seq<RegisteredTable>,
    edge: RegisteredEdge,
    rel: RelTypeInfoView,
)
    ensures
        ({
            let rels = catalog_snapshot::edge_rels(tables, edge);
            let named = exists|i: int|
                0 <= i < tables.len() && (#[trigger] tables[i]).table_name@ == edge.from_table@;
            &&& named ==> (rels.contains(rel) <==> runs(edge, edge.from_table_oid, rel)
                && rel.edge_mapping is None)
            &&& !named ==> (rels.contains(rel) <==> {
                &&& edge.source_table_oid is Some
                &&& exists|i: int|
                    0 <= i < tables.len() && (#[trigger] tables[i]).table_oid
                        == edge.source_table_oid->0
                &&& runs(edge, edge.source_table_oid->0, rel)
                &&& is_mapped(edge, edge.source_table_oid->0, rel)
            })
        }),
{
    let rels = catalog_snapshot::edge_rels(tables, edge);
    if rels.len() > 0 {
        assert(rels.contains(rels[0]));
    }
    if rels.len() > 1 {
        assert(rels.contains(rels[1]));
    }
}

// ---------------------------------------------------------------------------
// Incidence
// ---------------------------------------------------------------------------

/// Whether a relationship starts or ends at a table.
pub open spec fn touches(rel: RelTypeInfoView, table_oid: u32) -> bool {
    rel.from_table_oid == table_oid || rel.to_table_oid == table_oid
}

/// The edge row table of a relationship, where it is mapped.
pub open spec fn row_table(rel: RelTypeInfoView) -> u32 {
    match rel.edge_mapping {
        Some(mapping) => mapping.edge_table_oid,
        None => 0,
    }
}

/// Whether two relationships have the same type, the same ends and the same edge rows.
pub open spec fn alike(a: RelTypeInfoView, b: RelTypeInfoView) -> bool {
    &&& a.rel_type == b.rel_type
    &&& a.from_table_oid == b.from_table_oid && a.to_table_oid == b.to_table_oid
    &&& row_table(a) == row_table(b)
}

/// Whether a relationship, or one like it, is listed.
pub open spec fn stands_for(listed: Seq<RelTypeInfoView>, rel: RelTypeInfoView) -> bool {
    exists|k: int| 0 <= k < listed.len() && alike(#[trigger] listed[k], rel)
}

/// The relationships incident to a table are registered ones that touch it; each that
/// touches it is listed, by itself or by one like it, and no two that are listed are alike.
pub proof fn lemma_incident_relationships(rels: Seq<RelTypeInfoView>, table_oid: u32)
    ensures
        ({
            let listed = catalog_snapshot::incident_rels(rels, table_oid);
            &&& forall|k: int|
                0 <= k < listed.len() ==> rels.contains(#[trigger] listed[k]) && touches(
                    listed[k],
                    table_oid,
                )
            &&& forall|i: int|
                0 <= i < rels.len() && touches(#[trigger] rels[i], table_oid) ==> stands_for(
                    listed,
                    rels[i],
                )
            &&& forall|j: int, k: int|
                0 <= j < k < listed.len() ==> !alike(#[trigger] listed[j], #[trigger] listed[k])
        }),
    decreases rels.len(),
{
    if rels.len() > 0 {
        let init = rels.drop_last();
        let rel = rels.last();
        let before = catalog_snapshot::incident_rels(init, table_oid);
        let listed = catalog_snapshot::incident_rels(rels, table_oid);
        lemma_incident_relationships(init, table_oid);
        assert forall|k: int| 0 <= k < before.len() implies rels.contains(
            #[trigger] before[k],
        ) by {
            let i = choose|i: int| 0 <= i < init.len() && init[i] == before[k];
            assert(rels[i] == before[k]);
        }
        assert(rels.contains(rel));
        if catalog_snapshot::lists_incidence(before, rel) {
            let k = choose|k: int|
                0 <= k < before.len() && catalog_snapshot::same_incidence(
                    #[trigger] before[k],
                    rel,
                );
            assert(alike(before[k], rel));
            assert(stands_for(before, rel));
        }
        assert forall|k: int| 0 <= k < before.len() implies alike(#[trigger] before[k], rel)
            == catalog_snapshot::same_incidence(before[k], rel) by {}
        assert forall|i: int| 0 <= i < rels.len() && touches(#[trigger] rels[i], table_oid) implies
            stands_for(listed, rels[i]) by {
            if i < init.len() {
                assert(init[i] == rels[i]);
                assert(touches(init[i], table_oid));
                let k = choose|k: int| 0 <= k < before.len() && alike(#[trigger] before[k], rels[i]);
                assert(listed[k] == before[k]);
            } else if !catalog_snapshot::lists_incidence(before, rel) {
                assert(listed[before.len() as int] == rel);
            }
        }
    }
}

} // verus!
