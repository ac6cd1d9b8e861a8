//! Catalog snapshots used by the binder.
use vstd::prelude::*;
use vstd::string::StrSliceExecFns;

use crate::gql::errors::{self, GqlError, GqlErrorView, GqlResult, Span};
use crate::query::names::{self, NameSet};
use crate::safety::{self, GraphError, GraphErrorView, GraphResult};
use crate::text::{self, concat3, decimal_text, owned, same_text};
use crate::views;

verus! {

/// Bound metadata for a node label.
#[derive(Debug, Clone, PartialEq, Eq)]
pub struct NodeLabelInfo {
    /// Label text.
    pub label: String,
    /// Source table OID backing this label.
    pub table_oid: u32,
    /// Registered property column names.
    pub properties: NameSet,
    /// Registered non-key property columns that writes may update.
    pub writable_properties: NameSet,
}

/// What `NodeLabelInfo` holds.
pub struct NodeLabelInfoView {
    pub label: Seq<char>,
    pub table_oid: u32,
    pub properties: Seq<Seq<char>>,
    pub writable_properties: Seq<Seq<char>>,
}

impl View for NodeLabelInfo {
    type V = NodeLabelInfoView;

    open spec fn view(&self) -> NodeLabelInfoView {
        NodeLabelInfoView {
            label: self.label@,
            table_oid: self.table_oid,
            properties: self.properties@,
            writable_properties: self.writable_properties@,
        }
    }
}

impl NodeLabelInfo {
    /// A copy.
    pub fn duplicate(&self) -> (copy: NodeLabelInfo)
        ensures
            copy@ == self@,
    {
        NodeLabelInfo {
            label: self.label.clone(),
            table_oid: self.table_oid,
            properties: self.properties.duplicate(),
            writable_properties: self.writable_properties.duplicate(),
        }
    }
}

/// Source-table details required for mapped edge writes.
#[derive(Debug, Clone, PartialEq, Eq)]
pub struct EdgeMappingInfo {
    /// Registered edge row table OID.
    pub edge_table_oid: u32,
    /// Registered source node table OID.
    pub source_table_oid: u32,
    /// Registered target node table OID.
    pub target_table_oid: u32,
    /// Edge row column containing the source node key.
    pub source_column: String,
    /// Edge row column containing the target node key.
    pub target_column: String,
    /// Whether the edge was registered as bidirectional.
    pub bidirectional: bool,
}

/// What `EdgeMappingInfo` holds.
pub struct EdgeMappingInfoView {
    pub edge_table_oid: u32,
    pub source_table_oid: u32,
    pub target_table_oid: u32,
    pub source_column: Seq<char>,
    pub target_column: Seq<char>,
    pub bidirectional: bool,
}

impl View for EdgeMappingInfo {
    type V = EdgeMappingInfoView;

    open spec fn view(&self) -> EdgeMappingInfoView {
        EdgeMappingInfoView {
            edge_table_oid: self.edge_table_oid,
            source_table_oid: self.source_table_oid,
            target_table_oid: self.target_table_oid,
            source_column: self.source_column@,
            target_column: self.target_column@,
            bidirectional: self.bidirectional,
        }
    }
}

impl EdgeMappingInfo {
    /// A copy.
    pub fn duplicate(&self) -> (copy: EdgeMappingInfo)
        ensures
            copy@ == self@,
    {
        EdgeMappingInfo {
            edge_table_oid: self.edge_table_oid,
            source_table_oid: self.source_table_oid,
            target_table_oid: self.target_table_oid,
            source_column: self.source_column.clone(),
            target_column: self.target_column.clone(),
            bidirectional: self.bidirectional,
        }
    }
}

/// Bound metadata for a relationship type.
#[derive(Debug, Clone, PartialEq, Eq)]
pub struct RelTypeInfo {
    /// Relationship type text.
    pub rel_type: String,
    /// Source node table OID.
    pub from_table_oid: u32,
    /// Target node table OID.
    pub to_table_oid: u32,
    /// Registered edge-row mapping when this relationship is backed by a separate
    /// edge table.
    pub edge_mapping: Option<EdgeMappingInfo>,
}

/// What `RelTypeInfo` holds.
pub struct RelTypeInfoView {
    pub rel_type: Seq<char>,
    pub from_table_oid: u32,
    pub to_table_oid: u32,
    pub edge_mapping: Option<EdgeMappingInfoView>,
}

impl View for RelTypeInfo {
    type V = RelTypeInfoView;

    open spec fn view(&self) -> RelTypeInfoView {
        RelTypeInfoView {
            rel_type: self.rel_type@,
            from_table_oid: self.from_table_oid,
            to_table_oid: self.to_table_oid,
            edge_mapping: views::some_view(self.edge_mapping),
        }
    }
}

impl RelTypeInfo {
    /// A copy.
    pub fn duplicate(&self) -> (copy: RelTypeInfo)
        ensures
            copy@ == self@,
    {
        RelTypeInfo {
            rel_type: self.rel_type.clone(),
            from_table_oid: self.from_table_oid,
            to_table_oid: self.to_table_oid,
            edge_mapping: duplicate_mapping(&self.edge_mapping),
        }
    }
}

/// A copy of an optional mapping.
pub fn duplicate_mapping(mapping: &Option<EdgeMappingInfo>) -> (copy: Option<EdgeMappingInfo>)
    ensures
        views::some_view(copy) == views::some_view(*mapping),
{
    match mapping {
        Some(mapping) => Some(mapping.duplicate()),
        None => None,
    }
}

/// Copies of relationship types.
pub fn duplicate_rels(rels: &Vec<RelTypeInfo>) -> (copies: Vec<RelTypeInfo>)
    ensures
        views::views(copies@) == views::views(rels@),
{
    let mut copies: Vec<RelTypeInfo> = Vec::new();
    let ghost all = views::views(rels@);
    for i in 0..rels.len()
        invariant
            all == views::views(rels@),
            views::views(copies@) == all.take(i as int),
    {
        let ghost earlier = copies@;
        let copy: RelTypeInfo = rels[i].duplicate();
        copies.push(copy);
        proof {
            views::lemma_push(earlier, copy);
            assert(all.take(i + 1) =~= all.take(i as int).push(all[i as int]));
        }
    }
    assert(all.take(all.len() as int) =~= all);
    copies
}

/// Catalog lookups that semantic binding makes.
pub trait CatalogSnapshot {
    /// What a node label resolves to.
    spec fn label_info(&self, label: Seq<char>, span: Span) -> Result<
        NodeLabelInfoView,
        GqlErrorView,
    >;

    /// What a relationship type resolves to.
    spec fn rel_info(
        &self,
        rel_type: Seq<char>,
        from_table_oid: u32,
        to_table_oid: u32,
        span: Span,
    ) -> Result<RelTypeInfoView, GqlErrorView>;

    /// All labels that resolve.
    spec fn all_labels(&self) -> Seq<NodeLabelInfoView>;

    /// All relationship types.
    spec fn all_rels(&self) -> Seq<RelTypeInfoView>;

    /// Resolve a node label to its registered source table.
    fn resolve_node_label(&self, label: &str, span: Span) -> (result: GqlResult<NodeLabelInfo>)
        ensures
            errors::outcome(result) == self.label_info(label@, span),
    ;

    /// Resolve a relationship type between two concrete table OIDs.
    fn resolve_rel_type(
        &self,
        rel_type: &str,
        from_table_oid: u32,
        to_table_oid: u32,
        span: Span,
    ) -> (result: GqlResult<RelTypeInfo>)
        ensures
            errors::outcome(result) == self.rel_info(rel_type@, from_table_oid, to_table_oid, span),
    ;

    /// Return registered relationships incident to the table OID.
    fn incident_rel_types(&self, table_oid: u32) -> (rels: Vec<RelTypeInfo>)
        ensures
            views::views(rels@) == incident_rels(self.all_rels(), table_oid),
    ;

    /// Return every label that resolves.
    fn node_labels(&self) -> (labels: Vec<NodeLabelInfo>)
        ensures
            views::views(labels@) == self.all_labels(),
    ;

    /// Return every registered relationship type.
    fn rel_types(&self) -> (rels: Vec<RelTypeInfo>)
        ensures
            views::views(rels@) == self.all_rels(),
    ;
}

// ---------------------------------------------------------------------------
// Relationship lookup
// ---------------------------------------------------------------------------

/// Whether a relationship has a type and two end tables.
pub open spec fn rel_matches(
    rel: RelTypeInfoView,
    rel_type: Seq<char>,
    from_table_oid: u32,
    to_table_oid: u32,
) -> bool {
    rel.rel_type == rel_type && rel.from_table_oid == from_table_oid && rel.to_table_oid
        == to_table_oid
}

/// The first relationship from `at` on with a type and two end tables.
pub open spec fn first_rel(
    rels: Seq<RelTypeInfoView>,
    rel_type: Seq<char>,
    from_table_oid: u32,
    to_table_oid: u32,
    at: int,
) -> Option<RelTypeInfoView>
    decreases rels.len() - at,
{
    if at >= rels.len() {
        None
    } else if rel_matches(rels[at], rel_type, from_table_oid, to_table_oid) {
        Some(rels[at])
    } else {
        first_rel(rels, rel_type, from_table_oid, to_table_oid, at + 1)
    }
}

fn find_rel(rels: &Vec<RelTypeInfo>, rel_type: &str, from_table_oid: u32, to_table_oid: u32) -> (found:
    Option<RelTypeInfo>)
    ensures
        views::some_view(found) == first_rel(
            views::views(rels@),
            rel_type@,
            from_table_oid,
            to_table_oid,
            0,
        ),
{
    let ghost all = views::views(rels@);
    for i in 0..rels.len()
        invariant
            all == views::views(rels@),
            first_rel(all, rel_type@, from_table_oid, to_table_oid, i as int) == first_rel(
                all,
                rel_type@,
                from_table_oid,
                to_table_oid,
                0,
            ),
    {
        let rel: &RelTypeInfo = &rels[i];
        assert(all[i as int] == rel@);
        if same_text(rel.rel_type.as_str(), rel_type) && rel.from_table_oid == from_table_oid
            && rel.to_table_oid == to_table_oid {
            return Some(rel.duplicate());
        }
    }
    None
}

/// The edge row table of a relationship, 0 where it has none.
pub open spec fn edge_table(rel: RelTypeInfoView) -> u32 {
    match rel.edge_mapping {
        Some(mapping) => mapping.edge_table_oid,
        None => 0,
    }
}

/// Whether two relationships are the same for incidence: type, end tables and
/// edge row table agree.
pub open spec fn same_incidence(a: RelTypeInfoView, b: RelTypeInfoView) -> bool {
    a.rel_type == b.rel_type && a.from_table_oid == b.from_table_oid && a.to_table_oid
        == b.to_table_oid && edge_table(a) == edge_table(b)
}

/// Whether a list has a relationship that is the same for incidence.
pub open spec fn lists_incidence(rels: Seq<RelTypeInfoView>, rel: RelTypeInfoView) -> bool {
    exists|i: int| 0 <= i < rels.len() && same_incidence(#[trigger] rels[i], rel)
}

/// The relationships that touch a table, without those that repeat an earlier
/// one.
pub open spec fn incident_rels(rels: Seq<RelTypeInfoView>, table_oid: u32) -> Seq<RelTypeInfoView>
    decreases rels.len(),
{
    if rels.len() == 0 {
        Seq::empty()
    } else {
        let earlier = incident_rels(rels.drop_last(), table_oid);
        let rel = rels.last();
        if (rel.from_table_oid == table_oid || rel.to_table_oid == table_oid) && !lists_incidence(
            earlier,
            rel,
        ) {
            earlier.push(rel)
        } else {
            earlier
        }
    }
}

fn edge_table_of(rel: &RelTypeInfo) -> (oid: u32)
    ensures
        oid == edge_table(rel@),
{
    match &rel.edge_mapping {
        Some(mapping) => mapping.edge_table_oid,
        None => 0,
    }
}

fn is_listed(rels: &Vec<RelTypeInfo>, rel: &RelTypeInfo) -> (found: bool)
    ensures
        found == lists_incidence(views::views(rels@), rel@),
{
    let ghost all = views::views(rels@);
    for i in 0..rels.len()
        invariant
            all == views::views(rels@),
            forall|j: int| 0 <= j < i ==> !same_incidence(#[trigger] all[j], rel@),
    {
        let other: &RelTypeInfo = &rels[i];
        assert(all[i as int] == other@);
        if other.rel_type == rel.rel_type && other.from_table_oid == rel.from_table_oid
            && other.to_table_oid == rel.to_table_oid && edge_table_of(other) == edge_table_of(
            rel,
        ) {
            assert(same_incidence(all[i as int], rel@));
            return true;
        }
    }
    false
}

/// The relationships that touch a table, without those that repeat an earlier
/// one.
pub fn incident_rel_types(rels: &Vec<RelTypeInfo>, table_oid: u32) -> (found: Vec<RelTypeInfo>)
    ensures
        views::views(found@) == incident_rels(views::views(rels@), table_oid),
{
    let mut found: Vec<RelTypeInfo> = Vec::new();
    let ghost all = views::views(rels@);
    assert(views::views(found@) =~= incident_rels(all.take(0), table_oid));
    for i in 0..rels.len()
        invariant
            all == views::views(rels@),
            views::views(found@) == incident_rels(all.take(i as int), table_oid),
    {
        let rel: &RelTypeInfo = &rels[i];
        proof {
            assert(all.take(i + 1).drop_last() =~= all.take(i as int));
            assert(all.take(i + 1).last() == rel@);
        }
        if (rel.from_table_oid == table_oid || rel.to_table_oid == table_oid) && !is_listed(
            &found,
            rel,
        ) {
            let ghost earlier = found@;
            let copy: RelTypeInfo = rel.duplicate();
            found.push(copy);
            proof {
                views::lemma_push(earlier, copy);
            }
        }
    }
    assert(all.take(all.len() as int) =~= all);
    found
}

// ---------------------------------------------------------------------------
// Registered catalog
// ---------------------------------------------------------------------------

/// A registered node table.
#[derive(Debug, Clone, PartialEq, Eq)]
pub struct RegisteredTable {
    /// Table name as PostgreSQL prints it.
    pub table_name: String,
    /// Table OID.
    pub table_oid: u32,
    /// Registered columns.
    pub columns: Vec<String>,
    /// Key columns.
    pub id_columns: Vec<String>,
    /// Column that holds the tenant, where the table is tenanted.
    pub tenant_column: Option<String>,
}

/// A registered edge.
#[derive(Debug, Clone, PartialEq, Eq)]
pub struct RegisteredEdge {
    /// Node table of the source, or edge row table.
    pub from_table: String,
    /// OID of that table.
    pub from_table_oid: u32,
    /// Column of that table that holds the source key.
    pub from_column: String,
    /// Node table of the target.
    pub to_table: String,
    /// OID of that table.
    pub to_table_oid: u32,
    /// Column that holds the target key.
    pub to_column: String,
    /// Relationship type.
    pub label: String,
    /// Whether the edge runs both ways.
    pub bidirectional: bool,
    /// OID of the one table that the source column references by a foreign key.
    pub source_table_oid: Option<u32>,
}

/// What follows the last dot of a name.
pub open spec fn after_last_dot(name: Seq<char>) -> Seq<char>
    decreases name.len(),
{
    if name.len() == 0 || name.last() == '.' {
        Seq::empty()
    } else {
        after_last_dot(name.drop_last()).push(name.last())
    }
}

/// Whether a character is an ASCII letter or an underscore.
pub open spec fn is_letter(c: char) -> bool {
    c == '_' || ('a' <= c && c <= 'z') || ('A' <= c && c <= 'Z')
}

/// Whether a character may stand in a label.
pub open spec fn is_label_char(c: char) -> bool {
    is_letter(c) || ('0' <= c && c <= '9')
}

/// The label of a table: its name without a schema, where that is a simple
/// unquoted identifier.
pub open spec fn table_label(regclass: Seq<char>) -> Option<Seq<char>> {
    let label = after_last_dot(regclass);
    if label.len() > 0 && is_letter(label[0]) && (forall|i: int|
        0 <= i < label.len() ==> is_label_char(#[trigger] label[i])) {
        Some(label)
    } else {
        None
    }
}

proof fn lemma_after_last_dot(name: Seq<char>, start: int)
    requires
        0 <= start <= name.len(),
        start == 0 || name[start - 1] == '.',
        forall|i: int| start <= i < name.len() ==> name[i] != '.',
    ensures
        after_last_dot(name) == name.skip(start),
    decreases name.len() - start,
{
    if start == name.len() {
        assert(name.skip(start) =~= Seq::<char>::empty());
    } else {
        lemma_after_last_dot(name.drop_last(), start);
        assert(name.drop_last().skip(start).push(name.last()) =~= name.skip(start));
    }
}

/// The label of a table: its name without a schema, where that is a simple
/// unquoted identifier.
pub fn gql_label_from_regclass(regclass: &str) -> (label: Option<String>)
    ensures
        views::some_view(label) == table_label(regclass@),
{
    let len: usize = regclass.unicode_len();
    let mut start: usize = len;
    while start > 0 && regclass.get_char(start - 1) != '.'
        invariant
            start <= len,
            len == regclass@.len(),
            forall|i: int| start <= i < len ==> regclass@[i] != '.',
        decreases start,
    {
        start = start - 1;
    }
    let label: &str = regclass.substring_char(start, len);
    proof {
        lemma_after_last_dot(regclass@, start as int);
        assert(label@ =~= regclass@.skip(start as int));
    }
    let count: usize = label.unicode_len();
    if count == 0 {
        return None;
    }
    let first: char = label.get_char(0);
    if !(first == '_' || ('a' <= first && first <= 'z') || ('A' <= first && first <= 'Z')) {
        return None;
    }
    for i in 0..count
        invariant
            count == label@.len(),
            label@ == after_last_dot(regclass@),
            forall|j: int| 0 <= j < i ==> is_label_char(#[trigger] label@[j]),
    {
        let c: char = label.get_char(i);
        if !(c == '_' || ('a' <= c && c <= 'z') || ('A' <= c && c <= 'Z') || ('0' <= c && c
            <= '9')) {
            assert(!is_label_char(label@[i as int]));
            return None;
        }
    }
    Some(owned(label))
}

/// The names of a list.
pub open spec fn name_set(names: Seq<String>) -> Set<Seq<char>> {
    views::views(names).to_set()
}

/// Whether names are those of a set, in order.
pub open spec fn lists_set(names: Seq<Seq<char>>, set: Set<Seq<char>>) -> bool {
    names::ascending(names) && names.to_set() == set
}

/// The columns that writes may update: all but the tenant column.
pub open spec fn writable_columns(table: RegisteredTable) -> Set<Seq<char>> {
    name_set(table.columns@).difference(tenant_columns(table))
}

/// The tenant column, as a set.
pub open spec fn tenant_columns(table: RegisteredTable) -> Set<Seq<char>> {
    match table.tenant_column {
        Some(tenant) => set![tenant@],
        None => Set::empty(),
    }
}

/// Whether label metadata is that of a table.
pub open spec fn is_label_of(info: NodeLabelInfoView, table: RegisteredTable) -> bool {
    &&& table_label(table.table_name@) == Some(info.label)
    &&& info.table_oid == table.table_oid
    &&& lists_set(info.properties, name_set(table.columns@) + name_set(table.id_columns@))
    &&& lists_set(info.writable_properties, writable_columns(table))
}

/// The tables that have a label.
pub open spec fn labelled(tables: Seq<RegisteredTable>) -> Seq<RegisteredTable> {
    tables.filter(|table: RegisteredTable| table_label(table.table_name@) is Some)
}

/// Whether label metadata is that of the tables with a label, in order.
pub open spec fn are_labels_of(
    infos: Seq<NodeLabelInfoView>,
    tables: Seq<RegisteredTable>,
) -> bool {
    let named = labelled(tables);
    infos.len() == named.len() && forall|i: int|
        0 <= i < infos.len() ==> is_label_of(#[trigger] infos[i], named[i])
}

fn add_names(set: &mut NameSet, names: &Vec<String>)
    requires
        old(set).wf(),
    ensures
        final(set).wf(),
        final(set)@.to_set() == old(set)@.to_set() + name_set(names@),
{
    let ghost start = set@.to_set();
    let ghost all = views::views(names@);
    assert(all.take(0).to_set() =~= Set::<Seq<char>>::empty());
    for i in 0..names.len()
        invariant
            set.wf(),
            all == views::views(names@),
            set@.to_set() == start + all.take(i as int).to_set(),
    {
        set.insert(names[i].as_str());
        proof {
            assert(all.take(i + 1) =~= all.take(i as int).push(all[i as int]));
            lemma_push_set(all.take(i as int), all[i as int]);
            assert(set@.to_set() =~= start + all.take(i + 1).to_set());
        }
    }
    assert(all.take(all.len() as int) =~= all);
}

proof fn lemma_push_set(names: Seq<Seq<char>>, name: Seq<char>)
    ensures
        names.push(name).to_set() == names.to_set().insert(name),
{
    let after = names.push(name);
    assert forall|x: Seq<char>| names.contains(x) || x == name implies after.contains(x) by {
        if names.contains(x) {
            let i = choose|i: int| 0 <= i < names.len() && names[i] == x;
            assert(after[i] == x);
        } else {
            assert(after[names.len() as int] == x);
        }
    }
    assert forall|x: Seq<char>| after.contains(x) implies names.contains(x) || x == name by {
        let i = choose|i: int| 0 <= i < after.len() && after[i] == x;
        if i < names.len() {
            assert(names[i] == x);
        }
    }
    assert(after.to_set() =~= names.to_set().insert(name));
}

fn writable_names(table: &RegisteredTable) -> (set: NameSet)
    ensures
        lists_set(set@, writable_columns(*table)),
{
    let mut set: NameSet = NameSet::new();
    let ghost all = views::views(table.columns@);
    let ghost tenant = tenant_columns(*table);
    assert(set@.to_set() =~= all.take(0).to_set().difference(tenant));
    for i in 0..table.columns.len()
        invariant
            set.wf(),
            all == views::views(table.columns@),
            tenant == tenant_columns(*table),
            set@.to_set() == all.take(i as int).to_set().difference(tenant),
    {
        let column: &String = &table.columns[i];
        let is_tenant: bool = match &table.tenant_column {
            Some(tenant) => same_text(tenant.as_str(), column.as_str()),
            None => false,
        };
        if !is_tenant {
            set.insert(column.as_str());
        }
        proof {
            assert(all.take(i + 1) =~= all.take(i as int).push(all[i as int]));
            lemma_push_set(all.take(i as int), all[i as int]);
            assert(tenant.contains(all[i as int]) == is_tenant);
            assert(set@.to_set() =~= all.take(i + 1).to_set().difference(tenant));
        }
    }
    proof {
        assert(all.take(all.len() as int) =~= all);
        assert(set@.to_set() =~= writable_columns(*table));
    }
    set
}

/// The label metadata of registered tables.
pub fn load_labels(tables: &Vec<RegisteredTable>) -> (labels: Vec<NodeLabelInfo>)
    ensures
        are_labels_of(views::views(labels@), tables@),
{
    let mut labels: Vec<NodeLabelInfo> = Vec::new();
    proof {
        reveal(Seq::filter);
    }
    for i in 0..tables.len()
        invariant
            are_labels_of(views::views(labels@), tables@.take(i as int)),
    {
        let table: &RegisteredTable = &tables[i];
        proof {
            reveal(Seq::filter);
            assert(tables@.take(i + 1).drop_last() =~= tables@.take(i as int));
        }
        match gql_label_from_regclass(table.table_name.as_str()) {
            Some(label) => {
                let mut properties: NameSet = NameSet::new();
                add_names(&mut properties, &table.columns);
                add_names(&mut properties, &table.id_columns);
                assert(properties@.to_set() =~= name_set(table.columns@) + name_set(
                    table.id_columns@,
                ));
                let info: NodeLabelInfo = NodeLabelInfo {
                    label,
                    table_oid: table.table_oid,
                    properties,
                    writable_properties: writable_names(table),
                };
                let ghost earlier = labels@;
                labels.push(info);
                proof {
                    views::lemma_push(earlier, info);
                    assert(is_label_of(info@, *table));
                }
            },
            None => {},
        }
    }
    assert(tables@.take(tables@.len() as int) =~= tables@);
    labels
}

/// Whether a table name is registered.
pub open spec fn is_registered(tables: Seq<RegisteredTable>, name: Seq<char>) -> bool {
    exists|i: int| 0 <= i < tables.len() && (#[trigger] tables[i]).table_name@ == name
}

/// Whether a table OID is registered.
pub open spec fn is_registered_oid(tables: Seq<RegisteredTable>, oid: u32) -> bool {
    exists|i: int| 0 <= i < tables.len() && (#[trigger] tables[i]).table_oid == oid
}

/// The relationships of an edge between two tables.
pub open spec fn both_ways(
    edge: RegisteredEdge,
    source_table_oid: u32,
    edge_mapping: Option<EdgeMappingInfoView>,
) -> Seq<RelTypeInfoView> {
    let forth = RelTypeInfoView {
        rel_type: edge.label@,
        from_table_oid: source_table_oid,
        to_table_oid: edge.to_table_oid,
        edge_mapping,
    };
    let back = RelTypeInfoView {
        rel_type: edge.label@,
        from_table_oid: edge.to_table_oid,
        to_table_oid: source_table_oid,
        edge_mapping,
    };
    if edge.bidirectional {
        seq![forth, back]
    } else {
        seq![forth]
    }
}

/// The relationships of a registered edge. An edge starts at its table where that
/// is a node table; otherwise the table holds edge rows, and the edge starts at
/// the node table that its source column references.
pub open spec fn edge_rels(tables: Seq<RegisteredTable>, edge: RegisteredEdge) -> Seq<
    RelTypeInfoView,
> {
    if is_registered(tables, edge.from_table@) {
        both_ways(edge, edge.from_table_oid, None)
    } else {
        match edge.source_table_oid {
            Some(source) => if is_registered_oid(tables, source) {
                both_ways(
                    edge,
                    source,
                    Some(
                        EdgeMappingInfoView {
                            edge_table_oid: edge.from_table_oid,
                            source_table_oid: source,
                            target_table_oid: edge.to_table_oid,
                            source_column: edge.from_column@,
                            target_column: edge.to_column@,
                            bidirectional: edge.bidirectional,
                        },
                    ),
                )
            } else {
                Seq::empty()
            },
            None => Seq::empty(),
        }
    }
}

/// The relationships of registered edges, in order.
pub open spec fn all_edge_rels(tables: Seq<RegisteredTable>, edges: Seq<RegisteredEdge>) -> Seq<
    RelTypeInfoView,
>
    decreases edges.len(),
{
    if edges.len() == 0 {
        Seq::empty()
    } else {
        all_edge_rels(tables, edges.drop_last()) + edge_rels(tables, edges.last())
    }
}

fn registers(tables: &Vec<RegisteredTable>, name: &str) -> (found: bool)
    ensures
        found == is_registered(tables@, name@),
{
    for i in 0..tables.len()
        invariant
            forall|j: int| 0 <= j < i ==> (#[trigger] tables@[j]).table_name@ != name@,
    {
        if same_text(tables[i].table_name.as_str(), name) {
            assert(tables@[i as int].table_name@ == name@);
            return true;
        }
    }
    false
}

fn registers_oid(tables: &Vec<RegisteredTable>, oid: u32) -> (found: bool)
    ensures
        found == is_registered_oid(tables@, oid),
{
    for i in 0..tables.len()
        invariant
            forall|j: int| 0 <= j < i ==> (#[trigger] tables@[j]).table_oid != oid,
    {
        if tables[i].table_oid == oid {
            assert(tables@[i as int].table_oid == oid);
            return true;
        }
    }
    false
}

fn push_both_ways(
    rels: &mut Vec<RelTypeInfo>,
    edge: &RegisteredEdge,
    source_table_oid: u32,
    edge_mapping: Option<EdgeMappingInfo>,
)
    ensures
        views::views(final(rels)@) == views::views(old(rels)@) + both_ways(
            *edge,
            source_table_oid,
            views::some_view(edge_mapping),
        ),
{
    let ghost start = views::views(rels@);
    let back: RelTypeInfo = RelTypeInfo {
        rel_type: edge.label.clone(),
        from_table_oid: edge.to_table_oid,
        to_table_oid: source_table_oid,
        edge_mapping: duplicate_mapping(&edge_mapping),
    };
    let forth: RelTypeInfo = RelTypeInfo {
        rel_type: edge.label.clone(),
        from_table_oid: source_table_oid,
        to_table_oid: edge.to_table_oid,
        edge_mapping,
    };
    let ghost first = rels@;
    rels.push(forth);
    proof {
        views::lemma_push(first, forth);
    }
    if edge.bidirectional {
        let ghost second = rels@;
        rels.push(back);
        proof {
            views::lemma_push(second, back);
        }
    }
    assert(views::views(rels@) =~= start + both_ways(
        *edge,
        source_table_oid,
        views::some_view(edge_mapping),
    ));
}

/// The table that rows of a foreign-key lookup name: that of the only row, none where
/// there are several or the row is null.
pub open spec fn source_table(rows: Seq<Option<i64>>) -> Result<Option<u32>, GraphErrorView> {
    if rows.len() != 1 {
        Ok(None)
    } else {
        match rows[0] {
            None => Ok(None),
            Some(oid) => if 0 <= oid <= u32::MAX {
                Ok(Some(oid as u32))
            } else {
                Err(
                    GraphErrorView::Internal(
                        "edge source foreign-key target read failed: out of range integral type conversion attempted"@,
                    ),
                )
            },
        }
    }
}

/// The one table that the rows of a foreign-key lookup name.
pub fn single_source_table(rows: &Vec<Option<i64>>) -> (result: GraphResult<Option<u32>>)
    ensures
        safety::outcome(result) == source_table(rows@),
{
    if rows.len() != 1 {
        return Ok(None);
    }
    match rows[0] {
        None => Ok(None),
        Some(oid) => if 0 <= oid && oid <= 0xffff_ffff {
            Ok(Some(oid as u32))
        } else {
            Err(
                GraphError::Internal(
                    owned(
                        "edge source foreign-key target read failed: out of range integral type conversion attempted",
                    ),
                ),
            )
        },
    }
}

/// Whether the source of an edge is to be looked up by the foreign key of its source
/// column: no registered table has the name of its table.
pub fn needs_source_lookup(tables: &Vec<RegisteredTable>, edge: &RegisteredEdge) -> (needed: bool)
    ensures
        needed == !is_registered(tables@, edge.from_table@),
{
    !registers(tables, edge.from_table.as_str())
}

/// The relationships of registered edges.
pub fn load_rels(tables: &Vec<RegisteredTable>, edges: &Vec<RegisteredEdge>) -> (rels: Vec<
    RelTypeInfo,
>)
    ensures
        views::views(rels@) == all_edge_rels(tables@, edges@),
{
    let mut rels: Vec<RelTypeInfo> = Vec::new();
    assert(views::views(rels@) =~= all_edge_rels(tables@, edges@.take(0)));
    for i in 0..edges.len()
        invariant
            views::views(rels@) == all_edge_rels(tables@, edges@.take(i as int)),
    {
        let edge: &RegisteredEdge = &edges[i];
        let ghost earlier = views::views(rels@);
        assert(edges@.take(i + 1).drop_last() =~= edges@.take(i as int));
        if registers(tables, edge.from_table.as_str()) {
            push_both_ways(&mut rels, edge, edge.from_table_oid, None);
        } else {
            match edge.source_table_oid {
                Some(source) => {
                    if registers_oid(tables, source) {
                        let mapping: EdgeMappingInfo = EdgeMappingInfo {
                            edge_table_oid: edge.from_table_oid,
                            source_table_oid: source,
                            target_table_oid: edge.to_table_oid,
                            source_column: edge.from_column.clone(),
                            target_column: edge.to_column.clone(),
                            bidirectional: edge.bidirectional,
                        };
                        push_both_ways(&mut rels, edge, source, Some(mapping));
                    }
                },
                None => {},
            }
        }
        assert(views::views(rels@) =~= earlier + edge_rels(tables@, *edge));
    }
    assert(edges@.take(edges@.len() as int) =~= edges@);
    rels
}

/// Catalog snapshot of registered tables and edges.
#[derive(Debug, Clone, PartialEq, Eq)]
pub struct CatalogSnapshotImpl {
    /// Label metadata of every table that has a label.
    pub labels: Vec<NodeLabelInfo>,
    /// Relationships.
    pub rels: Vec<RelTypeInfo>,
}

/// The labels of a list that have a text.
pub open spec fn labels_named(labels: Seq<NodeLabelInfoView>, label: Seq<char>) -> Seq<
    NodeLabelInfoView,
> {
    labels.filter(|info: NodeLabelInfoView| info.label == label)
}

fn pick_named(labels: &Vec<NodeLabelInfo>, label: &str) -> (found: (usize, usize))
    ensures
        found.0 == labels_named(views::views(labels@), label@).len(),
        found.0 > 0 ==> found.1 < labels@.len() && labels@[found.1 as int]@ == labels_named(
            views::views(labels@),
            label@,
        )[0],
{
    let mut count: usize = 0;
    let mut first: usize = 0;
    let ghost all = views::views(labels@);
    proof {
        reveal(Seq::filter);
    }
    for i in 0..labels.len()
        invariant
            all == views::views(labels@),
            count <= i,
            count == labels_named(all.take(i as int), label@).len(),
            count > 0 ==> first < i && all[first as int] == labels_named(
                all.take(i as int),
                label@,
            )[0],
    {
        proof {
            reveal(Seq::filter);
            assert(all.take(i + 1).drop_last() =~= all.take(i as int));
            assert(all[i as int] == labels@[i as int]@);
        }
        if same_text(labels[i].label.as_str(), label) {
            if count == 0 {
                first = i;
            }
            count = count + 1;
        }
    }
    assert(all.take(all.len() as int) =~= all);
    (count, first)
}

impl CatalogSnapshotImpl {
    /// The snapshot of registered tables and edges.
    pub fn load(tables: &Vec<RegisteredTable>, edges: &Vec<RegisteredEdge>) -> (snapshot:
        CatalogSnapshotImpl)
        ensures
            are_labels_of(views::views(snapshot.labels@), tables@),
            views::views(snapshot.rels@) == all_edge_rels(tables@, edges@),
    {
        CatalogSnapshotImpl { labels: load_labels(tables), rels: load_rels(tables, edges) }
    }
}

/// What a label of registered tables resolves to: it has to name one table.
pub open spec fn unique_label(labels: Seq<NodeLabelInfoView>, label: Seq<char>, span: Span) -> Result<
    NodeLabelInfoView,
    GqlErrorView,
> {
    let named = labels_named(labels, label);
    if named.len() == 0 {
        Err(errors::bind_error(span, "unknown node label `"@ + label + "`"@))
    } else if named.len() == 1 {
        Ok(named[0])
    } else {
        Err(errors::bind_error(span, "ambiguous node label `"@ + label + "`"@))
    }
}

impl CatalogSnapshot for CatalogSnapshotImpl {
    open spec fn label_info(&self, label: Seq<char>, span: Span) -> Result<
        NodeLabelInfoView,
        GqlErrorView,
    > {
        unique_label(views::views(self.labels@), label, span)
    }

    open spec fn rel_info(
        &self,
        rel_type: Seq<char>,
        from_table_oid: u32,
        to_table_oid: u32,
        span: Span,
    ) -> Result<RelTypeInfoView, GqlErrorView> {
        match first_rel(views::views(self.rels@), rel_type, from_table_oid, to_table_oid, 0) {
            Some(rel) => Ok(rel),
            None => Err(
                errors::bind_error(
                    span,
                    "unknown relationship type `"@ + rel_type + "` from table "@ + text::decimal(
                        from_table_oid as nat,
                    ) + " to "@ + text::decimal(to_table_oid as nat),
                ),
            ),
        }
    }

    open spec fn all_labels(&self) -> Seq<NodeLabelInfoView> {
        let labels = views::views(self.labels@);
        labels.filter(
            |info: NodeLabelInfoView| labels_named(labels, info.label).len() == 1,
        )
    }

    open spec fn all_rels(&self) -> Seq<RelTypeInfoView> {
        views::views(self.rels@)
    }

    fn resolve_node_label(&self, label: &str, span: Span) -> (result: GqlResult<NodeLabelInfo>) {
        let (count, first): (usize, usize) = pick_named(&self.labels, label);
        if count == 0 {
            Err(GqlError::bind(span, concat3("unknown node label `", label, "`").as_str()))
        } else if count == 1 {
            Ok(self.labels[first].duplicate())
        } else {
            Err(GqlError::bind(span, concat3("ambiguous node label `", label, "`").as_str()))
        }
    }

    fn resolve_rel_type(
        &self,
        rel_type: &str,
        from_table_oid: u32,
        to_table_oid: u32,
        span: Span,
    ) -> (result: GqlResult<RelTypeInfo>) {
        match find_rel(&self.rels, rel_type, from_table_oid, to_table_oid) {
            Some(rel) => Ok(rel),
            None => Err(
                GqlError::bind(
                    span,
                    text::concat6(
                        "unknown relationship type `",
                        rel_type,
                        "` from table ",
                        decimal_text(from_table_oid as u64).as_str(),
                        " to ",
                        decimal_text(to_table_oid as u64).as_str(),
                    ).as_str(),
                ),
            ),
        }
    }

    fn incident_rel_types(&self, table_oid: u32) -> (rels: Vec<RelTypeInfo>) {
        incident_rel_types(&self.rels, table_oid)
    }

    fn node_labels(&self) -> (labels: Vec<NodeLabelInfo>) {
        let mut labels: Vec<NodeLabelInfo> = Vec::new();
        let ghost all = views::views(self.labels@);
        let ghost keep = |info: NodeLabelInfoView| labels_named(all, info.label).len() == 1;
        proof {
            reveal(Seq::filter);
            assert(views::views(labels@) =~= all.take(0).filter(keep));
        }
        for i in 0..self.labels.len()
            invariant
                all == views::views(self.labels@),
                keep == (|info: NodeLabelInfoView| labels_named(all, info.label).len() == 1),
                views::views(labels@) == all.take(i as int).filter(keep),
        {
            let info: &NodeLabelInfo = &self.labels[i];
            proof {
                reveal(Seq::filter);
                assert(all.take(i + 1).drop_last() =~= all.take(i as int));
                assert(all[i as int] == info@);
            }
            let (count, _): (usize, usize) = pick_named(&self.labels, info.label.as_str());
            if count == 1 {
                let ghost earlier = labels@;
                let copy: NodeLabelInfo = info.duplicate();
                labels.push(copy);
                proof {
                    views::lemma_push(earlier, copy);
                }
            }
        }
        assert(all.take(all.len() as int) =~= all);
        labels
    }

    fn rel_types(&self) -> (rels: Vec<RelTypeInfo>) {
        duplicate_rels(&self.rels)
    }
}

// ---------------------------------------------------------------------------
// In-memory catalog
// ---------------------------------------------------------------------------

/// In-memory catalog of labels and relationships.
#[derive(Debug, Clone, PartialEq, Eq)]
pub struct FakeCatalog {
    pub labels: Vec<NodeLabelInfo>,
    pub rels: Vec<RelTypeInfo>,
}

/// Relationship mapping specification.
#[derive(Debug, Clone, Copy, PartialEq, Eq)]
pub struct MappedEdgeSpec<'a> {
    /// Relationship type name.
    pub rel_type: &'a str,
    /// Source node table OID.
    pub from_table_oid: u32,
    /// Target node table OID.
    pub to_table_oid: u32,
    /// Edge row table OID.
    pub edge_table_oid: u32,
    /// Source-key column in the edge row table.
    pub source_column: &'a str,
    /// Target-key column in the edge row table.
    pub target_column: &'a str,
    /// Whether the registration is bidirectional.
    pub bidirectional: bool,
}

/// The first label of a list from `at` on that has a text.
pub open spec fn first_label(labels: Seq<NodeLabelInfoView>, label: Seq<char>, at: int) -> Option<int>
    decreases labels.len() - at,
{
    if at >= labels.len() {
        None
    } else if labels[at].label == label {
        Some(at)
    } else {
        first_label(labels, label, at + 1)
    }
}

/// A list of labels with one set.
pub open spec fn with_info(labels: Seq<NodeLabelInfoView>, info: NodeLabelInfoView) -> Seq<
    NodeLabelInfoView,
> {
    match first_label(labels, info.label, 0) {
        Some(at) => labels.update(at, info),
        None => labels.push(info),
    }
}

/// The texts of string slices.
pub open spec fn slice_names(names: Seq<&str>) -> Seq<Seq<char>> {
    names.map_values(|name: &str| name@)
}

fn set_of(names: &[&str]) -> (set: NameSet)
    ensures
        lists_set(set@, slice_names(names@).to_set()),
{
    let mut set: NameSet = NameSet::new();
    let ghost all = slice_names(names@);
    assert(set@.to_set() =~= all.take(0).to_set());
    for i in 0..names.len()
        invariant
            set.wf(),
            all == slice_names(names@),
            set@.to_set() == all.take(i as int).to_set(),
    {
        set.insert(names[i]);
        proof {
            assert(all.take(i + 1) =~= all.take(i as int).push(all[i as int]));
            lemma_push_set(all.take(i as int), all[i as int]);
        }
    }
    assert(all.take(all.len() as int) =~= all);
    set
}

fn find_label(labels: &Vec<NodeLabelInfo>, label: &str) -> (found: Option<usize>)
    ensures
        match found {
            Some(at) => first_label(views::views(labels@), label@, 0) == Some(at as int) && at
                < labels@.len(),
            None => first_label(views::views(labels@), label@, 0) is None,
        },
{
    let ghost all = views::views(labels@);
    for i in 0..labels.len()
        invariant
            all == views::views(labels@),
            first_label(all, label@, i as int) == first_label(all, label@, 0),
    {
        assert(all[i as int] == labels@[i as int]@);
        if same_text(labels[i].label.as_str(), label) {
            return Some(i);
        }
    }
    None
}

impl FakeCatalog {
    /// Create an empty catalog.
    pub fn new() -> (catalog: FakeCatalog)
        ensures
            views::views(catalog.labels@) == Seq::<NodeLabelInfoView>::empty(),
            views::views(catalog.rels@) == Seq::<RelTypeInfoView>::empty(),
    {
        let catalog: FakeCatalog = FakeCatalog { labels: Vec::new(), rels: Vec::new() };
        assert(views::views(catalog.labels@) =~= Seq::<NodeLabelInfoView>::empty());
        assert(views::views(catalog.rels@) =~= Seq::<RelTypeInfoView>::empty());
        catalog
    }

    fn with_set_label(self, info: NodeLabelInfo) -> (catalog: FakeCatalog)
        ensures
            views::views(catalog.labels@) == with_info(views::views(self.labels@), info@),
            catalog.rels == self.rels,
    {
        let mut catalog: FakeCatalog = self;
        let ghost before = catalog.labels@;
        match find_label(&catalog.labels, info.label.as_str()) {
            Some(at) => {
                catalog.labels.set(at, info);
                assert(views::views(catalog.labels@) =~= views::views(before).update(at as int, info@));
            },
            None => {
                catalog.labels.push(info);
                proof {
                    views::lemma_push(before, info);
                }
            },
        }
        catalog
    }

    /// Add a node label backed by `table_oid`.
    pub fn with_label(self, label: &str, table_oid: u32, properties: &[&str]) -> (catalog:
        FakeCatalog)
        ensures
            exists|info: NodeLabelInfoView|
                #![trigger with_info(views::views(self.labels@), info)]
                info.label == label@ && info.table_oid == table_oid && lists_set(
                    info.properties,
                    slice_names(properties@).to_set(),
                ) && info.writable_properties == Seq::<Seq<char>>::empty() && views::views(
                    catalog.labels@,
                ) == with_info(views::views(self.labels@), info),
            catalog.rels == self.rels,
    {
        let info: NodeLabelInfo = NodeLabelInfo {
            label: owned(label),
            table_oid,
            properties: set_of(properties),
            writable_properties: NameSet::new(),
        };
        self.with_set_label(info)
    }

    /// Add a node label with distinct read and write property sets.
    pub fn with_writable_label(
        self,
        label: &str,
        table_oid: u32,
        properties: &[&str],
        writable_properties: &[&str],
    ) -> (catalog: FakeCatalog)
        ensures
            exists|info: NodeLabelInfoView|
                #![trigger with_info(views::views(self.labels@), info)]
                info.label == label@ && info.table_oid == table_oid && lists_set(
                    info.properties,
                    slice_names(properties@).to_set(),
                ) && lists_set(
                    info.writable_properties,
                    slice_names(writable_properties@).to_set(),
                ) && views::views(catalog.labels@) == with_info(views::views(self.labels@), info),
            catalog.rels == self.rels,
    {
        let info: NodeLabelInfo = NodeLabelInfo {
            label: owned(label),
            table_oid,
            properties: set_of(properties),
            writable_properties: set_of(writable_properties),
        };
        self.with_set_label(info)
    }

    /// Add a directed relationship type between concrete source/target tables.
    pub fn with_edge(self, rel_type: &str, from_table_oid: u32, to_table_oid: u32) -> (catalog:
        FakeCatalog)
        ensures
            catalog.labels == self.labels,
            views::views(catalog.rels@) == views::views(self.rels@).push(
                RelTypeInfoView {
                    rel_type: rel_type@,
                    from_table_oid,
                    to_table_oid,
                    edge_mapping: None,
                },
            ),
    {
        let mut catalog: FakeCatalog = self;
        let ghost before = catalog.rels@;
        let rel: RelTypeInfo = RelTypeInfo {
            rel_type: owned(rel_type),
            from_table_oid,
            to_table_oid,
            edge_mapping: None,
        };
        catalog.rels.push(rel);
        proof {
            views::lemma_push(before, rel);
        }
        catalog
    }

    /// Add a directed relationship type backed by a mapped edge row table.
    pub fn with_mapped_edge(self, spec: MappedEdgeSpec<'_>) -> (catalog: FakeCatalog)
        ensures
            catalog.labels == self.labels,
            views::views(catalog.rels@) == views::views(self.rels@).push(
                RelTypeInfoView {
                    rel_type: spec.rel_type@,
                    from_table_oid: spec.from_table_oid,
                    to_table_oid: spec.to_table_oid,
                    edge_mapping: Some(
                        EdgeMappingInfoView {
                            edge_table_oid: spec.edge_table_oid,
                            source_table_oid: spec.from_table_oid,
                            target_table_oid: spec.to_table_oid,
                            source_column: spec.source_column@,
                            target_column: spec.target_column@,
                            bidirectional: spec.bidirectional,
                        },
                    ),
                },
            ),
    {
        let mut catalog: FakeCatalog = self;
        let ghost before = catalog.rels@;
        let rel: RelTypeInfo = RelTypeInfo {
            rel_type: owned(spec.rel_type),
            from_table_oid: spec.from_table_oid,
            to_table_oid: spec.to_table_oid,
            edge_mapping: Some(
                EdgeMappingInfo {
                    edge_table_oid: spec.edge_table_oid,
                    source_table_oid: spec.from_table_oid,
                    target_table_oid: spec.to_table_oid,
                    source_column: owned(spec.source_column),
                    target_column: owned(spec.target_column),
                    bidirectional: spec.bidirectional,
                },
            ),
        };
        catalog.rels.push(rel);
        proof {
            views::lemma_push(before, rel);
        }
        catalog
    }
}

impl CatalogSnapshot for FakeCatalog {
    open spec fn label_info(&self, label: Seq<char>, span: Span) -> Result<
        NodeLabelInfoView,
        GqlErrorView,
    > {
        match first_label(views::views(self.labels@), label, 0) {
            Some(at) => Ok(views::views(self.labels@)[at]),
            None => Err(errors::bind_error(span, "unknown node label `"@ + label + "`"@)),
        }
    }

    open spec fn rel_info(
        &self,
        rel_type: Seq<char>,
        from_table_oid: u32,
        to_table_oid: u32,
        span: Span,
    ) -> Result<RelTypeInfoView, GqlErrorView> {
        match first_rel(views::views(self.rels@), rel_type, from_table_oid, to_table_oid, 0) {
            Some(rel) => Ok(rel),
            None => Err(
                errors::bind_error(span, "unknown relationship type `"@ + rel_type + "`"@),
            ),
        }
    }

    open spec fn all_labels(&self) -> Seq<NodeLabelInfoView> {
        views::views(self.labels@)
    }

    open spec fn all_rels(&self) -> Seq<RelTypeInfoView> {
        views::views(self.rels@)
    }

    fn resolve_node_label(&self, label: &str, span: Span) -> (result: GqlResult<NodeLabelInfo>) {
        match find_label(&self.labels, label) {
            Some(at) => Ok(self.labels[at].duplicate()),
            None => Err(
                GqlError::bind(span, concat3("unknown node label `", label, "`").as_str()),
            ),
        }
    }

    fn resolve_rel_type(
        &self,
        rel_type: &str,
        from_table_oid: u32,
        to_table_oid: u32,
        span: Span,
    ) -> (result: GqlResult<RelTypeInfo>) {
        match find_rel(&self.rels, rel_type, from_table_oid, to_table_oid) {
            Some(rel) => Ok(rel),
            None => Err(
                GqlError::bind(
                    span,
                    concat3("unknown relationship type `", rel_type, "`").as_str(),
                ),
            ),
        }
    }

    fn incident_rel_types(&self, table_oid: u32) -> (rels: Vec<RelTypeInfo>) {
        incident_rel_types(&self.rels, table_oid)
    }

    fn node_labels(&self) -> (labels: Vec<NodeLabelInfo>) {
        let mut labels: Vec<NodeLabelInfo> = Vec::new();
        let ghost all = views::views(self.labels@);
        for i in 0..self.labels.len()
            invariant
                all == views::views(self.labels@),
                views::views(labels@) == all.take(i as int),
        {
            let ghost earlier = labels@;
            let copy: NodeLabelInfo = self.labels[i].duplicate();
            labels.push(copy);
            proof {
                views::lemma_push(earlier, copy);
                assert(all.take(i + 1) =~= all.take(i as int).push(all[i as int]));
            }
        }
        assert(all.take(all.len() as int) =~= all);
        labels
    }

    fn rel_types(&self) -> (rels: Vec<RelTypeInfo>) {
        duplicate_rels(&self.rels)
    }
}

} // verus!
