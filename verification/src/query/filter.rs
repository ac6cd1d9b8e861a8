//! Filtering and deduplication of result rows.
use vstd::prelude::*;

use crate::query::evaluate::{self, ValueSources};
use crate::query::json::{self, Json, JsonView};
use crate::query::json_order::{self, to_text};
use crate::query::names::NameSet;
use crate::query::physical_plan::{ReturnSlot, ReturnSlotView, MAX_GQL_DISTINCT_KEYS};
use crate::query::rows::{GqlNodeCoordinate, GqlPathRelationship, GqlRow, RowView};
use crate::query::slots::{self, Projector, ShapeView};
use crate::safety::{GraphError, GraphErrorView, GraphResult};
use crate::text::{self, concat3, decimal_text};
use crate::views;

verus! {

// ---------------------------------------------------------------------------
// Copies
// ---------------------------------------------------------------------------

fn duplicate_nodes(nodes: &Vec<GqlNodeCoordinate>) -> (copies: Vec<GqlNodeCoordinate>)
    ensures
        views::views(copies@) == views::views(nodes@),
{
    let mut copies: Vec<GqlNodeCoordinate> = Vec::new();
    for i in 0..nodes.len()
        invariant
            copies@.len() == i,
            forall|j: int| 0 <= j < i ==> (#[trigger] copies@[j])@ == nodes@[j]@,
    {
        copies.push(nodes[i].duplicate());
    }
    assert(views::views(copies@) =~= views::views(nodes@));
    copies
}

fn duplicate_relationships(relationships: &Vec<GqlPathRelationship>) -> (copies: Vec<
    GqlPathRelationship,
>)
    ensures
        views::views(copies@) == views::views(relationships@),
{
    let mut copies: Vec<GqlPathRelationship> = Vec::new();
    for i in 0..relationships.len()
        invariant
            copies@.len() == i,
            forall|j: int| 0 <= j < i ==> (#[trigger] copies@[j])@ == relationships@[j]@,
    {
        let relationship: &GqlPathRelationship = &relationships[i];
        copies.push(
            GqlPathRelationship {
                rel_type: relationship.rel_type.clone(),
                start: relationship.start.duplicate(),
                end: relationship.end.duplicate(),
            },
        );
    }
    assert(views::views(copies@) =~= views::views(relationships@));
    copies
}

fn duplicate_node(node: &Option<GqlNodeCoordinate>) -> (copy: Option<GqlNodeCoordinate>)
    ensures
        views::some_view(copy) == views::some_view(*node),
{
    match node {
        Some(node) => Some(node.duplicate()),
        None => None,
    }
}

impl GqlRow {
    /// A copy of the row.
    pub fn duplicate(&self) -> (copy: GqlRow)
        ensures
            copy@ == self@,
    {
        GqlRow {
            source: self.source.duplicate(),
            target: duplicate_node(&self.target),
            rel_start: duplicate_node(&self.rel_start),
            rel_end: duplicate_node(&self.rel_end),
            path_nodes: duplicate_nodes(&self.path_nodes),
            path_relationships: duplicate_relationships(&self.path_relationships),
        }
    }
}

// ---------------------------------------------------------------------------
// Filter
// ---------------------------------------------------------------------------

/// The row of a source without a match.
pub open spec fn missing_row(row: RowView) -> RowView {
    RowView {
        source: row.source,
        target: None,
        rel_start: None,
        rel_end: None,
        path_nodes: Seq::empty(),
        path_relationships: Seq::empty(),
    }
}

/// Whether a row passes the predicate of a read. A source without a match passes.
pub open spec fn row_passes(shape: ShapeView, sources: ValueSources, row: RowView) -> Result<
    bool,
    GraphErrorView,
> {
    if shape.optional && row.target is None {
        Ok(true)
    } else {
        match shape.predicate {
            None => Ok(true),
            Some(predicate) => evaluate::predicate_holds(sources, row, predicate),
        }
    }
}

/// Whether row `at` follows a row of the same source.
pub open spec fn continues(rows: Seq<RowView>, at: int) -> bool {
    at > 0 && at < rows.len() && rows[at - 1].source == rows[at].source
}

/// The rows from `from` on that pass, after those done. Where a read is optional, a
/// source of which no row passes keeps one row without a match; `kept` tells
/// whether a row of the source before `from` has been kept.
pub open spec fn filtered_from(
    shape: ShapeView,
    sources: ValueSources,
    rows: Seq<RowView>,
    from: int,
    kept: bool,
    done: Seq<RowView>,
) -> Result<Seq<RowView>, GraphErrorView>
    decreases rows.len() - from,
{
    if from >= rows.len() {
        Ok(done)
    } else {
        match row_passes(shape, sources, rows[from]) {
            Err(error) => Err(error),
            Ok(passes) => {
                let now_kept = passes || (kept && continues(rows, from));
                let more = if passes {
                    done.push(rows[from])
                } else if shape.optional && !now_kept && !continues(rows, from + 1) {
                    done.push(missing_row(rows[from]))
                } else {
                    done
                };
                filtered_from(shape, sources, rows, from + 1, now_kept, more)
            },
        }
    }
}

/// The rows that pass the predicate of a read.
pub open spec fn filtered(shape: ShapeView, sources: ValueSources, rows: Seq<RowView>) -> Result<
    Seq<RowView>,
    GraphErrorView,
> {
    filtered_from(shape, sources, rows, 0, false, Seq::empty())
}

/// The error of too many keys to deduplicate by.
pub open spec fn distinct_cap_exceeded() -> GraphErrorView {
    GraphErrorView::GqlExecution {
        reason: "GQL DISTINCT key cap exceeded ("@ + text::decimal(MAX_GQL_DISTINCT_KEYS as nat)
            + ")"@,
    }
}

/// What tells rows of values apart: their text.
pub open spec fn key_text(values: Seq<JsonView>) -> Seq<char> {
    json_order::json_text(JsonView::Array(values))
}

/// The rows from `from` on whose slots have values that no earlier row has, after
/// those done.
pub open spec fn stage_from(
    shape: ShapeView,
    sources: ValueSources,
    slots: Seq<ReturnSlotView>,
    rows: Seq<RowView>,
    from: int,
    seen: Set<Seq<char>>,
    done: Seq<RowView>,
) -> Result<Seq<RowView>, GraphErrorView>
    decreases rows.len() - from,
{
    if from >= rows.len() {
        Ok(done)
    } else {
        match slots::row_values(shape, sources, rows[from], slots, false) {
            Err(error) => Err(error),
            Ok(values) => {
                let key = key_text(values);
                if seen.contains(key) {
                    stage_from(shape, sources, slots, rows, from + 1, seen, done)
                } else if done.len() >= MAX_GQL_DISTINCT_KEYS {
                    Err(distinct_cap_exceeded())
                } else {
                    stage_from(
                        shape,
                        sources,
                        slots,
                        rows,
                        from + 1,
                        seen.insert(key),
                        done.push(rows[from]),
                    )
                }
            },
        }
    }
}

/// The rows after the deduplication stages from `from` on.
pub open spec fn stages_from(
    shape: ShapeView,
    sources: ValueSources,
    rows: Seq<RowView>,
    from: int,
) -> Result<Seq<RowView>, GraphErrorView>
    decreases shape.distinct_stages.len() - from,
{
    if from >= shape.distinct_stages.len() {
        Ok(rows)
    } else {
        match stage_from(
            shape,
            sources,
            shape.distinct_stages[from],
            rows,
            0,
            Set::empty(),
            Seq::empty(),
        ) {
            Ok(fewer) => stages_from(shape, sources, fewer, from + 1),
            Err(error) => Err(error),
        }
    }
}

// ---------------------------------------------------------------------------
// Execution
// ---------------------------------------------------------------------------

/// The error of too many keys to deduplicate by.
pub fn distinct_cap_error() -> (error: GraphError)
    ensures
        error@ == distinct_cap_exceeded(),
{
    GraphError::GqlExecution {
        reason: concat3(
            "GQL DISTINCT key cap exceeded (",
            decimal_text(MAX_GQL_DISTINCT_KEYS as u64).as_str(),
            ")",
        ),
    }
}

/// What tells rows of values apart: their text.
pub fn text_key(values: Vec<Json>) -> (key: String)
    ensures
        key@ == key_text(views::views(values@)),
{
    proof {
        json::lemma_array_view(values);
    }
    to_text(&Json::Array(values))
}

fn same_source(a: &GqlRow, b: &GqlRow) -> (same: bool)
    ensures
        same == (a@.source == b@.source),
{
    proof {
        if a.source.table_oid == b.source.table_oid && a.source.node_id@ == b.source.node_id@ {
            assert(a@.source =~= b@.source);
        }
    }
    a.source.table_oid == b.source.table_oid && text::same_text(
        a.source.node_id.as_str(),
        b.source.node_id.as_str(),
    )
}

fn follows_source(rows: &Vec<GqlRow>, at: usize) -> (found: bool)
    ensures
        found == continues(views::views(rows@), at as int),
{
    if at > 0 && at < rows.len() {
        let ghost all = views::views(rows@);
        assert(all[at as int] == rows@[at as int]@);
        assert(all[at - 1] == rows@[at - 1]@);
        same_source(&rows[at - 1], &rows[at])
    } else {
        false
    }
}

impl<'a> Projector<'a> {
    fn passes(&self, row: &GqlRow) -> (result: GraphResult<bool>)
        requires
            self.wf(),
        ensures
            match row_passes(self.shape@, self.sources(), row@) {
                Ok(passes) => result == Ok::<bool, GraphError>(passes),
                Err(error) => result matches Err(given) && given@ == error,
            },
    {
        if self.shape.optional && row.target.is_none() {
            return Ok(true);
        }
        match self.shape.predicate {
            None => Ok(true),
            Some(predicate) => self.reader.eval_predicate(predicate, row),
        }
    }

    /// The rows that pass the predicate.
    pub fn filter(&self, rows: &Vec<GqlRow>) -> (result: GraphResult<Vec<GqlRow>>)
        requires
            self.wf(),
        ensures
            match filtered(self.shape@, self.sources(), views::views(rows@)) {
                Ok(found) => result matches Ok(given) && views::views(given@) == found,
                Err(error) => result matches Err(given) && given@ == error,
            },
    {
        let ghost all = views::views(rows@);
        let mut found: Vec<GqlRow> = Vec::new();
        let mut kept: bool = false;
        assert(views::views(found@) =~= Seq::empty());
        for i in 0..rows.len()
            invariant
                self.wf(),
                all == views::views(rows@),
                filtered_from(
                    self.shape@,
                    self.sources(),
                    all,
                    i as int,
                    kept,
                    views::views(found@),
                ) == filtered(self.shape@, self.sources(), all),
        {
            let row: &GqlRow = &rows[i];
            assert(all[i as int] == row@);
            let ghost earlier = found@;
            let passes: bool = self.passes(row)?;
            let was_kept: bool = kept && follows_source(rows, i);
            kept = passes || was_kept;
            if passes {
                let copy: GqlRow = row.duplicate();
                found.push(copy);
                proof {
                    views::lemma_push(earlier, copy);
                }
            } else if self.shape.optional && !kept && !follows_source(rows, i + 1) {
                let missing: GqlRow = GqlRow {
                    source: row.source.duplicate(),
                    target: None,
                    rel_start: None,
                    rel_end: None,
                    path_nodes: Vec::new(),
                    path_relationships: Vec::new(),
                };
                found.push(missing);
                proof {
                    views::lemma_push(earlier, missing);
                    assert(missing@ =~= missing_row(row@));
                }
            }
        }
        Ok(found)
    }

    fn stage(&self, slots: &Vec<ReturnSlot>, rows: &Vec<GqlRow>) -> (result: GraphResult<Vec<GqlRow>>)
        requires
            self.wf(),
        ensures
            match stage_from(
                self.shape@,
                self.sources(),
                views::views(slots@),
                views::views(rows@),
                0,
                Set::empty(),
                Seq::empty(),
            ) {
                Ok(found) => result matches Ok(given) && views::views(given@) == found,
                Err(error) => result matches Err(given) && given@ == error,
            },
    {
        let ghost all = views::views(rows@);
        let ghost keys = views::views(slots@);
        let mut found: Vec<GqlRow> = Vec::new();
        let mut seen: NameSet = NameSet::new();
        proof {
            assert(views::views(found@) =~= Seq::empty());
            assert(seen@.to_set() =~= Set::<Seq<char>>::empty());
        }
        for i in 0..rows.len()
            invariant
                self.wf(),
                seen.wf(),
                all == views::views(rows@),
                keys == views::views(slots@),
                stage_from(
                    self.shape@,
                    self.sources(),
                    keys,
                    all,
                    i as int,
                    seen@.to_set(),
                    views::views(found@),
                ) == stage_from(
                    self.shape@,
                    self.sources(),
                    keys,
                    all,
                    0,
                    Set::empty(),
                    Seq::empty(),
                ),
        {
            let row: &GqlRow = &rows[i];
            assert(all[i as int] == row@);
            let ghost earlier = found@;
            let values: Vec<Json> = self.values_of_row(row, slots, false)?;
            let key: String = text_key(values);
            proof {
                if seen@.contains(key@) {
                    assert(seen@.to_set() =~= seen@.to_set().insert(key@));
                }
            }
            if seen.insert(key.as_str()) {
                if found.len() >= MAX_GQL_DISTINCT_KEYS {
                    return Err(distinct_cap_error());
                }
                let copy: GqlRow = row.duplicate();
                found.push(copy);
                proof {
                    views::lemma_push(earlier, copy);
                }
            }
        }
        Ok(found)
    }

    /// The rows after the deduplication stages.
    pub fn deduplicate(&self, rows: Vec<GqlRow>) -> (result: GraphResult<Vec<GqlRow>>)
        requires
            self.wf(),
        ensures
            match stages_from(self.shape@, self.sources(), views::views(rows@), 0) {
                Ok(found) => result matches Ok(given) && views::views(given@) == found,
                Err(error) => result matches Err(given) && given@ == error,
            },
    {
        let mut found: Vec<GqlRow> = rows;
        let ghost start = views::views(found@);
        for i in 0..self.shape.distinct_stages.len()
            invariant
                self.wf(),
                start == views::views(rows@),
                stages_from(self.shape@, self.sources(), views::views(found@), i as int)
                    == stages_from(self.shape@, self.sources(), start, 0),
        {
            assert(self.shape@.distinct_stages[i as int] == views::views(
                self.shape.distinct_stages@[i as int]@,
            ));
            found = self.stage(&self.shape.distinct_stages[i], &found)?;
        }
        Ok(found)
    }
}

// ---------------------------------------------------------------------------
// Laws
// ---------------------------------------------------------------------------

proof fn lemma_filtered_has(
    shape: ShapeView,
    sources: ValueSources,
    rows: Seq<RowView>,
    from: int,
    kept: bool,
    done: Seq<RowView>,
    row: RowView,
)
    requires
        0 <= from,
        done.contains(row),
        filtered_from(shape, sources, rows, from, kept, done) is Ok,
    ensures
        filtered_from(shape, sources, rows, from, kept, done)->Ok_0.contains(row),
    decreases rows.len() - from,
{
    if from < rows.len() {
        let passes = row_passes(shape, sources, rows[from])->Ok_0;
        let now_kept = passes || (kept && continues(rows, from));
        let more = if passes {
            done.push(rows[from])
        } else if shape.optional && !now_kept && !continues(rows, from + 1) {
            done.push(missing_row(rows[from]))
        } else {
            done
        };
        let i = choose|i: int| 0 <= i < done.len() && done[i] == row;
        assert(more[i] == row);
        lemma_filtered_has(shape, sources, rows, from + 1, now_kept, more, row);
    }
}

/// Whether rows hold one of a source.
pub open spec fn has_source(rows: Seq<RowView>, row: RowView) -> bool {
    exists|i: int| 0 <= i < rows.len() && (#[trigger] rows[i]).source == row.source
}

proof fn lemma_sources_kept(
    shape: ShapeView,
    sources: ValueSources,
    rows: Seq<RowView>,
    from: int,
    kept: bool,
    done: Seq<RowView>,
    at: int,
)
    requires
        shape.optional,
        0 <= from <= at < rows.len(),
        filtered_from(shape, sources, rows, from, kept, done) is Ok,
        kept && continues(rows, from) ==> has_source(done, rows[from]),
    ensures
        has_source(filtered_from(shape, sources, rows, from, kept, done)->Ok_0, rows[at]),
    decreases rows.len() - from,
{
    let passes = row_passes(shape, sources, rows[from])->Ok_0;
    let now_kept = passes || (kept && continues(rows, from));
    let extends = !passes && !now_kept && !continues(rows, from + 1);
    let more = if passes {
        done.push(rows[from])
    } else if extends {
        done.push(missing_row(rows[from]))
    } else {
        done
    };
    if passes || extends {
        assert(more[done.len() as int].source == rows[from].source);
        assert(has_source(more, rows[from]));
    } else if now_kept {
        assert(has_source(more, rows[from]));
    }
    if has_source(more, rows[from]) {
        let i = choose|i: int| 0 <= i < more.len() && (#[trigger] more[i]).source == rows[from].source;
        if continues(rows, from + 1) {
            assert(more[i].source == rows[from + 1].source);
        }
        if from == at {
            assert(more.contains(more[i]));
            lemma_filtered_has(shape, sources, rows, from + 1, now_kept, more, more[i]);
            let all = filtered_from(shape, sources, rows, from, kept, done)->Ok_0;
            let j = choose|j: int| 0 <= j < all.len() && all[j] == more[i];
            assert(all[j].source == rows[at].source);
        } else {
            lemma_sources_kept(shape, sources, rows, from + 1, now_kept, more, at);
        }
    } else {
        assert(continues(rows, from + 1));
        if from == at {
            lemma_sources_kept(shape, sources, rows, from + 1, now_kept, more, at + 1);
        } else {
            lemma_sources_kept(shape, sources, rows, from + 1, now_kept, more, at);
        }
    }
}

/// Filtering an optional read loses no source: each source of the rows still has a
/// row, at least one without a match.
pub proof fn lemma_optional_filter_keeps_sources(
    shape: ShapeView,
    sources: ValueSources,
    rows: Seq<RowView>,
    at: int,
)
    requires
        shape.optional,
        filtered(shape, sources, rows) is Ok,
        0 <= at < rows.len(),
    ensures
        has_source(filtered(shape, sources, rows)->Ok_0, rows[at]),
{
    lemma_sources_kept(shape, sources, rows, 0, false, Seq::empty(), at);
}

proof fn lemma_filtered_passes(
    shape: ShapeView,
    sources: ValueSources,
    rows: Seq<RowView>,
    from: int,
    kept: bool,
    done: Seq<RowView>,
)
    requires
        0 <= from,
        filtered_from(shape, sources, rows, from, kept, done) is Ok,
        forall|i: int|
            0 <= i < done.len() ==> row_passes(shape, sources, #[trigger] done[i]) == Ok::<
                bool,
                GraphErrorView,
            >(true),
    ensures
        forall|i: int|
            0 <= i < filtered_from(shape, sources, rows, from, kept, done)->Ok_0.len()
                ==> row_passes(
                shape,
                sources,
                #[trigger] filtered_from(shape, sources, rows, from, kept, done)->Ok_0[i],
            ) == Ok::<bool, GraphErrorView>(true),
    decreases rows.len() - from,
{
    if from < rows.len() {
        let passes = row_passes(shape, sources, rows[from])->Ok_0;
        let now_kept = passes || (kept && continues(rows, from));
        let more = if passes {
            done.push(rows[from])
        } else if shape.optional && !now_kept && !continues(rows, from + 1) {
            done.push(missing_row(rows[from]))
        } else {
            done
        };
        assert forall|i: int| 0 <= i < more.len() implies row_passes(
            shape,
            sources,
            #[trigger] more[i],
        ) == Ok::<bool, GraphErrorView>(true) by {
            if i < done.len() {
                assert(more[i] == done[i]);
            }
        }
        lemma_filtered_passes(shape, sources, rows, from + 1, now_kept, more);
    }
}

/// Every row that a filter keeps passes the predicate, or is that of a source
/// without a match of an optional read.
pub proof fn lemma_filter_keeps_matches(
    shape: ShapeView,
    sources: ValueSources,
    rows: Seq<RowView>,
    at: int,
)
    requires
        filtered(shape, sources, rows) is Ok,
        0 <= at < filtered(shape, sources, rows)->Ok_0.len(),
    ensures
        row_passes(shape, sources, filtered(shape, sources, rows)->Ok_0[at]) == Ok::<
            bool,
            GraphErrorView,
        >(true),
{
    lemma_filtered_passes(shape, sources, rows, 0, false, Seq::empty());
}

} // verus!
