//! Groups of result rows and their aggregates.
use vstd::prelude::*;

use crate::query::evaluate::{self, ValueSources};
use crate::query::filter::{self, distinct_cap_error, text_key};
use crate::query::json::{self, duplicate_json, Json, JsonNumber, JsonView, NumberView};
use crate::query::json_order::{self, to_text, total_json_order, JsonOrder};
use crate::query::logical_plan::{AggregateArg, AggregateArgView, AggregateFunc};
use crate::query::names::NameSet;
use crate::query::physical_plan::{ReturnSlot, ReturnSlotView, MAX_GQL_DISTINCT_KEYS};
use crate::query::rows::{GqlRow, RowView};
use crate::query::slots::{self, Projector, ShapeView};
use crate::safety::{self, GraphErrorView, GraphResult};
use crate::text::same_text;
use crate::views;

verus! {

// ---------------------------------------------------------------------------
// Groups
// ---------------------------------------------------------------------------

/// The rows that have the same values of the slots that are not aggregates.
pub struct Group {
    pub key: String,
    pub rows: Vec<GqlRow>,
}

/// What a group holds.
#[verifier::ext_equal]
pub struct GroupView {
    pub key: Seq<char>,
    pub rows: Seq<RowView>,
}

impl View for Group {
    type V = GroupView;

    open spec fn view(&self) -> GroupView {
        GroupView { key: self.key@, rows: views::views(self.rows@) }
    }
}

/// Whether a read returns an aggregate.
pub open spec fn aggregates(slots: Seq<ReturnSlotView>) -> bool {
    exists|i: int| 0 <= i < slots.len() && (#[trigger] slots[i]) is Aggregate
}

/// Whether all slots of a read are aggregates.
pub open spec fn only_aggregates(slots: Seq<ReturnSlotView>) -> bool {
    forall|i: int| 0 <= i < slots.len() ==> (#[trigger] slots[i]) is Aggregate
}

/// The first group from `from` on with a key.
pub open spec fn group_from(groups: Seq<GroupView>, key: Seq<char>, from: int) -> Option<int>
    decreases groups.len() - from,
{
    if from >= groups.len() {
        None
    } else if groups[from].key == key {
        Some(from)
    } else {
        group_from(groups, key, from + 1)
    }
}

/// The groups with a row added to the group of its key.
pub open spec fn with_row(groups: Seq<GroupView>, key: Seq<char>, row: RowView) -> Seq<GroupView> {
    match group_from(groups, key, 0) {
        Some(at) => groups.update(at, GroupView { key, rows: groups[at].rows.push(row) }),
        None => groups.push(GroupView { key, rows: seq![row] }),
    }
}

/// The groups after the rows from `from` on.
pub open spec fn grouped_from(
    shape: ShapeView,
    sources: ValueSources,
    rows: Seq<RowView>,
    from: int,
    groups: Seq<GroupView>,
) -> Result<Seq<GroupView>, GraphErrorView>
    decreases rows.len() - from,
{
    if from >= rows.len() {
        Ok(groups)
    } else {
        match slots::row_values(shape, sources, rows[from], shape.slots, false) {
            Err(error) => Err(error),
            Ok(values) => grouped_from(
                shape,
                sources,
                rows,
                from + 1,
                with_row(groups, filter::key_text(values), rows[from]),
            ),
        }
    }
}

/// The groups before any row: where all slots are aggregates, the one group of all
/// rows.
pub open spec fn first_groups(slots: Seq<ReturnSlotView>) -> Seq<GroupView> {
    if only_aggregates(slots) {
        seq![
            GroupView {
                key: filter::key_text(Seq::new(slots.len(), |i: int| JsonView::Null)),
                rows: Seq::empty(),
            },
        ]
    } else {
        Seq::empty()
    }
}

/// The groups of rows, in the order in which their first rows come.
pub open spec fn grouped(shape: ShapeView, sources: ValueSources, rows: Seq<RowView>) -> Result<
    Seq<GroupView>,
    GraphErrorView,
> {
    grouped_from(shape, sources, rows, 0, first_groups(shape.slots))
}

// ---------------------------------------------------------------------------
// Aggregates
// ---------------------------------------------------------------------------

/// The value that a row adds to an aggregate.
pub open spec fn arg_value(
    shape: ShapeView,
    sources: ValueSources,
    row: RowView,
    arg: AggregateArgView,
    hydrate: bool,
) -> Result<JsonView, GraphErrorView> {
    match arg {
        AggregateArgView::All => Ok(JsonView::Bool(true)),
        AggregateArgView::Node(side) => slots::slot_value(
            shape,
            sources,
            row,
            ReturnSlotView::Node { side, name: ""@ },
            hydrate,
        ),
        AggregateArgView::Relationship => slots::slot_value(
            shape,
            sources,
            row,
            ReturnSlotView::Relationship { name: ""@ },
            hydrate,
        ),
        AggregateArgView::Property { side, property } => slots::slot_value(
            shape,
            sources,
            row,
            ReturnSlotView::Property { side, property, name: ""@ },
            hydrate,
        ),
    }
}

/// The values that the rows from `from` on add to an aggregate, after those done.
/// Null adds nothing.
pub open spec fn inputs_from(
    shape: ShapeView,
    sources: ValueSources,
    rows: Seq<RowView>,
    arg: AggregateArgView,
    hydrate: bool,
    from: int,
    done: Seq<JsonView>,
) -> Result<Seq<JsonView>, GraphErrorView>
    decreases rows.len() - from,
{
    if from >= rows.len() {
        Ok(done)
    } else {
        match arg_value(shape, sources, rows[from], arg, hydrate) {
            Err(error) => Err(error),
            Ok(value) => inputs_from(
                shape,
                sources,
                rows,
                arg,
                hydrate,
                from + 1,
                if value is Null {
                    done
                } else {
                    done.push(value)
                },
            ),
        }
    }
}

/// The values from `from` on that no earlier value equals in text, after those
/// done.
pub open spec fn unique_from(
    values: Seq<JsonView>,
    from: int,
    seen: Set<Seq<char>>,
    done: Seq<JsonView>,
) -> Result<Seq<JsonView>, GraphErrorView>
    decreases values.len() - from,
{
    if from >= values.len() {
        Ok(done)
    } else {
        let key = json_order::json_text(values[from]);
        if seen.contains(key) {
            unique_from(values, from + 1, seen, done)
        } else if done.len() >= MAX_GQL_DISTINCT_KEYS {
            Err(filter::distinct_cap_exceeded())
        } else {
            unique_from(values, from + 1, seen.insert(key), done.push(values[from]))
        }
    }
}

/// The values that rows add to an aggregate.
pub open spec fn inputs(
    shape: ShapeView,
    sources: ValueSources,
    rows: Seq<RowView>,
    func: AggregateFunc,
    arg: AggregateArgView,
    distinct: bool,
    hydrate: bool,
) -> Result<Seq<JsonView>, GraphErrorView> {
    match inputs_from(
        shape,
        sources,
        rows,
        arg,
        hydrate && func is Collect,
        0,
        Seq::empty(),
    ) {
        Err(error) => Err(error),
        Ok(values) => if distinct {
            unique_from(values, 0, Set::empty(), Seq::empty())
        } else {
            Ok(values)
        },
    }
}

/// The first least value, or the first greatest, of `best` and the values from
/// `from` on.
pub open spec fn extreme_from(
    values: Seq<JsonView>,
    from: int,
    best: JsonView,
    greatest: bool,
) -> JsonView
    decreases values.len() - from,
{
    if from >= values.len() {
        best
    } else {
        let order = json_order::total_order(values[from], best);
        let better = if greatest {
            order is Greater
        } else {
            order is Less
        };
        extreme_from(
            values,
            from + 1,
            if better {
                values[from]
            } else {
                best
            },
            greatest,
        )
    }
}

/// Whether an aggregate is a sum or a mean, which are floating-point numbers.
pub open spec fn is_sum(func: AggregateFunc) -> bool {
    func is Sum || func is Avg
}

/// The value of an aggregate. That of a sum or a mean is given; without inputs it
/// is null.
pub open spec fn aggregate_value(
    func: AggregateFunc,
    values: Seq<JsonView>,
    given: Option<JsonView>,
) -> JsonView {
    match func {
        AggregateFunc::Count => JsonView::Number(NumberView::Int(values.len() as int)),
        AggregateFunc::Collect => JsonView::Array(values),
        _ => if values.len() == 0 {
            JsonView::Null
        } else {
            match func {
                AggregateFunc::Min => extreme_from(values, 1, values[0], false),
                AggregateFunc::Max => extreme_from(values, 1, values[0], true),
                _ => evaluate::or_null(given),
            }
        },
    }
}

/// Item `at` of values, where there is one.
pub open spec fn item_at(values: Seq<JsonView>, at: nat) -> Option<JsonView> {
    if at < values.len() {
        Some(values[at as int])
    } else {
        None
    }
}

/// The values of the slots from `from` on for a group, after those done; the next
/// sum or mean is item `next` of `sums`.
pub open spec fn group_values_from(
    shape: ShapeView,
    sources: ValueSources,
    rows: Seq<RowView>,
    hydrate: bool,
    sums: Seq<JsonView>,
    from: int,
    next: nat,
    done: Seq<JsonView>,
) -> Result<(Seq<JsonView>, nat), GraphErrorView>
    decreases shape.slots.len() - from,
{
    if from >= shape.slots.len() {
        Ok((done, next))
    } else {
        match shape.slots[from] {
            ReturnSlotView::Aggregate { func, arg, distinct, .. } => match inputs(
                shape,
                sources,
                rows,
                func,
                arg,
                distinct,
                hydrate,
            ) {
                Err(error) => Err(error),
                Ok(values) => group_values_from(
                    shape,
                    sources,
                    rows,
                    hydrate,
                    sums,
                    from + 1,
                    if is_sum(func) {
                        next + 1
                    } else {
                        next
                    },
                    done.push(aggregate_value(func, values, item_at(sums, next))),
                ),
            },
            slot => if rows.len() == 0 {
                group_values_from(
                    shape,
                    sources,
                    rows,
                    hydrate,
                    sums,
                    from + 1,
                    next,
                    done.push(JsonView::Null),
                )
            } else {
                match slots::slot_value(shape, sources, rows[0], slot, hydrate) {
                    Err(error) => Err(error),
                    Ok(value) => group_values_from(
                        shape,
                        sources,
                        rows,
                        hydrate,
                        sums,
                        from + 1,
                        next,
                        done.push(value),
                    ),
                }
            },
        }
    }
}

/// The inputs of a sum or a mean.
pub struct SumInput {
    /// Whether the mean is wanted.
    pub average: bool,
    pub values: Vec<Json>,
}

/// What the inputs of a sum or a mean hold.
pub struct SumInputView {
    pub average: bool,
    pub values: Seq<JsonView>,
}

impl View for SumInput {
    type V = SumInputView;

    open spec fn view(&self) -> SumInputView {
        SumInputView { average: self.average, values: views::views(self.values@) }
    }
}

/// The inputs of the sums and means of the slots from `from` on for a group, after
/// those done.
pub open spec fn group_sums_from(
    shape: ShapeView,
    sources: ValueSources,
    rows: Seq<RowView>,
    hydrate: bool,
    from: int,
    done: Seq<SumInputView>,
) -> Result<Seq<SumInputView>, GraphErrorView>
    decreases shape.slots.len() - from,
{
    if from >= shape.slots.len() {
        Ok(done)
    } else {
        match shape.slots[from] {
            ReturnSlotView::Aggregate { func, arg, distinct, .. } => if is_sum(func) {
                match inputs(shape, sources, rows, func, arg, distinct, hydrate) {
                    Err(error) => Err(error),
                    Ok(values) => group_sums_from(
                        shape,
                        sources,
                        rows,
                        hydrate,
                        from + 1,
                        done.push(SumInputView { average: func is Avg, values }),
                    ),
                }
            } else {
                group_sums_from(shape, sources, rows, hydrate, from + 1, done)
            },
            _ => group_sums_from(shape, sources, rows, hydrate, from + 1, done),
        }
    }
}

/// The inputs of the sums and means of the groups from `from` on, after those done.
pub open spec fn sums_from(
    shape: ShapeView,
    sources: ValueSources,
    groups: Seq<GroupView>,
    hydrate: bool,
    from: int,
    done: Seq<SumInputView>,
) -> Result<Seq<SumInputView>, GraphErrorView>
    decreases groups.len() - from,
{
    if from >= groups.len() {
        Ok(done)
    } else {
        match group_sums_from(shape, sources, groups[from].rows, hydrate, 0, done) {
            Err(error) => Err(error),
            Ok(more) => sums_from(shape, sources, groups, hydrate, from + 1, more),
        }
    }
}

// ---------------------------------------------------------------------------
// Execution
// ---------------------------------------------------------------------------

/// Whether a read returns an aggregate.
pub fn returns_aggregates(slots: &Vec<ReturnSlot>) -> (found: bool)
    ensures
        found == aggregates(views::views(slots@)),
{
    let ghost all = views::views(slots@);
    for i in 0..slots.len()
        invariant
            all == views::views(slots@),
            forall|j: int| 0 <= j < i ==> !((#[trigger] all[j]) is Aggregate),
    {
        assert(all[i as int] == slots@[i as int]@);
        match &slots[i] {
            ReturnSlot::Aggregate { .. } => {
                assert(all[i as int] is Aggregate);
                return true;
            },
            _ => {},
        }
    }
    false
}

fn returns_only_aggregates(slots: &Vec<ReturnSlot>) -> (found: bool)
    ensures
        found == only_aggregates(views::views(slots@)),
{
    let ghost all = views::views(slots@);
    for i in 0..slots.len()
        invariant
            all == views::views(slots@),
            forall|j: int| 0 <= j < i ==> (#[trigger] all[j]) is Aggregate,
    {
        assert(all[i as int] == slots@[i as int]@);
        match &slots[i] {
            ReturnSlot::Aggregate { .. } => {},
            _ => {
                assert(!(all[i as int] is Aggregate));
                return false;
            },
        }
    }
    true
}

fn first_group(slots: &Vec<ReturnSlot>) -> (groups: Vec<Group>)
    ensures
        views::views(groups@) == first_groups(views::views(slots@)),
{
    let mut groups: Vec<Group> = Vec::new();
    if returns_only_aggregates(slots) {
        let mut nulls: Vec<Json> = Vec::new();
        for i in 0..slots.len()
            invariant
                nulls@.len() == i,
                forall|j: int| 0 <= j < i ==> (#[trigger] nulls@[j])@ == JsonView::Null,
        {
            nulls.push(Json::Null);
        }
        proof {
            assert(views::views(nulls@) =~= Seq::new(slots@.len(), |i: int| JsonView::Null));
        }
        let group: Group = Group { key: text_key(nulls), rows: Vec::new() };
        assert(group@.rows =~= Seq::empty());
        groups.push(group);
    }
    assert(views::views(groups@) =~= first_groups(views::views(slots@)));
    groups
}

fn find_group(groups: &Vec<Group>, key: &str) -> (at: Option<usize>)
    ensures
        match at {
            Some(at) => group_from(views::views(groups@), key@, 0) == Some(at as int) && at
                < groups@.len(),
            None => group_from(views::views(groups@), key@, 0) is None,
        },
{
    let ghost all = views::views(groups@);
    for i in 0..groups.len()
        invariant
            all == views::views(groups@),
            group_from(all, key@, i as int) == group_from(all, key@, 0),
    {
        assert(all[i as int] == groups@[i as int]@);
        if same_text(groups[i].key.as_str(), key) {
            return Some(i);
        }
    }
    None
}

fn add_row(groups: &mut Vec<Group>, key: String, row: &GqlRow)
    ensures
        views::views(final(groups)@) == with_row(views::views(old(groups)@), key@, row@),
{
    let ghost before = views::views(groups@);
    proof {
        lemma_group_from(before, key@, 0);
    }
    match find_group(groups, key.as_str()) {
        Some(at) => {
            let mut group: Group = Group { key, rows: Vec::new() };
            std::mem::swap(&mut group.rows, &mut groups[at].rows);
            let ghost earlier = group.rows@;
            let copy: GqlRow = row.duplicate();
            group.rows.push(copy);
            proof {
                views::lemma_push(earlier, copy);
            }
            groups.set(at, group);
            assert(views::views(groups@) =~= before.update(at as int, group@));
        },
        None => {
            let mut rows: Vec<GqlRow> = Vec::new();
            rows.push(row.duplicate());
            let group: Group = Group { key, rows };
            assert(group@.rows =~= seq![row@]);
            let ghost earlier = groups@;
            groups.push(group);
            proof {
                views::lemma_push(earlier, group);
            }
        },
    }
}

/// A group that is found has the key.
pub proof fn lemma_group_from(groups: Seq<GroupView>, key: Seq<char>, from: int)
    requires
        0 <= from,
    ensures
        group_from(groups, key, from) matches Some(at) ==> from <= at < groups.len()
            && groups[at].key == key,
    decreases groups.len() - from,
{
    if from < groups.len() && groups[from].key != key {
        lemma_group_from(groups, key, from + 1);
    }
}

fn unique_values(values: Vec<Json>) -> (result: GraphResult<Vec<Json>>)
    ensures
        match unique_from(views::views(values@), 0, Set::empty(), Seq::empty()) {
            Ok(found) => result matches Ok(given) && views::views(given@) == found,
            Err(error) => result matches Err(given) && given@ == error,
        },
{
    let ghost all = views::views(values@);
    let mut found: Vec<Json> = Vec::new();
    let mut seen: NameSet = NameSet::new();
    proof {
        assert(views::views(found@) =~= Seq::empty());
        assert(seen@.to_set() =~= Set::<Seq<char>>::empty());
    }
    for i in 0..values.len()
        invariant
            seen.wf(),
            all == views::views(values@),
            unique_from(all, i as int, seen@.to_set(), views::views(found@)) == unique_from(
                all,
                0,
                Set::empty(),
                Seq::empty(),
            ),
    {
        assert(all[i as int] == values@[i as int]@);
        let ghost earlier = found@;
        let key: String = to_text(&values[i]);
        proof {
            if seen@.contains(key@) {
                assert(seen@.to_set() =~= seen@.to_set().insert(key@));
            }
        }
        if seen.insert(key.as_str()) {
            if found.len() >= MAX_GQL_DISTINCT_KEYS {
                return Err(distinct_cap_error());
            }
            let copy: Json = duplicate_json(&values[i]);
            found.push(copy);
            proof {
                views::lemma_push(earlier, copy);
            }
        }
    }
    Ok(found)
}

fn extreme(values: &Vec<Json>, greatest: bool) -> (found: Json)
    requires
        values@.len() > 0,
    ensures
        found@ == extreme_from(views::views(values@), 1, views::views(values@)[0], greatest),
{
    let ghost all = views::views(values@);
    let mut best: usize = 0;
    for i in 1..values.len()
        invariant
            best < values@.len(),
            all == views::views(values@),
            extreme_from(all, i as int, all[best as int], greatest) == extreme_from(
                all,
                1,
                all[0],
                greatest,
            ),
    {
        assert(all[i as int] == values@[i as int]@);
        assert(all[best as int] == values@[best as int]@);
        let order: JsonOrder = total_json_order(&values[i], &values[best]);
        let better: bool = if greatest {
            matches!(order, JsonOrder::Greater)
        } else {
            matches!(order, JsonOrder::Less)
        };
        if better {
            best = i;
        }
    }
    assert(all[best as int] == values@[best as int]@);
    duplicate_json(&values[best])
}

fn value_of_aggregate(func: AggregateFunc, values: Vec<Json>, given: Option<&Json>) -> (value: Json)
    ensures
        value@ == aggregate_value(
            func,
            views::views(values@),
            match given {
                Some(value) => Some(value@),
                None => None,
            },
        ),
{
    let ghost all = views::views(values@);
    match func {
        AggregateFunc::Count => Json::Number(JsonNumber::UInt(values.len() as u64)),
        AggregateFunc::Collect => {
            proof {
                json::lemma_array_view(values);
            }
            Json::Array(values)
        },
        _ => if values.len() == 0 {
            Json::Null
        } else {
            match func {
                AggregateFunc::Min => extreme(&values, false),
                AggregateFunc::Max => extreme(&values, true),
                _ => match given {
                    Some(value) => duplicate_json(value),
                    None => Json::Null,
                },
            }
        },
    }
}

fn func_is_sum(func: AggregateFunc) -> (found: bool)
    ensures
        found == is_sum(func),
{
    matches!(func, AggregateFunc::Sum) || matches!(func, AggregateFunc::Avg)
}

impl<'a> Projector<'a> {
    /// The groups of rows.
    pub fn group(&self, rows: &Vec<GqlRow>) -> (result: GraphResult<Vec<Group>>)
        requires
            self.wf(),
        ensures
            match grouped(self.shape@, self.sources(), views::views(rows@)) {
                Ok(found) => result matches Ok(given) && views::views(given@) == found,
                Err(error) => result matches Err(given) && given@ == error,
            },
    {
        let ghost all = views::views(rows@);
        let mut groups: Vec<Group> = first_group(self.shape.slots);
        for i in 0..rows.len()
            invariant
                self.wf(),
                all == views::views(rows@),
                grouped_from(
                    self.shape@,
                    self.sources(),
                    all,
                    i as int,
                    views::views(groups@),
                ) == grouped(self.shape@, self.sources(), all),
        {
            assert(all[i as int] == rows@[i as int]@);
            let values: Vec<Json> = self.values_of_row(&rows[i], self.shape.slots, false)?;
            add_row(&mut groups, text_key(values), &rows[i]);
        }
        Ok(groups)
    }

    fn value_of_arg(&self, row: &GqlRow, arg: &AggregateArg, hydrate: bool) -> (result: GraphResult<
        Json,
    >)
        requires
            self.wf(),
        ensures
            safety::outcome(result) == arg_value(
                self.shape@,
                self.sources(),
                row@,
                arg@,
                hydrate,
            ),
    {
        match arg {
            AggregateArg::All => Ok(Json::Bool(true)),
            AggregateArg::Node(side) => {
                let slot: ReturnSlot = ReturnSlot::Node {
                    side: *side,
                    name: crate::text::owned(""),
                };
                self.value_of_slot(row, &slot, hydrate)
            },
            AggregateArg::Relationship => {
                let slot: ReturnSlot = ReturnSlot::Relationship { name: crate::text::owned("") };
                self.value_of_slot(row, &slot, hydrate)
            },
            AggregateArg::Property { side, property } => {
                let slot: ReturnSlot = ReturnSlot::Property {
                    side: *side,
                    property: property.clone(),
                    name: crate::text::owned(""),
                };
                self.value_of_slot(row, &slot, hydrate)
            },
        }
    }

    fn aggregate_inputs(
        &self,
        rows: &Vec<GqlRow>,
        func: AggregateFunc,
        arg: &AggregateArg,
        distinct: bool,
    ) -> (result: GraphResult<Vec<Json>>)
        requires
            self.wf(),
        ensures
            match inputs(
                self.shape@,
                self.sources(),
                views::views(rows@),
                func,
                arg@,
                distinct,
                self.hydrate,
            ) {
                Ok(found) => result matches Ok(given) && views::views(given@) == found,
                Err(error) => result matches Err(given) && given@ == error,
            },
    {
        let ghost all = views::views(rows@);
        let hydrate: bool = self.hydrate && matches!(func, AggregateFunc::Collect);
        let mut values: Vec<Json> = Vec::new();
        assert(views::views(values@) =~= Seq::empty());
        for i in 0..rows.len()
            invariant
                self.wf(),
                all == views::views(rows@),
                hydrate == (self.hydrate && func is Collect),
                inputs_from(
                    self.shape@,
                    self.sources(),
                    all,
                    arg@,
                    hydrate,
                    i as int,
                    views::views(values@),
                ) == inputs_from(
                    self.shape@,
                    self.sources(),
                    all,
                    arg@,
                    hydrate,
                    0,
                    Seq::empty(),
                ),
        {
            assert(all[i as int] == rows@[i as int]@);
            let ghost earlier = values@;
            let value: Json = self.value_of_arg(&rows[i], arg, hydrate)?;
            let is_null: bool = match &value {
                Json::Null => true,
                _ => false,
            };
            if !is_null {
                values.push(value);
                proof {
                    views::lemma_push(earlier, value);
                }
            }
        }
        if distinct {
            unique_values(values)
        } else {
            Ok(values)
        }
    }

    /// The values of a group. Sums and means are taken from `sums`, from item
    /// `next` on.
    pub fn values_of_group(&self, rows: &Vec<GqlRow>, sums: &Vec<Json>, next: usize) -> (result:
        GraphResult<(Vec<Json>, usize)>)
        requires
            self.wf(),
            next + self.shape.slots@.len() <= usize::MAX,
        ensures
            match group_values_from(
                self.shape@,
                self.sources(),
                views::views(rows@),
                self.hydrate,
                views::views(sums@),
                0,
                next as nat,
                Seq::empty(),
            ) {
                Ok((values, later)) => result matches Ok(given) && views::views(given.0@) == values
                    && given.1 == later && given.1 <= next + self.shape.slots@.len(),
                Err(error) => result matches Err(given) && given@ == error,
            },
    {
        let ghost all = views::views(rows@);
        let ghost given = views::views(sums@);
        let mut values: Vec<Json> = Vec::new();
        let mut later: usize = next;
        assert(views::views(values@) =~= Seq::empty());
        for i in 0..self.shape.slots.len()
            invariant
                self.wf(),
                next + self.shape.slots@.len() <= usize::MAX,
                next <= later <= next + i,
                all == views::views(rows@),
                given == views::views(sums@),
                group_values_from(
                    self.shape@,
                    self.sources(),
                    all,
                    self.hydrate,
                    given,
                    i as int,
                    later as nat,
                    views::views(values@),
                ) == group_values_from(
                    self.shape@,
                    self.sources(),
                    all,
                    self.hydrate,
                    given,
                    0,
                    next as nat,
                    Seq::empty(),
                ),
        {
            let slot: &ReturnSlot = &self.shape.slots[i];
            assert(self.shape@.slots[i as int] == slot@);
            let ghost earlier = values@;
            let value: Json = match slot {
                ReturnSlot::Aggregate { func, arg, distinct, .. } => {
                    let found: Vec<Json> = self.aggregate_inputs(rows, *func, arg, *distinct)?;
                    let sum: Option<&Json> = if later < sums.len() {
                        assert(given[later as int] == sums@[later as int]@);
                        Some(&sums[later])
                    } else {
                        None
                    };
                    let value: Json = value_of_aggregate(*func, found, sum);
                    if func_is_sum(*func) {
                        later = later + 1;
                    }
                    value
                },
                _ => if rows.len() == 0 {
                    Json::Null
                } else {
                    assert(all[0] == rows@[0]@);
                    self.value_of_slot(&rows[0], slot, self.hydrate)?
                },
            };
            values.push(value);
            proof {
                views::lemma_push(earlier, value);
            }
        }
        Ok((values, later))
    }

    fn sums_of_group(&self, rows: &Vec<GqlRow>, found: &mut Vec<SumInput>) -> (result: GraphResult<
        (),
    >)
        requires
            self.wf(),
        ensures
            match group_sums_from(
                self.shape@,
                self.sources(),
                views::views(rows@),
                self.hydrate,
                0,
                views::views(old(found)@),
            ) {
                Ok(all) => result is Ok && views::views(final(found)@) == all,
                Err(error) => result matches Err(given) && given@ == error,
            },
    {
        let ghost all = views::views(rows@);
        for i in 0..self.shape.slots.len()
            invariant
                self.wf(),
                all == views::views(rows@),
                group_sums_from(
                    self.shape@,
                    self.sources(),
                    all,
                    self.hydrate,
                    i as int,
                    views::views(found@),
                ) == group_sums_from(
                    self.shape@,
                    self.sources(),
                    all,
                    self.hydrate,
                    0,
                    views::views(old(found)@),
                ),
        {
            let slot: &ReturnSlot = &self.shape.slots[i];
            assert(self.shape@.slots[i as int] == slot@);
            let ghost earlier = found@;
            match slot {
                ReturnSlot::Aggregate { func, arg, distinct, .. } => {
                    if func_is_sum(*func) {
                        let values: Vec<Json> = self.aggregate_inputs(rows, *func, arg, *distinct)?;
                        let input: SumInput = SumInput {
                            average: matches!(*func, AggregateFunc::Avg),
                            values,
                        };
                        found.push(input);
                        proof {
                            views::lemma_push(earlier, input);
                        }
                    }
                },
                _ => {},
            }
        }
        Ok(())
    }

    /// The inputs of the sums and means of groups.
    pub fn sums_of_groups(&self, groups: &Vec<Group>) -> (result: GraphResult<Vec<SumInput>>)
        requires
            self.wf(),
        ensures
            match sums_from(
                self.shape@,
                self.sources(),
                views::views(groups@),
                self.hydrate,
                0,
                Seq::empty(),
            ) {
                Ok(all) => result matches Ok(given) && views::views(given@) == all,
                Err(error) => result matches Err(given) && given@ == error,
            },
    {
        let ghost all = views::views(groups@);
        let mut found: Vec<SumInput> = Vec::new();
        assert(views::views(found@) =~= Seq::empty());
        for i in 0..groups.len()
            invariant
                self.wf(),
                all == views::views(groups@),
                sums_from(
                    self.shape@,
                    self.sources(),
                    all,
                    self.hydrate,
                    i as int,
                    views::views(found@),
                ) == sums_from(
                    self.shape@,
                    self.sources(),
                    all,
                    self.hydrate,
                    0,
                    Seq::empty(),
                ),
        {
            assert(all[i as int] == groups@[i as int]@);
            self.sums_of_group(&groups[i].rows, &mut found)?;
        }
        Ok(found)
    }
}

} // verus!
