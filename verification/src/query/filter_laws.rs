//! What comparisons, predicates and filters mean.
use vstd::prelude::*;

use crate::query::evaluate::{self, ValueSources};
use crate::query::filter;
use crate::query::hydrate;
use crate::query::json::{self, Json, JsonNumber, JsonView, NumberView};
use crate::query::json_order;
use crate::query::logical_plan::{BindingSide, BoundCmpOp, Predicate, Scalar, ValueExpr};
use crate::query::names;
use crate::query::physical_plan::{PhysicalNodeScan, PhysicalPlan};
use crate::query::rows::{CoordinateView, GqlRow, RowView};
use crate::query::slots;
use crate::safety::GraphErrorView;
use crate::types::{Binary64, Binary64View};
use crate::views;

verus! {

// ---------------------------------------------------------------------------
// Comparisons
// ---------------------------------------------------------------------------

/// Whether texts agree up to `k`, and there the first ends or has the lesser character.
pub open spec fn parts_at(a: Seq<char>, b: Seq<char>, k: int) -> bool {
    &&& 0 <= k <= a.len()
    &&& k < b.len()
    &&& forall|i: int| 0 <= i < k ==> #[trigger] a[i] == b[i]
    &&& k == a.len() || a[k] < b[k]
}

/// Whether a text stands before another in the dictionary.
pub open spec fn stands_before(a: Seq<char>, b: Seq<char>) -> bool {
    exists|k: int| #[trigger] parts_at(a, b, k)
}

proof fn lemma_stands_before(a: Seq<char>, b: Seq<char>)
    ensures
        names::name_before(a, b) <==> stands_before(a, b),
    decreases a.len(),
{
    if b.len() == 0 {
    } else if a.len() == 0 {
        assert(parts_at(a, b, 0));
    } else if a[0] != b[0] {
        if a[0] < b[0] {
            assert(parts_at(a, b, 0));
        }
        if stands_before(a, b) {
            let k = choose|k: int| #[trigger] parts_at(a, b, k);
            if k > 0 {
                assert(a[0] == b[0]);
            }
        }
    } else {
        let x = a.skip(1);
        let y = b.skip(1);
        lemma_stands_before(x, y);
        if stands_before(x, y) {
            let k = choose|k: int| #[trigger] parts_at(x, y, k);
            assert forall|i: int| 0 <= i < k + 1 implies #[trigger] a[i] == b[i] by {
                if i > 0 {
                    assert(x[i - 1] == y[i - 1]);
                }
            }
            if k < x.len() {
                assert(x[k] == a[k + 1] && y[k] == b[k + 1]);
            }
            assert(parts_at(a, b, k + 1));
        }
        if stands_before(a, b) {
            let k = choose|k: int| #[trigger] parts_at(a, b, k);
            assert(k > 0);
            assert forall|i: int| 0 <= i < k - 1 implies #[trigger] x[i] == y[i] by {
                assert(a[i + 1] == b[i + 1]);
            }
            if k < a.len() {
                assert(x[k - 1] == a[k] && y[k - 1] == b[k]);
            }
            assert(parts_at(x, y, k - 1));
        }
    }
}

/// The value of a signed integer.
pub open spec fn signed_value(n: i64) -> JsonView {
    Json::Number(JsonNumber::Int(n))@
}

/// Integers compare by their value, whichever way they are held.
pub proof fn lemma_integers_compare(a: JsonNumber, b: JsonNumber, x: int, y: int)
    requires
        a matches JsonNumber::Int(n) ==> n == x,
        a matches JsonNumber::UInt(n) ==> n == x,
        b matches JsonNumber::Int(n) ==> n == y,
        b matches JsonNumber::UInt(n) ==> n == y,
        !(a is Float),
        !(b is Float),
    ensures
        ({
            let l = Json::Number(a)@;
            let r = Json::Number(b)@;
            &&& evaluate::satisfies(l, BoundCmpOp::Eq, r) == Ok::<_, GraphErrorView>(x == y)
            &&& evaluate::satisfies(l, BoundCmpOp::Neq, r) == Ok::<_, GraphErrorView>(x != y)
            &&& evaluate::satisfies(l, BoundCmpOp::Lt, r) == Ok::<_, GraphErrorView>(x < y)
            &&& evaluate::satisfies(l, BoundCmpOp::Lte, r) == Ok::<_, GraphErrorView>(x <= y)
            &&& evaluate::satisfies(l, BoundCmpOp::Gt, r) == Ok::<_, GraphErrorView>(x > y)
            &&& evaluate::satisfies(l, BoundCmpOp::Gte, r) == Ok::<_, GraphErrorView>(x >= y)
        }),
{
}

/// Texts compare as they stand in the dictionary.
pub proof fn lemma_texts_compare(a: String, b: String)
    ensures
        ({
            let l = Json::Text(a)@;
            let r = Json::Text(b)@;
            &&& evaluate::satisfies(l, BoundCmpOp::Eq, r) == Ok::<_, GraphErrorView>(a@ == b@)
            &&& evaluate::satisfies(l, BoundCmpOp::Neq, r) == Ok::<_, GraphErrorView>(a@ != b@)
            &&& evaluate::satisfies(l, BoundCmpOp::Lt, r) == Ok::<_, GraphErrorView>(
                stands_before(a@, b@),
            )
            &&& evaluate::satisfies(l, BoundCmpOp::Lte, r) == Ok::<_, GraphErrorView>(
                stands_before(a@, b@) || a@ == b@,
            )
            &&& evaluate::satisfies(l, BoundCmpOp::Gt, r) == Ok::<_, GraphErrorView>(
                stands_before(b@, a@),
            )
            &&& evaluate::satisfies(l, BoundCmpOp::Gte, r) == Ok::<_, GraphErrorView>(
                stands_before(b@, a@) || a@ == b@,
            )
        }),
{
    lemma_stands_before(a@, b@);
    lemma_stands_before(b@, a@);
    names::lemma_names_compare(a@, b@);
}

/// Whether bits have the sign bit set.
pub open spec fn is_negative(bits: u64) -> bool {
    bits >= 0x8000_0000_0000_0000
}

/// The bits without the sign bit: the greater the number, the further from zero.
pub open spec fn magnitude(bits: u64) -> int {
    if is_negative(bits) {
        bits - 0x8000_0000_0000_0000
    } else {
        bits as int
    }
}

/// Whether bits are those of a number or an infinity.
pub open spec fn is_number(bits: u64) -> bool {
    magnitude(bits) <= 0x7ff0_0000_0000_0000
}

/// Whether one floating-point number is less than another: negative ones stand before
/// zero, those further from it first, and both zeros are the same.
pub open spec fn float_less(a: u64, b: u64) -> bool {
    if is_negative(a) && is_negative(b) {
        magnitude(a) > magnitude(b)
    } else if is_negative(a) {
        magnitude(a) > 0 || magnitude(b) > 0
    } else if is_negative(b) {
        false
    } else {
        magnitude(a) < magnitude(b)
    }
}

/// Floating-point numbers compare by their value; what is not a number equals nothing
/// and has no place among the others.
pub proof fn lemma_floats_compare(a: Binary64, b: Binary64)
    ensures
        ({
            let l = Json::Number(JsonNumber::Float(a))@;
            let r = Json::Number(JsonNumber::Float(b))@;
            let numbers = is_number(a.bits) && is_number(b.bits);
            let less = float_less(a.bits, b.bits);
            let greater = float_less(b.bits, a.bits);
            &&& evaluate::satisfies(l, BoundCmpOp::Eq, r) == Ok::<_, GraphErrorView>(
                numbers && !less && !greater,
            )
            &&& evaluate::satisfies(l, BoundCmpOp::Neq, r) == Ok::<_, GraphErrorView>(
                !numbers || less || greater,
            )
            &&& numbers ==> {
                &&& evaluate::satisfies(l, BoundCmpOp::Lt, r) == Ok::<_, GraphErrorView>(less)
                &&& evaluate::satisfies(l, BoundCmpOp::Lte, r) == Ok::<_, GraphErrorView>(!greater)
                &&& evaluate::satisfies(l, BoundCmpOp::Gt, r) == Ok::<_, GraphErrorView>(greater)
                &&& evaluate::satisfies(l, BoundCmpOp::Gte, r) == Ok::<_, GraphErrorView>(!less)
            }
            &&& !numbers ==> forall|op: BoundCmpOp|
                op is Lt || op is Lte || op is Gt || op is Gte ==> (#[trigger] evaluate::satisfies(
                    l,
                    op,
                    r,
                )) is Err
        }),
{
}

/// An integer compares with a floating-point number as its own floating-point value
/// does, and equals none.
pub proof fn lemma_integers_compare_with_floats(n: i64, f: Binary64, text: Seq<char>, op: BoundCmpOp)
    requires
        op is Lt || op is Lte || op is Gt || op is Gte,
    ensures
        ({
            let l = Json::Number(JsonNumber::Int(n))@;
            let r = Json::Number(JsonNumber::Float(f))@;
            let bits = json_order::float_of_integer(n as int);
            let wide = JsonView::Number(NumberView::Float(Binary64View { bits, text }));
            &&& evaluate::satisfies(l, op, r) == evaluate::satisfies(wide, op, r)
            &&& evaluate::satisfies(r, op, l) == evaluate::satisfies(r, op, wide)
            &&& evaluate::satisfies(l, BoundCmpOp::Eq, r) == Ok::<_, GraphErrorView>(false)
            &&& evaluate::satisfies(r, BoundCmpOp::Eq, l) == Ok::<_, GraphErrorView>(false)
        }),
{
}

/// Only two numbers and two texts have an order; all else is an error.
pub proof fn lemma_other_kinds_have_no_order(a: JsonView, b: JsonView, op: BoundCmpOp)
    requires
        op is Lt || op is Lte || op is Gt || op is Gte,
        !(a is Number && b is Number),
        !(a is Text && b is Text),
    ensures
        evaluate::satisfies(a, op, b) == Err::<bool, _>(
            GraphErrorView::GqlExecution {
                reason: "GQL ordered comparisons require both operands to be numbers or strings"@,
            },
        ),
{
}

/// Of two values that have an order, `<` and `>=` say opposite things, as `>` and `<=`
/// do; swapping the values swaps `<` and `>`; and `<>` is never what `=` is.
pub proof fn lemma_comparisons_fit_together(a: JsonView, b: JsonView)
    ensures
        evaluate::satisfies(a, BoundCmpOp::Eq, b) matches Ok(same) && evaluate::satisfies(
            a,
            BoundCmpOp::Neq,
            b,
        ) == Ok::<_, GraphErrorView>(!same),
        evaluate::satisfies(a, BoundCmpOp::Lt, b) matches Ok(less) ==> {
            &&& evaluate::satisfies(a, BoundCmpOp::Gte, b) == Ok::<_, GraphErrorView>(!less)
            &&& evaluate::satisfies(b, BoundCmpOp::Gt, a) == Ok::<_, GraphErrorView>(less)
            &&& evaluate::satisfies(b, BoundCmpOp::Lte, a) == Ok::<_, GraphErrorView>(!less)
        },
{
    if let (JsonView::Text(x), JsonView::Text(y)) = (a, b) {
        names::lemma_names_compare(x, y);
    }
}

/// Values of different kinds are never equal; truth values and nulls are equal to
/// themselves alone.
pub proof fn lemma_kinds_are_equal_to_their_own(a: JsonView, b: JsonView)
    requires
        evaluate::satisfies(a, BoundCmpOp::Eq, b) == Ok::<_, GraphErrorView>(true),
    ensures
        a is Null <==> b is Null,
        a is Bool <==> b is Bool,
        a is Number <==> b is Number,
        a is Text <==> b is Text,
        a is Array <==> b is Array,
        a is Object <==> b is Object,
        a matches JsonView::Bool(x) ==> b == JsonView::Bool(x),
        a matches JsonView::Text(x) ==> b == JsonView::Text(x),
        a matches JsonView::Array(x) ==> (b matches JsonView::Array(y) && x.len() == y.len()),
        a matches JsonView::Object(x) ==> (b matches JsonView::Object(y) && x.len() == y.len()),
{
}

/// Null equals null, and a truth value equals itself.
pub proof fn lemma_plain_values_equal_themselves(a: JsonView)
    requires
        a is Null || a is Bool || a is Text || a matches JsonView::Number(NumberView::Int(_)),
    ensures
        evaluate::satisfies(a, BoundCmpOp::Eq, a) == Ok::<_, GraphErrorView>(true),
{
}

/// Arrays are equal where their items are, place by place.
pub proof fn lemma_arrays_equal_by_items(a: Vec<Json>, b: Vec<Json>)
    ensures
        evaluate::satisfies(Json::Array(a)@, BoundCmpOp::Eq, Json::Array(b)@) == Ok::<
            _,
            GraphErrorView,
        >(
            a@.len() == b@.len() && forall|i: int|
                0 <= i < a@.len() ==> evaluate::satisfies(
                    (#[trigger] a@[i])@,
                    BoundCmpOp::Eq,
                    b@[i]@,
                ) == Ok::<_, GraphErrorView>(true),
        ),
{
    json::lemma_array_view(a);
    json::lemma_array_view(b);
    let x = views::views(a@);
    let y = views::views(b@);
    if json::same_json(Json::Array(a)@, Json::Array(b)@) {
        assert forall|i: int| 0 <= i < a@.len() implies evaluate::satisfies(
            (#[trigger] a@[i])@,
            BoundCmpOp::Eq,
            b@[i]@,
        ) == Ok::<_, GraphErrorView>(true) by {
            assert(json::same_json(x[i], y[i]));
        }
    } else if a@.len() == b@.len() {
        let i = choose|i: int| 0 <= i < x.len() && !json::same_json(#[trigger] x[i], y[i]);
        assert(a@[i]@ == x[i]);
    }
}

/// Objects are equal where they have the same keys with equal values, place by place.
pub proof fn lemma_objects_equal_by_entries(a: Vec<(String, Json)>, b: Vec<(String, Json)>)
    ensures
        evaluate::satisfies(Json::Object(a)@, BoundCmpOp::Eq, Json::Object(b)@) == Ok::<
            _,
            GraphErrorView,
        >(
            a@.len() == b@.len() && forall|i: int|
                0 <= i < a@.len() ==> (#[trigger] a@[i]).0@ == b@[i].0@ && evaluate::satisfies(
                    a@[i].1@,
                    BoundCmpOp::Eq,
                    b@[i].1@,
                ) == Ok::<_, GraphErrorView>(true),
        ),
{
    json::lemma_object_view(a);
    json::lemma_object_view(b);
    let x = json::entry_views(a@);
    let y = json::entry_views(b@);
    if json::same_json(Json::Object(a)@, Json::Object(b)@) {
        assert forall|i: int| 0 <= i < a@.len() implies (#[trigger] a@[i]).0@ == b@[i].0@
            && evaluate::satisfies(a@[i].1@, BoundCmpOp::Eq, b@[i].1@) == Ok::<_, GraphErrorView>(
            true,
        ) by {
            assert(x[i].0 == y[i].0 && json::same_json(x[i].1, y[i].1));
        }
    } else if a@.len() == b@.len() {
        let i = choose|i: int|
            #![trigger x[i]]
            0 <= i < x.len() && !(x[i].0 == y[i].0 && json::same_json(x[i].1, y[i].1));
        assert(x[i] == json::entry_view(a@[i]) && y[i] == json::entry_view(b@[i]));
    }
}

/// `IN` holds where the value equals an item of the list, and needs a list.
pub proof fn lemma_in_lists(value: JsonView, list: Json)
    ensures
        match list {
            Json::Array(items) => evaluate::satisfies(value, BoundCmpOp::In, list@) == Ok::<
                _,
                GraphErrorView,
            >(
                exists|i: int|
                    0 <= i < items@.len() && evaluate::satisfies(
                        (#[trigger] items@[i])@,
                        BoundCmpOp::Eq,
                        value,
                    ) == Ok::<_, GraphErrorView>(true),
            ),
            _ => evaluate::satisfies(value, BoundCmpOp::In, list@) == Err::<bool, _>(
                GraphErrorView::InvalidFilter {
                    reason: "GQL IN requires a list right-hand side"@,
                },
            ),
        },
{
    match list {
        Json::Array(items) => {
            json::lemma_array_view(items);
            let all = views::views(items@);
            if evaluate::lists(all, value) {
                let i = choose|i: int| 0 <= i < all.len() && json::same_json(#[trigger] all[i], value);
                assert(all[i] == items@[i]@);
            }
            if exists|i: int|
                0 <= i < items@.len() && evaluate::satisfies(
                    (#[trigger] items@[i])@,
                    BoundCmpOp::Eq,
                    value,
                ) == Ok::<_, GraphErrorView>(true) {
                let i = choose|i: int|
                    0 <= i < items@.len() && evaluate::satisfies(
                        (#[trigger] items@[i])@,
                        BoundCmpOp::Eq,
                        value,
                    ) == Ok::<_, GraphErrorView>(true);
                assert(json::same_json(all[i], value));
            }
        },
        _ => {},
    }
}

/// `IS NULL` holds of a value that is there and is null, `IS NOT NULL` of one that is
/// there and is not; of a value that is not there neither holds. All other comparisons
/// need a right-hand side and take what is not there for null.
pub proof fn lemma_missing_values_compare(
    lhs: Option<JsonView>,
    op: BoundCmpOp,
    rhs: Option<Option<JsonView>>,
)
    ensures
        ({
            let l = match lhs {
                Some(value) => value,
                None => JsonView::Null,
            };
            let found = evaluate::compared(lhs, op, rhs);
            &&& op is IsNull ==> found == Ok::<_, GraphErrorView>(
                lhs matches Some(value) && value is Null,
            )
            &&& op is IsNotNull ==> found == Ok::<_, GraphErrorView>(
                lhs matches Some(value) && !(value is Null),
            )
            &&& !(op is IsNull || op is IsNotNull) ==> match rhs {
                None => found is Err,
                Some(None) => found == evaluate::satisfies(l, op, JsonView::Null),
                Some(Some(r)) => found == evaluate::satisfies(l, op, r),
            }
        }),
{
}

// ---------------------------------------------------------------------------
// Values
// ---------------------------------------------------------------------------

/// Where a name has no dot, the property of that name is the member of that name.
pub proof fn lemma_plain_property(value: JsonView, name: Seq<char>)
    requires
        forall|i: int| 0 <= i < name.len() ==> #[trigger] name[i] != '.',
    ensures
        hydrate::property_of(value, name) == json::member(value, name),
{
    lemma_no_dot(name, 0);
}

proof fn lemma_no_dot(name: Seq<char>, from: int)
    requires
        forall|i: int| 0 <= i < name.len() ==> #[trigger] name[i] != '.',
        0 <= from,
    ensures
        hydrate::dot_from(name, from) is None,
    decreases name.len() - from,
{
    if from < name.len() {
        lemma_no_dot(name, from + 1);
    }
}

proof fn lemma_first_dot(name: Seq<char>, at: int, from: int)
    requires
        0 <= from <= at < name.len(),
        name[at] == '.',
        forall|i: int| 0 <= i < at ==> #[trigger] name[i] != '.',
    ensures
        hydrate::dot_from(name, from) == Some(at),
    decreases at - from,
{
    if from < at {
        lemma_first_dot(name, at, from + 1);
    }
}

/// A dotted name that is no member names a property of the member before its first dot.
pub proof fn lemma_dotted_property(value: JsonView, head: Seq<char>, rest: Seq<char>)
    requires
        forall|i: int| 0 <= i < head.len() ==> #[trigger] head[i] != '.',
        json::member(value, head.push('.') + rest) is None,
    ensures
        match json::member(value, head) {
            Some(inner) => hydrate::property_of(value, head.push('.') + rest)
                == hydrate::property_of(inner, rest),
            None => hydrate::property_of(value, head.push('.') + rest) is None,
        },
{
    let name = head.push('.') + rest;
    let at = head.len() as int;
    lemma_first_dot(name, at, 0);
    assert(name.subrange(0, at) =~= head);
    assert(name.subrange(at + 1, name.len() as int) =~= rest);
}

/// The member of an object is the value of the first entry of that key; what is no
/// object has no member.
pub proof fn lemma_member(entries: Vec<(String, Json)>, key: Seq<char>, at: int)
    requires
        0 <= at < entries@.len(),
        entries@[at].0@ == key,
        forall|i: int| 0 <= i < at ==> (#[trigger] entries@[i]).0@ != key,
    ensures
        json::member(Json::Object(entries)@, key) == Some(entries@[at].1@),
{
    json::lemma_object_view(entries);
    lemma_entry(json::entry_views(entries@), key, at, 0);
}

proof fn lemma_entry(entries: Seq<(Seq<char>, JsonView)>, key: Seq<char>, at: int, from: int)
    requires
        0 <= from <= at < entries.len(),
        entries[at].0 == key,
        forall|i: int| 0 <= i < at ==> (#[trigger] entries[i]).0 != key,
    ensures
        json::entry_from(entries, key, from) == Some(entries[at].1),
    decreases at - from,
{
    if from < at {
        lemma_entry(entries, key, at, from + 1);
    }
}

/// What has no entry of a key, or is no object, has no such member.
pub proof fn lemma_no_member(value: Json, key: Seq<char>)
    requires
        value matches Json::Object(entries) ==> forall|i: int|
            0 <= i < entries@.len() ==> (#[trigger] entries@[i]).0@ != key,
    ensures
        json::member(value@, key) is None,
{
    match value {
        Json::Object(entries) => {
            json::lemma_object_view(entries);
            lemma_no_entry(json::entry_views(entries@), key, 0);
        },
        _ => {},
    }
}

proof fn lemma_no_entry(entries: Seq<(Seq<char>, JsonView)>, key: Seq<char>, from: int)
    requires
        0 <= from,
        forall|i: int| 0 <= i < entries.len() ==> (#[trigger] entries[i]).0 != key,
    ensures
        json::entry_from(entries, key, from) is None,
    decreases entries.len() - from,
{
    if from < entries.len() {
        lemma_no_entry(entries, key, from + 1);
    }
}

/// The value of a property is read from the source row of the node that stands on its
/// side of the match; where nothing stands there it is null, and a node without a
/// source row is an error.
pub proof fn lemma_properties_are_read_from_source_rows(
    sources: ValueSources,
    row: GqlRow,
    side: BindingSide,
    property: String,
)
    ensures
        ({
            let node: Option<CoordinateView> = match side {
                BindingSide::Source => Some(row.source@),
                BindingSide::Target => match row.target {
                    Some(target) => Some(target@),
                    None => None,
                },
                BindingSide::PathNode(at) => if at < row.path_nodes@.len() {
                    Some(row.path_nodes@[at as int]@)
                } else {
                    None
                },
            };
            let found = evaluate::value_of(sources, row@, ValueExpr::Property { side, property }@);
            match node {
                None => found == Ok::<_, GraphErrorView>(Some(JsonView::Null)),
                Some(node) => {
                    let key = (node.table_oid, node.node_id);
                    if sources.hydrated.contains_key(key) {
                        found == Ok::<_, GraphErrorView>(
                            hydrate::property_of(sources.hydrated[key], property@),
                        )
                    } else {
                        found is Err
                    }
                },
            }
        }),
{
}

/// A literal is its own value, a parameter the value given for its name, and a list
/// the array of its literals.
pub proof fn lemma_literals_and_parameters(sources: ValueSources, row: RowView, expr: ValueExpr)
    ensures
        match expr {
            ValueExpr::Literal(scalar) => evaluate::value_of(sources, row, expr@) matches Ok(
                Some(value),
            ) && is_literal(scalar, value),
            ValueExpr::Param(name) => if sources.params.contains_key(name@) {
                evaluate::value_of(sources, row, expr@) == Ok::<_, GraphErrorView>(
                    Some(sources.params[name@]),
                )
            } else {
                evaluate::value_of(sources, row, expr@) is Err
            },
            ValueExpr::List(scalars) => evaluate::value_of(sources, row, expr@) matches Ok(
                Some(JsonView::Array(items)),
            ) && items.len() == scalars@.len() && forall|i: int|
                0 <= i < items.len() ==> is_literal(scalars@[i], #[trigger] items[i]),
            ValueExpr::Property { .. } => true,
        },
{
    match expr {
        ValueExpr::List(scalars) => {
            let all = views::views(scalars@);
            assert forall|i: int| 0 <= i < all.len() implies all[i] == scalars@[i]@ by {}
        },
        _ => {},
    }
}

/// Whether a value is that of a literal.
pub open spec fn is_literal(scalar: Scalar, value: JsonView) -> bool {
    match scalar {
        Scalar::Null => value is Null,
        Scalar::Bool(inner) => value == JsonView::Bool(inner),
        Scalar::Int(inner) => value == JsonView::Number(NumberView::Int(inner as int)),
        Scalar::Float(inner) => value == JsonView::Number(
            NumberView::Float(Binary64View { bits: inner.bits, text: inner.text@ }),
        ),
        Scalar::Text(inner) => value == JsonView::Text(inner@),
    }
}

// ---------------------------------------------------------------------------
// Predicates
// ---------------------------------------------------------------------------

/// A conjunction holds where both sides do, a disjunction where one does, a negation
/// where what it negates does not. What is decided by the left side does not depend on
/// the right one.
pub proof fn lemma_connectives(
    sources: ValueSources,
    row: RowView,
    lhs: Box<Predicate>,
    rhs: Box<Predicate>,
)
    ensures
        ({
            let l = evaluate::predicate_holds(sources, row, (*lhs)@);
            let r = evaluate::predicate_holds(sources, row, (*rhs)@);
            let both = evaluate::predicate_holds(sources, row, Predicate::And(lhs, rhs)@);
            let one = evaluate::predicate_holds(sources, row, Predicate::Or(lhs, rhs)@);
            let neither = evaluate::predicate_holds(sources, row, Predicate::Not(lhs)@);
            &&& both == Ok::<_, GraphErrorView>(true) <==> l == Ok::<_, GraphErrorView>(true) && r
                == Ok::<_, GraphErrorView>(true)
            &&& one == Ok::<_, GraphErrorView>(false) <==> l == Ok::<_, GraphErrorView>(false) && r
                == Ok::<_, GraphErrorView>(false)
            &&& l == Ok::<_, GraphErrorView>(false) ==> both == l
            &&& l == Ok::<_, GraphErrorView>(true) ==> one == l
            &&& l is Err ==> both == l && one == l && neither == l
            &&& l == Ok::<_, GraphErrorView>(true) ==> both == r
            &&& l == Ok::<_, GraphErrorView>(false) ==> one == r
            &&& l matches Ok(held) ==> neither == Ok::<_, GraphErrorView>(!held)
        }),
{
    reveal_with_fuel(evaluate::predicate_holds, 2);
}

/// A comparison compares the values of its two sides, and fails where one has none.
pub proof fn lemma_comparison_predicate(
    sources: ValueSources,
    row: RowView,
    lhs: ValueExpr,
    op: BoundCmpOp,
    rhs: Option<ValueExpr>,
)
    ensures
        ({
            let left = evaluate::value_of(sources, row, lhs@);
            let found = evaluate::predicate_holds(
                sources,
                row,
                Predicate::Compare { lhs, op, rhs }@,
            );
            match (left, rhs) {
                (Err(error), _) => found == Err::<bool, _>(error),
                (Ok(l), None) => found == evaluate::compared(l, op, None),
                (Ok(l), Some(rhs)) => match evaluate::value_of(sources, row, rhs@) {
                    Err(error) => found == Err::<bool, _>(error),
                    Ok(r) => found == evaluate::compared(l, op, Some(r)),
                },
            }
        }),
{
}

/// A property of the source compared with an integer passes exactly where the integer
/// of the source row stands to it as the operator says.
pub proof fn lemma_integer_property_predicate(
    sources: ValueSources,
    row: GqlRow,
    property: String,
    n: i64,
    bound: i64,
    op: BoundCmpOp,
)
    requires
        sources.hydrated.contains_key((row.source.table_oid, row.source.node_id@)),
        hydrate::property_of(
            sources.hydrated[(row.source.table_oid, row.source.node_id@)],
            property@,
        ) == Some(signed_value(n)),
        op is Eq || op is Neq || op is Lt || op is Lte || op is Gt || op is Gte,
    ensures
        evaluate::predicate_holds(
            sources,
            row@,
            Predicate::Compare {
                lhs: ValueExpr::Property { side: BindingSide::Source, property },
                op,
                rhs: Some(ValueExpr::Literal(Scalar::Int(bound))),
            }@,
        ) == Ok::<_, GraphErrorView>(
            match op {
                BoundCmpOp::Eq => n == bound,
                BoundCmpOp::Neq => n != bound,
                BoundCmpOp::Lt => n < bound,
                BoundCmpOp::Lte => n <= bound,
                BoundCmpOp::Gt => n > bound,
                _ => n >= bound,
            },
        ),
{
    lemma_integers_compare(JsonNumber::Int(n), JsonNumber::Int(bound), n as int, bound as int);
}

// ---------------------------------------------------------------------------
// Filters
// ---------------------------------------------------------------------------

/// Whether a row satisfies the predicate of a plan.
pub open spec fn wanted(predicate: Option<Predicate>, sources: ValueSources, row: RowView) -> bool {
    predicate matches Some(inner) ==> evaluate::predicate_holds(sources, row, inner@) == Ok::<
        _,
        GraphErrorView,
    >(true)
}

proof fn lemma_plain_filter(
    shape: slots::ShapeView,
    predicate: Option<Predicate>,
    sources: ValueSources,
    rows: Seq<RowView>,
    from: int,
    kept: bool,
    done: Seq<RowView>,
)
    requires
        !shape.optional,
        shape.predicate == views::some_view(predicate),
        0 <= from <= rows.len(),
        filter::filtered_from(shape, sources, rows, from, kept, done) is Ok,
        done == rows.take(from).filter(|row: RowView| wanted(predicate, sources, row)),
    ensures
        filter::filtered_from(shape, sources, rows, from, kept, done)->Ok_0 == rows.filter(
            |row: RowView| wanted(predicate, sources, row),
        ),
    decreases rows.len() - from,
{
    reveal(Seq::filter);
    let keep = |row: RowView| wanted(predicate, sources, row);
    if from < rows.len() {
        let passes = filter::row_passes(shape, sources, rows[from])->Ok_0;
        assert(passes == keep(rows[from]));
        assert(rows.take(from + 1).drop_last() =~= rows.take(from));
        let more = if passes {
            done.push(rows[from])
        } else {
            done
        };
        assert(more == rows.take(from + 1).filter(keep));
        lemma_plain_filter(
            shape,
            predicate,
            sources,
            rows,
            from + 1,
            passes || (kept && filter::continues(rows, from)),
            more,
        );
    } else {
        assert(rows.take(from) =~= rows);
    }
}

/// A relationship plan that is not optional keeps exactly the rows that satisfy its
/// predicate, in their order.
pub proof fn lemma_filter_keeps_what_satisfies(
    plan: PhysicalPlan,
    sources: ValueSources,
    rows: Seq<RowView>,
)
    requires
        !plan.optional,
        filter::filtered(slots::plan_shape(plan@), sources, rows) is Ok,
    ensures
        filter::filtered(slots::plan_shape(plan@), sources, rows)->Ok_0 == rows.filter(
            |row: RowView| wanted(plan.predicate, sources, row),
        ),
{
    reveal(Seq::filter);
    assert(rows.take(0) =~= Seq::<RowView>::empty());
    lemma_plain_filter(
        slots::plan_shape(plan@),
        plan.predicate,
        sources,
        rows,
        0,
        false,
        Seq::empty(),
    );
}

/// A node scan keeps exactly the rows that satisfy its predicate, in their order.
pub proof fn lemma_scan_filter_keeps_what_satisfies(
    scan: PhysicalNodeScan,
    sources: ValueSources,
    rows: Seq<RowView>,
)
    requires
        filter::filtered(slots::scan_shape(scan@), sources, rows) is Ok,
    ensures
        filter::filtered(slots::scan_shape(scan@), sources, rows)->Ok_0 == rows.filter(
            |row: RowView| wanted(scan.predicate, sources, row),
        ),
{
    reveal(Seq::filter);
    assert(rows.take(0) =~= Seq::<RowView>::empty());
    lemma_plain_filter(
        slots::scan_shape(scan@),
        scan.predicate,
        sources,
        rows,
        0,
        false,
        Seq::empty(),
    );
}

/// Whether a row is the row of a source alone: it has no match.
pub open spec fn is_unmatched(row: RowView, source: CoordinateView) -> bool {
    &&& row.source == source
    &&& row.target is None
    &&& row.rel_start is None
    &&& row.rel_end is None
    &&& row.path_nodes.len() == 0
    &&& row.path_relationships.len() == 0
}

/// Whether an optional read keeps a row: it has no match, or satisfies the predicate.
pub open spec fn stays(predicate: Option<Predicate>, sources: ValueSources, row: RowView) -> bool {
    row.target is None || wanted(predicate, sources, row)
}

/// Whether the rows from `j` to `i` are of one source.
pub open spec fn of_one_source(rows: Seq<RowView>, j: int, i: int) -> bool {
    forall|k: int| j <= k <= i ==> (#[trigger] rows[k]).source == rows[i].source
}

/// Whether a row that is kept for want of a match stands for row `i`: no row of that
/// source up to it stays.
pub open spec fn stands_in(
    predicate: Option<Predicate>,
    sources: ValueSources,
    rows: Seq<RowView>,
    row: RowView,
    i: int,
) -> bool {
    &&& 0 <= i < rows.len()
    &&& is_unmatched(row, rows[i].source)
    &&& forall|j: int|
        0 <= j <= i && #[trigger] of_one_source(rows, j, i) ==> !stays(predicate, sources, rows[j])
}

spec fn covered(rows: Seq<RowView>, source: CoordinateView) -> bool {
    exists|k: int| 0 <= k < rows.len() && (#[trigger] rows[k]).source == source
}

spec fn optional_so_far(
    predicate: Option<Predicate>,
    sources: ValueSources,
    rows: Seq<RowView>,
    from: int,
    kept: bool,
    done: Seq<RowView>,
) -> bool {
    &&& 0 <= from <= rows.len()
    &&& forall|k: int|
        0 <= k < done.len() ==> {
            ||| rows.contains(#[trigger] done[k]) && stays(predicate, sources, done[k])
            ||| exists|i: int| #[trigger] stands_in(predicate, sources, rows, done[k], i)
        }
    &&& forall|i: int|
        0 <= i < from && stays(predicate, sources, #[trigger] rows[i]) ==> done.contains(rows[i])
    &&& forall|i: int|
        0 <= i < from ==> covered(done, (#[trigger] rows[i]).source) || (from < rows.len()
            && rows[from - 1].source == rows[from].source && rows[i].source == rows[from].source)
    &&& from > 0 && kept ==> covered(done, rows[from - 1].source)
    &&& from > 0 && !kept ==> forall|j: int|
        0 <= j < from && #[trigger] of_one_source(rows, j, from - 1) ==> !stays(
            predicate,
            sources,
            rows[j],
        )
}

proof fn lemma_covered_push(done: Seq<RowView>, row: RowView)
    ensures
        covered(done.push(row), row.source),
        forall|source: CoordinateView| #[trigger]
            covered(done, source) ==> covered(done.push(row), source),
{
    let more = done.push(row);
    assert(more[done.len() as int].source == row.source);
    assert forall|source: CoordinateView| #[trigger] covered(done, source) implies covered(
        more,
        source,
    ) by {
        let k = choose|k: int| 0 <= k < done.len() && (#[trigger] done[k]).source == source;
        assert(more[k].source == source);
    }
}

#[verifier::rlimit(40)]
proof fn lemma_optional_filter(
    shape: slots::ShapeView,
    predicate: Option<Predicate>,
    sources: ValueSources,
    rows: Seq<RowView>,
    from: int,
    kept: bool,
    done: Seq<RowView>,
) -> (late: bool)
    requires
        shape.optional,
        shape.predicate == views::some_view(predicate),
        filter::filtered_from(shape, sources, rows, from, kept, done) is Ok,
        optional_so_far(predicate, sources, rows, from, kept, done),
    ensures
        ({
            let found = filter::filtered_from(shape, sources, rows, from, kept, done)->Ok_0;
            optional_so_far(predicate, sources, rows, rows.len() as int, late, found)
        }),
    decreases rows.len() - from,
{
    if from < rows.len() {
        let row = rows[from];
        let passes = filter::row_passes(shape, sources, row)->Ok_0;
        assert(passes == stays(predicate, sources, row));
        let now_kept = passes || (kept && filter::continues(rows, from));
        let ends = !filter::continues(rows, from + 1);
        let more = if passes {
            done.push(row)
        } else if !now_kept && ends {
            done.push(filter::missing_row(row))
        } else {
            done
        };
        lemma_covered_push(done, row);
        lemma_covered_push(done, filter::missing_row(row));
        assert(!now_kept ==> forall|j: int|
            0 <= j < from + 1 && #[trigger] of_one_source(rows, j, from) ==> !stays(
                predicate,
                sources,
                rows[j],
            )) by {
            if !now_kept {
                assert forall|j: int| 0 <= j < from + 1 && #[trigger] of_one_source(rows, j, from)
                    implies !stays(predicate, sources, rows[j]) by {
                    if j < from {
                        assert(rows[from - 1].source == row.source);
                        assert forall|k: int| j <= k <= from - 1 implies (#[trigger] rows[k]).source
                            == rows[from - 1].source by {
                            assert(rows[k].source == rows[from].source);
                        }
                        assert(of_one_source(rows, j, from - 1));
                    }
                }
            }
        }
        assert forall|k: int| 0 <= k < more.len() implies {
            ||| rows.contains(#[trigger] more[k]) && stays(predicate, sources, more[k])
            ||| exists|i: int| #[trigger] stands_in(predicate, sources, rows, more[k], i)
        } by {
            if k < done.len() {
                assert(more[k] == done[k]);
            } else if passes {
                assert(more[k] == rows[from]);
            } else {
                assert(stands_in(predicate, sources, rows, more[k], from));
            }
        }
        assert forall|i: int|
            0 <= i < from + 1 && stays(predicate, sources, #[trigger] rows[i]) implies more.contains(
            rows[i],
        ) by {
            if i < from {
                let k = choose|k: int| 0 <= k < done.len() && done[k] == rows[i];
                assert(more[k] == rows[i]);
            } else {
                assert(more[done.len() as int] == row);
            }
        }
        assert(covered(more, row.source) || !ends);
        assert forall|i: int| 0 <= i < from + 1 implies covered(more, (#[trigger] rows[i]).source)
            || (from + 1 < rows.len() && rows[from].source == rows[from + 1].source
            && rows[i].source == rows[from + 1].source) by {
            if i < from && !covered(done, rows[i].source) {
                assert(rows[i].source == row.source);
            }
        }
        assert(filter::filtered_from(shape, sources, rows, from, kept, done)
            == filter::filtered_from(shape, sources, rows, from + 1, now_kept, more));
        assert(optional_so_far(predicate, sources, rows, from + 1, now_kept, more));
        lemma_optional_filter(shape, predicate, sources, rows, from + 1, now_kept, more)
    } else {
        kept
    }
}

/// An optional plan loses no source: it keeps every row that has no match or satisfies
/// the predicate, and of a source of which none does one row without a match; it keeps
/// nothing else.
pub proof fn lemma_optional_filter_keeps_sources(
    plan: PhysicalPlan,
    sources: ValueSources,
    rows: Seq<RowView>,
)
    requires
        plan.optional,
        filter::filtered(slots::plan_shape(plan@), sources, rows) is Ok,
    ensures
        ({
            let found = filter::filtered(slots::plan_shape(plan@), sources, rows)->Ok_0;
            &&& forall|i: int|
                0 <= i < rows.len() && stays(plan.predicate, sources, #[trigger] rows[i])
                    ==> found.contains(rows[i])
            &&& forall|i: int|
                0 <= i < rows.len() ==> exists|k: int|
                    0 <= k < found.len() && (#[trigger] found[k]).source == (
                    #[trigger] rows[i]).source
            &&& forall|k: int|
                0 <= k < found.len() ==> {
                    ||| rows.contains(#[trigger] found[k]) && stays(
                        plan.predicate,
                        sources,
                        found[k],
                    )
                    ||| exists|i: int| #[trigger]
                        stands_in(plan.predicate, sources, rows, found[k], i)
                }
        }),
{
    let late = lemma_optional_filter(
        slots::plan_shape(plan@),
        plan.predicate,
        sources,
        rows,
        0,
        false,
        Seq::empty(),
    );
    let found = filter::filtered(slots::plan_shape(plan@), sources, rows)->Ok_0;
    assert(optional_so_far(plan.predicate, sources, rows, rows.len() as int, late, found));
    assert forall|i: int| 0 <= i < rows.len() implies exists|k: int|
        0 <= k < found.len() && (#[trigger] found[k]).source == (#[trigger] rows[i]).source by {
        assert(covered(found, rows[i].source));
    }
}

/// Filtering fails only where the predicate of the plan fails on a row.
pub proof fn lemma_filter_fails_with_its_predicate(
    plan: PhysicalPlan,
    sources: ValueSources,
    rows: Seq<RowView>,
)
    requires
        filter::filtered(slots::plan_shape(plan@), sources, rows) is Err,
    ensures
        exists|i: int, inner: Predicate|
            0 <= i < rows.len() && plan.predicate == Some(inner) && (
            #[trigger] evaluate::predicate_holds(sources, #[trigger] rows[i], inner@)) is Err
            && evaluate::predicate_holds(sources, rows[i], inner@)->Err_0 == filter::filtered(
                slots::plan_shape(plan@),
                sources,
                rows,
            )->Err_0,
{
    lemma_filter_error(slots::plan_shape(plan@), sources, rows, 0, false, Seq::empty());
    let error = filter::filtered(slots::plan_shape(plan@), sources, rows)->Err_0;
    let i = choose|i: int|
        0 <= i < rows.len() && filter::row_passes(
            slots::plan_shape(plan@),
            sources,
            #[trigger] rows[i],
        ) == Err::<bool, _>(error);
    let inner = plan.predicate->Some_0;
    assert(evaluate::predicate_holds(sources, rows[i], inner@) is Err);
}

proof fn lemma_filter_error(
    shape: slots::ShapeView,
    sources: ValueSources,
    rows: Seq<RowView>,
    from: int,
    kept: bool,
    done: Seq<RowView>,
)
    requires
        0 <= from,
        filter::filtered_from(shape, sources, rows, from, kept, done) is Err,
    ensures
        exists|i: int|
            0 <= i < rows.len() && filter::row_passes(shape, sources, #[trigger] rows[i]) == Err::<
                bool,
                _,
            >(filter::filtered_from(shape, sources, rows, from, kept, done)->Err_0),
    decreases rows.len() - from,
{
    if from < rows.len() {
        match filter::row_passes(shape, sources, rows[from]) {
            Err(_) => {},
            Ok(passes) => {
                let now_kept = passes || (kept && filter::continues(rows, from));
                let more = if passes {
                    done.push(rows[from])
                } else if shape.optional && !now_kept && !filter::continues(rows, from + 1) {
                    done.push(filter::missing_row(rows[from]))
                } else {
                    done
                };
                lemma_filter_error(shape, sources, rows, from + 1, now_kept, more);
            },
        }
    }
}

} // verus!
