//! Order and text of JSON values.
use vstd::prelude::*;

use crate::query::json::{self, Json, JsonNumber, JsonView, NumberView};
use crate::query::names::{self, precedes};
use crate::safety::{GraphError, GraphErrorView, GraphResult};
use crate::text::{self, concat3, owned, same_text, signed_decimal_text};
use crate::views;

verus! {

// ---------------------------------------------------------------------------
// Calls into serde_json
// ---------------------------------------------------------------------------

/// The binary64 bits that an integer has as a JSON number.
pub uninterp spec fn float_of_integer(value: int) -> u64;

/// A character as it stands in a JSON string: quotes, reverse solidus and control
/// characters are escaped.
pub open spec fn escaped(c: char) -> Seq<char> {
    if c == '"' || c == '\\' {
        seq!['\\', c]
    } else if c == '\u{8}' {
        seq!['\\', 'b']
    } else if c == '\t' {
        seq!['\\', 't']
    } else if c == '\n' {
        seq!['\\', 'n']
    } else if c == '\u{c}' {
        seq!['\\', 'f']
    } else if c == '\r' {
        seq!['\\', 'r']
    } else if ' ' > c {
        seq!['\\', 'u'] + text::fixed_digits(c as nat, 16, 4)
    } else {
        seq![c]
    }
}

/// A text as a JSON string: in quotes, with escapes.
pub open spec fn json_quoted(text: Seq<char>) -> Seq<char> {
    seq!['"'] + text.map_values(|c: char| escaped(c)).flatten() + seq!['"']
}

/// `serde_json::Number::as_f64` of the number that `serde_json::Number::from_i128`
/// makes of an integer from the least signed to the greatest unsigned one of 64 bits.
/// Every such integer has a floating-point value, which is a number, and the same
/// integer always the same; how it is rounded is left unsaid.
#[verifier::external_body]
fn integer_as_float(value: i128) -> (bits: Option<u64>)
    requires
        i64::MIN <= value <= u64::MAX,
    ensures
        bits == Some(float_of_integer(value as int)),
        bits matches Some(found) ==> !json::is_nan(found),
{
    serde_json::Number::from_i128(value)?.as_f64().map(|float| float.to_bits())
}

/// The `Display` text of `serde_json::Value::String`: the text in quotes, in which
/// every character stands for itself but for quotes, reverse solidi and control
/// characters, which are escaped.
#[verifier::external_body]
fn quoted_text(text: &str) -> (quoted: String)
    ensures
        quoted@ == json_quoted(text@),
{
    serde_json::Value::from(text).to_string()
}

// ---------------------------------------------------------------------------
// Text
// ---------------------------------------------------------------------------

/// A value as compact JSON text.
pub open spec fn json_text(value: JsonView) -> Seq<char>
    decreases value, 1nat, 0nat,
{
    match value {
        JsonView::Null => "null"@,
        JsonView::Bool(inner) => if inner {
            "true"@
        } else {
            "false"@
        },
        JsonView::Number(NumberView::Int(n)) => text::signed_decimal(n),
        JsonView::Number(NumberView::Float(float)) => float.text,
        JsonView::Text(inner) => json_quoted(inner),
        JsonView::Array(items) => "["@ + items_text(items, items.len()) + "]"@,
        JsonView::Object(entries) => "{"@ + entries_text(entries, entries.len()) + "}"@,
    }
}

/// The first `count` items as JSON text, separated by commas.
pub open spec fn items_text(items: Seq<JsonView>, count: nat) -> Seq<char>
    decreases items, 0nat, count,
{
    if count == 0 || count > items.len() {
        Seq::empty()
    } else if count == 1 {
        json_text(items[0])
    } else {
        items_text(items, (count - 1) as nat) + ","@ + json_text(items[count - 1])
    }
}

/// The first `count` entries as JSON text, separated by commas.
pub open spec fn entries_text(entries: Seq<(Seq<char>, JsonView)>, count: nat) -> Seq<char>
    decreases entries, 0nat, count,
{
    if count == 0 || count > entries.len() {
        Seq::empty()
    } else {
        let entry = entries[count - 1];
        let here = json_quoted(entry.0) + ":"@ + json_text(entry.1);
        if count == 1 {
            here
        } else {
            entries_text(entries, (count - 1) as nat) + ","@ + here
        }
    }
}

fn number_text(number: &JsonNumber) -> (found: String)
    ensures
        found@ == json_text(JsonView::Number(number@)),
{
    match number {
        JsonNumber::Int(value) => signed_decimal_text(*value),
        JsonNumber::UInt(value) => text::decimal_text(*value),
        JsonNumber::Float(value) => value.text.clone(),
    }
}

/// A value as compact JSON text.
pub fn to_text(value: &Json) -> (found: String)
    ensures
        found@ == json_text(value@),
    decreases *value,
{
    match value {
        Json::Null => owned("null"),
        Json::Bool(inner) => if *inner {
            owned("true")
        } else {
            owned("false")
        },
        Json::Number(inner) => number_text(inner),
        Json::Text(inner) => quoted_text(inner.as_str()),
        Json::Array(items) => {
            let mut inside: String = owned("");
            let ghost all = views::views(items@);
            proof {
                json::lemma_array_view(*items);
                reveal_strlit("");
                assert(inside@ =~= items_text(all, 0));
            }
            for i in 0..items.len()
                invariant
                    *value == Json::Array(*items),
                    value@ == JsonView::Array(all),
                    all == views::views(items@),
                    inside@ == items_text(all, i as nat),
            {
                assert(decreases_to!(*value => value->Array_0));
                assert(decreases_to!(*items => items@));
                assert(decreases_to!(items@ => items@[i as int]));
                assert(all[i as int] == items@[i as int]@);
                let item: String = to_text(&items[i]);
                inside = if i == 0 {
                    item
                } else {
                    concat3(inside.as_str(), ",", item.as_str())
                };
            }
            concat3("[", inside.as_str(), "]")
        },
        Json::Object(entries) => {
            let mut inside: String = owned("");
            let ghost all = json::entry_views(entries@);
            proof {
                json::lemma_object_view(*entries);
                reveal_strlit("");
                assert(inside@ =~= entries_text(all, 0));
            }
            for i in 0..entries.len()
                invariant
                    *value == Json::Object(*entries),
                    value@ == JsonView::Object(all),
                    all == json::entry_views(entries@),
                    inside@ == entries_text(all, i as nat),
            {
                assert(decreases_to!(*value => value->Object_0));
                assert(decreases_to!(*entries => entries@));
                assert(decreases_to!(entries@ => entries@[i as int]));
                assert(decreases_to!(entries@[i as int] => entries@[i as int].1));
                assert(all[i as int] == json::entry_view(entries@[i as int]));
                let key: String = quoted_text(entries[i].0.as_str());
                let item: String = to_text(&entries[i].1);
                let here: String = concat3(key.as_str(), ":", item.as_str());
                inside = if i == 0 {
                    here
                } else {
                    concat3(inside.as_str(), ",", here.as_str())
                };
            }
            concat3("{", inside.as_str(), "}")
        },
    }
}

// ---------------------------------------------------------------------------
// Order
// ---------------------------------------------------------------------------

/// How two values stand to each other.
#[derive(Debug, Clone, Copy, PartialEq, Eq, Structural)]
pub enum JsonOrder {
    /// The first comes before the second.
    Less,
    /// Neither comes before the other.
    Equal,
    /// The first comes after the second.
    Greater,
}

impl JsonOrder {
    /// How the second value stands to the first.
    pub open spec fn flipped(self) -> JsonOrder {
        match self {
            JsonOrder::Less => JsonOrder::Greater,
            JsonOrder::Equal => JsonOrder::Equal,
            JsonOrder::Greater => JsonOrder::Less,
        }
    }

    /// How the second value stands to the first.
    pub fn reverse(self) -> (order: JsonOrder)
        ensures
            order == self.flipped(),
    {
        match self {
            JsonOrder::Less => JsonOrder::Greater,
            JsonOrder::Equal => JsonOrder::Equal,
            JsonOrder::Greater => JsonOrder::Less,
        }
    }
}

/// How two integers stand to each other.
pub open spec fn int_order(a: int, b: int) -> JsonOrder {
    if a < b {
        JsonOrder::Less
    } else if a == b {
        JsonOrder::Equal
    } else {
        JsonOrder::Greater
    }
}

/// How two texts stand to each other.
pub open spec fn text_order(a: Seq<char>, b: Seq<char>) -> JsonOrder {
    if names::name_before(a, b) {
        JsonOrder::Less
    } else if a == b {
        JsonOrder::Equal
    } else {
        JsonOrder::Greater
    }
}

/// The error of values that have no order.
pub open spec fn non_orderable() -> GraphErrorView {
    GraphErrorView::GqlExecution {
        reason: "GQL ordered comparisons require both operands to be numbers or strings"@,
    }
}

/// The binary64 bits of a number.
pub open spec fn float_bits(number: NumberView) -> u64 {
    match number {
        NumberView::Int(n) => float_of_integer(n),
        NumberView::Float(float) => float.bits,
    }
}

/// Whether a number is a float that is not a number.
pub open spec fn is_not_a_number(number: NumberView) -> bool {
    number matches NumberView::Float(float) && json::is_nan(float.bits)
}

/// How two numbers stand to each other: integers by their value, others by their
/// floating-point value.
pub open spec fn number_order(a: NumberView, b: NumberView) -> Result<JsonOrder, GraphErrorView> {
    match (a, b) {
        (NumberView::Int(x), NumberView::Int(y)) => Ok(int_order(x, y)),
        _ => if json::is_nan(float_bits(a)) || json::is_nan(float_bits(b)) {
            Err(non_orderable())
        } else {
            Ok(int_order(json::float_key(float_bits(a)), json::float_key(float_bits(b))))
        },
    }
}

/// How two values stand to each other: two numbers or two texts.
pub open spec fn value_order(a: JsonView, b: JsonView) -> Result<JsonOrder, GraphErrorView> {
    match (a, b) {
        (JsonView::Number(x), JsonView::Number(y)) => number_order(x, y),
        (JsonView::Text(x), JsonView::Text(y)) => Ok(text_order(x, y)),
        _ => Err(non_orderable()),
    }
}

/// Where the kind of a value stands among the kinds.
pub open spec fn kind_rank(value: JsonView) -> int {
    match value {
        JsonView::Null => 0,
        JsonView::Bool(_) => 1,
        JsonView::Number(_) => 2,
        JsonView::Text(_) => 3,
        JsonView::Array(_) => 4,
        JsonView::Object(_) => 5,
    }
}

/// How any two values stand to each other: where they have no order of their own,
/// by their kind and then by their text.
pub open spec fn total_order(a: JsonView, b: JsonView) -> JsonOrder {
    match value_order(a, b) {
        Ok(order) => order,
        Err(_) => if kind_rank(a) != kind_rank(b) {
            int_order(kind_rank(a), kind_rank(b))
        } else {
            text_order(json_text(a), json_text(b))
        },
    }
}

/// Swapping two values flips their order.
pub proof fn lemma_total_order_flips(a: JsonView, b: JsonView)
    ensures
        total_order(b, a) == total_order(a, b).flipped(),
{
    lemma_text_order_flips(json_text(a), json_text(b));
    if let (JsonView::Text(x), JsonView::Text(y)) = (a, b) {
        lemma_text_order_flips(x, y);
    }
}

proof fn lemma_text_order_flips(a: Seq<char>, b: Seq<char>)
    ensures
        text_order(b, a) == text_order(a, b).flipped(),
{
    names::lemma_names_compare(a, b);
}

/// The error of values that have no order.
fn non_orderable_error() -> (error: GraphError)
    ensures
        error@ == non_orderable(),
{
    GraphError::GqlExecution {
        reason: owned("GQL ordered comparisons require both operands to be numbers or strings"),
    }
}

fn order_ints(a: i128, b: i128) -> (order: JsonOrder)
    ensures
        order == int_order(a as int, b as int),
{
    if a < b {
        JsonOrder::Less
    } else if a == b {
        JsonOrder::Equal
    } else {
        JsonOrder::Greater
    }
}

fn order_texts(a: &str, b: &str) -> (order: JsonOrder)
    ensures
        order == text_order(a@, b@),
{
    if precedes(a, b) {
        JsonOrder::Less
    } else if same_text(a, b) {
        JsonOrder::Equal
    } else {
        JsonOrder::Greater
    }
}

fn bits_of(number: &JsonNumber) -> (bits: Option<u64>)
    ensures
        bits == Some(float_bits(number@)),
        number@ is Int ==> !json::is_nan(float_bits(number@)),
{
    match number {
        JsonNumber::Int(value) => integer_as_float(*value as i128),
        JsonNumber::UInt(value) => integer_as_float(*value as i128),
        JsonNumber::Float(value) => Some(value.bits),
    }
}

/// How two numbers stand to each other. Only a float that is not a number has no
/// place among the others.
pub fn order_numbers(lhs: &JsonNumber, rhs: &JsonNumber) -> (result: GraphResult<JsonOrder>)
    ensures
        match number_order(lhs@, rhs@) {
            Ok(order) => result == Ok::<JsonOrder, GraphError>(order),
            Err(error) => result matches Err(given) && given@ == error,
        },
        result is Err <==> is_not_a_number(lhs@) || is_not_a_number(rhs@),
{
    match (json::wide_integer(lhs), json::wide_integer(rhs)) {
        (Some(a), Some(b)) => {
            return Ok(order_ints(a, b));
        },
        _ => {},
    }
    match (bits_of(lhs), bits_of(rhs)) {
        (Some(a), Some(b)) => if json::nan_bits(a) || json::nan_bits(b) {
            Err(non_orderable_error())
        } else {
            Ok(
                order_ints(
                    json::key_of_float(a) as i128,
                    json::key_of_float(b) as i128,
                ),
            )
        },
        _ => Err(non_orderable_error()),
    }
}

/// How two values stand to each other: two numbers or two texts.
pub fn ordered(lhs: &Json, rhs: &Json) -> (result: GraphResult<JsonOrder>)
    ensures
        match value_order(lhs@, rhs@) {
            Ok(order) => result == Ok::<JsonOrder, GraphError>(order),
            Err(error) => result matches Err(given) && given@ == error,
        },
{
    match (lhs, rhs) {
        (Json::Number(a), Json::Number(b)) => order_numbers(a, b),
        (Json::Text(a), Json::Text(b)) => Ok(order_texts(a.as_str(), b.as_str())),
        _ => Err(non_orderable_error()),
    }
}

/// Where the kind of a value stands among the kinds.
fn json_rank(value: &Json) -> (rank: u8)
    ensures
        rank == kind_rank(value@),
{
    match value {
        Json::Null => 0,
        Json::Bool(_) => 1,
        Json::Number(_) => 2,
        Json::Text(_) => 3,
        Json::Array(_) => 4,
        Json::Object(_) => 5,
    }
}

/// How any two values stand to each other.
pub fn total_json_order(lhs: &Json, rhs: &Json) -> (order: JsonOrder)
    ensures
        order == total_order(lhs@, rhs@),
{
    match ordered(lhs, rhs) {
        Ok(order) => order,
        Err(_) => {
            let a: u8 = json_rank(lhs);
            let b: u8 = json_rank(rhs);
            if a != b {
                order_ints(a as i128, b as i128)
            } else {
                let x: String = to_text(lhs);
                let y: String = to_text(rhs);
                order_texts(x.as_str(), y.as_str())
            }
        },
    }
}

} // verus!
