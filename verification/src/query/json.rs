//! JSON values of queries.
use vstd::prelude::*;

use crate::query::logical_plan::{Scalar, ScalarView};
use crate::query::names::{self, precedes};
use crate::text::same_text;
use crate::types::{Binary64, Binary64View};
use crate::views;

verus! {

// ---------------------------------------------------------------------------
// Values
// ---------------------------------------------------------------------------

/// JSON number.
#[derive(Debug, Clone, PartialEq, Eq)]
pub enum JsonNumber {
    /// Signed integer.
    Int(i64),
    /// Unsigned integer.
    UInt(u64),
    /// Floating-point number.
    Float(Binary64),
}

/// What a number holds.
#[verifier::ext_equal]
pub enum NumberView {
    Int(int),
    Float(Binary64View),
}

impl View for JsonNumber {
    type V = NumberView;

    open spec fn view(&self) -> NumberView {
        match self {
            JsonNumber::Int(value) => NumberView::Int(*value as int),
            JsonNumber::UInt(value) => NumberView::Int(*value as int),
            JsonNumber::Float(value) => NumberView::Float(value@),
        }
    }
}

/// JSON value. An object holds its entries by key, as `in_key_order` says.
#[derive(Debug, PartialEq, Eq)]
pub enum Json {
    /// Null.
    Null,
    /// Boolean.
    Bool(bool),
    /// Number.
    Number(JsonNumber),
    /// Text.
    Text(String),
    /// Array.
    Array(Vec<Json>),
    /// Object.
    Object(Vec<(String, Json)>),
}

/// What a value holds.
pub enum JsonView {
    Null,
    Bool(bool),
    Number(NumberView),
    Text(Seq<char>),
    Array(Seq<JsonView>),
    Object(Seq<(Seq<char>, JsonView)>),
}

/// What a value holds.
pub open spec fn json_view(value: Json) -> JsonView
    decreases value,
{
    match value {
        Json::Null => JsonView::Null,
        Json::Bool(inner) => JsonView::Bool(inner),
        Json::Number(inner) => JsonView::Number(inner@),
        Json::Text(inner) => JsonView::Text(inner@),
        Json::Array(items) => JsonView::Array(
            Seq::new(
                items@.len(),
                |i: int|
                    if 0 <= i < items@.len() {
                        json_view(items@[i])
                    } else {
                        JsonView::Null
                    },
            ),
        ),
        Json::Object(entries) => JsonView::Object(
            Seq::new(
                entries@.len(),
                |i: int|
                    if 0 <= i < entries@.len() {
                        (entries@[i].0@, json_view(entries@[i].1))
                    } else {
                        (Seq::empty(), JsonView::Null)
                    },
            ),
        ),
    }
}

/// Whether the keys of entries ascend, so that each stands once.
pub open spec fn keys_ascend(entries: Seq<(Seq<char>, JsonView)>) -> bool {
    forall|i: int, j: int|
        0 <= i < j < entries.len() ==> names::name_before(
            (#[trigger] entries[i]).0,
            (#[trigger] entries[j]).0,
        )
}

/// Whether every object in a value holds its entries by key, ascending, each key once.
pub open spec fn in_key_order(value: JsonView) -> bool
    decreases value,
{
    match value {
        JsonView::Array(items) => forall|i: int|
            0 <= i < items.len() ==> in_key_order(#[trigger] items[i]),
        JsonView::Object(entries) => keys_ascend(entries) && forall|i: int|
            #![trigger entries[i]]
            0 <= i < entries.len() ==> in_key_order(entries[i].1),
        _ => true,
    }
}

impl View for Json {
    type V = JsonView;

    open spec fn view(&self) -> JsonView {
        json_view(*self)
    }
}

/// What an entry of an object holds.
pub open spec fn entry_view(entry: (String, Json)) -> (Seq<char>, JsonView) {
    (entry.0@, entry.1@)
}

/// What the entries of an object hold.
pub open spec fn entry_views(entries: Seq<(String, Json)>) -> Seq<(Seq<char>, JsonView)> {
    entries.map_values(|entry: (String, Json)| entry_view(entry))
}

/// An array holds the views of its items.
pub proof fn lemma_array_view(items: Vec<Json>)
    ensures
        Json::Array(items)@ == JsonView::Array(views::views(items@)),
{
    let inner = json_view(Json::Array(items));
    assert(inner->Array_0 =~= views::views(items@));
}

/// An object holds the views of its entries.
pub proof fn lemma_object_view(entries: Vec<(String, Json)>)
    ensures
        Json::Object(entries)@ == JsonView::Object(entry_views(entries@)),
{
    let inner = json_view(Json::Object(entries));
    assert(inner->Object_0 =~= entry_views(entries@));
}

impl JsonNumber {
    /// A copy of the number.
    pub fn duplicate(&self) -> (copy: JsonNumber)
        ensures
            copy@ == self@,
    {
        match self {
            JsonNumber::Int(value) => JsonNumber::Int(*value),
            JsonNumber::UInt(value) => JsonNumber::UInt(*value),
            JsonNumber::Float(value) => JsonNumber::Float(value.duplicate()),
        }
    }
}

/// A copy of a value.
pub fn duplicate_json(value: &Json) -> (copy: Json)
    ensures
        copy@ == value@,
    decreases *value,
{
    match value {
        Json::Null => Json::Null,
        Json::Bool(inner) => Json::Bool(*inner),
        Json::Number(inner) => Json::Number(inner.duplicate()),
        Json::Text(inner) => Json::Text(inner.clone()),
        Json::Array(items) => {
            let mut copies: Vec<Json> = Vec::new();
            for i in 0..items.len()
                invariant
                    *value == Json::Array(*items),
                    copies@.len() == i,
                    forall|j: int| 0 <= j < i ==> (#[trigger] copies@[j])@ == items@[j]@,
            {
                assert(decreases_to!(*value => value->Array_0));
                assert(decreases_to!(*items => items@));
                assert(decreases_to!(items@ => items@[i as int]));
                copies.push(duplicate_json(&items[i]));
            }
            proof {
                lemma_array_view(copies);
                lemma_array_view(*items);
                assert(views::views(copies@) =~= views::views(items@));
            }
            Json::Array(copies)
        },
        Json::Object(entries) => {
            let mut copies: Vec<(String, Json)> = Vec::new();
            for i in 0..entries.len()
                invariant
                    *value == Json::Object(*entries),
                    copies@.len() == i,
                    forall|j: int|
                        0 <= j < i ==> entry_view(#[trigger] copies@[j]) == entry_view(entries@[j]),
            {
                let key: String = entries[i].0.clone();
                assert(decreases_to!(*value => value->Object_0));
                assert(decreases_to!(*entries => entries@));
                assert(decreases_to!(entries@ => entries@[i as int]));
                assert(decreases_to!(entries@[i as int] => entries@[i as int].1));
                copies.push((key, duplicate_json(&entries[i].1)));
            }
            proof {
                lemma_object_view(copies);
                lemma_object_view(*entries);
                assert(entry_views(copies@) =~= entry_views(entries@));
            }
            Json::Object(copies)
        },
    }
}

/// The value of a scalar.
pub open spec fn scalar_json(scalar: ScalarView) -> JsonView {
    match scalar {
        ScalarView::Null => JsonView::Null,
        ScalarView::Bool(inner) => JsonView::Bool(inner),
        ScalarView::Int(inner) => JsonView::Number(NumberView::Int(inner as int)),
        ScalarView::Float(inner) => JsonView::Number(NumberView::Float(inner)),
        ScalarView::Text(inner) => JsonView::Text(inner),
    }
}

/// The value of a scalar.
pub fn json_of_scalar(scalar: &Scalar) -> (value: Json)
    ensures
        value@ == scalar_json(scalar@),
{
    match scalar {
        Scalar::Null => Json::Null,
        Scalar::Bool(inner) => Json::Bool(*inner),
        Scalar::Int(inner) => Json::Number(JsonNumber::Int(*inner)),
        Scalar::Float(inner) => Json::Number(JsonNumber::Float(inner.duplicate())),
        Scalar::Text(inner) => Json::Text(inner.clone()),
    }
}

/// The array of scalars.
pub open spec fn scalars_json(scalars: Seq<ScalarView>) -> JsonView {
    JsonView::Array(scalars.map_values(|scalar: ScalarView| scalar_json(scalar)))
}

/// The array of scalars.
pub fn json_of_scalars(scalars: &Vec<Scalar>) -> (value: Json)
    ensures
        value@ == scalars_json(views::views(scalars@)),
{
    let mut items: Vec<Json> = Vec::new();
    for i in 0..scalars.len()
        invariant
            items@.len() == i,
            forall|j: int| 0 <= j < i ==> (#[trigger] items@[j])@ == scalar_json(scalars@[j]@),
    {
        items.push(json_of_scalar(&scalars[i]));
    }
    proof {
        lemma_array_view(items);
        assert(views::views(items@) =~= views::views(scalars@).map_values(
            |scalar: ScalarView| scalar_json(scalar),
        ));
    }
    Json::Array(items)
}

// ---------------------------------------------------------------------------
// Objects
// ---------------------------------------------------------------------------

/// The value of the first entry from `from` on with a key.
pub open spec fn entry_from(entries: Seq<(Seq<char>, JsonView)>, key: Seq<char>, from: int) -> Option<
    JsonView,
>
    decreases entries.len() - from,
{
    if from >= entries.len() {
        None
    } else if entries[from].0 == key {
        Some(entries[from].1)
    } else {
        entry_from(entries, key, from + 1)
    }
}

/// The member of a value, where it is an object that has it.
pub open spec fn member(value: JsonView, key: Seq<char>) -> Option<JsonView> {
    match value {
        JsonView::Object(entries) => entry_from(entries, key, 0),
        _ => None,
    }
}

/// The member of a value, where it is an object that has it.
pub fn get_member<'a>(value: &'a Json, key: &str) -> (found: Option<&'a Json>)
    ensures
        (match found {
            Some(inner) => Some(inner@),
            None => None,
        }) == member(value@, key@),
{
    match value {
        Json::Object(entries) => {
            proof {
                lemma_object_view(*entries);
            }
            for i in 0..entries.len()
                invariant
                    entry_from(entry_views(entries@), key@, i as int) == entry_from(
                        entry_views(entries@),
                        key@,
                        0,
                    ),
                    value@ == JsonView::Object(entry_views(entries@)),
            {
                assert(entry_views(entries@)[i as int] == entry_view(entries@[i as int]));
                if same_text(entries[i].0.as_str(), key) {
                    return Some(&entries[i].1);
                }
            }
            None
        },
        _ => None,
    }
}

/// Where a key stands among the entries from `from` on: at its own entry, or before
/// the first entry with a greater key.
pub open spec fn entry_place(entries: Seq<(Seq<char>, JsonView)>, key: Seq<char>, from: int) -> int
    decreases entries.len() - from,
{
    if from >= entries.len() || !names::name_before(entries[from].0, key) {
        from
    } else {
        entry_place(entries, key, from + 1)
    }
}

/// The entries with a key set to a value.
pub open spec fn with_entry(
    entries: Seq<(Seq<char>, JsonView)>,
    key: Seq<char>,
    value: JsonView,
) -> Seq<(Seq<char>, JsonView)> {
    let at = entry_place(entries, key, 0);
    if at < entries.len() && entries[at].0 == key {
        entries.update(at, (key, value))
    } else {
        entries.insert(at, (key, value))
    }
}

/// Set a key of an object to a value.
pub fn set_entry(entries: &mut Vec<(String, Json)>, key: String, value: Json)
    ensures
        entry_views(final(entries)@) == with_entry(entry_views(old(entries)@), key@, value@),
{
    let ghost before = entry_views(entries@);
    let mut at: usize = 0;
    while at < entries.len() && precedes(entries[at].0.as_str(), key.as_str())
        invariant
            at <= entries.len(),
            before == entry_views(entries@),
            entry_place(before, key@, at as int) == entry_place(before, key@, 0),
        decreases entries.len() - at,
    {
        assert(before[at as int] == entry_view(entries@[at as int]));
        at = at + 1;
    }
    proof {
        if at < entries@.len() {
            assert(before[at as int] == entry_view(entries@[at as int]));
        }
    }
    if at < entries.len() && same_text(entries[at].0.as_str(), key.as_str()) {
        let ghost entry = (key, value);
        entries.set(at, (key, value));
        assert(entry_views(entries@) =~= before.update(at as int, entry_view(entry)));
    } else {
        let ghost entry = (key, value);
        entries.insert(at, (key, value));
        assert(entry_views(entries@) =~= before.insert(at as int, entry_view(entry)));
    }
}

// ---------------------------------------------------------------------------
// Equality
// ---------------------------------------------------------------------------

/// Where a floating-point number stands among the others: by its magnitude, and
/// before zero where its sign bit is set.
pub open spec fn float_key(bits: u64) -> int {
    let magnitude = bits as int % 0x8000_0000_0000_0000;
    if bits >= 0x8000_0000_0000_0000 {
        -magnitude
    } else {
        magnitude
    }
}

/// Whether binary64 bits are those of no number.
pub open spec fn is_nan(bits: u64) -> bool {
    bits as int % 0x8000_0000_0000_0000 > 0x7ff0_0000_0000_0000
}

/// Whether two numbers are the same: an integer never is a floating-point number.
pub open spec fn same_number(a: NumberView, b: NumberView) -> bool {
    match (a, b) {
        (NumberView::Int(x), NumberView::Int(y)) => x == y,
        (NumberView::Float(x), NumberView::Float(y)) => !is_nan(x.bits) && !is_nan(y.bits)
            && float_key(x.bits) == float_key(y.bits),
        _ => false,
    }
}

/// Whether two values are the same.
pub open spec fn same_json(a: JsonView, b: JsonView) -> bool
    decreases a,
{
    match (a, b) {
        (JsonView::Null, JsonView::Null) => true,
        (JsonView::Bool(x), JsonView::Bool(y)) => x == y,
        (JsonView::Number(x), JsonView::Number(y)) => same_number(x, y),
        (JsonView::Text(x), JsonView::Text(y)) => x == y,
        (JsonView::Array(x), JsonView::Array(y)) => x.len() == y.len() && forall|i: int|
            0 <= i < x.len() ==> same_json(#[trigger] x[i], y[i]),
        (JsonView::Object(x), JsonView::Object(y)) => x.len() == y.len() && forall|i: int|
            #![trigger x[i]]
            0 <= i < x.len() ==> x[i].0 == y[i].0 && same_json(x[i].1, y[i].1),
        _ => false,
    }
}

pub fn key_of_float(bits: u64) -> (key: i64)
    ensures
        key == float_key(bits),
{
    let magnitude: u64 = bits % 0x8000_0000_0000_0000;
    if bits >= 0x8000_0000_0000_0000 {
        -(magnitude as i64)
    } else {
        magnitude as i64
    }
}

pub fn nan_bits(bits: u64) -> (found: bool)
    ensures
        found == is_nan(bits),
{
    bits % 0x8000_0000_0000_0000 > 0x7ff0_0000_0000_0000
}

/// The integer of a number.
pub fn wide_integer(number: &JsonNumber) -> (value: Option<i128>)
    ensures
        match number@ {
            NumberView::Int(n) => value matches Some(v) && v == n,
            NumberView::Float(_) => value is None,
        },
{
    match number {
        JsonNumber::Int(value) => Some(*value as i128),
        JsonNumber::UInt(value) => Some(*value as i128),
        JsonNumber::Float(_) => None,
    }
}

fn equal_numbers(a: &JsonNumber, b: &JsonNumber) -> (same: bool)
    ensures
        same == same_number(a@, b@),
{
    match (a, b) {
        (JsonNumber::Float(x), JsonNumber::Float(y)) => !nan_bits(x.bits) && !nan_bits(y.bits)
            && key_of_float(x.bits) == key_of_float(y.bits),
        _ => match (wide_integer(a), wide_integer(b)) {
            (Some(x), Some(y)) => x == y,
            _ => false,
        },
    }
}

/// Whether two values are the same.
pub fn equal_json(a: &Json, b: &Json) -> (same: bool)
    ensures
        same == same_json(a@, b@),
    decreases *a,
{
    match (a, b) {
        (Json::Null, Json::Null) => true,
        (Json::Bool(x), Json::Bool(y)) => *x == *y,
        (Json::Number(x), Json::Number(y)) => equal_numbers(x, y),
        (Json::Text(x), Json::Text(y)) => same_text(x.as_str(), y.as_str()),
        (Json::Array(x), Json::Array(y)) => {
            proof {
                lemma_array_view(*x);
                lemma_array_view(*y);
            }
            if x.len() != y.len() {
                return false;
            }
            for i in 0..x.len()
                invariant
                    *a == Json::Array(*x),
                    x@.len() == y@.len(),
                    a@ == JsonView::Array(views::views(x@)),
                    b@ == JsonView::Array(views::views(y@)),
                    forall|j: int|
                        0 <= j < i ==> same_json(
                            #[trigger] views::views(x@)[j],
                            views::views(y@)[j],
                        ),
            {
                assert(views::views(x@)[i as int] == x@[i as int]@);
                assert(views::views(y@)[i as int] == y@[i as int]@);
                if !equal_json(&x[i], &y[i]) {
                    assert(!same_json(views::views(x@)[i as int], views::views(y@)[i as int]));
                    return false;
                }
            }
            true
        },
        (Json::Object(x), Json::Object(y)) => {
            proof {
                lemma_object_view(*x);
                lemma_object_view(*y);
            }
            if x.len() != y.len() {
                return false;
            }
            let ghost xs = entry_views(x@);
            let ghost ys = entry_views(y@);
            for i in 0..x.len()
                invariant
                    *a == Json::Object(*x),
                    x@.len() == y@.len(),
                    xs == entry_views(x@),
                    ys == entry_views(y@),
                    a@ == JsonView::Object(xs),
                    b@ == JsonView::Object(ys),
                    forall|j: int|
                        #![trigger xs[j]]
                        0 <= j < i ==> xs[j].0 == ys[j].0 && same_json(xs[j].1, ys[j].1),
            {
                assert(xs[i as int] == entry_view(x@[i as int]));
                assert(ys[i as int] == entry_view(y@[i as int]));
                if !same_text(x[i].0.as_str(), y[i].0.as_str()) || !equal_json(&x[i].1, &y[i].1) {
                    assert(!(xs[i as int].0 == ys[i as int].0 && same_json(
                        xs[i as int].1,
                        ys[i as int].1,
                    )));
                    return false;
                }
            }
            true
        },
        _ => false,
    }
}

} // verus!
