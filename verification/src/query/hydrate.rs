//! Source rows that queries read values from.
use vstd::prelude::*;
use vstd::string::StrSliceExecFns;

use crate::query::json::{self, get_member, Json, JsonView};
use crate::query::names::{self, precedes, NameMap};
use crate::text::same_text;

verus! {

/// Query parameters supplied by callers.
pub type QueryParams = NameMap<Json>;

/// A source row with its coordinate.
#[derive(Debug, PartialEq, Eq)]
pub struct HydratedRow {
    /// Backing source table OID.
    pub table_oid: u32,
    /// Source row primary-key text.
    pub node_id: String,
    /// The row.
    pub row: Json,
}

/// Source rows by coordinate.
#[derive(Debug, PartialEq, Eq)]
pub struct HydratedRows {
    /// Rows by table and primary key, ascending.
    pub rows: Vec<HydratedRow>,
}

/// The coordinate of a source row.
pub open spec fn row_key(row: HydratedRow) -> (u32, Seq<char>) {
    (row.table_oid, row.node_id@)
}

/// Whether a coordinate comes before another.
pub open spec fn key_before(a: (u32, Seq<char>), b: (u32, Seq<char>)) -> bool {
    a.0 < b.0 || (a.0 == b.0 && names::name_before(a.1, b.1))
}

/// Whether row `i` has a coordinate.
pub open spec fn row_at(rows: Seq<HydratedRow>, key: (u32, Seq<char>), i: int) -> bool {
    0 <= i < rows.len() && row_key(rows[i]) == key
}

/// The rows by coordinate.
pub open spec fn row_map(rows: Seq<HydratedRow>) -> Map<(u32, Seq<char>), JsonView> {
    Map::new(
        |key: (u32, Seq<char>)| exists|i: int| row_at(rows, key, i),
        |key: (u32, Seq<char>)| rows[choose|i: int| row_at(rows, key, i)].row@,
    )
}

impl View for HydratedRows {
    type V = Map<(u32, Seq<char>), JsonView>;

    open spec fn view(&self) -> Map<(u32, Seq<char>), JsonView> {
        row_map(self.rows@)
    }
}

proof fn lemma_keys_compare(a: (u32, Seq<char>), b: (u32, Seq<char>))
    ensures
        key_before(a, b) ==> !key_before(b, a) && a != b,
        !key_before(a, b) && !key_before(b, a) ==> a == b,
{
    names::lemma_names_compare(a.1, b.1);
}

proof fn lemma_keys_transitive(a: (u32, Seq<char>), b: (u32, Seq<char>), c: (u32, Seq<char>))
    requires
        key_before(a, b),
        key_before(b, c),
    ensures
        key_before(a, c),
{
    if a.0 == b.0 && b.0 == c.0 {
        names::lemma_names_transitive(a.1, b.1, c.1);
    }
}

impl HydratedRows {
    /// Whether the rows are in order, none twice.
    pub open spec fn wf(&self) -> bool {
        forall|i: int, j: int|
            0 <= i < j < self.rows@.len() ==> key_before(
                row_key(#[trigger] self.rows@[i]),
                row_key(#[trigger] self.rows@[j]),
            )
    }

    proof fn lemma_row(&self, i: int)
        requires
            self.wf(),
            0 <= i < self.rows@.len(),
        ensures
            self@.contains_key(row_key(self.rows@[i])),
            self@[row_key(self.rows@[i])] == self.rows@[i].row@,
    {
        let key = row_key(self.rows@[i]);
        assert(row_at(self.rows@, key, i));
        let j = choose|j: int| row_at(self.rows@, key, j);
        if i != j {
            lemma_keys_compare(key, key);
            if i < j {
                assert(key_before(row_key(self.rows@[i]), row_key(self.rows@[j])));
            } else {
                assert(key_before(row_key(self.rows@[j]), row_key(self.rows@[i])));
            }
        }
    }

    /// No rows.
    pub fn new() -> (rows: HydratedRows)
        ensures
            rows.wf(),
            rows@ == Map::<(u32, Seq<char>), JsonView>::empty(),
    {
        let rows: HydratedRows = HydratedRows { rows: Vec::new() };
        assert(rows@ =~= Map::<(u32, Seq<char>), JsonView>::empty());
        rows
    }

    fn place(&self, table_oid: u32, node_id: &str) -> (at: usize)
        requires
            self.wf(),
        ensures
            at <= self.rows@.len(),
            forall|j: int|
                0 <= j < at ==> key_before(
                    row_key(#[trigger] self.rows@[j]),
                    (table_oid, node_id@),
                ),
            forall|j: int|
                at <= j < self.rows@.len() ==> !key_before(
                    row_key(#[trigger] self.rows@[j]),
                    (table_oid, node_id@),
                ),
    {
        let mut low: usize = 0;
        let mut high: usize = self.rows.len();
        let ghost key = (table_oid, node_id@);
        while low < high
            invariant
                self.wf(),
                key == (table_oid, node_id@),
                low <= high <= self.rows@.len(),
                forall|j: int| 0 <= j < low ==> key_before(row_key(#[trigger] self.rows@[j]), key),
                forall|j: int|
                    high <= j < self.rows@.len() ==> !key_before(
                        row_key(#[trigger] self.rows@[j]),
                        key,
                    ),
            decreases high - low,
        {
            let middle: usize = low + (high - low) / 2;
            let row: &HydratedRow = &self.rows[middle];
            let ghost found = row_key(self.rows@[middle as int]);
            if row.table_oid < table_oid || (row.table_oid == table_oid && precedes(
                row.node_id.as_str(),
                node_id,
            )) {
                assert forall|j: int| 0 <= j < middle + 1 implies key_before(
                    row_key(#[trigger] self.rows@[j]),
                    key,
                ) by {
                    if j < middle {
                        lemma_keys_transitive(row_key(self.rows@[j]), found, key);
                    }
                }
                low = middle + 1;
            } else {
                assert forall|j: int| middle <= j < self.rows@.len() implies !key_before(
                    row_key(#[trigger] self.rows@[j]),
                    key,
                ) by {
                    if j > middle && key_before(row_key(self.rows@[j]), key) {
                        lemma_keys_transitive(found, row_key(self.rows@[j]), key);
                    }
                }
                high = middle;
            }
        }
        low
    }

    /// The row of a coordinate.
    pub fn get(&self, table_oid: u32, node_id: &str) -> (row: Option<&Json>)
        requires
            self.wf(),
        ensures
            match row {
                Some(row) => self@.contains_key((table_oid, node_id@)) && self@[(
                    table_oid,
                    node_id@,
                )] == row@,
                None => !self@.contains_key((table_oid, node_id@)),
            },
    {
        let at: usize = self.place(table_oid, node_id);
        let ghost key = (table_oid, node_id@);
        if at < self.rows.len() && self.rows[at].table_oid == table_oid && same_text(
            self.rows[at].node_id.as_str(),
            node_id,
        ) {
            proof {
                self.lemma_row(at as int);
            }
            return Some(&self.rows[at].row);
        }
        proof {
            if self@.contains_key(key) {
                let i = choose|i: int| row_at(self.rows@, key, i);
                lemma_keys_compare(key, key);
                if i > at {
                    assert(key_before(row_key(self.rows@[at as int]), row_key(self.rows@[i])));
                }
            }
        }
        None
    }

    /// Set the row of a coordinate.
    pub fn insert(&mut self, table_oid: u32, node_id: String, row: Json)
        requires
            old(self).wf(),
        ensures
            final(self).wf(),
            final(self)@ == old(self)@.insert((table_oid, node_id@), row@),
    {
        let at: usize = self.place(table_oid, node_id.as_str());
        let ghost key = (table_oid, node_id@);
        let ghost before = *self;
        let ghost value = row@;
        if at < self.rows.len() && self.rows[at].table_oid == table_oid && same_text(
            self.rows[at].node_id.as_str(),
            node_id.as_str(),
        ) {
            let entry: HydratedRow = HydratedRow { table_oid, node_id, row };
            self.rows.set(at, entry);
            proof {
                assert(row_key(self.rows@[at as int]) == key);
                assert forall|i: int, j: int| 0 <= i < j < self.rows@.len() implies key_before(
                    row_key(#[trigger] self.rows@[i]),
                    row_key(#[trigger] self.rows@[j]),
                ) by {
                    assert(key_before(row_key(before.rows@[i]), row_key(before.rows@[j])));
                }
                assert forall|k: (u32, Seq<char>)|
                    #![trigger self@.contains_key(k)]
                    #![trigger self@[k]]
                    {
                        &&& self@.contains_key(k) <==> before@.insert(key, value).contains_key(k)
                        &&& self@.contains_key(k) ==> self@[k] == before@.insert(key, value)[k]
                    } by {
                    if self@.contains_key(k) {
                        let i = choose|i: int| row_at(self.rows@, k, i);
                        self.lemma_row(i);
                        before.lemma_row(i);
                    }
                    if before@.contains_key(k) {
                        let i = choose|i: int| row_at(before.rows@, k, i);
                        self.lemma_row(i);
                    }
                    self.lemma_row(at as int);
                }
                assert(self@ =~= before@.insert(key, value));
            }
            return;
        }
        proof {
            if at < before.rows@.len() {
                lemma_keys_compare(row_key(before.rows@[at as int]), key);
            }
        }
        let entry: HydratedRow = HydratedRow { table_oid, node_id, row };
        self.rows.insert(at, entry);
        proof {
            assert(row_key(self.rows@[at as int]) == key);
            assert forall|i: int, j: int| 0 <= i < j < self.rows@.len() implies key_before(
                row_key(#[trigger] self.rows@[i]),
                row_key(#[trigger] self.rows@[j]),
            ) by {
                if i < at && j > at {
                    assert(key_before(row_key(before.rows@[i]), row_key(before.rows@[j - 1])));
                } else if i < at && j < at {
                    assert(key_before(row_key(before.rows@[i]), row_key(before.rows@[j])));
                } else if i > at {
                    assert(key_before(row_key(before.rows@[i - 1]), row_key(before.rows@[j - 1])));
                } else if i == at && j - 1 > at {
                    assert(key_before(row_key(before.rows@[at as int]), row_key(before.rows@[j - 1])));
                    lemma_keys_transitive(
                        key,
                        row_key(before.rows@[at as int]),
                        row_key(before.rows@[j - 1]),
                    );
                }
            }
            assert forall|k: (u32, Seq<char>)|
                #![trigger self@.contains_key(k)]
                #![trigger self@[k]]
                {
                    &&& self@.contains_key(k) <==> before@.insert(key, value).contains_key(k)
                    &&& self@.contains_key(k) ==> self@[k] == before@.insert(key, value)[k]
                } by {
                self.lemma_row(at as int);
                if before@.contains_key(k) {
                    let i = choose|i: int| row_at(before.rows@, k, i);
                    before.lemma_row(i);
                    let moved = if i < at {
                        i
                    } else {
                        i + 1
                    };
                    assert(self.rows@[moved] == before.rows@[i]);
                    self.lemma_row(moved);
                }
                if self@.contains_key(k) {
                    let i = choose|i: int| row_at(self.rows@, k, i);
                    self.lemma_row(i);
                    if i != at {
                        let moved = if i < at {
                            i
                        } else {
                            i - 1
                        };
                        assert(self.rows@[i] == before.rows@[moved]);
                        before.lemma_row(moved);
                    }
                }
            }
            assert(self@ =~= before@.insert(key, value));
        }
    }
}

// ---------------------------------------------------------------------------
// Properties
// ---------------------------------------------------------------------------

/// The position of the first dot from `from` on.
pub open spec fn dot_from(path: Seq<char>, from: int) -> Option<int>
    decreases path.len() - from,
{
    if from >= path.len() {
        None
    } else if path[from] == '.' {
        Some(from)
    } else {
        dot_from(path, from + 1)
    }
}

/// The value of a property: the member of that name, and where there is none, for a
/// dotted name, the property after the dot of the member before it.
pub open spec fn property_of(value: JsonView, path: Seq<char>) -> Option<JsonView>
    decreases path.len(),
{
    match json::member(value, path) {
        Some(found) => Some(found),
        None => match dot_from(path, 0) {
            Some(at) => if 0 <= at < path.len() {
                match json::member(value, path.subrange(0, at)) {
                    Some(inner) => property_of(
                        inner,
                        path.subrange(at + 1, path.len() as int),
                    ),
                    None => None,
                }
            } else {
                None
            },
            None => None,
        },
    }
}

fn first_dot(path: &str) -> (at: Option<usize>)
    ensures
        match at {
            Some(at) => dot_from(path@, 0) == Some(at as int) && at < path@.len(),
            None => dot_from(path@, 0) is None,
        },
{
    let len: usize = path.unicode_len();
    for i in 0..len
        invariant
            len == path@.len(),
            dot_from(path@, i as int) == dot_from(path@, 0),
    {
        if path.get_char(i) == '.' {
            return Some(i);
        }
    }
    None
}

/// The value of a property.
pub fn property_value<'a>(value: &'a Json, path: &str) -> (found: Option<&'a Json>)
    ensures
        (match found {
            Some(inner) => Some(inner@),
            None => None,
        }) == property_of(value@, path@),
    decreases path@.len(),
{
    match get_member(value, path) {
        Some(found) => Some(found),
        None => match first_dot(path) {
            Some(at) => {
                let len: usize = path.unicode_len();
                match get_member(value, path.substring_char(0, at)) {
                    Some(inner) => property_value(inner, path.substring_char(at + 1, len)),
                    None => None,
                }
            },
            None => None,
        },
    }
}

} // verus!
