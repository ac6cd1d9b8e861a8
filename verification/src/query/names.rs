//! Sets and maps keyed by names, and the rules for names.
use vstd::prelude::*;
use vstd::string::StrSliceExecFns;

use crate::text::same_text;
use crate::views;

verus! {

// ---------------------------------------------------------------------------
// Rules for names
// ---------------------------------------------------------------------------

/// Whether a dotted name has a segment that is empty or starts with an
/// underscore.
pub open spec fn has_reserved_segment(name: Seq<char>) -> bool {
    exists|at: int| #[trigger] reserved_at(name, at)
}

/// Whether a segment starts at `at` that is empty or starts with an underscore.
pub open spec fn reserved_at(name: Seq<char>, at: int) -> bool {
    &&& 0 <= at <= name.len()
    &&& at == 0 || name[at - 1] == '.'
    &&& at == name.len() || name[at] == '.' || name[at] == '_'
}

/// Whether a dotted name has a segment that is empty or starts with an
/// underscore.
pub fn has_reserved(name: &str) -> (found: bool)
    ensures
        found == has_reserved_segment(name@),
{
    let len: usize = name.unicode_len();
    let mut starts: bool = true;
    for i in 0..len
        invariant
            len == name@.len(),
            starts == (i == 0 || name@[i - 1] == '.'),
            forall|at: int| 0 <= at < i ==> !reserved_at(name@, at),
    {
        let c: char = name.get_char(i);
        if starts && (c == '.' || c == '_') {
            assert(reserved_at(name@, i as int));
            return true;
        }
        starts = c == '.';
    }
    if starts {
        assert(reserved_at(name@, len as int));
    }
    starts
}

/// Whether a text has a character.
pub fn has_char(text: &str, wanted: char) -> (found: bool)
    ensures
        found == text@.contains(wanted),
{
    let len: usize = text.unicode_len();
    for i in 0..len
        invariant
            len == text@.len(),
            forall|j: int| 0 <= j < i ==> text@[j] != wanted,
    {
        if text.get_char(i) == wanted {
            assert(text@[i as int] == wanted);
            return true;
        }
    }
    false
}

/// Whether a text starts with a character.
pub open spec fn starts_with(text: Seq<char>, wanted: char) -> bool {
    text.len() > 0 && text[0] == wanted
}

/// Whether a text starts with a character.
pub fn begins_with(text: &str, wanted: char) -> (found: bool)
    ensures
        found == starts_with(text@, wanted),
{
    text.unicode_len() > 0 && text.get_char(0) == wanted
}

/// The character, or its lower case where it is an ASCII capital letter.
pub open spec fn lower_char(c: char) -> int {
    if 'A' <= c && c <= 'Z' {
        c as int + 32
    } else {
        c as int
    }
}

/// Whether two texts are equal up to the case of ASCII letters.
pub open spec fn same_ignoring_case(a: Seq<char>, b: Seq<char>) -> bool {
    a.len() == b.len() && forall|i: int|
        0 <= i < a.len() ==> lower_char(#[trigger] a[i]) == lower_char(b[i])
}

fn to_lower(c: char) -> (lower: u32)
    ensures
        lower == lower_char(c),
{
    if 'A' <= c && c <= 'Z' {
        c as u32 + 32
    } else {
        c as u32
    }
}

/// Whether two texts are equal up to the case of ASCII letters.
pub fn equal_ignoring_case(a: &str, b: &str) -> (same: bool)
    ensures
        same == same_ignoring_case(a@, b@),
{
    let len: usize = a.unicode_len();
    if len != b.unicode_len() {
        return false;
    }
    for i in 0..len
        invariant
            len == a@.len(),
            len == b@.len(),
            forall|j: int| 0 <= j < i ==> lower_char(#[trigger] a@[j]) == lower_char(b@[j]),
    {
        if to_lower(a.get_char(i)) != to_lower(b.get_char(i)) {
            assert(lower_char(a@[i as int]) != lower_char(b@[i as int]));
            return false;
        }
    }
    true
}

// ---------------------------------------------------------------------------
// Order of names
// ---------------------------------------------------------------------------

/// Whether a name comes before another one in character order.
pub open spec fn name_before(a: Seq<char>, b: Seq<char>) -> bool
    decreases a.len(),
{
    if b.len() == 0 {
        false
    } else if a.len() == 0 {
        true
    } else if a[0] != b[0] {
        a[0] < b[0]
    } else {
        name_before(a.skip(1), b.skip(1))
    }
}

/// Whether a name comes before another one in character order.
pub fn precedes(a: &str, b: &str) -> (before: bool)
    ensures
        before == name_before(a@, b@),
{
    let a_len: usize = a.unicode_len();
    let b_len: usize = b.unicode_len();
    let mut i: usize = 0;
    assert(a@.skip(0) =~= a@);
    assert(b@.skip(0) =~= b@);
    while i < a_len && i < b_len
        invariant
            a_len == a@.len(),
            b_len == b@.len(),
            i <= a_len,
            i <= b_len,
            name_before(a@, b@) == name_before(a@.skip(i as int), b@.skip(i as int)),
        decreases a_len - i,
    {
        let x: char = a.get_char(i);
        let y: char = b.get_char(i);
        assert(a@.skip(i as int).skip(1) =~= a@.skip(i + 1));
        assert(b@.skip(i as int).skip(1) =~= b@.skip(i + 1));
        if x != y {
            return x < y;
        }
        i = i + 1;
    }
    i < b_len
}

/// Of two names, either is before the other, or they are the same.
pub proof fn lemma_names_compare(a: Seq<char>, b: Seq<char>)
    ensures
        name_before(a, b) ==> !name_before(b, a) && a != b,
        !name_before(a, b) && !name_before(b, a) ==> a == b,
    decreases a.len(),
{
    if a.len() > 0 && b.len() > 0 && a[0] == b[0] {
        lemma_names_compare(a.skip(1), b.skip(1));
        if a.skip(1) == b.skip(1) {
            assert(a =~= seq![a[0]] + a.skip(1));
            assert(b =~= seq![b[0]] + b.skip(1));
        }
    } else if a.len() == 0 && b.len() == 0 {
        assert(a =~= b);
    }
}

/// The order of names is transitive.
pub proof fn lemma_names_transitive(a: Seq<char>, b: Seq<char>, c: Seq<char>)
    requires
        name_before(a, b),
        name_before(b, c),
    ensures
        name_before(a, c),
    decreases a.len(),
{
    if a.len() > 0 && a[0] == b[0] && b[0] == c[0] {
        lemma_names_transitive(a.skip(1), b.skip(1), c.skip(1));
    }
}

// ---------------------------------------------------------------------------
// Sets of names
// ---------------------------------------------------------------------------

/// A set of names, in order.
#[derive(Debug, Clone, PartialEq, Eq)]
pub struct NameSet {
    pub names: Vec<String>,
}

impl View for NameSet {
    type V = Seq<Seq<char>>;

    open spec fn view(&self) -> Seq<Seq<char>> {
        views::views(self.names@)
    }
}

/// Whether names are in order, none twice.
pub open spec fn ascending(names: Seq<Seq<char>>) -> bool {
    forall|i: int, j: int|
        0 <= i < j < names.len() ==> name_before(#[trigger] names[i], #[trigger] names[j])
}

/// Names in order that make up the same set are the same names.
pub proof fn lemma_ascending_unique(a: Seq<Seq<char>>, b: Seq<Seq<char>>)
    requires
        ascending(a),
        ascending(b),
        a.to_set() == b.to_set(),
    ensures
        a == b,
    decreases a.len(),
{
    if a.len() == 0 || b.len() == 0 {
        if a.len() > 0 {
            assert(a.to_set().contains(a[0]));
            assert(b.contains(a[0]));
        }
        if b.len() > 0 {
            assert(b.to_set().contains(b[0]));
            assert(a.contains(b[0]));
        }
        assert(a =~= b);
    } else {
        let x = a.last();
        let y = b.last();
        assert(a.to_set().contains(x));
        assert(b.to_set().contains(y));
        let i = choose|i: int| 0 <= i < b.len() && b[i] == x;
        let j = choose|j: int| 0 <= j < a.len() && a[j] == y;
        lemma_names_compare(x, y);
        lemma_names_compare(y, x);
        if i < b.len() - 1 {
            assert(name_before(b[i], b[b.len() - 1]));
        }
        if j < a.len() - 1 {
            assert(name_before(a[j], a[a.len() - 1]));
        }
        assert(x == y);
        let front_a = a.drop_last();
        let front_b = b.drop_last();
        assert(front_a.to_set() =~= front_b.to_set()) by {
            assert forall|name: Seq<char>| front_a.contains(name) implies front_b.contains(name) by {
                let k = choose|k: int| 0 <= k < front_a.len() && front_a[k] == name;
                assert(a[k] == name);
                assert(a.to_set().contains(name));
                let m = choose|m: int| 0 <= m < b.len() && b[m] == name;
                lemma_names_compare(a[k], x);
                assert(name_before(a[k], a[a.len() - 1]));
                assert(m < b.len() - 1);
                assert(front_b[m] == name);
            }
            assert forall|name: Seq<char>| front_b.contains(name) implies front_a.contains(name) by {
                let k = choose|k: int| 0 <= k < front_b.len() && front_b[k] == name;
                assert(b[k] == name);
                assert(b.to_set().contains(name));
                let m = choose|m: int| 0 <= m < a.len() && a[m] == name;
                lemma_names_compare(b[k], y);
                assert(name_before(b[k], b[b.len() - 1]));
                assert(m < a.len() - 1);
                assert(front_a[m] == name);
            }
        }
        lemma_ascending_unique(front_a, front_b);
        assert(a =~= front_a.push(x));
        assert(b =~= front_b.push(y));
    }
}

/// The names of a finite set, in order.
pub open spec fn sorted_names(set: Set<Seq<char>>) -> Seq<Seq<char>> {
    choose|names: Seq<Seq<char>>| #[trigger] ascending(names) && names.to_set() == set
}

/// Names in order are the sorted names of their set.
pub proof fn lemma_sorted_names(names: Seq<Seq<char>>)
    requires
        ascending(names),
    ensures
        names == sorted_names(names.to_set()),
{
    let sorted = sorted_names(names.to_set());
    assert(ascending(names) && names.to_set() == names.to_set());
    lemma_ascending_unique(names, sorted);
}

// ---------------------------------------------------------------------------
// Sets of numbers
// ---------------------------------------------------------------------------

/// Whether numbers are in order, none twice.
pub open spec fn increasing(oids: Seq<u32>) -> bool {
    forall|i: int, j: int| 0 <= i < j < oids.len() ==> #[trigger] oids[i] < #[trigger] oids[j]
}

/// Numbers in order that make up the same set are the same numbers.
pub proof fn lemma_increasing_unique(a: Seq<u32>, b: Seq<u32>)
    requires
        increasing(a),
        increasing(b),
        a.to_set() == b.to_set(),
    ensures
        a == b,
    decreases a.len(),
{
    if a.len() == 0 || b.len() == 0 {
        if a.len() > 0 {
            assert(a.to_set().contains(a[0]));
            assert(b.contains(a[0]));
        }
        if b.len() > 0 {
            assert(b.to_set().contains(b[0]));
            assert(a.contains(b[0]));
        }
        assert(a =~= b);
    } else {
        let x = a.last();
        let y = b.last();
        assert(a.to_set().contains(x));
        assert(b.to_set().contains(y));
        let i = choose|i: int| 0 <= i < b.len() && b[i] == x;
        let j = choose|j: int| 0 <= j < a.len() && a[j] == y;
        assert(b[i] <= b[b.len() - 1]);
        assert(a[j] <= a[a.len() - 1]);
        assert(x == y);
        let front_a = a.drop_last();
        let front_b = b.drop_last();
        assert(front_a.to_set() =~= front_b.to_set()) by {
            assert forall|oid: u32| front_a.contains(oid) implies front_b.contains(oid) by {
                let k = choose|k: int| 0 <= k < front_a.len() && front_a[k] == oid;
                assert(a[k] == oid && a[k] < a[a.len() - 1]);
                assert(a.to_set().contains(oid));
                let m = choose|m: int| 0 <= m < b.len() && b[m] == oid;
                assert(front_b[m] == oid);
            }
            assert forall|oid: u32| front_b.contains(oid) implies front_a.contains(oid) by {
                let k = choose|k: int| 0 <= k < front_b.len() && front_b[k] == oid;
                assert(b[k] == oid && b[k] < b[b.len() - 1]);
                assert(b.to_set().contains(oid));
                let m = choose|m: int| 0 <= m < a.len() && a[m] == oid;
                assert(front_a[m] == oid);
            }
        }
        lemma_increasing_unique(front_a, front_b);
        assert(a =~= front_a.push(x));
        assert(b =~= front_b.push(y));
    }
}

/// The numbers of a finite set, in order.
pub open spec fn sorted_oids(set: Set<u32>) -> Seq<u32> {
    choose|oids: Seq<u32>| #[trigger] increasing(oids) && oids.to_set() == set
}

/// Numbers in order are the sorted numbers of their set.
pub proof fn lemma_sorted_oids(oids: Seq<u32>)
    requires
        increasing(oids),
    ensures
        oids == sorted_oids(oids.to_set()),
{
    let sorted = sorted_oids(oids.to_set());
    assert(increasing(oids) && oids.to_set() == oids.to_set());
    lemma_increasing_unique(oids, sorted);
}

/// Add a number to numbers in order.
pub fn insert_oid(oids: &mut Vec<u32>, oid: u32)
    requires
        increasing(old(oids)@),
    ensures
        increasing(final(oids)@),
        final(oids)@.to_set() == old(oids)@.to_set().insert(oid),
{
    let ghost before = oids@;
    let mut at: usize = 0;
    while at < oids.len() && oids[at] < oid
        invariant
            at <= oids.len(),
            oids@ == before,
            forall|j: int| 0 <= j < at ==> #[trigger] oids@[j] < oid,
        decreases oids.len() - at,
    {
        at = at + 1;
    }
    if at < oids.len() && oids[at] == oid {
        assert(before.to_set() =~= before.to_set().insert(oid));
        return;
    }
    oids.insert(at, oid);
    proof {
        let after = oids@;
        assert(after =~= before.insert(at as int, oid));
        assert(after.to_set() =~= before.to_set().insert(oid)) by {
            assert forall|x: u32| before.contains(x) implies after.contains(x) by {
                let i = choose|i: int| 0 <= i < before.len() && before[i] == x;
                assert(after[if i < at { i } else { i + 1 }] == x);
            }
            assert(after[at as int] == oid);
            assert forall|x: u32| after.contains(x) && x != oid implies before.contains(x) by {
                let i = choose|i: int| 0 <= i < after.len() && after[i] == x;
                assert(before[if i < at { i } else { i - 1 }] == x);
            }
        }
    }
}

impl NameSet {
    /// Whether the names are in order, none twice.
    pub open spec fn wf(&self) -> bool {
        ascending(self@)
    }

    /// The empty set.
    pub fn new() -> (set: NameSet)
        ensures
            set.wf(),
            set@ == Seq::<Seq<char>>::empty(),
    {
        let set: NameSet = NameSet { names: Vec::new() };
        assert(set@ =~= Seq::<Seq<char>>::empty());
        set
    }

    /// Whether a name is in the set.
    pub fn contains(&self, name: &str) -> (found: bool)
        ensures
            found == self@.contains(name@),
    {
        for i in 0..self.names.len()
            invariant
                forall|j: int| 0 <= j < i ==> self@[j] != name@,
        {
            if same_text(self.names[i].as_str(), name) {
                assert(self@[i as int] == name@);
                return true;
            }
            assert(self@[i as int] == self.names@[i as int]@);
        }
        assert forall|j: int| 0 <= j < self@.len() implies self@[j] != name@ by {}
        false
    }

    /// Where a name stands: after all names before it.
    fn place(&self, name: &str) -> (at: usize)
        requires
            self.wf(),
        ensures
            at <= self@.len(),
            forall|j: int| 0 <= j < at ==> name_before(#[trigger] self@[j], name@),
            forall|j: int| at <= j < self@.len() ==> !name_before(#[trigger] self@[j], name@),
    {
        let mut low: usize = 0;
        let mut high: usize = self.names.len();
        while low < high
            invariant
                self.wf(),
                low <= high <= self@.len(),
                self@.len() == self.names@.len(),
                forall|j: int| 0 <= j < low ==> name_before(#[trigger] self@[j], name@),
                forall|j: int| high <= j < self@.len() ==> !name_before(#[trigger] self@[j], name@),
            decreases high - low,
        {
            let middle: usize = low + (high - low) / 2;
            let ghost found = self@[middle as int];
            assert(found == self.names@[middle as int]@);
            if precedes(self.names[middle].as_str(), name) {
                assert forall|j: int| 0 <= j < middle + 1 implies name_before(
                    #[trigger] self@[j],
                    name@,
                ) by {
                    if j < middle {
                        lemma_names_transitive(self@[j], found, name@);
                    }
                }
                low = middle + 1;
            } else {
                assert forall|j: int| middle <= j < self@.len() implies !name_before(
                    #[trigger] self@[j],
                    name@,
                ) by {
                    if j > middle && name_before(self@[j], name@) {
                        lemma_names_transitive(found, self@[j], name@);
                    }
                }
                high = middle;
            }
        }
        low
    }

    /// Add a name. Tells whether it is new.
    pub fn insert(&mut self, name: &str) -> (fresh: bool)
        requires
            old(self).wf(),
        ensures
            final(self).wf(),
            final(self)@.to_set() == old(self)@.to_set().insert(name@),
            fresh == !old(self)@.contains(name@),
    {
        let ghost before = self@;
        let at: usize = self.place(name);
        proof {
            if at < before.len() {
                assert(before[at as int] == self.names@[at as int]@);
            }
        }
        if at < self.names.len() && same_text(self.names[at].as_str(), name) {
            proof {
                assert(before[at as int] == name@);
                assert(before.to_set() =~= before.to_set().insert(name@));
            }
            return false;
        }
        proof {
            if at < before.len() {
                lemma_names_compare(before[at as int], name@);
            }
            if before.contains(name@) {
                let i = choose|i: int| 0 <= i < before.len() && before[i] == name@;
                lemma_names_compare(before[i], name@);
                if i > at {
                    assert(name_before(before[at as int], before[i]));
                }
            }
        }
        let ghost old_names = self.names@;
        self.names.insert(at, crate::text::owned(name));
        proof {
            let after = self@;
            assert(after =~= before.insert(at as int, name@));
            assert forall|i: int, j: int| 0 <= i < j < after.len() implies name_before(
                #[trigger] after[i],
                #[trigger] after[j],
            ) by {
                if i == at {
                    if j - 1 > at {
                        assert(name_before(before[at as int], before[j - 1]));
                        lemma_names_transitive(name@, before[at as int], before[j - 1]);
                    }
                }
            }
            assert(after.to_set() =~= before.to_set().insert(name@)) by {
                assert forall|x: Seq<char>| before.contains(x) implies after.contains(x) by {
                    let i = choose|i: int| 0 <= i < before.len() && before[i] == x;
                    assert(after[if i < at { i } else { i + 1 }] == x);
                }
                assert(after[at as int] == name@);
                assert forall|x: Seq<char>| after.contains(x) && x != name@ implies before.contains(
                    x,
                ) by {
                    let i = choose|i: int| 0 <= i < after.len() && after[i] == x;
                    assert(before[if i < at { i } else { i - 1 }] == x);
                }
            }
        }
        true
    }

    /// A copy of the set.
    pub fn duplicate(&self) -> (copy: NameSet)
        ensures
            copy@ == self@,
    {
        let mut names: Vec<String> = Vec::new();
        for i in 0..self.names.len()
            invariant
                views::views(names@) == self@.take(i as int),
        {
            let ghost earlier = names@;
            let name: String = self.names[i].clone();
            names.push(name);
            proof {
                views::lemma_push(earlier, name);
                assert(self@.take(i + 1) =~= self@.take(i as int).push(self@[i as int]));
            }
        }
        assert(self@.take(self@.len() as int) =~= self@);
        NameSet { names }
    }
}

// ---------------------------------------------------------------------------
// Maps from names
// ---------------------------------------------------------------------------

/// A map from names to values.
#[derive(Debug, Clone, PartialEq, Eq)]
pub struct NameMap<V> {
    pub entries: Vec<(String, V)>,
}

/// The map that entries hold. Of equal names the later counts.
pub open spec fn entry_map<V: View>(entries: Seq<(String, V)>) -> Map<Seq<char>, V::V>
    decreases entries.len(),
{
    if entries.len() == 0 {
        Map::empty()
    } else {
        entry_map(entries.drop_last()).insert(entries.last().0@, entries.last().1@)
    }
}

impl<V: View> View for NameMap<V> {
    type V = Map<Seq<char>, V::V>;

    open spec fn view(&self) -> Map<Seq<char>, V::V> {
        entry_map(self.entries@)
    }
}

impl<V: View> NameMap<V> {
    /// The empty map.
    pub fn new() -> (map: NameMap<V>)
        ensures
            map@ == Map::<Seq<char>, V::V>::empty(),
    {
        NameMap { entries: Vec::new() }
    }

    /// The value of a name.
    pub fn get(&self, name: &str) -> (value: Option<&V>)
        ensures
            match value {
                Some(value) => self@.contains_key(name@) && self@[name@] == value@,
                None => !self@.contains_key(name@),
            },
    {
        let mut i: usize = self.entries.len();
        assert(self.entries@.take(i as int) =~= self.entries@);
        while i > 0
            invariant
                i <= self.entries.len(),
                self@.contains_key(name@) == entry_map(
                    self.entries@.take(i as int),
                ).contains_key(name@),
                self@.contains_key(name@) ==> self@[name@] == entry_map(
                    self.entries@.take(i as int),
                )[name@],
            decreases i,
        {
            i = i - 1;
            assert(self.entries@.take(i + 1).drop_last() =~= self.entries@.take(i as int));
            if same_text(self.entries[i].0.as_str(), name) {
                return Some(&self.entries[i].1);
            }
        }
        None
    }

    /// Set the value of a name. Tells whether the name had one before.
    pub fn insert(&mut self, name: String, value: V) -> (replaced: bool)
        ensures
            final(self)@ == old(self)@.insert(name@, value@),
            replaced == old(self)@.contains_key(name@),
    {
        let replaced: bool = self.get(name.as_str()).is_some();
        let ghost before = self.entries@;
        self.entries.push((name, value));
        assert(self.entries@.drop_last() =~= before);
        replaced
    }
}

} // verus!
