//! Comparison and order of paths by their components.
use vstd::prelude::*;
use vstd::string::StrSliceExecFns;

use crate::query::names::{self, name_before, precedes};
use crate::text::{self, same_text};

verus! {

/// The position of the first `/` at or after `from`, or the length.
pub open spec fn next_slash(path: Seq<char>, from: int) -> int
    decreases path.len() - from,
{
    if from >= path.len() {
        path.len() as int
    } else if path[from] == '/' {
        from
    } else {
        next_slash(path, from + 1)
    }
}

proof fn lemma_next_slash(path: Seq<char>, from: int)
    requires
        0 <= from <= path.len(),
    ensures
        from <= next_slash(path, from) <= path.len(),
    decreases path.len() - from,
{
    if from < path.len() && path[from] != '/' {
        lemma_next_slash(path, from + 1);
    }
}

/// Whether a piece of a path counts as a component: empty pieces do not, nor
/// does `.` unless the path starts with it.
pub open spec fn counts(piece: Seq<char>, from: int) -> bool {
    piece.len() > 0 && (piece != seq!['.'] || from == 0)
}

/// The components of a path from `from` on, where a piece starts.
pub open spec fn components_from(path: Seq<char>, from: int) -> Seq<Seq<char>>
    decreases path.len() + 1 - from,
    when 0 <= from
    via components_decrease
{
    if from >= path.len() {
        Seq::empty()
    } else {
        let end = next_slash(path, from);
        let piece = path.subrange(from, end);
        let rest = components_from(path, end + 1);
        if counts(piece, from) {
            seq![piece] + rest
        } else {
            rest
        }
    }
}

#[via_fn]
proof fn components_decrease(path: Seq<char>, from: int) {
    if from < path.len() {
        lemma_next_slash(path, from);
    }
}

/// The components of a path: whether it is absolute, and its names.
pub open spec fn components(path: Seq<char>) -> (bool, Seq<Seq<char>>) {
    (path.len() > 0 && path[0] == '/', components_from(path, 0))
}

/// Whether two paths have the same components.
pub open spec fn same_path(a: Seq<char>, b: Seq<char>) -> bool {
    components(a) == components(b)
}

/// Components of a path in executable form.
pub struct PathKey {
    pub absolute: bool,
    pub names: Vec<String>,
}

impl View for PathKey {
    type V = (bool, Seq<Seq<char>>);

    open spec fn view(&self) -> (bool, Seq<Seq<char>>) {
        (self.absolute, self.names@.map_values(|name: String| name@))
    }
}

/// The components of a path.
pub fn path_key(path: &str) -> (key: PathKey)
    ensures
        key@ == components(path@),
{
    let length: usize = path.unicode_len();
    let absolute: bool = length > 0 && path.get_char(0) == '/';
    let mut names: Vec<String> = Vec::new();
    let ghost goal = components_from(path@, 0);
    let mut from: usize = 0;
    assert(names@.map_values(|name: String| name@) =~= Seq::<Seq<char>>::empty());
    assert(goal =~= Seq::<Seq<char>>::empty() + goal);
    while from < length
        invariant
            length == path@.len(),
            goal == names@.map_values(|name: String| name@) + components_from(path@, from as int),
        decreases length - from,
    {
        let mut end: usize = from;
        while end < length && path.get_char(end) != '/'
            invariant
                length == path@.len(),
                from <= end <= length,
                next_slash(path@, from as int) == next_slash(path@, end as int),
            decreases length - end,
        {
            end = end + 1;
        }
        assert(end == next_slash(path@, from as int));
        let piece: &str = path.substring_char(from, end);
        let ghost rest = components_from(path@, end + 1);
        let ghost before = names@.map_values(|name: String| name@);
        let dot: bool = same_text(piece, ".");
        proof {
            reveal_strlit(".");
            assert("."@ =~= seq!['.']);
        }
        if end > from && (!dot || from == 0) {
            let name: String = text::owned(piece);
            names.push(name);
            assert(names@.map_values(|name: String| name@) =~= before.push(piece@));
            assert(before.push(piece@) + rest =~= before + (seq![piece@] + rest));
        }
        if end == length {
            assert(components_from(path@, end + 1) =~= Seq::<Seq<char>>::empty());
            assert(components_from(path@, end as int) =~= Seq::<Seq<char>>::empty());
            from = end;
        } else {
            from = end + 1;
        }
    }
    assert(components_from(path@, from as int) =~= Seq::<Seq<char>>::empty());
    let key: PathKey = PathKey { absolute, names };
    assert(key@.1 =~= goal);
    key
}

/// Whether two paths have the same components.
pub fn same_key(a: &PathKey, b: &PathKey) -> (same: bool)
    ensures
        same == (a@ == b@),
{
    if a.absolute != b.absolute || a.names.len() != b.names.len() {
        assert(a@.1.len() == a.names@.len() && b@.1.len() == b.names@.len());
        return false;
    }
    for i in 0..a.names.len()
        invariant
            a.absolute == b.absolute,
            a.names@.len() == b.names@.len(),
            forall|j: int| 0 <= j < i ==> #[trigger] a.names@[j]@ == b.names@[j]@,
    {
        if !same_text(a.names[i].as_str(), b.names[i].as_str()) {
            assert(a@.1[i as int] == a.names@[i as int]@);
            assert(b@.1[i as int] == b.names@[i as int]@);
            return false;
        }
    }
    assert(a@.1 =~= b@.1);
    true
}

// ---------------------------------------------------------------------------
// Order of paths
// ---------------------------------------------------------------------------

/// The kind of a component: `.` stands before `..`, and `..` before all names.
pub open spec fn component_kind(name: Seq<char>) -> int {
    if name == seq!['.'] {
        0
    } else if name == seq!['.', '.'] {
        1
    } else {
        2
    }
}

/// Whether a component stands before another one: by kind, and names in character
/// order, which is that of their bytes in UTF-8.
pub open spec fn component_before(a: Seq<char>, b: Seq<char>) -> bool {
    if component_kind(a) != component_kind(b) {
        component_kind(a) < component_kind(b)
    } else {
        component_kind(a) == 2 && name_before(a, b)
    }
}

/// Whether components from `from` on stand before others: at the first difference,
/// or because they end there.
pub open spec fn components_before(a: Seq<Seq<char>>, b: Seq<Seq<char>>, from: int) -> bool
    decreases b.len() - from,
{
    if from >= b.len() {
        false
    } else if from >= a.len() {
        true
    } else if a[from] != b[from] {
        component_before(a[from], b[from])
    } else {
        components_before(a, b, from + 1)
    }
}

/// Whether the components of a path stand before those of another one. The root
/// directory is the first component of an absolute path and stands before all
/// others.
pub open spec fn key_before(a: (bool, Seq<Seq<char>>), b: (bool, Seq<Seq<char>>)) -> bool {
    if a.0 == b.0 {
        components_before(a.1, b.1, 0)
    } else if a.0 {
        b.1.len() > 0
    } else {
        a.1.len() == 0
    }
}

/// Whether a path stands before another one, component by component.
pub open spec fn path_before(a: Seq<char>, b: Seq<char>) -> bool {
    key_before(components(a), components(b))
}

/// Whether every path stands before all later ones.
pub open spec fn in_path_order(listed: Seq<Seq<char>>) -> bool {
    forall|i: int, j: int|
        0 <= i < j < listed.len() ==> path_before(#[trigger] listed[i], #[trigger] listed[j])
}

proof fn lemma_component_compare(a: Seq<char>, b: Seq<char>)
    ensures
        component_before(a, b) ==> !component_before(b, a) && a != b,
        !component_before(a, b) && !component_before(b, a) ==> a == b,
{
    names::lemma_names_compare(a, b);
}

proof fn lemma_components_compare(a: Seq<Seq<char>>, b: Seq<Seq<char>>, from: int)
    requires
        0 <= from <= a.len(),
        from <= b.len(),
        forall|i: int| 0 <= i < from ==> #[trigger] a[i] == b[i],
    ensures
        components_before(a, b, from) ==> !components_before(b, a, from) && a != b,
        !components_before(a, b, from) && !components_before(b, a, from) ==> a == b,
    decreases b.len() - from,
{
    if from < a.len() && from < b.len() {
        lemma_component_compare(a[from], b[from]);
        if a[from] == b[from] {
            lemma_components_compare(a, b, from + 1);
        }
    } else if from == a.len() && from == b.len() {
        assert(a =~= b);
    }
}

proof fn lemma_components_transitive(
    a: Seq<Seq<char>>,
    b: Seq<Seq<char>>,
    c: Seq<Seq<char>>,
    from: int,
)
    requires
        components_before(a, b, from),
        components_before(b, c, from),
    ensures
        components_before(a, c, from),
    decreases c.len() - from,
{
    if from < a.len() {
        let (x, y, z) = (a[from], b[from], c[from]);
        lemma_component_compare(x, y);
        lemma_component_compare(y, z);
        if x == y && y == z {
            lemma_components_transitive(a, b, c, from + 1);
        } else if x != y && y != z {
            if component_kind(x) == component_kind(y) && component_kind(y) == component_kind(z) {
                names::lemma_names_transitive(x, y, z);
            }
            lemma_component_compare(x, z);
        }
    }
}

/// Of two paths either one stands before the other, or they have the same
/// components.
pub proof fn lemma_paths_compare(a: Seq<char>, b: Seq<char>)
    ensures
        path_before(a, b) ==> !path_before(b, a) && !same_path(a, b),
        path_before(a, b) || path_before(b, a) || same_path(a, b),
{
    lemma_components_compare(components(a).1, components(b).1, 0);
}

/// The order of paths is transitive.
pub proof fn lemma_paths_transitive(a: Seq<char>, b: Seq<char>, c: Seq<char>)
    requires
        path_before(a, b),
        path_before(b, c),
    ensures
        path_before(a, c),
{
    let (x, y, z) = (components(a), components(b), components(c));
    if x.0 == y.0 && y.0 == z.0 {
        lemma_components_transitive(x.1, y.1, z.1, 0);
    }
}

fn kind_of(name: &str) -> (kind: u8)
    ensures
        kind == component_kind(name@),
{
    proof {
        reveal_strlit(".");
        reveal_strlit("..");
        assert("."@ =~= seq!['.']);
        assert(".."@ =~= seq!['.', '.']);
    }
    if same_text(name, ".") {
        0
    } else if same_text(name, "..") {
        1
    } else {
        2
    }
}

fn component_precedes(a: &str, b: &str) -> (before: bool)
    ensures
        before == component_before(a@, b@),
{
    let a_kind: u8 = kind_of(a);
    let b_kind: u8 = kind_of(b);
    if a_kind != b_kind {
        a_kind < b_kind
    } else {
        a_kind == 2 && precedes(a, b)
    }
}

/// Whether a path stands before another one, by their components.
pub fn key_precedes(a: &PathKey, b: &PathKey) -> (before: bool)
    ensures
        before == key_before(a@, b@),
{
    if a.absolute != b.absolute {
        return if a.absolute {
            b.names.len() > 0
        } else {
            a.names.len() == 0
        };
    }
    let mut at: usize = 0;
    while at < a.names.len() && at < b.names.len()
        invariant
            a.absolute == b.absolute,
            at <= a.names@.len(),
            at <= b.names@.len(),
            key_before(a@, b@) == components_before(a@.1, b@.1, at as int),
        decreases a.names@.len() - at,
    {
        assert(a@.1[at as int] == a.names@[at as int]@);
        assert(b@.1[at as int] == b.names@[at as int]@);
        if !same_text(a.names[at].as_str(), b.names[at].as_str()) {
            return component_precedes(a.names[at].as_str(), b.names[at].as_str());
        }
        at = at + 1;
    }
    at < b.names.len()
}

} // verus!
