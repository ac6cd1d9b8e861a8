//! Lexicographic ranks, and sorting by them.
use vstd::prelude::*;

verus! {

/// Whether `a` comes before `b`, looking at positions from `from` on.
pub open spec fn ranks_before(a: Seq<int>, b: Seq<int>, from: int) -> bool
    decreases b.len() - from,
{
    if from < 0 || from >= b.len() {
        false
    } else if from >= a.len() {
        true
    } else if a[from] != b[from] {
        a[from] < b[from]
    } else {
        ranks_before(a, b, from + 1)
    }
}

/// Lexicographic order of integer sequences.
pub open spec fn before(a: Seq<int>, b: Seq<int>) -> bool {
    ranks_before(a, b, 0)
}

proof fn lemma_first_difference(a: Seq<int>, b: Seq<int>, from: int)
    requires
        0 <= from <= a.len(),
    ensures
        ranks_before(a, b, from) ==> exists|k: int| #[trigger] differ_at(a, b, from, k),
    decreases b.len() - from,
{
    if ranks_before(a, b, from) {
        if from < a.len() && a[from] == b[from] {
            lemma_first_difference(a, b, from + 1);
            let k = choose|k: int| #[trigger] differ_at(a, b, from + 1, k);
            assert(differ_at(a, b, from, k)) by {
                assert forall|j: int| from <= j < k implies j < a.len() && a[j] == b[j] by {
                    if j > from {
                        assert(from + 1 <= j);
                    }
                }
            }
        } else {
            assert(differ_at(a, b, from, from));
        }
    }
}

/// `a` and `b` agree from `from` up to `k`, and at `k` `a` ends or is smaller.
spec fn differ_at(a: Seq<int>, b: Seq<int>, from: int, k: int) -> bool {
    &&& from <= k < b.len()
    &&& forall|j: int| from <= j < k ==> j < a.len() && #[trigger] a[j] == b[j]
    &&& k <= a.len()
    &&& (k == a.len() || a[k] < b[k])
}

proof fn lemma_differ_at(a: Seq<int>, b: Seq<int>, from: int, k: int)
    requires
        0 <= from,
        differ_at(a, b, from, k),
    ensures
        ranks_before(a, b, from),
    decreases k - from,
{
    if from < k {
        assert(a[from] == b[from]);
        lemma_differ_at(a, b, from + 1, k);
    }
}

/// No sequence comes before itself.
pub proof fn lemma_before_irreflexive(a: Seq<int>)
    ensures
        !before(a, a),
{
    lemma_first_difference(a, a, 0);
}

/// The order is transitive.
pub proof fn lemma_before_transitive(a: Seq<int>, b: Seq<int>, c: Seq<int>)
    requires
        before(a, b),
        before(b, c),
    ensures
        before(a, c),
{
    lemma_first_difference(a, b, 0);
    lemma_first_difference(b, c, 0);
    let k = choose|k: int| #[trigger] differ_at(a, b, 0, k);
    let m = choose|m: int| #[trigger] differ_at(b, c, 0, m);
    let n = if k < m { k } else { m };
    assert(differ_at(a, c, 0, n)) by {
        assert forall|j: int| 0 <= j < n implies j < a.len() && #[trigger] a[j] == c[j] by {
            assert(a[j] == b[j]);
            assert(b[j] == c[j]);
        }
        if k < m {
            assert(b[k] == c[k]);
        } else if m < k {
            assert(a[m] == b[m]);
        }
    }
    lemma_differ_at(a, c, 0, n);
}

/// Of two sequences at most one comes before the other.
pub proof fn lemma_before_asymmetric(a: Seq<int>, b: Seq<int>)
    requires
        before(a, b),
    ensures
        !before(b, a),
{
    if before(b, a) {
        lemma_before_transitive(a, b, a);
        lemma_before_irreflexive(a);
    }
}

/// Two sequences are equal or one comes before the other.
pub proof fn lemma_before_total(a: Seq<int>, b: Seq<int>)
    ensures
        a == b || before(a, b) || before(b, a),
{
    lemma_total_from(a, b, 0);
}

proof fn lemma_total_from(a: Seq<int>, b: Seq<int>, from: int)
    requires
        0 <= from,
        from <= a.len(),
        from <= b.len(),
        forall|j: int| 0 <= j < from ==> #[trigger] a[j] == b[j],
    ensures
        a == b || ranks_before(a, b, from) || ranks_before(b, a, from),
    decreases b.len() - from,
{
    if from < a.len() && from < b.len() && a[from] == b[from] {
        lemma_total_from(a, b, from + 1);
    } else if from == a.len() && from == b.len() {
        assert(a =~= b);
    }
}

/// A value with a place in an order.
pub trait Ranked: Sized {
    /// Where the value stands.
    spec fn rank(&self) -> Seq<int>;

    /// Whether `self` stands before `other`.
    fn precedes(&self, other: &Self) -> (found: bool)
        ensures
            found == before(self.rank(), other.rank()),
    ;
}

/// Whether no item stands before an earlier one.
pub open spec fn sorted<T: Ranked>(items: Seq<T>) -> bool {
    forall|i: int, j: int|
        0 <= i < j < items.len() ==> !before(#[trigger] items[j].rank(), #[trigger] items[i].rank())
}

/// Whether every item stands before all later ones.
pub open spec fn strictly_sorted<T: Ranked>(items: Seq<T>) -> bool {
    forall|i: int, j: int|
        0 <= i < j < items.len() ==> before(#[trigger] items[i].rank(), #[trigger] items[j].rank())
}

/// A strictly sorted sequence is determined by the items it holds.
pub proof fn lemma_strictly_sorted_unique<T: Ranked>(a: Seq<T>, b: Seq<T>)
    requires
        strictly_sorted(a),
        strictly_sorted(b),
        forall|x: T| #![auto] a.contains(x) <==> b.contains(x),
    ensures
        a == b,
    decreases a.len(),
{
    if a.len() == 0 {
        if b.len() > 0 {
            assert(b.contains(b[0]));
        }
        assert(a =~= b);
    } else {
        assert(a.contains(a[0]));
        assert(b.len() > 0);
        let x = a.last();
        let y = b.last();
        assert(b.contains(x)) by {
            assert(a.contains(x));
        }
        assert(a.contains(y)) by {
            assert(b.contains(y));
        }
        let p = choose|p: int| 0 <= p < b.len() && b[p] == x;
        let q = choose|q: int| 0 <= q < a.len() && a[q] == y;
        assert(x == y) by {
            if p < b.len() - 1 && q < a.len() - 1 {
                assert(before(b[p].rank(), b[b.len() - 1].rank()));
                assert(before(a[q].rank(), a[a.len() - 1].rank()));
                lemma_before_transitive(x.rank(), y.rank(), x.rank());
                lemma_before_irreflexive(x.rank());
            }
        }
        let a0 = a.drop_last();
        let b0 = b.drop_last();
        assert forall|z: T| #![auto] a0.contains(z) implies b0.contains(z) by {
            let i = choose|i: int| 0 <= i < a0.len() && a0[i] == z;
            assert(a[i] == z);
            assert(a.contains(z));
            let j = choose|j: int| 0 <= j < b.len() && b[j] == z;
            if j == b.len() - 1 {
                assert(before(a[i].rank(), a[a.len() - 1].rank()));
                lemma_before_irreflexive(x.rank());
            }
            assert(b0[j] == z);
        }
        assert forall|z: T| #![auto] b0.contains(z) implies a0.contains(z) by {
            let i = choose|i: int| 0 <= i < b0.len() && b0[i] == z;
            assert(b[i] == z);
            assert(b.contains(z));
            let j = choose|j: int| 0 <= j < a.len() && a[j] == z;
            if j == a.len() - 1 {
                assert(before(b[i].rank(), b[b.len() - 1].rank()));
                lemma_before_irreflexive(y.rank());
            }
            assert(a0[j] == z);
        }
        lemma_strictly_sorted_unique(a0, b0);
        assert(a =~= a0.push(x));
        assert(b =~= b0.push(y));
    }
}

/// A sorted sequence whose items all stand at different places is strictly
/// sorted.
pub proof fn lemma_sorted_distinct<T: Ranked>(items: Seq<T>)
    requires
        sorted(items),
        forall|i: int, j: int|
            0 <= i < j < items.len() ==> #[trigger] items[i].rank() != #[trigger] items[j].rank(),
    ensures
        strictly_sorted(items),
{
    assert forall|i: int, j: int| 0 <= i < j < items.len() implies before(
        #[trigger] items[i].rank(),
        #[trigger] items[j].rank(),
    ) by {
        lemma_before_total(items[i].rank(), items[j].rank());
    }
}

/// The place of an item in a strictly sorted sequence without one of its rank.
pub proof fn lemma_place<T: Ranked>(items: Seq<T>, item: T) -> (at: int)
    requires
        strictly_sorted(items),
        forall|i: int| 0 <= i < items.len() ==> #[trigger] items[i].rank() != item.rank(),
    ensures
        0 <= at <= items.len(),
        forall|i: int| 0 <= i < at ==> before(#[trigger] items[i].rank(), item.rank()),
        forall|i: int| at <= i < items.len() ==> before(item.rank(), #[trigger] items[i].rank()),
    decreases items.len(),
{
    if items.len() == 0 {
        0
    } else {
        let n = items.len() - 1;
        lemma_before_total(items[n].rank(), item.rank());
        if before(items[n].rank(), item.rank()) {
            assert forall|i: int| 0 <= i < items.len() implies before(
                #[trigger] items[i].rank(),
                item.rank(),
            ) by {
                if i < n {
                    lemma_before_transitive(items[i].rank(), items[n].rank(), item.rank());
                }
            }
            items.len() as int
        } else {
            let init = items.drop_last();
            assert forall|i: int, j: int| 0 <= i < j < init.len() implies before(
                #[trigger] init[i].rank(),
                #[trigger] init[j].rank(),
            ) by {
                assert(before(items[i].rank(), items[j].rank()));
            }
            assert forall|i: int| 0 <= i < init.len() implies #[trigger] init[i].rank()
                != item.rank() by {
                assert(items[i].rank() != item.rank());
            }
            let at = lemma_place(init, item);
            assert forall|i: int| 0 <= i < at implies before(
                #[trigger] items[i].rank(),
                item.rank(),
            ) by {
                assert(before(init[i].rank(), item.rank()));
            }
            assert forall|i: int| at <= i < items.len() implies before(
                item.rank(),
                #[trigger] items[i].rank(),
            ) by {
                if i < n {
                    assert(before(item.rank(), init[i].rank()));
                }
            }
            at
        }
    }
}

/// Items of different ranks can be put in order.
pub proof fn lemma_sorted_exists<T: Ranked>(items: Seq<T>)
    requires
        forall|i: int, j: int|
            0 <= i < j < items.len() ==> #[trigger] items[i].rank() != #[trigger] items[j].rank(),
    ensures
        exists|result: Seq<T>| #[trigger]
            strictly_sorted(result) && result.len() == items.len() && forall|item: T| #[trigger]
                result.contains(item) <==> items.contains(item),
    decreases items.len(),
{
    if items.len() == 0 {
        let none = Seq::<T>::empty();
        assert(strictly_sorted(none));
        assert forall|item: T| #[trigger] none.contains(item) <==> items.contains(item) by {}
    } else {
        let init = items.drop_last();
        let last = items.last();
        let n = items.len() - 1;
        assert forall|i: int, j: int| 0 <= i < j < init.len() implies #[trigger] init[i].rank()
            != #[trigger] init[j].rank() by {
            assert(items[i].rank() != items[j].rank());
        }
        lemma_sorted_exists(init);
        let earlier = choose|result: Seq<T>| #[trigger]
            strictly_sorted(result) && result.len() == init.len() && forall|item: T| #[trigger]
                result.contains(item) <==> init.contains(item);
        assert forall|i: int| 0 <= i < earlier.len() implies #[trigger] earlier[i].rank()
            != last.rank() by {
            assert(earlier.contains(earlier[i]));
            let j = choose|j: int| 0 <= j < init.len() && init[j] == earlier[i];
            assert(items[j].rank() != items[n].rank());
        }
        let at = lemma_place(earlier, last);
        let result = earlier.insert(at, last);
        assert forall|i: int| #![auto] 0 <= i < result.len() implies result[i] == (if i < at {
            earlier[i]
        } else if i == at {
            last
        } else {
            earlier[i - 1]
        }) by {}
        assert forall|i: int, j: int| 0 <= i < j < result.len() implies before(
            #[trigger] result[i].rank(),
            #[trigger] result[j].rank(),
        ) by {
            let a = if i < at { i } else { i - 1 };
            let b = if j < at { j } else { j - 1 };
            if i == at {
                assert(before(last.rank(), earlier[b].rank()));
            } else if j == at {
                assert(before(earlier[a].rank(), last.rank()));
            } else {
                assert(before(earlier[a].rank(), earlier[b].rank()));
            }
        }
        assert forall|item: T| #[trigger] result.contains(item) <==> items.contains(item) by {
            if result.contains(item) {
                let i = choose|i: int| 0 <= i < result.len() && result[i] == item;
                if i == at {
                    assert(items[n] == item);
                } else {
                    let a = if i < at { i } else { i - 1 };
                    assert(earlier[a] == item);
                    assert(earlier.contains(item));
                    let j = choose|j: int| 0 <= j < init.len() && init[j] == item;
                    assert(items[j] == item);
                }
            }
            if items.contains(item) {
                let j = choose|j: int| 0 <= j < items.len() && items[j] == item;
                if j == n {
                    assert(result[at] == item);
                } else {
                    assert(init[j] == item);
                    assert(init.contains(item));
                    assert(earlier.contains(item));
                    let a = choose|a: int| 0 <= a < earlier.len() && earlier[a] == item;
                    if a < at {
                        assert(result[a] == item);
                    } else {
                        assert(result[a + 1] == item);
                    }
                }
            }
        }
        assert(strictly_sorted(result));
    }
}

/// Merge two sorted runs; on a tie the left run comes first.
fn merge_runs<T: Ranked + Copy>(left: &Vec<T>, right: &Vec<T>) -> (merged: Vec<T>)
    requires
        sorted(left@),
        sorted(right@),
    ensures
        sorted(merged@),
        merged@.to_multiset() == left@.to_multiset().add(right@.to_multiset()),
{
    broadcast use vstd::seq_lib::group_to_multiset_ensures;

    let mut merged: Vec<T> = Vec::new();
    let mut i: usize = 0;
    let mut j: usize = 0;
    assert(left@.take(0) =~= Seq::<T>::empty());
    assert(right@.take(0) =~= Seq::<T>::empty());
    assert(merged@.to_multiset() =~= left@.take(0).to_multiset().add(right@.take(0).to_multiset()));
    while i < left.len() || j < right.len()
        invariant
            sorted(left@),
            sorted(right@),
            i <= left@.len(),
            j <= right@.len(),
            merged@.len() == i + j,
            sorted(merged@),
            merged@.to_multiset() == left@.take(i as int).to_multiset().add(
                right@.take(j as int).to_multiset(),
            ),
            forall|a: int, b: int|
                0 <= a < merged@.len() && i <= b < left@.len() ==> !before(
                    #[trigger] left@[b].rank(),
                    #[trigger] merged@[a].rank(),
                ),
            forall|a: int, b: int|
                0 <= a < merged@.len() && j <= b < right@.len() ==> !before(
                    #[trigger] right@[b].rank(),
                    #[trigger] merged@[a].rank(),
                ),
        decreases left@.len() - i + right@.len() - j,
    {
        let take_left: bool = if i >= left.len() {
            false
        } else if j >= right.len() {
            true
        } else {
            !right[j].precedes(&left[i])
        };
        let ghost done = merged@;
        if take_left {
            let item: T = left[i];
            merged.push(item);
            proof {
                assert(left@.take(i + 1) =~= left@.take(i as int).push(item));
                vstd::seq_lib::to_multiset_build(done, item);
                vstd::seq_lib::to_multiset_build(left@.take(i as int), item);
                assert(merged@.to_multiset() =~= left@.take(i + 1).to_multiset().add(
                    right@.take(j as int).to_multiset(),
                ));
                assert forall|a: int, b: int|
                    0 <= a < merged@.len() && j <= b < right@.len() implies !before(
                    #[trigger] right@[b].rank(),
                    #[trigger] merged@[a].rank(),
                ) by {
                    if a == done.len() {
                        if b > j {
                            if before(right@[b].rank(), item.rank()) {
                                lemma_before_total(right@[j as int].rank(), right@[b].rank());
                                if before(right@[j as int].rank(), right@[b].rank()) {
                                    lemma_before_transitive(
                                        right@[j as int].rank(),
                                        right@[b].rank(),
                                        item.rank(),
                                    );
                                }
                            }
                        }
                    } else {
                        assert(merged@[a] == done[a]);
                    }
                }
                assert forall|a: int, b: int|
                    0 <= a < merged@.len() && i + 1 <= b < left@.len() implies !before(
                    #[trigger] left@[b].rank(),
                    #[trigger] merged@[a].rank(),
                ) by {
                    if a < done.len() {
                        assert(merged@[a] == done[a]);
                    }
                }
            }
            i = i + 1;
        } else {
            let item: T = right[j];
            merged.push(item);
            proof {
                assert(right@.take(j + 1) =~= right@.take(j as int).push(item));
                vstd::seq_lib::to_multiset_build(done, item);
                vstd::seq_lib::to_multiset_build(right@.take(j as int), item);
                assert(merged@.to_multiset() =~= left@.take(i as int).to_multiset().add(
                    right@.take(j + 1).to_multiset(),
                ));
                assert forall|a: int, b: int|
                    0 <= a < merged@.len() && i <= b < left@.len() implies !before(
                    #[trigger] left@[b].rank(),
                    #[trigger] merged@[a].rank(),
                ) by {
                    if a == done.len() {
                        if before(left@[b].rank(), item.rank()) {
                            if b > i {
                                lemma_before_total(left@[i as int].rank(), left@[b].rank());
                                if before(left@[i as int].rank(), left@[b].rank()) {
                                    lemma_before_transitive(
                                        left@[i as int].rank(),
                                        left@[b].rank(),
                                        item.rank(),
                                    );
                                }
                            }
                            lemma_before_transitive(
                                item.rank(),
                                left@[i as int].rank(),
                                item.rank(),
                            );
                            lemma_before_irreflexive(item.rank());
                        }
                    } else {
                        assert(merged@[a] == done[a]);
                    }
                }
                assert forall|a: int, b: int|
                    0 <= a < merged@.len() && j + 1 <= b < right@.len() implies !before(
                    #[trigger] right@[b].rank(),
                    #[trigger] merged@[a].rank(),
                ) by {
                    if a < done.len() {
                        assert(merged@[a] == done[a]);
                    }
                }
            }
            j = j + 1;
        }
    }
    assert(left@.take(left@.len() as int) =~= left@);
    assert(right@.take(right@.len() as int) =~= right@);
    merged
}

/// Sort items by rank.
pub fn sort_ranked<T: Ranked + Copy>(items: Vec<T>) -> (result: Vec<T>)
    ensures
        sorted(result@),
        result@.to_multiset() == items@.to_multiset(),
    decreases items@.len(),
{
    let len: usize = items.len();
    if len <= 1 {
        return items;
    }
    let mid: usize = len / 2;
    let mut left: Vec<T> = items;
    let right: Vec<T> = left.split_off(mid);
    let left_sorted: Vec<T> = sort_ranked(left);
    let right_sorted: Vec<T> = sort_ranked(right);
    proof {
        assert(items@ =~= left@ + right@);
        vstd::seq_lib::lemma_multiset_commutative(left@, right@);
    }
    merge_runs(&left_sorted, &right_sorted)
}

} // verus!
