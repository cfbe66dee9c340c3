//! Stable sorting.

use crate::double::{law_rank_identifies, Double};
use crate::text::{lemma_lex_total, lemma_lex_transitive, precedes, text_le};
use vstd::prelude::*;
use vstd::utf8::encode_utf8;

verus! {

/// A type whose values are ordered, where different values may share a place.
pub trait Ranked {
    /// The value comes before the other or shares its place.
    spec fn le(&self, other: &Self) -> bool;

    /// Of two values one comes before the other or shares its place.
    proof fn total(&self, other: &Self)
        ensures
            self.le(other) || other.le(self),
    ;

    /// The order is transitive.
    proof fn transitive(&self, middle: &Self, other: &Self)
        requires
            self.le(middle),
            middle.le(other),
        ensures
            self.le(other),
    ;

    /// Whether the value comes before the other or shares its place.
    fn is_le(&self, other: &Self) -> (r: bool)
        ensures
            r == self.le(other),
    ;
}

/// Numbers are sorted by the total order of IEEE 754.
impl Ranked for Double {
    open spec fn le(&self, other: &Self) -> bool {
        self.rank() <= other.rank()
    }

    proof fn total(&self, other: &Self) {
    }

    proof fn transitive(&self, middle: &Self, other: &Self) {
    }

    fn is_le(&self, other: &Self) -> (r: bool) {
        self.total_le(*other)
    }
}

/// Strings are sorted by the bytes of their UTF-8 encodings.
impl Ranked for String {
    open spec fn le(&self, other: &Self) -> bool {
        text_le(self@, other@)
    }

    proof fn total(&self, other: &Self) {
        lemma_lex_total(encode_utf8(self@), encode_utf8(other@));
    }

    proof fn transitive(&self, middle: &Self, other: &Self) {
        lemma_lex_transitive(encode_utf8(self@), encode_utf8(middle@), encode_utf8(other@));
    }

    fn is_le(&self, other: &Self) -> (r: bool) {
        precedes(self.as_str(), other.as_str())
    }
}

/// Item `i` stands before item `j` when sorted: it comes first in the order, or
/// shares the other's place and stood before it already.
pub open spec fn stands_before<T: Ranked>(items: Seq<T>, i: int, j: int) -> bool {
    items[i].le(&items[j]) && (i < j || !items[j].le(&items[i]))
}

/// Every index below `n` occurs exactly once.
pub open spec fn is_permutation(order: Seq<usize>, n: nat) -> bool {
    &&& order.len() == n
    &&& order.no_duplicates()
    &&& forall|k: int| 0 <= k < order.len() ==> (#[trigger] order[k]) < n
    &&& forall|v: usize| v < n ==> #[trigger] order.contains(v)
}

/// The indices of the items, in sorted order. Items that share a place keep the
/// order in which they stood, so that there is just one such list.
pub open spec fn is_stable_order<T: Ranked>(items: Seq<T>, order: Seq<usize>) -> bool {
    &&& is_permutation(order, items.len())
    &&& forall|k: int, l: int|
        #![trigger order[k], order[l]]
        0 <= k < l < order.len() ==> stands_before(items, order[k] as int, order[l] as int)
}

/// The items in the given order.
pub open spec fn arranged<T>(items: Seq<T>, order: Seq<usize>) -> Seq<T> {
    Seq::new(order.len(), |k: int| items[order[k] as int])
}

/// A list of indices in sorted order that holds exactly those from `lo` to `hi`.
spec fn sorted_range<T: Ranked>(items: Seq<T>, order: Seq<usize>, lo: int, hi: int) -> bool {
    &&& order.len() == hi - lo
    &&& forall|k: int| 0 <= k < order.len() ==> lo <= (#[trigger] order[k]) < hi
    &&& forall|v: usize| lo <= v < hi ==> #[trigger] order.contains(v)
    &&& forall|k: int, l: int|
        #![trigger order[k], order[l]]
        0 <= k < l < order.len() ==> stands_before(items, order[k] as int, order[l] as int)
}

/// The relation in which items are sorted is transitive.
proof fn lemma_stands_before_transitive<T: Ranked>(items: Seq<T>, i: int, j: int, k: int)
    requires
        stands_before(items, i, j),
        stands_before(items, j, k),
    ensures
        stands_before(items, i, k),
{
    items[i].transitive(&items[j], &items[k]);
    if items[k].le(&items[i]) {
        items[j].transitive(&items[k], &items[i]);
        items[k].transitive(&items[i], &items[j]);
    }
}

/// Merges two sorted lists of indices, all of the first below all of the second.
fn merge<T: Ranked>(
    items: &Vec<T>,
    left: Vec<usize>,
    right: Vec<usize>,
    Ghost(lo): Ghost<int>,
    Ghost(mid): Ghost<int>,
    Ghost(hi): Ghost<int>,
) -> (order: Vec<usize>)
    requires
        0 <= lo <= mid <= hi <= items@.len(),
        sorted_range(items@, left@, lo, mid),
        sorted_range(items@, right@, mid, hi),
    ensures
        sorted_range(items@, order@, lo, hi),
{
    let mut order: Vec<usize> = Vec::new();
    let mut i: usize = 0;
    let mut j: usize = 0;
    while i < left.len() || j < right.len()
        invariant
            0 <= lo <= mid <= hi <= items@.len(),
            sorted_range(items@, left@, lo, mid),
            sorted_range(items@, right@, mid, hi),
            i <= left@.len(),
            j <= right@.len(),
            order@.len() == i + j,
            forall|k: int| 0 <= k < order@.len() ==> lo <= (#[trigger] order@[k]) < hi,
            forall|k: int| 0 <= k < i ==> order@.contains(#[trigger] left@[k]),
            forall|k: int| 0 <= k < j ==> order@.contains(#[trigger] right@[k]),
            forall|k: int, l: int|
                #![trigger order@[k], order@[l]]
                0 <= k < l < order@.len() ==> stands_before(
                    items@,
                    order@[k] as int,
                    order@[l] as int,
                ),
            forall|k: int, l: int|
                #![trigger order@[k], left@[l]]
                0 <= k < order@.len() && i <= l < left@.len() ==> stands_before(
                    items@,
                    order@[k] as int,
                    left@[l] as int,
                ),
            forall|k: int, l: int|
                #![trigger order@[k], right@[l]]
                0 <= k < order@.len() && j <= l < right@.len() ==> stands_before(
                    items@,
                    order@[k] as int,
                    right@[l] as int,
                ),
        decreases left@.len() - i + right@.len() - j,
    {
        let take_left = if i == left.len() {
            false
        } else if j == right.len() {
            true
        } else {
            items[left[i]].is_le(&items[right[j]])
        };
        let ghost before = order@;
        if take_left {
            let next = left[i];
            order.push(next);
            proof {
                if j < right@.len() {
                    assert(stands_before(items@, next as int, right@[j as int] as int));
                }
                assert forall|l: int| j <= l < right@.len() implies stands_before(
                    items@,
                    next as int,
                    #[trigger] right@[l] as int,
                ) by {
                    if l > j {
                        lemma_stands_before_transitive(
                            items@,
                            next as int,
                            right@[j as int] as int,
                            right@[l] as int,
                        );
                    }
                }
            }
            i += 1;
        } else {
            let next = right[j];
            order.push(next);
            proof {
                if i < left@.len() {
                    items@[left@[i as int] as int].total(&items@[next as int]);
                    assert(stands_before(items@, next as int, left@[i as int] as int));
                }
                assert forall|l: int| i <= l < left@.len() implies stands_before(
                    items@,
                    next as int,
                    #[trigger] left@[l] as int,
                ) by {
                    if l > i {
                        lemma_stands_before_transitive(
                            items@,
                            next as int,
                            left@[i as int] as int,
                            left@[l] as int,
                        );
                    }
                }
            }
            j += 1;
        }
        proof {
            let last = order@[before.len() as int];
            assert(forall|k: int| 0 <= k < before.len() ==> order@[k] == #[trigger] before[k]);
            assert forall|v: usize| #[trigger] before.contains(v) implies order@.contains(v) by {
                let k = choose|k: int| 0 <= k < before.len() && before[k] == v;
                assert(order@[k] == v);
            }
            assert(order@.contains(last));
        }
    }
    proof {
        assert forall|v: usize| lo <= v < hi implies #[trigger] order@.contains(v) by {
            if v < mid {
                assert(left@.contains(v));
                let k = choose|k: int| 0 <= k < left@.len() && left@[k] == v;
                assert(order@.contains(left@[k]));
            } else {
                assert(right@.contains(v));
                let k = choose|k: int| 0 <= k < right@.len() && right@[k] == v;
                assert(order@.contains(right@[k]));
            }
        }
    }
    order
}

/// Sorts the indices from `lo` to `hi`.
fn sort_range<T: Ranked>(items: &Vec<T>, lo: usize, hi: usize) -> (order: Vec<usize>)
    requires
        lo <= hi <= items@.len(),
    ensures
        sorted_range(items@, order@, lo as int, hi as int),
    decreases hi - lo,
{
    let mut order: Vec<usize> = Vec::new();
    if lo == hi {
        return order;
    }
    if hi - lo == 1 {
        order.push(lo);
        assert(order@[0] == lo);
        assert forall|v: usize| lo <= v < hi implies #[trigger] order@.contains(v) by {
            assert(v == lo);
        }
        return order;
    }
    let mid = lo + (hi - lo) / 2;
    let left = sort_range(items, lo, mid);
    let right = sort_range(items, mid, hi);
    merge(items, left, right, Ghost(lo as int), Ghost(mid as int), Ghost(hi as int))
}

/// The order in which a stable sort puts the items.
pub fn stable_order<T: Ranked>(items: &Vec<T>) -> (order: Vec<usize>)
    ensures
        is_stable_order(items@, order@),
{
    let order = sort_range(items, 0, items.len());
    assert forall|k: int, l: int|
        0 <= k < order@.len() && 0 <= l < order@.len() && k != l implies order@[k]
        != order@[l] by {
        if k < l {
            assert(stands_before(items@, order@[k] as int, order@[l] as int));
        } else {
            assert(stands_before(items@, order@[l] as int, order@[k] as int));
        }
    }
    order
}

/// Law: there is only one order in which a stable sort can put the items.
pub proof fn law_stable_order_is_unique<T: Ranked>(items: Seq<T>, a: Seq<usize>, b: Seq<usize>)
    requires
        is_stable_order(items, a),
        is_stable_order(items, b),
    ensures
        a == b,
{
    lemma_stable_prefixes_agree(items, a, b, items.len() as int);
    assert(a =~= b);
}

/// Two sorted orders of the same items agree on each prefix.
proof fn lemma_stable_prefixes_agree<T: Ranked>(
    items: Seq<T>,
    a: Seq<usize>,
    b: Seq<usize>,
    n: int,
)
    requires
        is_stable_order(items, a),
        is_stable_order(items, b),
        0 <= n <= items.len(),
    ensures
        forall|k: int| 0 <= k < n ==> a[k] == b[k],
    decreases n,
{
    if n > 0 {
        lemma_stable_prefixes_agree(items, a, b, n - 1);
        let k = n - 1;
        let x = a[k];
        let y = b[k];
        if x != y {
            assert(a.contains(y));
            assert(b.contains(x));
            let p = choose|p: int| 0 <= p < a.len() && a[p] == y;
            let q = choose|q: int| 0 <= q < b.len() && b[q] == x;
            assert(p > k);
            assert(q > k);
            assert(stands_before(items, a[k] as int, a[p] as int));
            assert(stands_before(items, b[k] as int, b[q] as int));
        }
    }
}

/// Putting items in another order keeps them all.
pub proof fn lemma_arranged_multiset<T>(items: Seq<T>, order: Seq<usize>)
    requires
        is_permutation(order, items.len()),
        items.len() <= usize::MAX,
    ensures
        arranged(items, order).to_multiset() == items.to_multiset(),
    decreases items.len(),
{
    broadcast use vstd::seq_lib::group_to_multiset_ensures;

    let all = arranged(items, order);
    if items.len() == 0 {
        assert(all =~= items);
    } else {
        let n = items.len() as int;
        let last = (n - 1) as usize;
        assert(order.contains(last));
        let p = choose|p: int| 0 <= p < order.len() && order[p] == last;
        let shorter = order.remove(p);
        let rest = items.drop_last();
        assert forall|v: usize| v < n - 1 implies #[trigger] shorter.contains(v) by {
            assert(order.contains(v));
            let q = choose|q: int| 0 <= q < order.len() && order[q] == v;
            assert(shorter[if q < p { q } else { q - 1 }] == v);
        }
        assert(is_permutation(shorter, rest.len()));
        lemma_arranged_multiset(rest, shorter);
        assert(arranged(rest, shorter) =~= all.remove(p));
        assert(rest =~= items.remove(n - 1));
        assert(all[p] == items[n - 1]);
        assert(all.contains(all[p]));
        assert(items.contains(items[n - 1]));
        assert(all.to_multiset().remove(all[p]).insert(all[p]) =~= all.to_multiset());
        assert(items.to_multiset().remove(all[p]).insert(all[p]) =~= items.to_multiset());
    }
}

/// Puts items in the given order.
pub fn arrange<T>(items: Vec<T>, order: &Vec<usize>) -> (result: Vec<T>)
    requires
        is_permutation(order@, items@.len()),
    ensures
        result@ == arranged(items@, order@),
{
    let ghost given = items@;
    let mut items = items;
    let mut reversed: Vec<Option<T>> = Vec::new();
    while items.len() > 0
        invariant
            items@ == given.take(items@.len() as int),
            items@.len() + reversed@.len() == given.len(),
            forall|k: int|
                0 <= k < reversed@.len() ==> #[trigger] reversed@[k] == Some(
                    given[given.len() - 1 - k],
                ),
        decreases items@.len(),
    {
        let item = items.pop();
        reversed.push(item);
        assert(items@ =~= given.take(items@.len() as int));
    }
    let n = reversed.len();
    let mut result: Vec<T> = Vec::new();
    let mut k: usize = 0;
    while k < order.len()
        invariant
            n == given.len(),
            is_permutation(order@, given.len()),
            reversed@.len() == n,
            k <= order@.len(),
            result@ == arranged(given, order@).take(k as int),
            forall|l: int|
                k <= l < order@.len() ==> reversed@[n - 1 - (#[trigger] order@[l])] == Some(
                    given[order@[l] as int],
                ),
        decreases order@.len() - k,
    {
        let index = n - 1 - order[k];
        let item = reversed[index].take();
        match item {
            Some(item) => {
                result.push(item);
            },
            None => {},
        }
        assert(result@ =~= arranged(given, order@).take(k + 1));
        k += 1;
    }
    assert(result@ =~= arranged(given, order@));
    result
}

/// The items in sorted order, where those that share a place keep their order.
pub open spec fn is_stable_sort<T: Ranked>(items: Seq<T>, sorted: Seq<T>) -> bool {
    exists|order: Seq<usize>|
        #[trigger] is_stable_order(items, order) && sorted == arranged(items, order)
}

/// Sorts items. Those that share a place keep their order.
pub fn stable_sort<T: Ranked>(items: Vec<T>) -> (sorted: Vec<T>)
    ensures
        is_stable_sort(items@, sorted@),
{
    let order = stable_order(&items);
    arrange(items, &order)
}

/// Law: there is only one outcome of a stable sort, it holds all the items, and
/// each stands before those that come after it in the order.
pub proof fn law_stable_sort<T: Ranked>(items: Seq<T>, a: Seq<T>, b: Seq<T>)
    requires
        is_stable_sort(items, a),
        is_stable_sort(items, b),
        items.len() <= usize::MAX,
    ensures
        a == b,
        a.to_multiset() == items.to_multiset(),
        a.len() == items.len(),
        forall|k: int, l: int|
            #![trigger a[k], a[l]]
            0 <= k < l < a.len() ==> a[k].le(&a[l]),
{
    let x = choose|x: Seq<usize>|
        #[trigger] is_stable_order(items, x) && a == arranged(items, x);
    let y = choose|y: Seq<usize>|
        #[trigger] is_stable_order(items, y) && b == arranged(items, y);
    law_stable_order_is_unique(items, x, y);
    lemma_arranged_multiset(items, x);
    assert forall|k: int, l: int|
        #![trigger a[k], a[l]]
        0 <= k < l < a.len() implies a[k].le(&a[l]) by {
        assert(stands_before(items, x[k] as int, x[l] as int));
    }
}

/// Numbers sorted by the total order of IEEE 754.
pub open spec fn sorted_values(values: Seq<Double>) -> Seq<Double> {
    values.sort_by(|x: Double, y: Double| x.rank() <= y.rank())
}

/// Sorts numbers by the total order of IEEE 754.
pub fn sort_doubles(values: &Vec<Double>) -> (sorted: Vec<Double>)
    ensures
        sorted@ == sorted_values(values@),
        sorted@.len() == values@.len(),
{
    let order = stable_order(values);
    let mut sorted: Vec<Double> = Vec::new();
    let mut k: usize = 0;
    while k < order.len()
        invariant
            is_stable_order(values@, order@),
            k <= order@.len(),
            sorted@ == arranged(values@, order@).take(k as int),
        decreases order@.len() - k,
    {
        sorted.push(values[order[k]]);
        assert(sorted@ =~= arranged(values@, order@).take(k + 1));
        k += 1;
    }
    assert(sorted@ =~= arranged(values@, order@));
    proof {
        let leq = |x: Double, y: Double| x.rank() <= y.rank();
        lemma_arranged_multiset(values@, order@);
        assert forall|i: int, j: int| 0 <= i < j < sorted@.len() implies #[trigger] leq(
            sorted@[i],
            sorted@[j],
        ) by {
            assert(stands_before(values@, order@[i] as int, order@[j] as int));
        }
        lemma_rank_orders();
        values@.lemma_sort_by_ensures(leq);
        vstd::seq_lib::lemma_sorted_unique(sorted@, values@.sort_by(leq), leq);
    }
    sorted
}

/// The total order of IEEE 754 is one.
proof fn lemma_rank_orders()
    ensures
        vstd::relations::total_ordering(|x: Double, y: Double| x.rank() <= y.rank()),
{
    assert forall|x: Double, y: Double| x.rank() <= y.rank() && y.rank() <= x.rank() implies x
        == y by {
        law_rank_identifies(x, y);
    }
}

/// Law: sorting keeps all numbers, and puts none before a smaller one.
pub proof fn law_sorted_values(values: Seq<Double>)
    ensures
        sorted_values(values).to_multiset() == values.to_multiset(),
        sorted_values(values).len() == values.len(),
        forall|i: int, j: int|
            #![trigger sorted_values(values)[i], sorted_values(values)[j]]
            0 <= i <= j < values.len() ==> sorted_values(values)[i].rank() <= sorted_values(
                values,
            )[j].rank(),
{
    broadcast use vstd::seq_lib::group_to_multiset_ensures;

    let leq = |x: Double, y: Double| x.rank() <= y.rank();
    lemma_rank_orders();
    values.lemma_sort_by_ensures(leq);
    let sorted = sorted_values(values);
    assert(sorted.to_multiset().len() == values.to_multiset().len());
    assert forall|i: int, j: int|
        #![trigger sorted[i], sorted[j]]
        0 <= i <= j < sorted.len() implies sorted[i].rank() <= sorted[j].rank() by {
        if i < j {
            assert(leq(sorted[i], sorted[j]));
        }
    }
}

/// Law: numbers that are in order stay as they are, and they are what any list of the
/// same numbers is sorted to.
pub proof fn law_ordered_values_stay(sorted: Seq<Double>, values: Seq<Double>)
    requires
        sorted.to_multiset() == values.to_multiset(),
        forall|i: int, j: int|
            #![trigger sorted[i], sorted[j]]
            0 <= i <= j < sorted.len() ==> sorted[i].rank() <= sorted[j].rank(),
    ensures
        sorted_values(values) == sorted,
{
    let leq = |x: Double, y: Double| x.rank() <= y.rank();
    lemma_rank_orders();
    values.lemma_sort_by_ensures(leq);
    assert forall|i: int, j: int| 0 <= i < j < sorted.len() implies #[trigger] leq(
        sorted[i],
        sorted[j],
    ) by {}
    vstd::seq_lib::lemma_sorted_unique(sorted, values.sort_by(leq), leq);
}

/// Law: sorting gives the same for every order of the numbers.
pub proof fn law_sorting_ignores_order(x: Seq<Double>, y: Seq<Double>)
    requires
        x.to_multiset() == y.to_multiset(),
    ensures
        sorted_values(x) == sorted_values(y),
{
    let leq = |x: Double, y: Double| x.rank() <= y.rank();
    lemma_rank_orders();
    x.lemma_sort_by_ensures(leq);
    y.lemma_sort_by_ensures(leq);
    vstd::seq_lib::lemma_sorted_unique(x.sort_by(leq), y.sort_by(leq), leq);
}

/// Law: in sorted order each item comes before the next or shares its place, and those that
/// share a place stand as they stood.
pub proof fn law_ties_keep_their_order<T: Ranked>(items: Seq<T>, order: Seq<usize>, k: int, l: int)
    requires
        is_stable_order(items, order),
        0 <= k < l < order.len(),
    ensures
        order.len() == items.len(),
        order[k] < items.len() && order[l] < items.len() && order[k] != order[l],
        items[order[k] as int].le(&items[order[l] as int]),
        items[order[l] as int].le(&items[order[k] as int]) ==> order[k] < order[l],
{
    assert(stands_before(items, order[k] as int, order[l] as int));
}

} // verus!
