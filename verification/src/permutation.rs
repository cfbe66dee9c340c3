//! What does not depend on the order of a list.

use vstd::prelude::*;

verus! {

/// What a function gives for the items of a list, as far as it gives anything.
pub open spec fn kept<T, U>(items: Seq<T>, f: spec_fn(T) -> Option<U>) -> Seq<U>
    decreases items.len(),
{
    if items.len() == 0 {
        Seq::empty()
    } else {
        let before = kept(items.drop_last(), f);
        match f(items.last()) {
            Some(value) => before.push(value),
            None => before,
        }
    }
}

/// Without one of the items, what is kept lacks what that item gave.
proof fn lemma_kept_without<T, U>(items: Seq<T>, f: spec_fn(T) -> Option<U>, k: int)
    requires
        0 <= k < items.len(),
    ensures
        kept(items, f).to_multiset() == (match f(items[k]) {
            Some(value) => kept(items.remove(k), f).to_multiset().insert(value),
            None => kept(items.remove(k), f).to_multiset(),
        }),
    decreases items.len(),
{
    broadcast use vstd::seq_lib::group_to_multiset_ensures;

    let shorter = items.drop_last();
    if k == items.len() - 1 {
        assert(items.remove(k) =~= shorter);
    } else {
        lemma_kept_without(shorter, f, k);
        let without = items.remove(k);
        assert(without.drop_last() =~= shorter.remove(k));
        assert(without.last() == items.last());
        assert(kept(items, f).to_multiset() =~= (match f(items[k]) {
            Some(value) => kept(without, f).to_multiset().insert(value),
            None => kept(without, f).to_multiset(),
        }));
    }
}

/// The same items in another order keep the same.
pub proof fn lemma_kept_permuted<T, U>(x: Seq<T>, y: Seq<T>, f: spec_fn(T) -> Option<U>)
    requires
        x.to_multiset() == y.to_multiset(),
    ensures
        kept(x, f).to_multiset() == kept(y, f).to_multiset(),
    decreases x.len(),
{
    broadcast use vstd::seq_lib::group_to_multiset_ensures;

    vstd::seq_lib::to_multiset_len(x);
    vstd::seq_lib::to_multiset_len(y);
    if x.len() > 0 {
        let item = x.last();
        assert(x[x.len() - 1] == item);
        assert(x.contains(item));
        assert(y.to_multiset().contains(item));
        assert(y.contains(item));
        let k = choose|k: int| 0 <= k < y.len() && y[k] == item;
        assert(x.remove(x.len() - 1) =~= x.drop_last());
        assert(x.drop_last().to_multiset() =~= y.remove(k).to_multiset());
        lemma_kept_permuted(x.drop_last(), y.remove(k), f);
        lemma_kept_without(y, f, k);
    } else {
        assert(x =~= y);
    }
}

/// Mapping the same items in another order gives the same values.
pub proof fn lemma_mapped_permuted<T, U>(x: Seq<T>, y: Seq<T>, f: spec_fn(T) -> U)
    requires
        x.to_multiset() == y.to_multiset(),
    ensures
        x.map_values(f).to_multiset() == y.map_values(f).to_multiset(),
{
    let g = |item: T| Some(f(item));
    lemma_mapped_is_kept(x, f, g);
    lemma_mapped_is_kept(y, f, g);
    lemma_kept_permuted(x, y, g);
}

/// To map items is to keep what each of them gives.
proof fn lemma_mapped_is_kept<T, U>(items: Seq<T>, f: spec_fn(T) -> U, g: spec_fn(T) -> Option<U>)
    requires
        forall|item: T| #[trigger] g(item) == Some(f(item)),
    ensures
        items.map_values(f) == kept(items, g),
    decreases items.len(),
{
    if items.len() > 0 {
        lemma_mapped_is_kept(items.drop_last(), f, g);
        assert(items.map_values(f) =~= items.drop_last().map_values(f).push(f(items.last())));
    } else {
        assert(items.map_values(f) =~= kept(items, g));
    }
}

/// Selecting from the same items in another order gives the same.
pub proof fn lemma_filtered_permuted<T>(x: Seq<T>, y: Seq<T>, f: spec_fn(T) -> bool)
    requires
        x.to_multiset() == y.to_multiset(),
    ensures
        x.filter(f).to_multiset() == y.filter(f).to_multiset(),
{
    let g = |item: T| if f(item) { Some(item) } else { None };
    lemma_filtered_is_kept(x, f, g);
    lemma_filtered_is_kept(y, f, g);
    lemma_kept_permuted(x, y, g);
}

/// To select items is to keep those that are selected.
proof fn lemma_filtered_is_kept<T>(
    items: Seq<T>,
    f: spec_fn(T) -> bool,
    g: spec_fn(T) -> Option<T>,
)
    requires
        forall|item: T| #[trigger] g(item) == (if f(item) { Some(item) } else { None }),
    ensures
        items.filter(f) == kept(items, g),
    decreases items.len(),
{
    reveal(Seq::filter);
    if items.len() > 0 {
        lemma_filtered_is_kept(items.drop_last(), f, g);
    }
}

} // verus!
