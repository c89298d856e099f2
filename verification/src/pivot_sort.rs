//! A pivot-based sort that orders items from the highest weight to the lowest.
//!
//! The last item is the pivot. The others are taken from the end of the
//! sequence one by one and appended to one of three buckets: heavier than the
//! pivot, as heavy, or lighter. The heavier and the lighter bucket are sorted
//! the same way, and the result is the heavier items, then the pivot and its
//! equals, then the lighter items.
//!
//! Because every bucket is filled from the end of the input, items of equal
//! weight do not keep their order: each pass through a bucket reverses it.
//! [`pivot_sorted`] states the resulting order exactly.

use vstd::multiset::Multiset;
use vstd::prelude::*;

use crate::resorting::{lemma_sorting_sorted, resorted};

verus! {

/// An item that can be ordered by an integer weight.
///
/// The weight of an item is a function of the item alone: `weight` returns
/// what `weight_spec` states, whenever it is called.
pub trait Sortable {
    /// The weight of the item, as contracts speak of it.
    ///
    /// A verified implementation states the weight here. Where this is left
    /// as it stands, nothing is known of the weight, and no `weight` verifies
    /// against it.
    open spec fn weight_spec(&self) -> i64 {
        arbitrary()
    }

    /// The value to sort by.
    fn weight(&self) -> (w: i64)
        ensures
            w == self.weight_spec(),
    ;
}

/// The function that gives each item of a [`Sortable`] type its weight.
pub open spec fn weight_of<T: Sortable>() -> spec_fn(T) -> int {
    |item: T| item.weight_spec() as int
}

/// The test that an item weighs more than `w`.
pub open spec fn weighs_more<T>(weight: spec_fn(T) -> int, w: int) -> spec_fn(T) -> bool {
    |item: T| weight(item) > w
}

/// The test that an item weighs exactly `w`.
pub open spec fn weighs_same<T>(weight: spec_fn(T) -> int, w: int) -> spec_fn(T) -> bool {
    |item: T| weight(item) == w
}

/// The test that an item weighs less than `w`.
pub open spec fn weighs_less<T>(weight: spec_fn(T) -> int, w: int) -> spec_fn(T) -> bool {
    |item: T| weight(item) < w
}

/// The order in which the sort leaves the items of `s`, weighed by `weight`.
///
/// The pivot is the last item. `taken` lists the other items as the sort takes
/// them, from the end of `s` to its start, and each bucket keeps that order.
pub open spec fn pivot_sorted<T>(s: Seq<T>, weight: spec_fn(T) -> int) -> Seq<T>
    decreases s.len(),
{
    if s.len() == 0 {
        s
    } else {
        let pivot = s.last();
        let w = weight(pivot);
        let taken = s.drop_last().reverse();
        pivot_sorted(taken.filter(weighs_more(weight, w)), weight) + (seq![pivot] + taken.filter(
            weighs_same(weight, w),
        )) + pivot_sorted(taken.filter(weighs_less(weight, w)), weight)
    }
}

/// Whether the weights of `s` never rise from one item to a later one.
pub open spec fn is_descending<T>(s: Seq<T>, weight: spec_fn(T) -> int) -> bool {
    forall|i: int, j: int|
        0 <= i <= j < s.len() ==> weight(#[trigger] s[i]) >= weight(#[trigger] s[j])
}

/// Each bucket holds only items of the weights it is meant for.
proof fn lemma_bucket_weights<T>(s: Seq<T>, weight: spec_fn(T) -> int, w: int)
    ensures
        forall|k: int|
            0 <= k < s.filter(weighs_more(weight, w)).len() ==> weight(
                #[trigger] s.filter(weighs_more(weight, w))[k],
            ) > w,
        forall|k: int|
            0 <= k < s.filter(weighs_same(weight, w)).len() ==> weight(
                #[trigger] s.filter(weighs_same(weight, w))[k],
            ) == w,
        forall|k: int|
            0 <= k < s.filter(weighs_less(weight, w)).len() ==> weight(
                #[trigger] s.filter(weighs_less(weight, w))[k],
            ) < w,
{
    assert forall|k: int| 0 <= k < s.filter(weighs_more(weight, w)).len() implies weight(
        #[trigger] s.filter(weighs_more(weight, w))[k],
    ) > w by {
        s.lemma_filter_pred(weighs_more(weight, w), k);
    }
    assert forall|k: int| 0 <= k < s.filter(weighs_same(weight, w)).len() implies weight(
        #[trigger] s.filter(weighs_same(weight, w))[k],
    ) == w by {
        s.lemma_filter_pred(weighs_same(weight, w), k);
    }
    assert forall|k: int| 0 <= k < s.filter(weighs_less(weight, w)).len() implies weight(
        #[trigger] s.filter(weighs_less(weight, w))[k],
    ) < w by {
        s.lemma_filter_pred(weighs_less(weight, w), k);
    }
}

/// Splitting a sequence by a weight into its three buckets loses no item and
/// adds none.
proof fn lemma_buckets_partition<T>(s: Seq<T>, weight: spec_fn(T) -> int, w: int)
    ensures
        s.filter(weighs_more(weight, w)).to_multiset().add(
            s.filter(weighs_same(weight, w)).to_multiset(),
        ).add(s.filter(weighs_less(weight, w)).to_multiset()) == s.to_multiset(),
    decreases s.len(),
{
    broadcast use vstd::seq_lib::to_multiset_build;

    reveal(Seq::filter);
    let split = s.filter(weighs_more(weight, w)).to_multiset().add(
        s.filter(weighs_same(weight, w)).to_multiset(),
    ).add(s.filter(weighs_less(weight, w)).to_multiset());
    if s.len() == 0 {
        s.to_multiset_ensures();
        assert(split =~= s.to_multiset());
    } else {
        let front = s.drop_last();
        lemma_buckets_partition(front, weight, w);
        assert(s == front.push(s.last()));
        assert(split =~= s.to_multiset());
    }
}

/// Sorting rearranges: every item occurs in the result as often as in the
/// input, so the result is as long as the input.
pub proof fn lemma_pivot_sorted_permutes<T>(s: Seq<T>, weight: spec_fn(T) -> int)
    ensures
        pivot_sorted(s, weight).to_multiset() == s.to_multiset(),
        pivot_sorted(s, weight).len() == s.len(),
    decreases s.len(),
{
    broadcast use vstd::seq_lib::to_multiset_build;

    if s.len() > 0 {
        let pivot = s.last();
        let w = weight(pivot);
        let front = s.drop_last();
        let taken = front.reverse();
        let high = taken.filter(weighs_more(weight, w));
        let same = seq![pivot] + taken.filter(weighs_same(weight, w));
        let low = taken.filter(weighs_less(weight, w));
        let top = pivot_sorted(high, weight);
        let bottom = pivot_sorted(low, weight);
        lemma_pivot_sorted_permutes(high, weight);
        lemma_pivot_sorted_permutes(low, weight);
        lemma_buckets_partition(taken, weight, w);
        front.lemma_reverse_to_multiset();
        vstd::seq_lib::lemma_multiset_commutative(
            seq![pivot],
            taken.filter(weighs_same(weight, w)),
        );
        vstd::seq_lib::lemma_multiset_commutative(top, same);
        vstd::seq_lib::lemma_multiset_commutative(top + same, bottom);
        assert(seq![pivot].to_multiset() =~= Multiset::singleton(pivot)) by {
            assert(seq![pivot] =~= Seq::<T>::empty().push(pivot));
            Seq::<T>::empty().to_multiset_ensures();
        }
        assert(s == front.push(pivot));
        assert(pivot_sorted(s, weight).to_multiset() =~= s.to_multiset());
    }
    pivot_sorted(s, weight).to_multiset_ensures();
    s.to_multiset_ensures();
}

/// Sorting keeps the items: what the result holds is what the input held.
proof fn lemma_pivot_sorted_same_items<T>(s: Seq<T>, weight: spec_fn(T) -> int)
    ensures
        forall|item: T| pivot_sorted(s, weight).contains(item) <==> s.contains(item),
{
    lemma_pivot_sorted_permutes(s, weight);
    assert forall|item: T| pivot_sorted(s, weight).contains(item) <==> s.contains(item) by {
        vstd::seq_lib::to_multiset_contains(pivot_sorted(s, weight), item);
        vstd::seq_lib::to_multiset_contains(s, item);
    }
}

/// Sorting orders: from one item of the result to a later one the weight
/// never rises.
pub proof fn lemma_pivot_sorted_descends<T>(s: Seq<T>, weight: spec_fn(T) -> int)
    ensures
        is_descending(pivot_sorted(s, weight), weight),
    decreases s.len(),
{
    if s.len() > 0 {
        let pivot = s.last();
        let w = weight(pivot);
        let taken = s.drop_last().reverse();
        let high = taken.filter(weighs_more(weight, w));
        let same = seq![pivot] + taken.filter(weighs_same(weight, w));
        let low = taken.filter(weighs_less(weight, w));
        let top = pivot_sorted(high, weight);
        let bottom = pivot_sorted(low, weight);
        lemma_pivot_sorted_descends(high, weight);
        lemma_pivot_sorted_descends(low, weight);
        lemma_pivot_sorted_same_items(high, weight);
        lemma_pivot_sorted_same_items(low, weight);
        lemma_bucket_weights(taken, weight, w);
        assert forall|k: int| 0 <= k < top.len() implies weight(#[trigger] top[k]) > w by {
            assert(top.contains(top[k]));
            assert(high.contains(top[k]));
        }
        assert forall|k: int| 0 <= k < same.len() implies weight(#[trigger] same[k]) == w by {
            if k > 0 {
                assert(same[k] == taken.filter(weighs_same(weight, w))[k - 1]);
            }
        }
        assert forall|k: int| 0 <= k < bottom.len() implies weight(#[trigger] bottom[k]) < w by {
            assert(bottom.contains(bottom[k]));
            assert(low.contains(bottom[k]));
        }
        let out = pivot_sorted(s, weight);
        assert(out == top + same + bottom);
        assert forall|i: int, j: int| 0 <= i <= j < out.len() implies weight(#[trigger] out[i])
            >= weight(#[trigger] out[j]) by {
            if j < top.len() {
                assert(out[i] == top[i] && out[j] == top[j]);
            } else if i >= top.len() + same.len() {
                assert(out[i] == bottom[i - top.len() - same.len()]);
                assert(out[j] == bottom[j - top.len() - same.len()]);
            } else {
                if i < top.len() {
                    assert(out[i] == top[i]);
                } else {
                    assert(out[i] == same[i - top.len()]);
                }
                if j < top.len() + same.len() {
                    assert(out[j] == same[j - top.len()]);
                } else {
                    assert(out[j] == bottom[j - top.len() - same.len()]);
                }
            }
        }
    }
}

/// Filtering the images of items keeps the images of the items that
/// filtering keeps, where the two tests agree.
proof fn lemma_filter_maps<T, U>(
    s: Seq<T>,
    image: spec_fn(T) -> U,
    keep: spec_fn(T) -> bool,
    keep_image: spec_fn(U) -> bool,
)
    requires
        forall|item: T| keep_image(image(item)) == #[trigger] keep(item),
    ensures
        s.map_values(image).filter(keep_image) == s.filter(keep).map_values(image),
    decreases s.len(),
{
    reveal(Seq::filter);
    if s.len() == 0 {
        assert(s.map_values(image).filter(keep_image) =~= s.filter(keep).map_values(image));
    } else {
        let front = s.drop_last();
        lemma_filter_maps(front, image, keep, keep_image);
        assert(s.map_values(image).drop_last() =~= front.map_values(image));
        assert(s.map_values(image).filter(keep_image) =~= s.filter(keep).map_values(image));
    }
}

/// Sorting the images of items, by a weight that gives each image the weight
/// of its item, puts them in the order of the sorted items.
pub proof fn lemma_pivot_sorted_maps<T, U>(
    s: Seq<T>,
    image: spec_fn(T) -> U,
    weight: spec_fn(T) -> int,
    image_weight: spec_fn(U) -> int,
)
    requires
        forall|item: T| image_weight(image(item)) == #[trigger] weight(item),
    ensures
        pivot_sorted(s.map_values(image), image_weight) == pivot_sorted(s, weight).map_values(
            image,
        ),
    decreases s.len(),
{
    let images = s.map_values(image);
    if s.len() == 0 {
        assert(pivot_sorted(images, image_weight) =~= pivot_sorted(s, weight).map_values(image));
    } else {
        let pivot = s.last();
        let w = weight(pivot);
        let taken = s.drop_last().reverse();
        let high = taken.filter(weighs_more(weight, w));
        let same = taken.filter(weighs_same(weight, w));
        let low = taken.filter(weighs_less(weight, w));
        assert(images.last() == image(pivot));
        assert(images.drop_last().reverse() =~= taken.map_values(image));
        lemma_filter_maps(taken, image, weighs_more(weight, w), weighs_more(image_weight, w));
        lemma_filter_maps(taken, image, weighs_same(weight, w), weighs_same(image_weight, w));
        lemma_filter_maps(taken, image, weighs_less(weight, w), weighs_less(image_weight, w));
        taken.lemma_filter_len(weighs_more(weight, w));
        taken.lemma_filter_len(weighs_less(weight, w));
        lemma_pivot_sorted_maps(high, image, weight, image_weight);
        lemma_pivot_sorted_maps(low, image, weight, image_weight);
        assert(pivot_sorted(images, image_weight) =~= pivot_sorted(s, weight).map_values(image));
    }
}

/// Sort a given vector from highest weight to lowest weight.
///
/// The order is derived from the value that `weight()` returns. Items of
/// equal weight end up next to each other, in the order that
/// [`pivot_sorted`] fixes. A vector that is sorted already keeps its weights
/// in their places, and its items as [`resorted`] states.
pub fn pivot_sort_high_to_low<T: Sortable>(items: &mut Vec<T>)
    ensures
        final(items)@ == pivot_sorted(old(items)@, weight_of::<T>()),
        final(items)@.to_multiset() == old(items)@.to_multiset(),
        final(items)@.len() == old(items)@.len(),
        is_descending(final(items)@, weight_of::<T>()),
        is_descending(old(items)@, weight_of::<T>()) ==> final(items)@ == resorted(
            old(items)@,
            weight_of::<T>(),
        ),
    decreases old(items).len(),
{
    proof {
        lemma_pivot_sorted_permutes(items@, weight_of::<T>());
        lemma_pivot_sorted_descends(items@, weight_of::<T>());
        if is_descending(items@, weight_of::<T>()) {
            lemma_sorting_sorted(items@, weight_of::<T>());
        }
    }
    let pivot = match items.pop() {
        Some(valid_pivot) => valid_pivot,
        None => { return ; },
    };
    let pivot_weight: i64 = pivot.weight();
    let ghost first = pivot;
    let ghost rest = items@;
    let ghost more = weighs_more(weight_of::<T>(), pivot_weight as int);
    let ghost same = weighs_same(weight_of::<T>(), pivot_weight as int);
    let ghost less = weighs_less(weight_of::<T>(), pivot_weight as int);

    let mut lower: Vec<T> = Vec::new();
    let mut higher: Vec<T> = Vec::new();
    let mut equal: Vec<T> = vec![pivot];

    loop
        invariant
            items.len() <= rest.len(),
            items@ == rest.take(items.len() as int),
            more == weighs_more(weight_of::<T>(), pivot_weight as int),
            same == weighs_same(weight_of::<T>(), pivot_weight as int),
            less == weighs_less(weight_of::<T>(), pivot_weight as int),
            higher@ == rest.skip(items.len() as int).reverse().filter(more),
            equal@ == seq![first] + rest.skip(items.len() as int).reverse().filter(same),
            lower@ == rest.skip(items.len() as int).reverse().filter(less),
        ensures
            items.len() == 0,
        decreases items.len(),
    {
        let item = match items.pop() {
            Some(next) => next,
            None => { break ; },
        };
        proof {
            let seen = rest.skip(items.len() as int + 1).reverse();
            assert(rest.skip(items.len() as int).reverse() =~= seen.push(item));
            seen.lemma_filter_push(item, more);
            seen.lemma_filter_push(item, same);
            seen.lemma_filter_push(item, less);
        }
        let weight: i64 = item.weight();
        if weight < pivot_weight {
            lower.push(item);
        } else if weight == pivot_weight {
            equal.push(item);
        } else {
            higher.push(item);
        }
    }

    proof {
        assert(rest.skip(0) =~= rest);
        assert(rest == old(items)@.drop_last());
        rest.reverse().lemma_filter_len(more);
        rest.reverse().lemma_filter_len(less);
    }
    pivot_sort_high_to_low(&mut higher);
    pivot_sort_high_to_low(&mut lower);

    items.append(&mut higher);
    items.append(&mut equal);
    items.append(&mut lower);
    assert(items@ =~= pivot_sorted(old(items)@, weight_of::<T>()));
}

} // verus!
