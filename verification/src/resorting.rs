//! What the sort makes of a sequence that is sorted already.
//!
//! The weights of a descending sequence stay where they are. Its items are
//! grouped in runs of equal weight, and each run either stays as it is or is
//! turned around: the sort fills its buckets from the end of its input, so a
//! bucket that is not sorted again comes out reversed. A run stays if fewer
//! different weights stand above it than below it. [`resorted`] states the
//! result, and [`turns_into_itself`] tells which sequences the sort leaves as
//! they are.

use vstd::prelude::*;

use crate::pivot_sort::{
    is_descending, lemma_pivot_sorted_descends, pivot_sorted, weighs_less, weighs_more,
    weighs_same,
};

verus! {

/// Filtering a reversed sequence gives what filtering the sequence gives,
/// reversed.
proof fn lemma_filter_reverse<T>(s: Seq<T>, keep: spec_fn(T) -> bool)
    ensures
        s.reverse().filter(keep) == s.filter(keep).reverse(),
    decreases s.len(),
{
    if s.len() == 0 {
        assert(s.reverse() =~= s);
        assert(s.filter(keep) =~= Seq::empty()) by {
            s.lemma_filter_len(keep);
        }
        assert(s.reverse().filter(keep) =~= s.filter(keep).reverse());
    } else {
        let front = s.drop_last();
        let last = s.last();
        lemma_filter_reverse(front, keep);
        assert(s == front.push(last));
        assert(s.reverse() =~= seq![last] + front.reverse());
        front.reverse().lemma_filter_prepend(last, keep);
        front.lemma_filter_push(last, keep);
        assert(s.reverse().filter(keep) =~= s.filter(keep).reverse());
    }
}

/// A test that every item passes keeps every item.
proof fn lemma_filter_keeps_all<T>(s: Seq<T>, keep: spec_fn(T) -> bool)
    requires
        forall|i: int| 0 <= i < s.len() ==> keep(#[trigger] s[i]),
    ensures
        s.filter(keep) == s,
    decreases s.len(),
{
    reveal(Seq::filter);
    if s.len() > 0 {
        assert forall|i: int| 0 <= i < s.drop_last().len() implies keep(
            #[trigger] s.drop_last()[i],
        ) by {
            assert(s.drop_last()[i] == s[i]);
        }
        lemma_filter_keeps_all(s.drop_last(), keep);
        assert(keep(s[s.len() - 1]));
        assert(s.drop_last().push(s.last()) =~= s);
    }
}

/// A test that no item passes keeps no item.
proof fn lemma_filter_keeps_none<T>(s: Seq<T>, keep: spec_fn(T) -> bool)
    requires
        forall|i: int| 0 <= i < s.len() ==> !keep(#[trigger] s[i]),
    ensures
        s.filter(keep) == Seq::<T>::empty(),
    decreases s.len(),
{
    reveal(Seq::filter);
    if s.len() > 0 {
        assert forall|i: int| 0 <= i < s.drop_last().len() implies !keep(
            #[trigger] s.drop_last()[i],
        ) by {
            assert(s.drop_last()[i] == s[i]);
        }
        lemma_filter_keeps_none(s.drop_last(), keep);
        assert(!keep(s[s.len() - 1]));
    } else {
        assert(s =~= Seq::<T>::empty());
    }
}

/// The number of items of `s` that are heavier than `w`.
pub open spec fn heavier_count<T>(s: Seq<T>, weight: spec_fn(T) -> int, w: int) -> int {
    s.filter(weighs_more(weight, w)).len() as int
}

/// The number of items of `s` that are as heavy as `w`.
pub open spec fn level_count<T>(s: Seq<T>, weight: spec_fn(T) -> int, w: int) -> int {
    s.filter(weighs_same(weight, w)).len() as int
}

/// In a descending sequence the items heavier than `w` stand first, those as
/// heavy as `w` follow them, and the lighter ones come last.
proof fn lemma_descending_buckets<T>(s: Seq<T>, weight: spec_fn(T) -> int, w: int)
    requires
        is_descending(s, weight),
    ensures
        0 <= heavier_count(s, weight, w),
        0 <= level_count(s, weight, w),
        heavier_count(s, weight, w) + level_count(s, weight, w) <= s.len(),
        s.filter(weighs_more(weight, w)) == s.take(heavier_count(s, weight, w)),
        s.filter(weighs_same(weight, w)) == s.subrange(
            heavier_count(s, weight, w),
            heavier_count(s, weight, w) + level_count(s, weight, w),
        ),
        s.filter(weighs_less(weight, w)) == s.skip(
            heavier_count(s, weight, w) + level_count(s, weight, w),
        ),
    decreases s.len(),
{
    let more = weighs_more(weight, w);
    let same = weighs_same(weight, w);
    let less = weighs_less(weight, w);
    if s.len() == 0 {
        s.lemma_filter_len(more);
        s.lemma_filter_len(same);
        s.lemma_filter_len(less);
        assert(s.filter(more) =~= s.take(0));
        assert(s.filter(same) =~= s.subrange(0, 0));
        assert(s.filter(less) =~= s.skip(0));
    } else {
        let front = s.drop_last();
        let last = s.last();
        assert(s == front.push(last));
        assert(is_descending(front, weight)) by {
            assert forall|i: int, j: int| 0 <= i <= j < front.len() implies weight(
                #[trigger] front[i],
            ) >= weight(#[trigger] front[j]) by {
                assert(front[i] == s[i] && front[j] == s[j]);
            }
        }
        lemma_descending_buckets(front, weight, w);
        front.lemma_filter_push(last, more);
        front.lemma_filter_push(last, same);
        front.lemma_filter_push(last, less);
        let a = front.filter(more).len() as int;
        let b = front.filter(same).len() as int;
        if weight(last) >= w && a + b < front.len() {
            front.lemma_filter_pred(less, 0);
            assert(front.filter(less)[0] == front[a + b]);
            assert(front[a + b] == s[a + b]);
            assert(weight(s[a + b]) >= weight(s[s.len() - 1]));
        }
        if weight(last) > w && b > 0 {
            front.lemma_filter_pred(same, 0);
            assert(front.filter(same)[0] == front[a]);
            assert(front[a] == s[a]);
            assert(weight(s[a]) >= weight(s[s.len() - 1]));
        }
        let a_all = s.filter(more).len() as int;
        let b_all = s.filter(same).len() as int;
        assert(s.filter(more) =~= s.take(a_all));
        assert(s.filter(same) =~= s.subrange(a_all, a_all + b_all));
        assert(s.filter(less) =~= s.skip(a_all + b_all));
    }
}

/// A part of a descending sequence is descending.
proof fn lemma_descending_subrange<T>(s: Seq<T>, weight: spec_fn(T) -> int, from: int, to: int)
    requires
        is_descending(s, weight),
        0 <= from <= to <= s.len(),
    ensures
        is_descending(s.subrange(from, to), weight),
{
    let part = s.subrange(from, to);
    assert forall|i: int, j: int| 0 <= i <= j < part.len() implies weight(#[trigger] part[i])
        >= weight(#[trigger] part[j]) by {
        assert(part[i] == s[from + i] && part[j] == s[from + j]);
    }
}

/// In a descending sequence the places of the items tell how their weights
/// compare with `w`: the heavier ones stand first, those as heavy follow, and
/// the lighter ones come last.
proof fn lemma_descending_places<T>(s: Seq<T>, weight: spec_fn(T) -> int, w: int)
    requires
        is_descending(s, weight),
    ensures
        0 <= heavier_count(s, weight, w),
        0 <= level_count(s, weight, w),
        heavier_count(s, weight, w) + level_count(s, weight, w) <= s.len(),
        forall|i: int| 0 <= i < heavier_count(s, weight, w) ==> weight(#[trigger] s[i]) > w,
        forall|i: int|
            heavier_count(s, weight, w) <= i < heavier_count(s, weight, w) + level_count(
                s,
                weight,
                w,
            ) ==> weight(#[trigger] s[i]) == w,
        forall|i: int|
            heavier_count(s, weight, w) + level_count(s, weight, w) <= i < s.len() ==> weight(
                #[trigger] s[i],
            ) < w,
{
    let more = weighs_more(weight, w);
    let same = weighs_same(weight, w);
    let less = weighs_less(weight, w);
    let a = heavier_count(s, weight, w);
    let b = level_count(s, weight, w);
    lemma_descending_buckets(s, weight, w);
    assert forall|i: int| 0 <= i < a implies weight(#[trigger] s[i]) > w by {
        s.lemma_filter_pred(more, i);
        assert(s.filter(more)[i] == s[i]);
    }
    assert forall|i: int| a <= i < a + b implies weight(#[trigger] s[i]) == w by {
        s.lemma_filter_pred(same, i - a);
        assert(s.filter(same)[i - a] == s[i]);
    }
    assert forall|i: int| a + b <= i < s.len() implies weight(#[trigger] s[i]) < w by {
        s.lemma_filter_pred(less, i - a - b);
        assert(s.filter(less)[i - a - b] == s[i]);
    }
}

/// The sort turns the last run of a descending sequence around and puts it
/// behind what it makes of the items before that run, taken last to first.
proof fn lemma_sorting_descending<T>(s: Seq<T>, weight: spec_fn(T) -> int)
    requires
        is_descending(s, weight),
        s.len() > 0,
    ensures
        ({
            let a = heavier_count(s, weight, weight(s.last()));
            &&& 0 <= a < s.len()
            &&& a + level_count(s, weight, weight(s.last())) == s.len()
            &&& pivot_sorted(s, weight) == pivot_sorted(s.take(a).reverse(), weight) + s.skip(
                a,
            ).reverse()
        }),
{
    let pivot = s.last();
    let low = weight(pivot);
    let front = s.drop_last();
    let more = weighs_more(weight, low);
    let same = weighs_same(weight, low);
    let less = weighs_less(weight, low);
    let a = heavier_count(s, weight, low);
    let b = level_count(front, weight, low);
    assert(s == front.push(pivot));
    assert(front == s.subrange(0, s.len() - 1));
    lemma_descending_subrange(s, weight, 0, s.len() - 1);
    lemma_descending_places(front, weight, low);
    lemma_descending_buckets(front, weight, low);
    front.lemma_filter_push(pivot, more);
    front.lemma_filter_push(pivot, same);
    assert(heavier_count(front, weight, low) == a);
    assert(a + b == front.len()) by {
        if a + b < front.len() {
            assert(front[a + b] == s[a + b]);
            assert(weight(s[a + b]) >= weight(s[s.len() - 1]));
        }
    }
    let taken = front.reverse();
    lemma_filter_reverse(front, more);
    lemma_filter_reverse(front, same);
    lemma_filter_reverse(front, less);
    assert(taken.filter(less) =~= Seq::<T>::empty());
    assert(seq![pivot] + taken.filter(same) =~= s.skip(a).reverse());
    assert(taken.filter(more) =~= s.take(a).reverse());
    assert(pivot_sorted(Seq::<T>::empty(), weight) =~= Seq::<T>::empty());
    assert(pivot_sorted(s, weight) =~= pivot_sorted(s.take(a).reverse(), weight) + s.skip(
        a,
    ).reverse());
}

/// Of a descending sequence that was turned around, the sort puts the first
/// run first, as it stood before the turn, and sorts what followed that run.
proof fn lemma_sorting_ascending<T>(s: Seq<T>, weight: spec_fn(T) -> int)
    requires
        is_descending(s, weight),
        s.len() > 0,
    ensures
        ({
            let r = level_count(s, weight, weight(s[0]));
            &&& 0 < r <= s.len()
            &&& heavier_count(s, weight, weight(s[0])) == 0
            &&& pivot_sorted(s.reverse(), weight) == s.take(r) + pivot_sorted(s.skip(r), weight)
        }),
{
    let turned = s.reverse();
    let first = s[0];
    let top = weight(first);
    let inner = s.skip(1);
    let r = level_count(s, weight, top);
    assert(turned.last() == first);
    assert(turned.drop_last().reverse() =~= inner);
    lemma_descending_subrange(s, weight, 1, s.len() as int);
    lemma_descending_places(inner, weight, top);
    lemma_descending_buckets(inner, weight, top);
    lemma_descending_places(s, weight, top);
    assert(heavier_count(s, weight, top) == 0) by {
        if heavier_count(s, weight, top) > 0 {
            assert(weight(s[0]) > top);
        }
    }
    assert(r > 0) by {
        if r == 0 {
            assert(weight(s[0]) < top);
        }
    }
    let inner_more = heavier_count(inner, weight, top);
    let inner_same = level_count(inner, weight, top);
    assert(inner_more == 0) by {
        if inner_more > 0 {
            assert(inner[0] == s[1]);
            assert(weight(inner[0]) > top);
            assert(weight(s[0]) >= weight(s[1]));
        }
    }
    assert(inner_same == r - 1) by {
        if inner_same > r - 1 {
            assert(inner[r - 1] == s[r]);
            assert(weight(inner[r - 1]) == top);
            assert(weight(s[r]) < top);
        }
        if inner_same < r - 1 {
            assert(inner[inner_same] == s[inner_same + 1]);
            assert(weight(inner[inner_same]) < top);
            assert(weight(s[inner_same + 1]) == top);
        }
    }
    assert(inner.filter(weighs_more(weight, top)) =~= Seq::<T>::empty());
    assert(seq![first] + inner.filter(weighs_same(weight, top)) =~= s.take(r));
    assert(inner.filter(weighs_less(weight, top)) =~= s.skip(r));
    assert(pivot_sorted(Seq::<T>::empty(), weight) =~= Seq::<T>::empty());
    assert(pivot_sorted(turned, weight) =~= s.take(r) + pivot_sorted(s.skip(r), weight));
}

/// The sort keeps the first run of a descending sequence, turns its last run
/// around, and sorts what stands between the two.
///
/// `a` is the place at which the last run starts and `r` the length of the
/// first run. A sequence of one run is turned around as a whole.
proof fn lemma_sorting_peels<T>(s: Seq<T>, weight: spec_fn(T) -> int)
    requires
        is_descending(s, weight),
        s.len() > 0,
    ensures
        ({
            let a = heavier_count(s, weight, weight(s.last()));
            let r = level_count(s, weight, weight(s[0]));
            &&& 0 <= a < s.len()
            &&& a + level_count(s, weight, weight(s.last())) == s.len()
            &&& a == 0 ==> pivot_sorted(s, weight) == s.reverse()
            &&& a > 0 ==> 0 < r <= a && heavier_count(s, weight, weight(s[0])) == 0
                && pivot_sorted(s, weight) == s.take(r) + pivot_sorted(s.subrange(r, a), weight)
                + s.skip(a).reverse()
        }),
{
    let low = weight(s.last());
    let a = heavier_count(s, weight, low);
    lemma_sorting_descending(s, weight);
    if a == 0 {
        assert(s.take(0).reverse() =~= Seq::<T>::empty());
        assert(s.skip(0) =~= s);
        assert(pivot_sorted(Seq::<T>::empty(), weight) =~= Seq::<T>::empty());
        assert(pivot_sorted(s, weight) =~= s.reverse());
    } else {
        let head = s.take(a);
        let tail = s.skip(a);
        let top = weight(s[0]);
        let same = weighs_same(weight, top);
        let more = weighs_more(weight, top);
        lemma_descending_subrange(s, weight, 0, a);
        lemma_sorting_ascending(head, weight);
        lemma_descending_places(s, weight, low);
        assert(head[0] == s[0]);
        assert(weight(s[0]) > low);
        assert forall|i: int| 0 <= i < tail.len() implies !same(#[trigger] tail[i]) && !more(
            tail[i],
        ) by {
            assert(tail[i] == s[a + i]);
            assert(weight(s[a + i]) == low);
        }
        lemma_filter_keeps_none(tail, same);
        lemma_filter_keeps_none(tail, more);
        assert(s =~= head + tail);
        Seq::filter_distributes_over_add(head, tail, same);
        Seq::filter_distributes_over_add(head, tail, more);
        let r = level_count(s, weight, top);
        assert(r == level_count(head, weight, top));
        assert(head.take(r) =~= s.take(r));
        assert(head.skip(r) =~= s.subrange(r, a));
    }
}

/// The number of places in `s` at which the weight differs from one item to
/// the next. In a descending sequence it is the number of different weights
/// less one.
pub open spec fn weight_steps<T>(s: Seq<T>, weight: spec_fn(T) -> int) -> nat
    decreases s.len(),
{
    if s.len() < 2 {
        0
    } else {
        weight_steps(s.drop_last(), weight) + if weight(s[s.len() - 2]) != weight(s.last()) {
            1nat
        } else {
            0nat
        }
    }
}

/// Whether the sort turns around the run of equal weights that holds the item
/// at `at` of the descending sequence `s`: it does unless fewer different
/// weights stand above the run than below it.
pub open spec fn is_turned<T>(s: Seq<T>, weight: spec_fn(T) -> int, at: int) -> bool {
    weight_steps(s.take(at + 1), weight) >= weight_steps(s.skip(at), weight)
}

/// The place that lies as far from the end of the run of `s[at]` as `at`
/// lies from its start, in the descending sequence `s`.
pub open spec fn opposite<T>(s: Seq<T>, weight: spec_fn(T) -> int, at: int) -> int {
    2 * heavier_count(s, weight, weight(s[at])) + level_count(s, weight, weight(s[at])) - 1 - at
}

/// What the sort makes of the descending sequence `s`: every run that is
/// turned around holds its items last to first, and every other item stays.
pub open spec fn resorted<T>(s: Seq<T>, weight: spec_fn(T) -> int) -> Seq<T> {
    Seq::new(
        s.len(),
        |at: int|
            if is_turned(s, weight, at) {
                s[opposite(s, weight, at)]
            } else {
                s[at]
            },
    )
}

/// The steps of two sequences put together are the steps of each and the
/// step between them, if there is one.
proof fn lemma_weight_steps_joined<T>(x: Seq<T>, y: Seq<T>, weight: spec_fn(T) -> int)
    requires
        x.len() > 0,
        y.len() > 0,
    ensures
        weight_steps(x + y, weight) == weight_steps(x, weight) + weight_steps(y, weight) + (
        if weight(x.last()) != weight(y[0]) {
            1nat
        } else {
            0nat
        }),
    decreases y.len(),
{
    let joined = x + y;
    if y.len() == 1 {
        assert(joined.drop_last() =~= x);
        assert(joined[joined.len() - 2] == x.last());
        assert(joined.last() == y[0]);
    } else {
        assert(joined.drop_last() =~= x + y.drop_last());
        assert(joined[joined.len() - 2] == y[y.len() - 2]);
        assert(joined.last() == y.last());
        assert(y.drop_last()[0] == y[0]);
        lemma_weight_steps_joined(x, y.drop_last(), weight);
    }
}

/// A sequence of items of one weight has no step.
proof fn lemma_weight_steps_level<T>(s: Seq<T>, weight: spec_fn(T) -> int, w: int)
    requires
        forall|i: int| 0 <= i < s.len() ==> weight(#[trigger] s[i]) == w,
    ensures
        weight_steps(s, weight) == 0,
    decreases s.len(),
{
    if s.len() >= 2 {
        assert forall|i: int| 0 <= i < s.drop_last().len() implies weight(
            #[trigger] s.drop_last()[i],
        ) == w by {
            assert(s.drop_last()[i] == s[i]);
        }
        lemma_weight_steps_level(s.drop_last(), weight, w);
        assert(weight(s[s.len() - 2]) == w);
        assert(weight(s[s.len() - 1]) == w);
    }
}

/// A sequence that ends with another weight than it starts with has a step.
proof fn lemma_weight_steps_differ<T>(s: Seq<T>, weight: spec_fn(T) -> int)
    requires
        s.len() > 0,
        weight(s[0]) != weight(s.last()),
    ensures
        weight_steps(s, weight) >= 1,
    decreases s.len(),
{
    if weight(s[s.len() - 2]) == weight(s.last()) {
        assert(s.drop_last()[0] == s[0]);
        assert(s.drop_last().last() == s[s.len() - 2]);
        lemma_weight_steps_differ(s.drop_last(), weight);
    }
}

/// The last run of a descending sequence is turned around.
proof fn lemma_last_run_is_turned<T>(s: Seq<T>, weight: spec_fn(T) -> int, at: int)
    requires
        is_descending(s, weight),
        s.len() > 0,
        heavier_count(s, weight, weight(s.last())) <= at < s.len(),
    ensures
        is_turned(s, weight, at),
        opposite(s, weight, at) == heavier_count(s, weight, weight(s.last())) + s.len() - 1 - at,
{
    let low = weight(s.last());
    let tail = s.skip(at);
    lemma_sorting_descending(s, weight);
    lemma_descending_places(s, weight, low);
    assert(weight(s[at]) == low);
    assert forall|i: int| 0 <= i < tail.len() implies weight(#[trigger] tail[i]) == low by {
        assert(tail[i] == s[at + i]);
    }
    lemma_weight_steps_level(tail, weight, low);
}

/// The first run of a descending sequence of several runs stays as it is.
proof fn lemma_first_run_stays<T>(s: Seq<T>, weight: spec_fn(T) -> int, at: int)
    requires
        is_descending(s, weight),
        s.len() > 0,
        heavier_count(s, weight, weight(s.last())) > 0,
        0 <= at < level_count(s, weight, weight(s[0])),
    ensures
        !is_turned(s, weight, at),
{
    let top = weight(s[0]);
    let low = weight(s.last());
    let head = s.take(at + 1);
    let tail = s.skip(at);
    lemma_sorting_peels(s, weight);
    lemma_descending_places(s, weight, top);
    lemma_descending_places(s, weight, low);
    assert(weight(s[0]) > low);
    assert forall|i: int| 0 <= i < head.len() implies weight(#[trigger] head[i]) == top by {
        assert(head[i] == s[i]);
    }
    lemma_weight_steps_level(head, weight, top);
    assert(tail[0] == s[at]);
    assert(weight(s[at]) == top);
    assert(tail.last() == s.last());
    lemma_weight_steps_differ(tail, weight);
}

/// An item between the first and the last run of a descending sequence is
/// moved as the sort moves it within what stands between those two runs.
proof fn lemma_middle_run_follows<T>(s: Seq<T>, weight: spec_fn(T) -> int, at: int)
    requires
        is_descending(s, weight),
        s.len() > 0,
        level_count(s, weight, weight(s[0])) <= at < heavier_count(s, weight, weight(s.last())),
    ensures
        ({
            let r = level_count(s, weight, weight(s[0]));
            let a = heavier_count(s, weight, weight(s.last()));
            let middle = s.subrange(r, a);
            &&& 0 < r <= at < a < s.len()
            &&& is_turned(s, weight, at) == is_turned(middle, weight, at - r)
            &&& 0 <= opposite(middle, weight, at - r) < middle.len()
            &&& opposite(s, weight, at) == r + opposite(middle, weight, at - r)
        }),
{
    let top = weight(s[0]);
    let low = weight(s.last());
    let r = level_count(s, weight, top);
    let a = heavier_count(s, weight, low);
    let head = s.take(r);
    let middle = s.subrange(r, a);
    let tail = s.skip(a);
    let here = at - r;
    let w = weight(s[at]);
    lemma_sorting_peels(s, weight);
    lemma_descending_places(s, weight, top);
    lemma_descending_places(s, weight, low);
    assert(weight(s[at]) < top);
    assert(weight(s[at]) > low);
    assert(middle[here] == s[at]);

    assert(is_turned(s, weight, at) == is_turned(middle, weight, here)) by {
        let before = middle.take(here + 1);
        let after = middle.skip(here);
        assert(s.take(at + 1) =~= head + before);
        assert(s.skip(at) =~= after + tail);
        lemma_weight_steps_joined(head, before, weight);
        lemma_weight_steps_joined(after, tail, weight);
        assert forall|i: int| 0 <= i < head.len() implies weight(#[trigger] head[i]) == top by {
            assert(head[i] == s[i]);
        }
        assert forall|i: int| 0 <= i < tail.len() implies weight(#[trigger] tail[i]) == low by {
            assert(tail[i] == s[a + i]);
        }
        lemma_weight_steps_level(head, weight, top);
        lemma_weight_steps_level(tail, weight, low);
        assert(head.last() == s[r - 1]);
        assert(before[0] == s[r]);
        assert(weight(s[r - 1]) == top);
        assert(weight(s[r]) < top);
        assert(after.last() == s[a - 1]);
        assert(tail[0] == s[a]);
        assert(weight(s[a - 1]) > low);
        assert(weight(s[a]) == low);
    }

    let more = weighs_more(weight, w);
    let same = weighs_same(weight, w);
    assert(heavier_count(s, weight, w) == r + heavier_count(middle, weight, w) && level_count(
        s,
        weight,
        w,
    ) == level_count(middle, weight, w)) by {
        assert forall|i: int| 0 <= i < head.len() implies more(#[trigger] head[i]) && !same(
            head[i],
        ) by {
            assert(head[i] == s[i]);
            assert(weight(s[i]) == top);
        }
        assert forall|i: int| 0 <= i < tail.len() implies !more(#[trigger] tail[i]) && !same(
            tail[i],
        ) by {
            assert(tail[i] == s[a + i]);
            assert(weight(s[a + i]) == low);
        }
        lemma_filter_keeps_all(head, more);
        lemma_filter_keeps_none(head, same);
        lemma_filter_keeps_none(tail, more);
        lemma_filter_keeps_none(tail, same);
        assert(s =~= head + middle + tail);
        Seq::filter_distributes_over_add(head + middle, tail, more);
        Seq::filter_distributes_over_add(head, middle, more);
        Seq::filter_distributes_over_add(head + middle, tail, same);
        Seq::filter_distributes_over_add(head, middle, same);
    }

    lemma_descending_subrange(s, weight, r, a);
    lemma_descending_places(middle, weight, w);
    let first = heavier_count(middle, weight, w);
    let length = level_count(middle, weight, w);
    assert(first <= here < first + length) by {
        if here < first {
            assert(weight(middle[here]) > w);
        }
        if here >= first + length {
            assert(weight(middle[here]) < w);
        }
    }
}

/// The sort makes of a descending sequence what [`resorted`] states.
pub proof fn lemma_sorting_sorted<T>(s: Seq<T>, weight: spec_fn(T) -> int)
    requires
        is_descending(s, weight),
    ensures
        pivot_sorted(s, weight) == resorted(s, weight),
    decreases s.len(),
{
    if s.len() == 0 {
        assert(pivot_sorted(s, weight) =~= resorted(s, weight));
    } else {
        let low = weight(s.last());
        let a = heavier_count(s, weight, low);
        let r = level_count(s, weight, weight(s[0]));
        lemma_sorting_peels(s, weight);
        assert forall|at: int| a <= at < s.len() implies is_turned(s, weight, at) && opposite(
            s,
            weight,
            at,
        ) == a + s.len() - 1 - at by {
            lemma_last_run_is_turned(s, weight, at);
        }
        if a == 0 {
            assert(pivot_sorted(s, weight) =~= resorted(s, weight));
        } else {
            let middle = s.subrange(r, a);
            lemma_descending_subrange(s, weight, r, a);
            lemma_sorting_sorted(middle, weight);
            assert forall|at: int| 0 <= at < r implies !is_turned(s, weight, at) by {
                lemma_first_run_stays(s, weight, at);
            }
            assert forall|at: int| r <= at < a implies resorted(s, weight)[at] == resorted(
                middle,
                weight,
            )[at - r] by {
                lemma_middle_run_follows(s, weight, at);
                let there = opposite(middle, weight, at - r);
                assert(middle[there] == s[r + there]);
                assert(middle[at - r] == s[at]);
            }
            let sorted = s.take(r) + resorted(middle, weight) + s.skip(a).reverse();
            assert(sorted.len() == s.len());
            assert forall|at: int| 0 <= at < s.len() implies sorted[at] == resorted(
                s,
                weight,
            )[at] by {
                if at < r {
                    assert(sorted[at] == s[at]);
                } else if at < a {
                    assert(sorted[at] == resorted(middle, weight)[at - r]);
                } else {
                    assert(sorted[at] == s.skip(a).reverse()[at - a]);
                    assert(s.skip(a).reverse()[at - a] == s[a + s.len() - 1 - at]);
                }
            }
            assert(sorted =~= resorted(s, weight));
        }
    }
}

/// Whether every run of the descending sequence `s` that the sort turns
/// around reads the same from both of its ends.
pub open spec fn turns_into_itself<T>(s: Seq<T>, weight: spec_fn(T) -> int) -> bool {
    forall|at: int|
        0 <= at < s.len() && #[trigger] is_turned(s, weight, at) ==> s[opposite(s, weight, at)]
            == s[at]
}

/// Sorting a descending sequence leaves it as it is, if every run that is
/// turned around reads the same from both of its ends.
pub proof fn lemma_sorted_stays<T>(s: Seq<T>, weight: spec_fn(T) -> int)
    requires
        is_descending(s, weight),
        turns_into_itself(s, weight),
    ensures
        pivot_sorted(s, weight) == s,
{
    lemma_sorting_sorted(s, weight);
    assert(resorted(s, weight) =~= s);
}

/// Sorting a descending sequence changes it, if a run that is turned around
/// does not read the same from both of its ends.
pub proof fn lemma_sorted_changes<T>(s: Seq<T>, weight: spec_fn(T) -> int)
    requires
        is_descending(s, weight),
        !turns_into_itself(s, weight),
    ensures
        pivot_sorted(s, weight) != s,
{
    lemma_sorting_sorted(s, weight);
    let at = choose|at: int|
        0 <= at < s.len() && #[trigger] is_turned(s, weight, at) && s[opposite(s, weight, at)]
            != s[at];
    assert(resorted(s, weight)[at] == s[opposite(s, weight, at)]);
}

/// Whether the weights of `s` fall from each item to the next.
pub open spec fn is_strictly_descending<T>(s: Seq<T>, weight: spec_fn(T) -> int) -> bool {
    forall|i: int, j: int|
        0 <= i < j < s.len() ==> weight(#[trigger] s[i]) > weight(#[trigger] s[j])
}

/// Sorting leaves a sequence as it is if its weights fall from each item to
/// the next.
pub proof fn lemma_sorted_without_ties_stays<T>(s: Seq<T>, weight: spec_fn(T) -> int)
    requires
        is_strictly_descending(s, weight),
    ensures
        pivot_sorted(s, weight) == s,
{
    assert(is_descending(s, weight));
    assert forall|at: int| 0 <= at < s.len() implies opposite(s, weight, at) == at by {
        let w = weight(s[at]);
        let first = heavier_count(s, weight, w);
        let length = level_count(s, weight, w);
        lemma_descending_places(s, weight, w);
        if at < first {
            assert(weight(s[at]) > w);
        }
        if at >= first + length {
            assert(weight(s[at]) < w);
        }
        if first < at {
            assert(weight(s[first]) == w);
        }
        if at + 1 < first + length {
            assert(weight(s[at + 1]) == w);
        }
    }
    lemma_sorted_stays(s, weight);
}

/// Whether `x` and `y` hold items of the same weights at the same places.
spec fn same_weights<T>(x: Seq<T>, y: Seq<T>, weight: spec_fn(T) -> int) -> bool {
    &&& x.len() == y.len()
    &&& forall|i: int| 0 <= i < x.len() ==> weight(#[trigger] x[i]) == weight(y[i])
}

/// Sequences of the same weights have the same steps.
proof fn lemma_same_weights_steps<T>(x: Seq<T>, y: Seq<T>, weight: spec_fn(T) -> int)
    requires
        same_weights(x, y, weight),
    ensures
        weight_steps(x, weight) == weight_steps(y, weight),
    decreases x.len(),
{
    if x.len() >= 2 {
        assert forall|i: int| 0 <= i < x.drop_last().len() implies weight(
            #[trigger] x.drop_last()[i],
        ) == weight(y.drop_last()[i]) by {
            assert(x.drop_last()[i] == x[i]);
            assert(y.drop_last()[i] == y[i]);
        }
        lemma_same_weights_steps(x.drop_last(), y.drop_last(), weight);
        assert(weight(x[x.len() - 2]) == weight(y[x.len() - 2]));
        assert(weight(x[x.len() - 1]) == weight(y[x.len() - 1]));
    }
}

/// Sequences of the same weights hold as many items heavier than `w`, and as
/// many as heavy as `w`.
proof fn lemma_same_weights_counts<T>(x: Seq<T>, y: Seq<T>, weight: spec_fn(T) -> int, w: int)
    requires
        same_weights(x, y, weight),
    ensures
        heavier_count(x, weight, w) == heavier_count(y, weight, w),
        level_count(x, weight, w) == level_count(y, weight, w),
    decreases x.len(),
{
    reveal(Seq::filter);
    if x.len() > 0 {
        assert forall|i: int| 0 <= i < x.drop_last().len() implies weight(
            #[trigger] x.drop_last()[i],
        ) == weight(y.drop_last()[i]) by {
            assert(x.drop_last()[i] == x[i]);
            assert(y.drop_last()[i] == y[i]);
        }
        lemma_same_weights_counts(x.drop_last(), y.drop_last(), weight, w);
        assert(weight(x[x.len() - 1]) == weight(y[x.len() - 1]));
    }
}

/// Two places of a descending sequence that hold the same weight have as many
/// steps before them, and as many after them.
proof fn lemma_steps_within_run<T>(s: Seq<T>, weight: spec_fn(T) -> int, i: int, j: int)
    requires
        is_descending(s, weight),
        0 <= i <= j < s.len(),
        weight(s[i]) == weight(s[j]),
    ensures
        weight_steps(s.take(i + 1), weight) == weight_steps(s.take(j + 1), weight),
        weight_steps(s.skip(i), weight) == weight_steps(s.skip(j), weight),
{
    if i < j {
        let w = weight(s[i]);
        let between = s.subrange(i + 1, j + 1);
        let among = s.subrange(i, j);
        assert forall|k: int| 0 <= k < between.len() implies weight(#[trigger] between[k]) == w by {
            assert(between[k] == s[i + 1 + k]);
            assert(weight(s[i]) >= weight(s[i + 1 + k]));
            assert(weight(s[i + 1 + k]) >= weight(s[j]));
        }
        assert forall|k: int| 0 <= k < among.len() implies weight(#[trigger] among[k]) == w by {
            assert(among[k] == s[i + k]);
            assert(weight(s[i]) >= weight(s[i + k]));
            assert(weight(s[i + k]) >= weight(s[j]));
        }
        lemma_weight_steps_level(between, weight, w);
        lemma_weight_steps_level(among, weight, w);
        assert(s.take(j + 1) =~= s.take(i + 1) + between);
        assert(s.skip(i) =~= among + s.skip(j));
        lemma_weight_steps_joined(s.take(i + 1), between, weight);
        lemma_weight_steps_joined(among, s.skip(j), weight);
        assert(s.take(i + 1).last() == s[i]);
        assert(between[0] == s[i + 1]);
        assert(among.last() == s[j - 1]);
        assert(s.skip(j)[0] == s[j]);
    }
}

/// The place opposite to a place of a descending sequence lies in the same
/// run, and the first place is opposite to it in turn.
proof fn lemma_opposite_in_run<T>(s: Seq<T>, weight: spec_fn(T) -> int, at: int)
    requires
        is_descending(s, weight),
        0 <= at < s.len(),
    ensures
        0 <= opposite(s, weight, at) < s.len(),
        weight(s[opposite(s, weight, at)]) == weight(s[at]),
        opposite(s, weight, opposite(s, weight, at)) == at,
        is_turned(s, weight, opposite(s, weight, at)) == is_turned(s, weight, at),
{
    let w = weight(s[at]);
    let first = heavier_count(s, weight, w);
    let length = level_count(s, weight, w);
    let there = opposite(s, weight, at);
    lemma_descending_places(s, weight, w);
    assert(first <= at < first + length) by {
        if at < first {
            assert(weight(s[at]) > w);
        }
        if at >= first + length {
            assert(weight(s[at]) < w);
        }
    }
    assert(weight(s[there]) == w);
    if at <= there {
        lemma_steps_within_run(s, weight, at, there);
    } else {
        lemma_steps_within_run(s, weight, there, at);
    }
}

/// Sorting a descending sequence twice gives it back: a run that the sort
/// turns around is turned back by the next sort.
pub proof fn lemma_sorting_sorted_twice<T>(s: Seq<T>, weight: spec_fn(T) -> int)
    requires
        is_descending(s, weight),
    ensures
        pivot_sorted(pivot_sorted(s, weight), weight) == s,
{
    let once = resorted(s, weight);
    lemma_sorting_sorted(s, weight);
    lemma_pivot_sorted_descends(s, weight);
    lemma_sorting_sorted(once, weight);
    let twice = resorted(once, weight);
    assert forall|at: int| 0 <= at < s.len() implies weight(#[trigger] once[at]) == weight(
        s[at],
    ) by {
        lemma_opposite_in_run(s, weight, at);
    }
    assert forall|at: int| 0 <= at < s.len() implies twice[at] == s[at] by {
        let there = opposite(s, weight, at);
        lemma_opposite_in_run(s, weight, at);
        assert(same_weights(once.take(at + 1), s.take(at + 1), weight)) by {
            assert forall|i: int| 0 <= i < at + 1 implies weight(#[trigger] once.take(at + 1)[i])
                == weight(s.take(at + 1)[i]) by {
                assert(once.take(at + 1)[i] == once[i]);
            }
        }
        assert(same_weights(once.skip(at), s.skip(at), weight)) by {
            assert forall|i: int| 0 <= i < s.len() - at implies weight(#[trigger] once.skip(at)[i])
                == weight(s.skip(at)[i]) by {
                assert(once.skip(at)[i] == once[at + i]);
            }
        }
        lemma_same_weights_steps(once.take(at + 1), s.take(at + 1), weight);
        lemma_same_weights_steps(once.skip(at), s.skip(at), weight);
        lemma_same_weights_counts(once, s, weight, weight(s[at]));
        assert(is_turned(once, weight, at) == is_turned(s, weight, at));
        assert(opposite(once, weight, at) == there);
        if is_turned(s, weight, at) {
            assert(twice[at] == once[there]);
            assert(once[there] == s[opposite(s, weight, there)]);
        }
    }
    assert(twice =~= s);
}

} // verus!
