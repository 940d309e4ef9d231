//! A merge sort that is stable, proved to give what [`stable_sort`] states.

use crate::order::{
    bytes_le, key_le, lemma_bytes_le_total, lemma_bytes_le_transitive, lemma_stable_insert_len,
    lemma_stable_sort_contains, lemma_stable_sort_permutes, lemma_stable_sort_related,
    stable_insert, stable_sort,
};
use vstd::prelude::*;

verus! {

/// Two sorted sequences as one: at each step the first item of `left` is
/// taken unless the first item of `right` comes strictly before it.
pub open spec fn stable_merge<T>(left: Seq<T>, right: Seq<T>, key: spec_fn(T) -> Seq<u8>) -> Seq<
    T,
>
    decreases left.len() + right.len(),
{
    if left.len() == 0 {
        right
    } else if right.len() == 0 {
        left
    } else if bytes_le(key(left[0]), key(right[0])) {
        seq![left[0]] + stable_merge(left.drop_first(), right, key)
    } else {
        seq![right[0]] + stable_merge(left, right.drop_first(), key)
    }
}

/// To put an item into a merge is to put it into the left part and merge.
proof fn lemma_insert_into_merge<T>(x: T, left: Seq<T>, right: Seq<T>, key: spec_fn(T) -> Seq<u8>)
    ensures
        stable_insert(x, stable_merge(left, right, key), key) == stable_merge(
            stable_insert(x, left, key),
            right,
            key,
        ),
    decreases left.len() + right.len(),
{
    let merged = stable_merge(left, right, key);
    let put = stable_insert(x, left, key);
    lemma_stable_insert_len(x, left, key);
    if left.len() == 0 {
        assert(put =~= seq![x]);
        assert(put.drop_first() =~= left);
        assert(merged == right);
        if right.len() > 0 && !bytes_le(key(x), key(right[0])) {
            lemma_insert_into_merge(x, left, right.drop_first(), key);
            assert(stable_merge(left, right.drop_first(), key) == right.drop_first());
        }
    } else if right.len() == 0 {
        assert(merged == left);
    } else if bytes_le(key(left[0]), key(right[0])) {
        let rest = stable_merge(left.drop_first(), right, key);
        assert(merged == seq![left[0]] + rest);
        assert(merged.drop_first() =~= rest);
        if bytes_le(key(x), key(left[0])) {
            lemma_bytes_le_transitive(key(x), key(left[0]), key(right[0]));
            assert(put == seq![x] + left);
            assert(put.drop_first() =~= left);
        } else {
            lemma_insert_into_merge(x, left.drop_first(), right, key);
            assert(put == seq![left[0]] + stable_insert(x, left.drop_first(), key));
            assert(put.drop_first() =~= stable_insert(x, left.drop_first(), key));
        }
    } else {
        let rest = stable_merge(left, right.drop_first(), key);
        assert(merged == seq![right[0]] + rest);
        assert(merged.drop_first() =~= rest);
        lemma_bytes_le_total(key(left[0]), key(right[0]));
        if bytes_le(key(x), key(right[0])) {
            lemma_bytes_le_transitive(key(x), key(right[0]), key(left[0]));
            assert(put == seq![x] + left);
            assert(put.drop_first() =~= left);
        } else {
            lemma_insert_into_merge(x, left, right.drop_first(), key);
            if bytes_le(key(x), key(left[0])) {
                assert(put == seq![x] + left);
            } else {
                assert(put == seq![left[0]] + stable_insert(x, left.drop_first(), key));
            }
            assert(!bytes_le(key(put[0]), key(right[0])));
        }
    }
}

/// Sorting two sequences, one after the other, is sorting each and merging
/// the two.
pub proof fn lemma_stable_sort_of_concat<T>(
    left: Seq<T>,
    right: Seq<T>,
    key: spec_fn(T) -> Seq<u8>,
)
    ensures
        stable_sort(left + right, key) == stable_merge(
            stable_sort(left, key),
            stable_sort(right, key),
            key,
        ),
    decreases left.len(),
{
    if left.len() == 0 {
        assert(left + right =~= right);
    } else {
        let rest = left.drop_first();
        assert((left + right).drop_first() =~= rest + right);
        lemma_stable_sort_of_concat(rest, right, key);
        lemma_insert_into_merge(
            left[0],
            stable_sort(rest, key),
            stable_sort(right, key),
            key,
        );
    }
}

/// The key by which an item of an executable sort is ordered: the bytes that
/// it carries in front.
pub open spec fn carried_key<T>() -> spec_fn((Vec<u8>, T)) -> Seq<u8> {
    |item: (Vec<u8>, T)| item.0@
}

/// The places of a vector from `from` up to, not including, `to`.
pub open spec fn places(from: int, to: int) -> Seq<usize> {
    Seq::new((to - from) as nat, |i: int| (from + i) as usize)
}

/// The key of the item at a place.
pub open spec fn key_at<T>(items: Seq<(Vec<u8>, T)>) -> spec_fn(usize) -> Seq<u8> {
    |place: usize| items[place as int].0@
}

/// Merges two runs of places, each in the order of the keys at its places.
fn merge_places<T>(items: &Vec<(Vec<u8>, T)>, left: &Vec<usize>, right: &Vec<usize>) -> (merged:
    Vec<usize>)
    requires
        forall|i: int| 0 <= i < left.len() ==> #[trigger] left@[i] < items.len(),
        forall|i: int| 0 <= i < right.len() ==> #[trigger] right@[i] < items.len(),
    ensures
        merged@ == stable_merge(left@, right@, key_at(items@)),
{
    let ghost key = key_at(items@);
    let mut merged: Vec<usize> = Vec::new();
    let mut i: usize = 0;
    let mut j: usize = 0;
    proof {
        assert(left@.skip(0) =~= left@);
        assert(right@.skip(0) =~= right@);
    }
    while i < left.len() || j < right.len()
        invariant
            i <= left.len(),
            j <= right.len(),
            key == key_at(items@),
            forall|i: int| 0 <= i < left.len() ==> #[trigger] left@[i] < items.len(),
            forall|i: int| 0 <= i < right.len() ==> #[trigger] right@[i] < items.len(),
            merged@ + stable_merge(left@.skip(i as int), right@.skip(j as int), key)
                == stable_merge(left@, right@, key),
        decreases (left.len() - i) + (right.len() - j),
    {
        let ghost ahead_left = left@.skip(i as int);
        let ghost ahead_right = right@.skip(j as int);
        let ghost before = merged@;
        let from_left: bool = if j == right.len() {
            true
        } else if i == left.len() {
            false
        } else {
            key_le(&items[left[i]].0, &items[right[j]].0)
        };
        if from_left {
            merged.push(left[i]);
            i += 1;
            proof {
                assert(ahead_left.drop_first() =~= left@.skip(i as int));
                let rest = stable_merge(left@.skip(i as int), ahead_right, key);
                if ahead_right.len() == 0 {
                    assert(rest =~= left@.skip(i as int));
                    assert(stable_merge(ahead_left, ahead_right, key) =~= seq![ahead_left[0]]
                        + rest);
                }
                assert(merged@ + rest =~= before + (seq![ahead_left[0]] + rest));
            }
        } else {
            merged.push(right[j]);
            j += 1;
            proof {
                assert(ahead_right.drop_first() =~= right@.skip(j as int));
                let rest = stable_merge(ahead_left, right@.skip(j as int), key);
                if ahead_left.len() == 0 {
                    assert(rest =~= right@.skip(j as int));
                    assert(stable_merge(ahead_left, ahead_right, key) =~= seq![ahead_right[0]]
                        + rest);
                }
                assert(merged@ + rest =~= before + (seq![ahead_right[0]] + rest));
            }
        }
    }
    proof {
        assert(merged@ + Seq::<usize>::empty() =~= merged@);
    }
    merged
}

/// The places from `from` up to `to`, sorted by the keys of the items at them.
fn sort_places<T>(items: &Vec<(Vec<u8>, T)>, from: usize, to: usize) -> (order: Vec<usize>)
    requires
        from <= to <= items.len(),
    ensures
        order@ == stable_sort(places(from as int, to as int), key_at(items@)),
        forall|i: int| 0 <= i < order.len() ==> from <= #[trigger] order@[i] < to,
    decreases to - from,
{
    let ghost key = key_at(items@);
    let ghost all = places(from as int, to as int);
    let mut order: Vec<usize>;
    if to - from <= 1 {
        order = Vec::new();
        if from < to {
            order.push(from);
            proof {
                let rest = all.drop_first();
                assert(stable_sort(rest, key) =~= Seq::<usize>::empty());
                assert(stable_insert(all[0], stable_sort(rest, key), key) =~= seq![all[0]]);
                assert(order@ =~= stable_sort(all, key));
            }
        } else {
            assert(order@ =~= stable_sort(all, key));
        }
    } else {
        let middle: usize = from + (to - from) / 2;
        let left = sort_places(items, from, middle);
        let right = sort_places(items, middle, to);
        proof {
            lemma_stable_sort_of_concat(
                places(from as int, middle as int),
                places(middle as int, to as int),
                key,
            );
            assert(places(from as int, middle as int) + places(middle as int, to as int) =~= all);
        }
        order = merge_places(items, &left, &right);
    }
    proof {
        assert forall|i: int| 0 <= i < order.len() implies from <= #[trigger] order@[i] < to by {
            lemma_stable_sort_contains(all, key, order@[i]);
            assert(order@.contains(order@[i]));
            let at = choose|at: int| 0 <= at < all.len() && all[at] == order@[i];
            assert(all[at] == from + at);
        }
    }
    order
}

/// The item stands at the place.
spec fn is_at<T>(items: Seq<(Vec<u8>, T)>) -> spec_fn(usize, (Vec<u8>, T)) -> bool {
    |place: usize, item: (Vec<u8>, T)| 0 <= place < items.len() && items[place as int] == item
}

/// Sorts items by the bytes that they carry in front, in ascending
/// lexicographic order. Items that carry equal bytes keep their order.
pub fn sort_by_key<T>(items: Vec<(Vec<u8>, T)>) -> (sorted: Vec<(Vec<u8>, T)>)
    ensures
        sorted@ == stable_sort(items@, carried_key::<T>()),
{
    let ghost all = items@;
    let ghost all_places = places(0, all.len() as int);
    let count: usize = items.len();
    let order = sort_places(&items, 0, count);
    proof {
        assert forall|place: usize, item: (Vec<u8>, T)| #[trigger]
            is_at(all)(place, item) implies key_at(all)(place) == carried_key::<T>()(item) by {}
        assert forall|i: int| 0 <= i < all.len() implies #[trigger] is_at(all)(
            all_places[i],
            all[i],
        ) by {}
        lemma_stable_sort_related(all_places, key_at(all), all, carried_key::<T>(), is_at(all));
        lemma_stable_sort_permutes(all_places, key_at(all));
        assert(all_places.no_duplicates());
        all_places.lemma_multiset_has_no_duplicates();
        order@.lemma_multiset_has_no_duplicates_conv();
    }
    let mut slots: Vec<Option<(Vec<u8>, T)>> = Vec::new();
    for item in it: items
        invariant
            it.seq() == all,
            slots.len() == it.index(),
            forall|i: int| 0 <= i < slots.len() ==> #[trigger] slots@[i] == Some(all[i]),
    {
        slots.push(Some(item));
    }
    let mut sorted: Vec<(Vec<u8>, T)> = Vec::new();
    let mut next: usize = 0;
    while next < count
        invariant
            next <= count,
            count == all.len(),
            order.len() == count,
            slots.len() == count,
            order@.no_duplicates(),
            forall|i: int| 0 <= i < count ==> #[trigger] order@[i] < count,
            forall|place: int|
                0 <= place < count ==> #[trigger] slots@[place] == if order@.take(
                    next as int,
                ).contains(place as usize) {
                    None
                } else {
                    Some(all[place])
                },
            sorted.len() == next,
            forall|i: int| 0 <= i < next ==> #[trigger] sorted@[i] == all[order@[i] as int],
        decreases count - next,
    {
        let place: usize = order[next];
        let ghost before = slots@;
        proof {
            let earlier = order@.take(next as int);
            if earlier.contains(place) {
                let i = choose|i: int| 0 <= i < earlier.len() && earlier[i] == place;
                assert(order@[i] == order@[next as int]);
            }
        }
        let mut taken: Option<(Vec<u8>, T)> = None;
        slots.set_and_swap(place, &mut taken);
        sorted.push(taken.unwrap());
        proof {
            let earlier = order@.take(next as int);
            let now = order@.take(next + 1);
            assert(now =~= earlier.push(place));
            assert forall|other: int| 0 <= other < count implies #[trigger] slots@[other]
                == if now.contains(other as usize) {
                None
            } else {
                Some(all[other])
            } by {
                if other == place {
                    assert(now[next as int] == place);
                } else {
                    assert(slots@[other] == before[other]);
                    if now.contains(other as usize) {
                        let i = choose|i: int| 0 <= i < now.len() && now[i] == other as usize;
                        assert(earlier[i] == other as usize);
                    }
                    if earlier.contains(other as usize) {
                        let i = choose|i: int|
                            0 <= i < earlier.len() && earlier[i] == other as usize;
                        assert(now[i] == other as usize);
                    }
                }
            }
        }
        next += 1;
    }
    proof {
        let target = stable_sort(all, carried_key::<T>());
        assert forall|i: int| 0 <= i < count implies sorted@[i] == target[i] by {
            assert(is_at(all)(order@[i], target[i]));
        }
        assert(sorted@ =~= target);
    }
    sorted
}

/// What an item of an executable sort carries behind its bytes.
pub open spec fn carried_value<T>() -> spec_fn((Vec<u8>, T)) -> T {
    |item: (Vec<u8>, T)| item.1
}

/// What the items carry behind their bytes, in ascending order of the bytes.
/// Items that carry equal bytes keep their order.
pub fn values_in_key_order<T>(items: Vec<(Vec<u8>, T)>) -> (values: Vec<T>)
    ensures
        values@ == stable_sort(items@, carried_key::<T>()).map_values(carried_value::<T>()),
{
    let ghost target = stable_sort(items@, carried_key::<T>());
    let sorted = sort_by_key(items);
    let mut values: Vec<T> = Vec::new();
    for item in it: sorted
        invariant
            it.seq() == target,
            values.len() == it.index(),
            forall|i: int| 0 <= i < values.len() ==> #[trigger] values@[i] == target[i].1,
    {
        values.push(item.1);
    }
    proof {
        assert(values@ =~= target.map_values(carried_value::<T>()));
    }
    values
}

} // verus!
