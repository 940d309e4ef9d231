//! The order of byte strings, and what it is to sort by it without moving
//! items that tie.

use vstd::prelude::*;

verus! {

/// Lexicographic order on byte strings: `a` comes before `b` or equals it.
///
/// A proper prefix comes before the longer string; otherwise the first byte
/// in which the two differ decides.
pub open spec fn bytes_le(a: Seq<u8>, b: Seq<u8>) -> bool
    decreases a.len(),
{
    if a.len() == 0 {
        true
    } else if b.len() == 0 {
        false
    } else if a[0] == b[0] {
        bytes_le(a.drop_first(), b.drop_first())
    } else {
        a[0] < b[0]
    }
}

/// Every byte string comes before itself or equals it.
pub proof fn lemma_bytes_le_reflexive(a: Seq<u8>)
    ensures
        bytes_le(a, a),
    decreases a.len(),
{
    if a.len() > 0 {
        lemma_bytes_le_reflexive(a.drop_first());
    }
}

/// Of two byte strings one comes before the other or equals it.
pub proof fn lemma_bytes_le_total(a: Seq<u8>, b: Seq<u8>)
    ensures
        bytes_le(a, b) || bytes_le(b, a),
    decreases a.len(),
{
    if a.len() > 0 && b.len() > 0 && a[0] == b[0] {
        lemma_bytes_le_total(a.drop_first(), b.drop_first());
    }
}

/// Two byte strings of which each comes before the other or equals it are
/// equal.
pub proof fn lemma_bytes_le_antisymmetric(a: Seq<u8>, b: Seq<u8>)
    requires
        bytes_le(a, b),
        bytes_le(b, a),
    ensures
        a == b,
    decreases a.len(),
{
    if a.len() == 0 {
        assert(a =~= b);
    } else {
        lemma_bytes_le_antisymmetric(a.drop_first(), b.drop_first());
        assert(a =~= seq![a[0]] + a.drop_first());
        assert(b =~= seq![b[0]] + b.drop_first());
    }
}

/// The order passes through a byte string in between.
pub proof fn lemma_bytes_le_transitive(a: Seq<u8>, b: Seq<u8>, c: Seq<u8>)
    requires
        bytes_le(a, b),
        bytes_le(b, c),
    ensures
        bytes_le(a, c),
    decreases a.len(),
{
    if a.len() > 0 && a[0] == b[0] && b[0] == c[0] {
        lemma_bytes_le_transitive(a.drop_first(), b.drop_first(), c.drop_first());
    }
}

/// Decides the lexicographic order of two byte strings.
pub fn key_le(a: &Vec<u8>, b: &Vec<u8>) -> (le: bool)
    ensures
        le == bytes_le(a@, b@),
{
    let mut i: usize = 0;
    proof {
        assert(a@.skip(0) =~= a@);
        assert(b@.skip(0) =~= b@);
    }
    while i < a.len() && i < b.len()
        invariant
            i <= a.len(),
            i <= b.len(),
            bytes_le(a@, b@) == bytes_le(a@.skip(i as int), b@.skip(i as int)),
        decreases a.len() - i,
    {
        if a[i] != b[i] {
            return a[i] < b[i];
        }
        proof {
            assert(a@.skip(i as int).drop_first() =~= a@.skip(i + 1));
            assert(b@.skip(i as int).drop_first() =~= b@.skip(i + 1));
        }
        i += 1;
    }
    i == a.len()
}

/// Puts `x` into the sorted sequence `sorted`, before the first item whose
/// key does not come strictly before the key of `x`.
pub open spec fn stable_insert<T>(x: T, sorted: Seq<T>, key: spec_fn(T) -> Seq<u8>) -> Seq<T>
    decreases sorted.len(),
{
    if sorted.len() == 0 || bytes_le(key(x), key(sorted[0])) {
        seq![x] + sorted
    } else {
        seq![sorted[0]] + stable_insert(x, sorted.drop_first(), key)
    }
}

/// The items of `items` in ascending order of their keys; items with equal
/// keys keep the order that they have in `items`.
pub open spec fn stable_sort<T>(items: Seq<T>, key: spec_fn(T) -> Seq<u8>) -> Seq<T>
    decreases items.len(),
{
    if items.len() == 0 {
        items
    } else {
        stable_insert(items[0], stable_sort(items.drop_first(), key), key)
    }
}

/// The keys of the items never descend.
pub open spec fn ascending<T>(items: Seq<T>, key: spec_fn(T) -> Seq<u8>) -> bool {
    forall|i: int, j: int|
        #![trigger items[i], items[j]]
        0 <= i < j < items.len() ==> bytes_le(key(items[i]), key(items[j]))
}

/// A test for the items that have the given key.
pub open spec fn with_key<T>(key: spec_fn(T) -> Seq<u8>, bytes: Seq<u8>) -> spec_fn(T) -> bool {
    |item: T| key(item) == bytes
}

/// Whatever the key, the items that have it form the same sequence in
/// `left` and in `right`.
pub open spec fn same_ties<T>(left: Seq<T>, right: Seq<T>, key: spec_fn(T) -> Seq<u8>) -> bool {
    forall|bytes: Seq<u8>|
        left.filter(#[trigger] with_key(key, bytes)) == right.filter(with_key(key, bytes))
}

/// Items with the same key are the same item.
pub open spec fn key_decides<T>(items: Seq<T>, key: spec_fn(T) -> Seq<u8>) -> bool {
    forall|i: int, j: int|
        #![trigger items[i], items[j]]
        0 <= i < items.len() && 0 <= j < items.len() && key(items[i]) == key(items[j])
            ==> items[i] == items[j]
}

/// The number of items at the front of `sorted` that stay in front of `x`
/// when it is put in: those whose key comes strictly before the key of `x`,
/// up to the first that does not.
pub open spec fn insertion_point<T>(x: T, sorted: Seq<T>, key: spec_fn(T) -> Seq<u8>) -> int
    decreases sorted.len(),
{
    if sorted.len() == 0 || bytes_le(key(x), key(sorted[0])) {
        0
    } else {
        1 + insertion_point(x, sorted.drop_first(), key)
    }
}

/// Where `stable_insert` puts `x`: after the `at` items that come strictly
/// before it.
pub proof fn lemma_stable_insert_at<T>(
    x: T,
    sorted: Seq<T>,
    key: spec_fn(T) -> Seq<u8>,
    at: int,
)
    requires
        0 <= at <= sorted.len(),
        forall|q: int| 0 <= q < at ==> !bytes_le(key(x), #[trigger] key(sorted[q])),
        at == sorted.len() || bytes_le(key(x), key(sorted[at])),
    ensures
        stable_insert(x, sorted, key) == sorted.insert(at, x),
    decreases at,
{
    if at == 0 {
        assert(seq![x] + sorted =~= sorted.insert(0, x));
    } else {
        let rest = sorted.drop_first();
        assert forall|q: int| 0 <= q < at - 1 implies !bytes_le(
            key(x),
            #[trigger] key(rest[q]),
        ) by {
            assert(rest[q] == sorted[q + 1]);
        }
        lemma_stable_insert_at(x, rest, key, at - 1);
        assert(seq![sorted[0]] + rest.insert(at - 1, x) =~= sorted.insert(at, x));
    }
}

/// `stable_insert` puts `x` at its insertion point and moves nothing else.
pub proof fn lemma_insertion_point<T>(x: T, sorted: Seq<T>, key: spec_fn(T) -> Seq<u8>)
    ensures
        0 <= insertion_point(x, sorted, key) <= sorted.len(),
        forall|q: int|
            0 <= q < insertion_point(x, sorted, key) ==> !bytes_le(
                key(x),
                #[trigger] key(sorted[q]),
            ),
        insertion_point(x, sorted, key) == sorted.len() || bytes_le(
            key(x),
            key(sorted[insertion_point(x, sorted, key)]),
        ),
        stable_insert(x, sorted, key) == sorted.insert(insertion_point(x, sorted, key), x),
    decreases sorted.len(),
{
    let at = insertion_point(x, sorted, key);
    if sorted.len() == 0 || bytes_le(key(x), key(sorted[0])) {
    } else {
        let rest = sorted.drop_first();
        lemma_insertion_point(x, rest, key);
        assert forall|q: int| 0 <= q < at implies !bytes_le(key(x), #[trigger] key(sorted[q])) by {
            if q > 0 {
                assert(sorted[q] == rest[q - 1]);
            }
        }
        if at < sorted.len() {
            assert(sorted[at] == rest[at - 1]);
        }
    }
    lemma_stable_insert_at(x, sorted, key, at);
}

/// Putting one item in makes the sequence one item longer.
pub proof fn lemma_stable_insert_len<T>(x: T, sorted: Seq<T>, key: spec_fn(T) -> Seq<u8>)
    ensures
        stable_insert(x, sorted, key).len() == sorted.len() + 1,
    decreases sorted.len(),
{
    if !(sorted.len() == 0 || bytes_le(key(x), key(sorted[0]))) {
        lemma_stable_insert_len(x, sorted.drop_first(), key);
    }
}

/// A sorted sequence holds the items that were sorted, each as often as it
/// was given.
pub proof fn lemma_stable_sort_permutes<T>(items: Seq<T>, key: spec_fn(T) -> Seq<u8>)
    ensures
        stable_sort(items, key).to_multiset() == items.to_multiset(),
    decreases items.len(),
{
    if items.len() > 0 {
        let rest = items.drop_first();
        let sorted = stable_sort(rest, key);
        lemma_stable_sort_permutes(rest, key);
        lemma_insertion_point(items[0], sorted, key);
        vstd::seq_lib::to_multiset_insert(sorted, insertion_point(items[0], sorted, key), items[0]);
        vstd::seq_lib::to_multiset_insert(rest, 0, items[0]);
        assert(rest.insert(0, items[0]) =~= items);
    }
}

/// A sorted sequence holds an item if and only if the item was given.
pub proof fn lemma_stable_sort_contains<T>(items: Seq<T>, key: spec_fn(T) -> Seq<u8>, x: T)
    ensures
        stable_sort(items, key).contains(x) <==> items.contains(x),
{
    lemma_stable_sort_permutes(items, key);
    vstd::seq_lib::to_multiset_contains(stable_sort(items, key), x);
    vstd::seq_lib::to_multiset_contains(items, x);
}

/// In a sorted sequence the keys never descend.
pub proof fn lemma_stable_sort_ascending<T>(items: Seq<T>, key: spec_fn(T) -> Seq<u8>)
    ensures
        ascending(stable_sort(items, key), key),
    decreases items.len(),
{
    if items.len() > 0 {
        let x = items[0];
        let sorted = stable_sort(items.drop_first(), key);
        let at = insertion_point(x, sorted, key);
        let out = sorted.insert(at, x);
        lemma_stable_sort_ascending(items.drop_first(), key);
        lemma_insertion_point(x, sorted, key);
        assert forall|i: int, j: int| 0 <= i < j < out.len() implies bytes_le(
            key(#[trigger] out[i]),
            key(#[trigger] out[j]),
        ) by {
            if j < at {
                assert(out[i] == sorted[i] && out[j] == sorted[j]);
            } else if j == at {
                assert(out[i] == sorted[i]);
                lemma_bytes_le_total(key(x), key(sorted[i]));
            } else if i < at {
                assert(out[i] == sorted[i] && out[j] == sorted[j - 1]);
            } else if i == at {
                assert(out[j] == sorted[j - 1]);
                if j - 1 > at {
                    assert(bytes_le(key(sorted[at]), key(sorted[j - 1])));
                    lemma_bytes_le_transitive(key(x), key(sorted[at]), key(sorted[j - 1]));
                }
            } else {
                assert(out[i] == sorted[i - 1] && out[j] == sorted[j - 1]);
            }
        }
    }
}

/// Sorting is stable: the items that have a given key stand in the sorted
/// sequence in the order in which they were given.
pub proof fn lemma_stable_sort_keeps_ties<T>(
    items: Seq<T>,
    key: spec_fn(T) -> Seq<u8>,
    bytes: Seq<u8>,
)
    ensures
        stable_sort(items, key).filter(with_key(key, bytes)) == items.filter(with_key(key, bytes)),
    decreases items.len(),
{
    if items.len() > 0 {
        let tied = with_key(key, bytes);
        let x = items[0];
        let rest = items.drop_first();
        let sorted = stable_sort(rest, key);
        let at = insertion_point(x, sorted, key);
        let front = sorted.take(at);
        let back = sorted.skip(at);
        lemma_stable_sort_keeps_ties(rest, key, bytes);
        lemma_insertion_point(x, sorted, key);
        assert(sorted.insert(at, x) =~= (front + seq![x]) + back);
        assert(sorted =~= front + back);
        assert(items =~= seq![x] + rest);
        Seq::filter_distributes_over_add(front + seq![x], back, tied);
        Seq::filter_distributes_over_add(front, seq![x], tied);
        Seq::filter_distributes_over_add(front, back, tied);
        Seq::filter_distributes_over_add(seq![x], rest, tied);
        if tied(x) {
            assert forall|q: int| 0 <= q < front.len() implies !tied(#[trigger] front[q]) by {
                assert(front[q] == sorted[q]);
                assert(!bytes_le(key(x), key(sorted[q])));
                lemma_bytes_le_reflexive(key(x));
            }
            assert(front.all(|item: T| !tied(item)));
            front.lemma_all_neg_filter_empty(tied);
            assert(front.filter(tied) =~= Seq::<T>::empty());
            assert((front.filter(tied) + seq![x].filter(tied)) + back.filter(tied) =~= seq![
                x,
            ].filter(tied) + (front.filter(tied) + back.filter(tied)));
        } else {
            reveal_with_fuel(Seq::filter, 2);
            assert(seq![x].drop_last() =~= Seq::<T>::empty());
            assert(seq![x].filter(tied) =~= Seq::<T>::empty());
            assert((front.filter(tied) + seq![x].filter(tied)) + back.filter(tied) =~= seq![
                x,
            ].filter(tied) + (front.filter(tied) + back.filter(tied)));
        }
    }
}

/// Two ascending sequences with the same ties are one sequence.
proof fn lemma_ascending_with_same_ties<T>(left: Seq<T>, right: Seq<T>, key: spec_fn(T) -> Seq<u8>)
    requires
        ascending(left, key),
        ascending(right, key),
        same_ties(left, right, key),
    ensures
        left == right,
    decreases left.len(),
{
    if left.len() == 0 {
        if right.len() > 0 {
            let tied = with_key(key, key(right[0]));
            right.lemma_filter_contains(tied, 0);
            left.lemma_filter_len(tied);
            assert(left.filter(tied) == right.filter(tied));
        }
        assert(left =~= right);
    } else {
        let x = left[0];
        let left_rest = left.drop_first();
        let tied_x = with_key(key, key(x));
        assert(left =~= seq![x] + left_rest);
        left_rest.lemma_filter_prepend(x, tied_x);
        assert(left.filter(tied_x) == right.filter(tied_x));
        assert(left.filter(tied_x)[0] == x);
        right.lemma_filter_len(tied_x);
        let y = right[0];
        let right_rest = right.drop_first();
        let tied_y = with_key(key, key(y));
        assert(right =~= seq![y] + right_rest);
        right_rest.lemma_filter_prepend(y, tied_y);
        assert(left.filter(tied_y) == right.filter(tied_y));
        assert(right.filter(tied_y)[0] == y);
        assert(right.filter(tied_x).contains(x));
        right.lemma_filter_contains_rev(tied_x, x);
        assert(left.filter(tied_y).contains(y));
        left.lemma_filter_contains_rev(tied_y, y);
        let i = choose|i: int| 0 <= i < left.len() && left[i] == y;
        let j = choose|j: int| 0 <= j < right.len() && right[j] == x;
        if i > 0 {
            assert(bytes_le(key(left[0]), key(left[i])));
        } else {
            lemma_bytes_le_reflexive(key(x));
        }
        if j > 0 {
            assert(bytes_le(key(right[0]), key(right[j])));
        } else {
            lemma_bytes_le_reflexive(key(y));
        }
        lemma_bytes_le_antisymmetric(key(x), key(y));
        assert(x == y);
        assert forall|bytes: Seq<u8>|
            left_rest.filter(#[trigger] with_key(key, bytes)) == right_rest.filter(
                with_key(key, bytes),
            ) by {
            let tied = with_key(key, bytes);
            left_rest.lemma_filter_prepend(x, tied);
            right_rest.lemma_filter_prepend(y, tied);
            assert(left.filter(tied) == right.filter(tied));
            if tied(x) {
                assert((seq![x] + left_rest.filter(tied)).drop_first() =~= left_rest.filter(tied));
                assert((seq![y] + right_rest.filter(tied)).drop_first() =~= right_rest.filter(
                    tied,
                ));
            } else {
                assert(Seq::<T>::empty() + left_rest.filter(tied) =~= left_rest.filter(tied));
                assert(Seq::<T>::empty() + right_rest.filter(tied) =~= right_rest.filter(tied));
            }
        }
        assert forall|a: int, b: int| 0 <= a < b < left_rest.len() implies bytes_le(
            key(#[trigger] left_rest[a]),
            key(#[trigger] left_rest[b]),
        ) by {
            assert(left_rest[a] == left[a + 1] && left_rest[b] == left[b + 1]);
        }
        assert forall|a: int, b: int| 0 <= a < b < right_rest.len() implies bytes_le(
            key(#[trigger] right_rest[a]),
            key(#[trigger] right_rest[b]),
        ) by {
            assert(right_rest[a] == right[a + 1] && right_rest[b] == right[b + 1]);
        }
        lemma_ascending_with_same_ties(left_rest, right_rest, key);
    }
}

/// The sorted sequence is the only one that is ascending and has the ties
/// of the items given.
pub proof fn lemma_stable_sort_is_unique<T>(
    sorted: Seq<T>,
    items: Seq<T>,
    key: spec_fn(T) -> Seq<u8>,
)
    requires
        ascending(sorted, key),
        same_ties(sorted, items, key),
    ensures
        sorted == stable_sort(items, key),
{
    let expected = stable_sort(items, key);
    lemma_stable_sort_ascending(items, key);
    assert forall|bytes: Seq<u8>|
        sorted.filter(#[trigger] with_key(key, bytes)) == expected.filter(
            with_key(key, bytes),
        ) by {
        lemma_stable_sort_keeps_ties(items, key, bytes);
    }
    lemma_ascending_with_same_ties(sorted, expected, key);
}

/// Where the key decides the item, there is one way only to put given items
/// in ascending order.
pub proof fn lemma_ascending_unique<T>(left: Seq<T>, right: Seq<T>, key: spec_fn(T) -> Seq<u8>)
    requires
        ascending(left, key),
        ascending(right, key),
        left.to_multiset() == right.to_multiset(),
        key_decides(left, key),
    ensures
        left == right,
    decreases left.len(),
{
    vstd::seq_lib::to_multiset_len(left);
    vstd::seq_lib::to_multiset_len(right);
    if left.len() == 0 {
        assert(left =~= right);
    } else {
        let x = left[0];
        let y = right[0];
        assert(left.contains(x));
        assert(right.contains(y));
        vstd::seq_lib::to_multiset_contains(left, x);
        vstd::seq_lib::to_multiset_contains(right, x);
        vstd::seq_lib::to_multiset_contains(left, y);
        vstd::seq_lib::to_multiset_contains(right, y);
        let i = choose|i: int| 0 <= i < left.len() && left[i] == y;
        let j = choose|j: int| 0 <= j < right.len() && right[j] == x;
        if i > 0 {
            assert(bytes_le(key(left[0]), key(left[i])));
        } else {
            lemma_bytes_le_reflexive(key(x));
        }
        if j > 0 {
            assert(bytes_le(key(right[0]), key(right[j])));
        } else {
            lemma_bytes_le_reflexive(key(y));
        }
        lemma_bytes_le_antisymmetric(key(x), key(y));
        assert(left[0] == left[i]);
        let shorter_left = left.drop_first();
        let shorter_right = right.drop_first();
        assert(shorter_left =~= left.remove(0));
        assert(shorter_right =~= right.remove(0));
        vstd::seq_lib::to_multiset_remove(left, 0);
        vstd::seq_lib::to_multiset_remove(right, 0);
        assert forall|a: int, b: int| 0 <= a < b < shorter_left.len() implies bytes_le(
            key(#[trigger] shorter_left[a]),
            key(#[trigger] shorter_left[b]),
        ) by {
            assert(shorter_left[a] == left[a + 1] && shorter_left[b] == left[b + 1]);
        }
        assert forall|a: int, b: int| 0 <= a < b < shorter_right.len() implies bytes_le(
            key(#[trigger] shorter_right[a]),
            key(#[trigger] shorter_right[b]),
        ) by {
            assert(shorter_right[a] == right[a + 1] && shorter_right[b] == right[b + 1]);
        }
        assert forall|a: int, b: int|
            0 <= a < shorter_left.len() && 0 <= b < shorter_left.len() && key(
                #[trigger] shorter_left[a],
            ) == key(#[trigger] shorter_left[b]) implies shorter_left[a] == shorter_left[b] by {
            assert(shorter_left[a] == left[a + 1] && shorter_left[b] == left[b + 1]);
        }
        lemma_ascending_unique(shorter_left, shorter_right, key);
        assert(left =~= seq![x] + shorter_left);
        assert(right =~= seq![y] + shorter_right);
    }
}

/// Two sequences that hold the same items equally often still do so after
/// one function has been applied to every item of both.
pub proof fn lemma_map_keeps_permutation<A, B>(left: Seq<A>, right: Seq<A>, f: spec_fn(A) -> B)
    requires
        left.to_multiset() == right.to_multiset(),
    ensures
        left.map_values(f).to_multiset() == right.map_values(f).to_multiset(),
    decreases left.len(),
{
    vstd::seq_lib::to_multiset_len(left);
    vstd::seq_lib::to_multiset_len(right);
    if left.len() == 0 {
        assert(left.map_values(f) =~= right.map_values(f));
    } else {
        let x = left.last();
        assert(left.contains(x));
        vstd::seq_lib::to_multiset_contains(left, x);
        vstd::seq_lib::to_multiset_contains(right, x);
        let at = choose|at: int| 0 <= at < right.len() && right[at] == x;
        let shorter_left = left.drop_last();
        let shorter_right = right.remove(at);
        assert(shorter_left =~= left.remove(left.len() - 1));
        vstd::seq_lib::to_multiset_remove(left, left.len() - 1);
        vstd::seq_lib::to_multiset_remove(right, at);
        lemma_map_keeps_permutation(shorter_left, shorter_right, f);
        assert(left.map_values(f) =~= shorter_left.map_values(f).insert(left.len() - 1, f(x)));
        assert(right.map_values(f) =~= shorter_right.map_values(f).insert(at, f(x)));
        vstd::seq_lib::to_multiset_insert(shorter_left.map_values(f), left.len() - 1, f(x));
        vstd::seq_lib::to_multiset_insert(shorter_right.map_values(f), at, f(x));
    }
}

/// Putting related items into sequences that are related place by place
/// keeps them related place by place.
proof fn lemma_stable_insert_related<A, B>(
    x: A,
    left: Seq<A>,
    left_key: spec_fn(A) -> Seq<u8>,
    y: B,
    right: Seq<B>,
    right_key: spec_fn(B) -> Seq<u8>,
    related: spec_fn(A, B) -> bool,
)
    requires
        forall|a: A, b: B| #[trigger] related(a, b) ==> left_key(a) == right_key(b),
        related(x, y),
        left.len() == right.len(),
        forall|i: int| 0 <= i < left.len() ==> #[trigger] related(left[i], right[i]),
    ensures
        stable_insert(x, left, left_key).len() == left.len() + 1,
        stable_insert(y, right, right_key).len() == left.len() + 1,
        forall|i: int|
            0 <= i <= left.len() ==> #[trigger] related(
                stable_insert(x, left, left_key)[i],
                stable_insert(y, right, right_key)[i],
            ),
    decreases left.len(),
{
    if left.len() > 0 {
        assert(related(left[0], right[0]));
        if !bytes_le(left_key(x), left_key(left[0])) {
            let l = left.drop_first();
            let r = right.drop_first();
            assert forall|i: int| 0 <= i < l.len() implies #[trigger] related(l[i], r[i]) by {
                assert(related(left[i + 1], right[i + 1]));
            }
            lemma_stable_insert_related(x, l, left_key, y, r, right_key, related);
        }
    }
}

/// Two sequences whose items are related place by place, by a relation that
/// passes on the key, are sorted into sequences that are related place by
/// place: the sorted order depends on the keys alone.
pub proof fn lemma_stable_sort_related<A, B>(
    left: Seq<A>,
    left_key: spec_fn(A) -> Seq<u8>,
    right: Seq<B>,
    right_key: spec_fn(B) -> Seq<u8>,
    related: spec_fn(A, B) -> bool,
)
    requires
        forall|a: A, b: B| #[trigger] related(a, b) ==> left_key(a) == right_key(b),
        left.len() == right.len(),
        forall|i: int| 0 <= i < left.len() ==> #[trigger] related(left[i], right[i]),
    ensures
        stable_sort(left, left_key).len() == left.len(),
        stable_sort(right, right_key).len() == left.len(),
        forall|i: int|
            0 <= i < left.len() ==> #[trigger] related(
                stable_sort(left, left_key)[i],
                stable_sort(right, right_key)[i],
            ),
    decreases left.len(),
{
    if left.len() > 0 {
        let l = left.drop_first();
        let r = right.drop_first();
        assert(related(left[0], right[0]));
        assert forall|i: int| 0 <= i < l.len() implies #[trigger] related(l[i], r[i]) by {
            assert(related(left[i + 1], right[i + 1]));
        }
        lemma_stable_sort_related(l, left_key, r, right_key, related);
        lemma_stable_insert_related(
            left[0],
            stable_sort(l, left_key),
            left_key,
            right[0],
            stable_sort(r, right_key),
            right_key,
            related,
        );
    }
}

/// The sorted sequence depends on the ties alone: sequences with the same
/// ties are sorted to one sequence.
pub proof fn lemma_stable_sort_depends_on_ties<T>(
    items: Seq<T>,
    other: Seq<T>,
    key: spec_fn(T) -> Seq<u8>,
)
    requires
        same_ties(other, items, key),
    ensures
        stable_sort(other, key) == stable_sort(items, key),
{
    let sorted = stable_sort(other, key);
    lemma_stable_sort_ascending(other, key);
    assert forall|bytes: Seq<u8>|
        sorted.filter(#[trigger] with_key(key, bytes)) == items.filter(with_key(key, bytes)) by {
        lemma_stable_sort_keeps_ties(other, key, bytes);
        assert(other.filter(with_key(key, bytes)) == items.filter(with_key(key, bytes)));
    }
    lemma_stable_sort_is_unique(sorted, items, key);
}

/// No two items have the same key.
pub open spec fn distinct_by_key<T>(items: Seq<T>, key: spec_fn(T) -> Seq<u8>) -> bool {
    forall|i: int, j: int|
        #![trigger items[i], items[j]]
        0 <= i < j < items.len() ==> key(items[i]) != key(items[j])
}

/// Among items with distinct keys, the items that have a given key are the
/// one item that has it, or none.
proof fn lemma_tie_of_distinct<T>(items: Seq<T>, key: spec_fn(T) -> Seq<u8>, bytes: Seq<u8>)
    requires
        distinct_by_key(items, key),
    ensures
        (forall|i: int| 0 <= i < items.len() ==> key(#[trigger] items[i]) != bytes)
            ==> items.filter(with_key(key, bytes)) == Seq::<T>::empty(),
        forall|i: int|
            0 <= i < items.len() && key(#[trigger] items[i]) == bytes ==> items.filter(
                with_key(key, bytes),
            ) == seq![items[i]],
    decreases items.len(),
{
    reveal(Seq::filter);
    let tied = with_key(key, bytes);
    if items.len() > 0 {
        let rest = items.drop_last();
        let last = items.last();
        assert forall|i: int, j: int| 0 <= i < j < rest.len() implies key(#[trigger] rest[i])
            != key(#[trigger] rest[j]) by {
            assert(rest[i] == items[i] && rest[j] == items[j]);
        }
        lemma_tie_of_distinct(rest, key, bytes);
        assert forall|i: int| 0 <= i < rest.len() implies key(#[trigger] rest[i]) != key(
            last,
        ) by {
            assert(rest[i] == items[i]);
            assert(items[items.len() - 1] == last);
        }
        if tied(last) {
            assert(rest.filter(tied) == Seq::<T>::empty());
            assert(items.filter(tied) =~= seq![last]);
            assert forall|i: int| 0 <= i < items.len() && key(#[trigger] items[i])
                == bytes implies items.filter(tied) == seq![items[i]] by {
                if i < items.len() - 1 {
                    assert(rest[i] == items[i]);
                }
            }
        } else {
            assert(items.filter(tied) == rest.filter(tied));
            assert forall|i: int| 0 <= i < items.len() && key(#[trigger] items[i])
                == bytes implies items.filter(tied) == seq![items[i]] by {
                assert(rest[i] == items[i]);
            }
            if forall|i: int| 0 <= i < items.len() ==> key(#[trigger] items[i]) != bytes {
                assert forall|i: int| 0 <= i < rest.len() implies key(#[trigger] rest[i])
                    != bytes by {
                    assert(rest[i] == items[i]);
                }
            }
        }
    } else {
        assert(items.filter(tied) =~= Seq::<T>::empty());
    }
}

/// Two sequences of items with distinct keys, each of which holds every item
/// of the other, are sorted to one sequence.
pub proof fn lemma_stable_sort_of_distinct<T>(
    items: Seq<T>,
    other: Seq<T>,
    key: spec_fn(T) -> Seq<u8>,
)
    requires
        distinct_by_key(items, key),
        distinct_by_key(other, key),
        forall|i: int| 0 <= i < items.len() ==> other.contains(#[trigger] items[i]),
        forall|j: int| 0 <= j < other.len() ==> items.contains(#[trigger] other[j]),
    ensures
        stable_sort(other, key) == stable_sort(items, key),
{
    assert forall|bytes: Seq<u8>|
        other.filter(#[trigger] with_key(key, bytes)) == items.filter(with_key(key, bytes)) by {
        lemma_tie_of_distinct(items, key, bytes);
        lemma_tie_of_distinct(other, key, bytes);
        if exists|i: int| 0 <= i < items.len() && key(#[trigger] items[i]) == bytes {
            let i = choose|i: int| 0 <= i < items.len() && key(#[trigger] items[i]) == bytes;
            assert(other.contains(items[i]));
            let j = choose|j: int| 0 <= j < other.len() && other[j] == items[i];
            assert(key(other[j]) == bytes);
        } else if exists|j: int| 0 <= j < other.len() && key(#[trigger] other[j]) == bytes {
            let j = choose|j: int| 0 <= j < other.len() && key(#[trigger] other[j]) == bytes;
            assert(items.contains(other[j]));
            let i = choose|i: int| 0 <= i < items.len() && items[i] == other[j];
            assert(key(items[i]) == bytes);
        }
    }
    lemma_stable_sort_depends_on_ties(items, other, key);
}

/// Two sequences of items with distinct bytes in front, each of which holds
/// every item of the other, hold one sequence in key order.
pub proof fn lemma_in_key_order_of_distinct<T>(
    left: Seq<(Seq<u8>, T)>,
    right: Seq<(Seq<u8>, T)>,
    to: spec_fn(int) -> int,
    from: spec_fn(int) -> int,
)
    requires
        forall|i: int, j: int|
            #![trigger left[i], left[j]]
            0 <= i < j < left.len() ==> left[i].0 != left[j].0,
        forall|i: int, j: int|
            #![trigger right[i], right[j]]
            0 <= i < j < right.len() ==> right[i].0 != right[j].0,
        forall|i: int|
            0 <= i < left.len() ==> 0 <= #[trigger] to(i) < right.len() && right[to(i)]
                == left[i],
        forall|j: int|
            0 <= j < right.len() ==> 0 <= #[trigger] from(j) < left.len() && left[from(j)]
                == right[j],
    ensures
        in_key_order(right) == in_key_order(left),
{
    assert forall|i: int| 0 <= i < left.len() implies right.contains(#[trigger] left[i]) by {
        assert(right[to(i)] == left[i]);
    }
    assert forall|j: int| 0 <= j < right.len() implies left.contains(#[trigger] right[j]) by {
        assert(left[from(j)] == right[j]);
    }
    lemma_stable_sort_of_distinct(left, right, leading());
}

/// The places `from`, `from + 1`, and so on, up to but not including `to`.
pub open spec fn places_between(from: int, to: int) -> Seq<int> {
    Seq::new((to - from) as nat, |i: int| from + i)
}

/// The key of the item at a place.
pub open spec fn key_of_place<T>(items: Seq<T>, key: spec_fn(T) -> Seq<u8>) -> spec_fn(int) -> Seq<
    u8,
> {
    |place: int| key(items[place])
}

/// For each place of the sorted sequence, the place in `items` of the item
/// that stands there.
pub open spec fn sorted_places<T>(items: Seq<T>, key: spec_fn(T) -> Seq<u8>) -> Seq<int> {
    stable_sort(places_between(0, items.len() as int), key_of_place(items, key))
}

/// The places between `from` and `to`, sorted by `key`.
spec fn sorted_between(from: int, to: int, key: spec_fn(int) -> Seq<u8>) -> Seq<int> {
    stable_sort(places_between(from, to), key)
}

/// Sorted places lie in the range that was sorted, and of two that tie the
/// lower comes first.
proof fn lemma_places_keep_order_of_ties(from: int, to: int, key: spec_fn(int) -> Seq<u8>)
    requires
        from <= to,
    ensures
        forall|p: int|
            0 <= p < sorted_between(from, to, key).len() ==> from <= #[trigger] sorted_between(
                from,
                to,
                key,
            )[p] < to,
        forall|p: int, q: int|
            #![trigger sorted_between(from, to, key)[p], sorted_between(from, to, key)[q]]
            0 <= p < q < sorted_between(from, to, key).len() && key(
                sorted_between(from, to, key)[p],
            ) == key(sorted_between(from, to, key)[q]) ==> sorted_between(from, to, key)[p]
                < sorted_between(from, to, key)[q],
    decreases to - from,
{
    let all = places_between(from, to);
    let out = sorted_between(from, to, key);
    if from < to {
        let rest = places_between(from + 1, to);
        assert(all.drop_first() =~= rest);
        assert(all[0] == from);
        let sorted = sorted_between(from + 1, to, key);
        lemma_places_keep_order_of_ties(from + 1, to, key);
        lemma_insertion_point(from, sorted, key);
        let at = insertion_point(from, sorted, key);
        assert(out == sorted.insert(at, from));
        assert forall|p: int| 0 <= p < out.len() implies from <= #[trigger] out[p] < to by {
            if p < at {
                assert(out[p] == sorted[p]);
            } else if p > at {
                assert(out[p] == sorted[p - 1]);
            }
        }
        assert forall|p: int, q: int|
            #![trigger out[p], out[q]]
            0 <= p < q < out.len() && key(out[p]) == key(out[q]) implies out[p] < out[q] by {
            if q < at {
                assert(out[p] == sorted[p] && out[q] == sorted[q]);
            } else if q == at {
                assert(out[p] == sorted[p]);
                assert(!bytes_le(key(from), key(sorted[p])));
                lemma_bytes_le_reflexive(key(from));
            } else if p < at {
                assert(out[p] == sorted[p] && out[q] == sorted[q - 1]);
            } else if p == at {
                assert(out[q] == sorted[q - 1]);
                assert(from + 1 <= sorted[q - 1]);
            } else {
                assert(out[p] == sorted[p - 1] && out[q] == sorted[q - 1]);
            }
        }
    }
}

/// The item at a place.
spec fn stands_at<T>(items: Seq<T>) -> spec_fn(int, T) -> bool {
    |place: int, item: T| 0 <= place < items.len() && items[place] == item
}

/// What sorting does, place by place: the sorted sequence holds every item
/// of `items` from exactly one place; the keys never descend; and of two
/// items with equal keys the one that stood first in `items` stands first.
pub proof fn lemma_sorted_places<T>(items: Seq<T>, key: spec_fn(T) -> Seq<u8>)
    ensures
        sorted_places(items, key).len() == items.len(),
        stable_sort(items, key).len() == items.len(),
        sorted_places(items, key).no_duplicates(),
        forall|place: int|
            0 <= place < items.len() ==> #[trigger] sorted_places(items, key).contains(place),
        forall|p: int|
            0 <= p < items.len() ==> 0 <= #[trigger] sorted_places(items, key)[p] < items.len()
                && stable_sort(items, key)[p] == items[sorted_places(items, key)[p]],
        forall|p: int, q: int|
            #![trigger sorted_places(items, key)[p], sorted_places(items, key)[q]]
            0 <= p < q < items.len() ==> bytes_le(
                key(items[sorted_places(items, key)[p]]),
                key(items[sorted_places(items, key)[q]]),
            ),
        forall|p: int, q: int|
            #![trigger sorted_places(items, key)[p], sorted_places(items, key)[q]]
            0 <= p < q < items.len() && key(items[sorted_places(items, key)[p]]) == key(
                items[sorted_places(items, key)[q]],
            ) ==> sorted_places(items, key)[p] < sorted_places(items, key)[q],
{
    let all = places_between(0, items.len() as int);
    let by_place = key_of_place(items, key);
    let order = sorted_places(items, key);
    let sorted = stable_sort(items, key);
    assert forall|place: int, item: T| #[trigger] stands_at(items)(place, item) implies by_place(
        place,
    ) == key(item) by {}
    assert forall|i: int| 0 <= i < all.len() implies #[trigger] stands_at(items)(
        all[i],
        items[i],
    ) by {}
    lemma_stable_sort_related(all, by_place, items, key, stands_at(items));
    assert forall|p: int| 0 <= p < items.len() implies 0 <= #[trigger] order[p] < items.len()
        && sorted[p] == items[order[p]] by {
        assert(stands_at(items)(order[p], sorted[p]));
    }
    lemma_stable_sort_permutes(all, by_place);
    assert(all.no_duplicates());
    all.lemma_multiset_has_no_duplicates();
    order.lemma_multiset_has_no_duplicates_conv();
    assert forall|place: int| 0 <= place < items.len() implies #[trigger] order.contains(
        place,
    ) by {
        assert(all[place] == place);
        assert(all.contains(place));
        lemma_stable_sort_contains(all, by_place, place);
    }
    lemma_stable_sort_ascending(all, by_place);
    assert forall|p: int, q: int|
        #![trigger order[p], order[q]]
        0 <= p < q < items.len() implies bytes_le(key(items[order[p]]), key(items[order[q]])) by {
        assert(bytes_le(by_place(order[p]), by_place(order[q])));
    }
    lemma_places_keep_order_of_ties(0, items.len() as int, by_place);
    assert(order == sorted_between(0, items.len() as int, by_place));
    assert forall|p: int, q: int|
        #![trigger order[p], order[q]]
        0 <= p < q < items.len() && key(items[order[p]]) == key(
            items[order[q]],
        ) implies order[p] < order[q] by {
        assert(by_place(order[p]) == by_place(order[q]));
    }
}

/// Sorting is stable, item by item: of two items with equal keys, the one
/// that stands first in `items` stands first in the sorted sequence.
pub proof fn lemma_stable_sort_keeps_order_of_ties<T>(
    items: Seq<T>,
    key: spec_fn(T) -> Seq<u8>,
    i: int,
    j: int,
)
    requires
        0 <= i < j < items.len(),
        key(items[i]) == key(items[j]),
    ensures
        exists|p: int, q: int|
            0 <= p < q < items.len() && #[trigger] sorted_places(items, key)[p] == i
                && #[trigger] sorted_places(items, key)[q] == j && stable_sort(items, key)[p]
                == items[i] && stable_sort(items, key)[q] == items[j],
{
    let order = sorted_places(items, key);
    lemma_sorted_places(items, key);
    assert(order.contains(i));
    assert(order.contains(j));
    let p = choose|p: int| 0 <= p < order.len() && order[p] == i;
    let q = choose|q: int| 0 <= q < order.len() && order[q] == j;
    if q < p {
        assert(order[q] < order[p]);
    }
    assert(order[p] == i && order[q] == j);
    assert(stable_sort(items, key)[p] == items[order[p]]);
    assert(stable_sort(items, key)[q] == items[order[q]]);
}

/// The bytes in front of an item as the key of a sort.
pub open spec fn leading<T>() -> spec_fn((Seq<u8>, T)) -> Seq<u8> {
    |item: (Seq<u8>, T)| item.0
}

/// What the items carry behind their bytes, in ascending order of the bytes;
/// items with equal bytes in the order given.
pub open spec fn in_key_order<T>(keyed: Seq<(Seq<u8>, T)>) -> Seq<T> {
    stable_sort(keyed, leading()).map_values(|item: (Seq<u8>, T)| item.1)
}

} // verus!
