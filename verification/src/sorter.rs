//! Canonical order: the children of one node, sorted by their ordering
//! bytes.

use crate::merge_sort::{carried_key, sort_by_key, values_in_key_order};
use crate::order::{
    ascending, bytes_le, lemma_sorted_places, lemma_stable_sort_ascending,
    lemma_stable_sort_contains, lemma_stable_sort_is_unique,
    lemma_stable_sort_keeps_order_of_ties, lemma_stable_sort_keeps_ties,
    lemma_stable_sort_permutes, lemma_stable_sort_related, same_ties, sorted_places,
    stable_sort, with_key,
};
use crate::text::json_text;
use crate::value::{by_key, entries_view, entry_key, items_view, well_formed, Tree, Value};
use vstd::prelude::*;
use vstd::string::*;
use vstd::utf8::encode_utf8;

verus! {

/// The low eight bits of a character's code.
pub open spec fn low_byte(c: char) -> u8 {
    ((c as int) % 256) as u8
}

/// The byte string that a text is ordered by: every character reduced to the
/// low eight bits of its code.
pub open spec fn ascii_bytes(text: Seq<char>) -> Seq<u8> {
    Seq::new(text.len(), |i: int| low_byte(text[i]))
}

/// The low eight bits of the code of `c`.
fn char_to_ascii(c: char) -> (byte: u8)
    ensures
        byte == low_byte(c),
{
    let code: u32 = c as u32;
    (code % 256) as u8
}

/// Reduces each character of `input` to the low eight bits of its code.
pub fn string_to_ascii(input: String) -> (bytes: Vec<u8>)
    ensures
        bytes@ == ascii_bytes(input@),
{
    let mut bytes: Vec<u8> = Vec::new();
    for c in it: input.as_str().chars()
        invariant
            it.seq() == input@,
            bytes@ == ascii_bytes(input@.take(it.index() as int)),
    {
        bytes.push(char_to_ascii(c));
        proof {
            assert(bytes@ =~= ascii_bytes(input@.take(it.index() + 1)));
        }
    }
    proof {
        assert(input@.take(input@.len() as int) =~= input@);
    }
    bytes
}

/// The text by which a node is ordered among its siblings: the raw content
/// of a string, the empty text for null, and the minified text of any other
/// node.
pub open spec fn ordering_key(tree: Tree) -> Seq<char> {
    match tree {
        Tree::String(text) => text,
        Tree::Null => Seq::empty(),
        _ => json_text(tree),
    }
}

/// The bytes by which a node is ordered among its siblings.
pub open spec fn key_bytes(tree: Tree) -> Seq<u8> {
    ascii_bytes(ordering_key(tree))
}

/// [`key_bytes`] as the key of a sort.
pub open spec fn by_ordering_key() -> spec_fn(Tree) -> Seq<u8> {
    |tree: Tree| key_bytes(tree)
}

/// The two-item array that stands for an entry of an object: the key as a
/// string, then the value.
pub open spec fn pair_of(entry: (Seq<char>, Tree)) -> Tree {
    Tree::Array(seq![Tree::String(entry.0), entry.1])
}

/// The pairs that stand for the entries of an object, in the object's order.
pub open spec fn pairs_of(entries: Seq<(Seq<char>, Tree)>) -> Seq<Tree> {
    Seq::new(entries.len(), |i: int| pair_of(entries[i]))
}

/// The children of a node before they are put in canonical order: the
/// items of an array as they stand, the pairs of an object in ascending
/// order of the keys, and nothing for any other node.
pub open spec fn children(tree: Tree) -> Seq<Tree> {
    match tree {
        Tree::Array(items) => items,
        Tree::Object(entries) => pairs_of(by_key(entries)),
        _ => Seq::empty(),
    }
}

/// The children of a node in canonical order: ascending by their ordering
/// bytes, children with equal bytes in the order that they have in the node.
pub open spec fn canonical_children(tree: Tree) -> Seq<Tree> {
    stable_sort(children(tree), by_ordering_key())
}

/// One level of a tree put in canonical order: an array or an object becomes
/// the array of its children in canonical order, any other node stays as it
/// is. The children themselves are not changed.
pub open spec fn canonical(tree: Tree) -> Tree {
    match tree {
        Tree::Array(_) => Tree::Array(canonical_children(tree)),
        Tree::Object(_) => Tree::Array(canonical_children(tree)),
        _ => tree,
    }
}

/// Canonical order holds the children that the node has, each as often as
/// the node has it.
pub proof fn lemma_canonical_children_permute(tree: Tree)
    ensures
        canonical_children(tree).to_multiset() == children(tree).to_multiset(),
{
    lemma_stable_sort_permutes(children(tree), by_ordering_key());
}

/// In canonical order the ordering bytes of the children never descend.
pub proof fn lemma_canonical_children_ascend(tree: Tree)
    ensures
        ascending(canonical_children(tree), by_ordering_key()),
{
    lemma_stable_sort_ascending(children(tree), by_ordering_key());
}

/// Children whose ordering bytes are equal stand in canonical order as they
/// stand in the node: whatever the bytes, the children that have them form
/// the same sequence before and after.
pub proof fn lemma_canonical_children_keep_ties(tree: Tree)
    ensures
        same_ties(canonical_children(tree), children(tree), by_ordering_key()),
{
    assert forall|bytes: Seq<u8>|
        canonical_children(tree).filter(#[trigger] with_key(by_ordering_key(), bytes))
            == children(tree).filter(with_key(by_ordering_key(), bytes)) by {
        lemma_stable_sort_keeps_ties(children(tree), by_ordering_key(), bytes);
    }
}

/// For each place of the canonical order, the place among the children of
/// the child that stands there.
pub open spec fn canonical_places(tree: Tree) -> Seq<int> {
    sorted_places(children(tree), by_ordering_key())
}

/// Canonical order, place by place: it holds every child from exactly one
/// place; the ordering bytes never descend; and of two children with equal
/// ordering bytes the one that stood first among the children stands first.
pub proof fn lemma_canonical_places(tree: Tree)
    ensures
        canonical_places(tree).len() == children(tree).len(),
        canonical_children(tree).len() == children(tree).len(),
        canonical_places(tree).no_duplicates(),
        forall|place: int|
            0 <= place < children(tree).len() ==> #[trigger] canonical_places(tree).contains(
                place,
            ),
        forall|p: int|
            0 <= p < children(tree).len() ==> 0 <= #[trigger] canonical_places(tree)[p]
                < children(tree).len() && canonical_children(tree)[p] == children(
                tree,
            )[canonical_places(tree)[p]],
        forall|p: int, q: int|
            #![trigger canonical_places(tree)[p], canonical_places(tree)[q]]
            0 <= p < q < children(tree).len() ==> bytes_le(
                key_bytes(children(tree)[canonical_places(tree)[p]]),
                key_bytes(children(tree)[canonical_places(tree)[q]]),
            ),
        forall|p: int, q: int|
            #![trigger canonical_places(tree)[p], canonical_places(tree)[q]]
            0 <= p < q < children(tree).len() && key_bytes(
                children(tree)[canonical_places(tree)[p]],
            ) == key_bytes(children(tree)[canonical_places(tree)[q]]) ==> canonical_places(
                tree,
            )[p] < canonical_places(tree)[q],
{
    lemma_sorted_places(children(tree), by_ordering_key());
}

/// Of two children with equal ordering bytes, the one that stands first
/// among the children stands first in canonical order.
pub proof fn lemma_canonical_children_keep_order_of_ties(tree: Tree, i: int, j: int)
    requires
        0 <= i < j < children(tree).len(),
        key_bytes(children(tree)[i]) == key_bytes(children(tree)[j]),
    ensures
        exists|p: int, q: int|
            0 <= p < q < children(tree).len() && #[trigger] canonical_places(tree)[p] == i
                && #[trigger] canonical_places(tree)[q] == j && canonical_children(tree)[p]
                == children(tree)[i] && canonical_children(tree)[q] == children(tree)[j],
{
    let given = children(tree);
    let key = by_ordering_key();
    lemma_stable_sort_keeps_order_of_ties(given, key, i, j);
    let (p, q) = choose|p: int, q: int|
        0 <= p < q < given.len() && #[trigger] sorted_places(given, key)[p] == i
            && #[trigger] sorted_places(given, key)[q] == j && stable_sort(given, key)[p]
            == given[i] && stable_sort(given, key)[q] == given[j];
    assert(canonical_places(tree)[p] == i && canonical_places(tree)[q] == j);
}

/// Canonical order is the only order of the children that is ascending and
/// keeps the ties.
pub proof fn lemma_canonical_children_are_unique(tree: Tree, ordered: Seq<Tree>)
    requires
        ascending(ordered, by_ordering_key()),
        same_ties(ordered, children(tree), by_ordering_key()),
    ensures
        ordered == canonical_children(tree),
{
    lemma_stable_sort_is_unique(ordered, children(tree), by_ordering_key());
}

/// Canonical order depends on the ties alone: two arrays in which, whatever
/// the bytes, the items that have them form the same sequence have the same
/// canonical order, wherever items with different bytes stand.
pub proof fn lemma_canonical_children_depend_on_ties(items: Seq<Tree>, other: Seq<Tree>)
    requires
        same_ties(other, items, by_ordering_key()),
    ensures
        canonical_children(Tree::Array(other)) == canonical_children(Tree::Array(items)),
{
    let sorted = canonical_children(Tree::Array(other));
    lemma_canonical_children_ascend(Tree::Array(other));
    lemma_canonical_children_keep_ties(Tree::Array(other));
    assert forall|bytes: Seq<u8>|
        sorted.filter(#[trigger] with_key(by_ordering_key(), bytes)) == items.filter(
            with_key(by_ordering_key(), bytes),
        ) by {
        assert(sorted.filter(with_key(by_ordering_key(), bytes)) == other.filter(
            with_key(by_ordering_key(), bytes),
        ));
    }
    lemma_canonical_children_are_unique(Tree::Array(items), sorted);
}

/// What is in canonical order stays as it is when it is put in canonical
/// order again.
pub proof fn lemma_canonical_is_idempotent(tree: Tree)
    ensures
        canonical(canonical(tree)) == canonical(tree),
{
    let sorted = canonical_children(tree);
    lemma_canonical_children_ascend(tree);
    lemma_canonical_children_are_unique(Tree::Array(sorted), sorted);
}

/// Canonical order keeps a tree well formed.
pub proof fn lemma_canonical_keeps_well_formed(tree: Tree)
    requires
        well_formed(tree),
    ensures
        well_formed(canonical(tree)),
{
    let given = children(tree);
    let sorted = canonical_children(tree);
    assert forall|i: int| 0 <= i < sorted.len() implies well_formed(#[trigger] sorted[i]) by {
        lemma_stable_sort_contains(given, by_ordering_key(), sorted[i]);
        assert(sorted.contains(sorted[i]));
        let at = choose|at: int| 0 <= at < given.len() && given[at] == sorted[i];
        match tree {
            Tree::Array(items) => {
                assert(well_formed(items[at]));
            },
            Tree::Object(entries) => {
                let ordered = by_key(entries);
                lemma_stable_sort_contains(entries, entry_key(), ordered[at]);
                assert(ordered.contains(ordered[at]));
                let from = choose|from: int| 0 <= from < entries.len() && entries[from] == ordered[at];
                let both = seq![Tree::String(ordered[at].0), ordered[at].1];
                assert(well_formed(entries[from].1));
                assert forall|j: int| 0 <= j < both.len() implies well_formed(
                    #[trigger] both[j],
                ) by {}
                assert(well_formed(Tree::Array(both)));
            },
            _ => {},
        }
    }
}

/// The text by which `value` is ordered among its siblings.
pub fn normalise_value(value: &Value) -> (key: String)
    ensures
        key@ == ordering_key(value@),
{
    match value {
        Value::String(content) => content.clone(),
        Value::Null => String::new(),
        _ => value.to_string(),
    }
}

/// How an item of the executable sort stands for a tree: it carries the
/// tree's ordering bytes and a value whose tree it is.
spec fn carries() -> spec_fn((Vec<u8>, Value), Tree) -> bool {
    |item: (Vec<u8>, Value), tree: Tree| item.0@ == key_bytes(tree) && item.1@ == tree
}

/// How an item of the executable sort stands for an entry: it carries the
/// UTF-8 bytes of the key, the key and a value whose tree is the entry's.
spec fn entry_stands_for() -> spec_fn((Vec<u8>, (String, Value)), (Seq<char>, Tree)) -> bool {
    |item: (Vec<u8>, (String, Value)), entry: (Seq<char>, Tree)|
        item.0@ == encode_utf8(entry.0) && item.1.0@ == entry.0 && item.1.1@ == entry.1
}

/// Sorts the values by the bytes that they carry and lays the bytes aside.
fn sorted_values(keyed: Vec<(Vec<u8>, Value)>, Ghost(trees): Ghost<Seq<Tree>>) -> (sorted: Vec<
    Value,
>)
    requires
        keyed.len() == trees.len(),
        forall|i: int| 0 <= i < keyed.len() ==> #[trigger] carries()(keyed@[i], trees[i]),
    ensures
        items_view(sorted) == stable_sort(trees, by_ordering_key()),
{
    let ghost unsorted = keyed@;
    let ordered = sort_by_key(keyed);
    let ghost target = stable_sort(trees, by_ordering_key());
    proof {
        lemma_stable_sort_related(
            unsorted,
            carried_key::<Value>(),
            trees,
            by_ordering_key(),
            carries(),
        );
    }
    let mut sorted: Vec<Value> = Vec::new();
    for item in it: ordered
        invariant
            it.seq() == stable_sort(unsorted, carried_key::<Value>()),
            target.len() == it.seq().len(),
            forall|i: int| 0 <= i < target.len() ==> #[trigger] carries()(it.seq()[i], target[i]),
            sorted.len() == it.index(),
            forall|i: int| 0 <= i < sorted.len() ==> (#[trigger] sorted@[i])@ == target[i],
    {
        assert(carries()(it.seq()[it.index() as int], target[it.index() as int]));
        sorted.push(item.1);
    }
    proof {
        assert(items_view(sorted) =~= target);
    }
    sorted
}

/// Puts one level of `value` in canonical order, in place.
pub fn sort_value(value: &mut Value)
    ensures
        final(value)@ == canonical(old(value)@),
        well_formed(old(value)@) ==> well_formed(final(value)@),
{
    proof {
        if well_formed(old(value)@) {
            lemma_canonical_keeps_well_formed(old(value)@);
        }
    }
    let mut taken = Value::Null;
    core::mem::swap(value, &mut taken);
    match taken {
        Value::Array(items) => {
            let ghost trees = items_view(items);
            let mut keyed: Vec<(Vec<u8>, Value)> = Vec::new();
            for item in it: items
                invariant
                    it.seq() == items@,
                    trees == items_view(items),
                    keyed.len() == it.index(),
                    forall|i: int|
                        0 <= i < keyed.len() ==> #[trigger] carries()(keyed@[i], trees[i]),
            {
                let key = string_to_ascii(normalise_value(&item));
                keyed.push((key, item));
            }
            *value = Value::Array(sorted_values(keyed, Ghost(trees)));
        },
        Value::Object(entries) => {
            let ghost given = entries_view(entries);
            let ghost ordered_trees = by_key(given);
            let ghost trees = pairs_of(ordered_trees);
            let mut by_bytes: Vec<(Vec<u8>, (String, Value))> = Vec::new();
            for entry in it: entries
                invariant
                    it.seq() == entries@,
                    given == entries_view(entries),
                    by_bytes.len() == it.index(),
                    forall|i: int|
                        0 <= i < by_bytes.len() ==> #[trigger] entry_stands_for()(
                            by_bytes@[i],
                            given[i],
                        ),
            {
                let bytes = entry.0.as_str().as_bytes_vec();
                by_bytes.push((bytes, entry));
            }
            let ghost unsorted = by_bytes@;
            proof {
                assert forall|item: (Vec<u8>, (String, Value)), tree: (Seq<char>, Tree)| #[trigger]
                    entry_stands_for()(item, tree) implies carried_key::<(String, Value)>()(item)
                    == entry_key()(tree) by {}
                lemma_stable_sort_related(
                    unsorted,
                    carried_key::<(String, Value)>(),
                    given,
                    entry_key(),
                    entry_stands_for(),
                );
            }
            let ordered = values_in_key_order(by_bytes);
            proof {
                assert forall|i: int| 0 <= i < ordered.len() implies (#[trigger] ordered@[i]).0@
                    == ordered_trees[i].0 && ordered@[i].1@ == ordered_trees[i].1 by {
                    assert(entry_stands_for()(
                        stable_sort(unsorted, carried_key::<(String, Value)>())[i],
                        ordered_trees[i],
                    ));
                }
            }
            let mut keyed: Vec<(Vec<u8>, Value)> = Vec::new();
            for entry in it: ordered
                invariant
                    it.seq() == ordered@,
                    ordered.len() == ordered_trees.len(),
                    trees == pairs_of(ordered_trees),
                    forall|i: int|
                        0 <= i < ordered.len() ==> (#[trigger] ordered@[i]).0@
                            == ordered_trees[i].0 && ordered@[i].1@ == ordered_trees[i].1,
                    keyed.len() == it.index(),
                    forall|i: int|
                        0 <= i < keyed.len() ==> #[trigger] carries()(keyed@[i], trees[i]),
            {
                let ghost tree = pair_of((entry.0@, entry.1@));
                let ghost entry_tree = entry.1@;
                proof {
                    assert(ordered@[it.index() as int] == entry);
                    assert(tree == trees[it.index() as int]);
                }
                let name = Value::String(entry.0);
                assert(name@ == Tree::String(tree->Array_0[0]->String_0));
                let mut both: Vec<Value> = Vec::new();
                both.push(name);
                both.push(entry.1);
                proof {
                    assert(both@[0]@ == tree->Array_0[0]);
                    assert(both@[1]@ == entry_tree);
                    assert(items_view(both) =~= tree->Array_0);
                }
                let pair = Value::Array(both);
                let key = string_to_ascii(normalise_value(&pair));
                keyed.push((key, pair));
            }
            *value = Value::Array(sorted_values(keyed, Ghost(trees)));
        },
        other => {
            *value = other;
        },
    }
}

/// One level of `data` in canonical order: the children of an array or of an
/// object, sorted by their ordering bytes, as an array.
pub fn sorter(data: Value) -> (sorted: Value)
    ensures
        sorted@ == canonical(data@),
        well_formed(data@) ==> well_formed(sorted@),
{
    let mut data = data;
    sort_value(&mut data);
    data
}

/// The children of `value` in canonical order, as new values: the items of
/// an array, the pairs of an object, nothing for any other value. `value`
/// itself is left as it is.
pub fn canonicalize(value: &Value) -> (sorted: Vec<Value>)
    ensures
        items_view(sorted) == canonical_children(value@),
{
    match sorter(value.clone()) {
        Value::Array(items) => items,
        _ => {
            let nothing: Vec<Value> = Vec::new();
            proof {
                assert(children(value@) =~= Seq::<Tree>::empty());
                assert(items_view(nothing) =~= canonical_children(value@));
            }
            nothing
        },
    }
}

} // verus!
