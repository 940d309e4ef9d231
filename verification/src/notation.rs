//! The notation of a value: its tagged text, written with the children of
//! every array and object in canonical order.

use crate::merge_sort::{carried_key, sort_by_key, values_in_key_order};
use crate::order::{
    in_key_order, key_decides, leading, lemma_in_key_order_of_distinct, lemma_ascending_unique, lemma_map_keeps_permutation,
    lemma_stable_sort_ascending, lemma_stable_sort_permutes, lemma_stable_sort_related,
    stable_sort,
};
use crate::sorter::{
    ascii_bytes, by_ordering_key, canonical_children, key_bytes, normalise_value, pair_of,
    pairs_of, string_to_ascii,
};
use crate::text::{item_texts, json_text, keyed_entry_texts, pair_text};
use crate::value::{
    all_values_well_formed, all_well_formed, by_key, distinct_keys, entries_view, entry_key,
    finds, found_among, items_view, same_content, same_entries, same_entry, same_items,
    well_formed, Tree, Value,
};
use vstd::prelude::*;
use vstd::string::*;
use vstd::utf8::encode_utf8;

verus! {

/// A part of a composite's notation: the bytes that it is ordered by, and
/// its text.
pub type Part = (Seq<u8>, Seq<char>);

/// The bytes of a part as the key of a sort.
pub open spec fn by_bytes() -> spec_fn(Part) -> Seq<u8> {
    |part: Part| part.0
}

/// The texts of the parts, in ascending order of the parts' bytes (parts with
/// equal bytes in the order given), one after the other.
pub open spec fn arranged(parts: Seq<Part>) -> Seq<char> {
    stable_sort(parts, by_bytes()).map_values(|part: Part| part.1).flatten()
}

/// The notation of the pair that stands for an entry of an object, from the
/// entry's key and from the ordering bytes and the notation of its value.
///
/// The pair is an array like any other: the key comes first only if the
/// value's bytes do not come strictly before the key's.
pub open spec fn pair_notation(key: Seq<char>, value_bytes: Seq<u8>, value_text: Seq<char>) -> Seq<
    char,
> {
    arranged(seq![(ascii_bytes(key), key.push('S')), (value_bytes, value_text)]).push('A')
}

/// The parts of an array's notation: one for each item, in the array's order.
pub open spec fn item_parts(items: Seq<Tree>) -> Seq<Part>
    decreases items,
{
    Seq::new(
        items.len(),
        |i: int|
            if 0 <= i < items.len() {
                (key_bytes(items[i]), notation_of(items[i]))
            } else {
                (Seq::empty(), Seq::empty())
            },
    )
}

/// The key bytes of each entry of an object and the part that the entry
/// contributes to the object's notation, in the order given: the part is
/// made of the bytes and the notation of the entry's pair.
pub open spec fn keyed_entry_parts(entries: Seq<(Seq<char>, Tree)>) -> Seq<(Seq<u8>, Part)>
    decreases entries,
{
    Seq::new(
        entries.len(),
        |i: int|
            if 0 <= i < entries.len() {
                (
                    encode_utf8(entries[i].0),
                    (
                        key_bytes(pair_of(entries[i])),
                        pair_notation(
                            entries[i].0,
                            key_bytes(entries[i].1),
                            notation_of(entries[i].1),
                        ),
                    ),
                )
            } else {
                (Seq::empty(), (Seq::empty(), Seq::empty()))
            },
    )
}

/// The notation of a tree: a text that tells the kinds of the nodes apart by
/// a tag and in which the children of every node come in canonical order.
///
/// Null is `_`. A boolean is `true` or `false` and `B`, a number its literal
/// and `N`, a string its content and `S`. An array is the notations of its
/// items in canonical order and `A`; an object is the notations of its pairs
/// in canonical order and `H`. The pairs of an object are taken in ascending
/// order of the keys before they are put in canonical order, so that the
/// order in which the entries are given does not show.
pub open spec fn notation_of(tree: Tree) -> Seq<char>
    decreases tree,
{
    match tree {
        Tree::Null => seq!['_'],
        Tree::Bool(b) => if b {
            seq!['t', 'r', 'u', 'e', 'B']
        } else {
            seq!['f', 'a', 'l', 's', 'e', 'B']
        },
        Tree::Number(text) => text.push('N'),
        Tree::String(text) => text.push('S'),
        Tree::Array(items) => arranged(item_parts(items)).push('A'),
        Tree::Object(entries) => arranged(in_key_order(keyed_entry_parts(entries))).push('H'),
    }
}

/// The notations of the given trees, in the order given.
pub open spec fn notations(trees: Seq<Tree>) -> Seq<Seq<char>> {
    trees.map_values(|tree: Tree| notation_of(tree))
}

/// The part that a tree contributes to the notation of its parent.
pub open spec fn part_of() -> spec_fn(Tree) -> Part {
    |tree: Tree| (key_bytes(tree), notation_of(tree))
}

/// The part is the part of the tree.
spec fn is_part_of() -> spec_fn(Part, Tree) -> bool {
    |part: Part, tree: Tree| part == part_of()(tree)
}

/// The parts of the given trees, arranged, are the notations of the trees in
/// canonical order, one after the other.
proof fn lemma_arranged_parts(trees: Seq<Tree>)
    ensures
        arranged(trees.map_values(part_of())) == notations(
            stable_sort(trees, by_ordering_key()),
        ).flatten(),
{
    let parts = trees.map_values(part_of());
    lemma_stable_sort_related(parts, by_bytes(), trees, by_ordering_key(), is_part_of());
    let sorted_parts = stable_sort(parts, by_bytes());
    let sorted_trees = stable_sort(trees, by_ordering_key());
    assert forall|i: int| 0 <= i < sorted_parts.len() implies sorted_parts[i].1 == notation_of(
        sorted_trees[i],
    ) by {
        assert(is_part_of()(sorted_parts[i], sorted_trees[i]));
    }
    assert(sorted_parts.map_values(|part: Part| part.1) =~= notations(sorted_trees));
}

/// The notation of an array is the notations of its items in canonical
/// order, one after the other, and the tag `A`.
pub proof fn lemma_array_notation(items: Seq<Tree>)
    ensures
        notation_of(Tree::Array(items)) == notations(
            canonical_children(Tree::Array(items)),
        ).flatten().push('A'),
{
    assert(item_parts(items) =~= items.map_values(part_of()));
    lemma_arranged_parts(items);
}

/// The pair that stands for an entry of an object is notated as the array
/// that it is.
pub proof fn lemma_pair_notation(entry: (Seq<char>, Tree))
    ensures
        notation_of(pair_of(entry)) == pair_notation(
            entry.0,
            key_bytes(entry.1),
            notation_of(entry.1),
        ),
{
    let both = seq![Tree::String(entry.0), entry.1];
    assert(item_parts(both) =~= seq![
        (ascii_bytes(entry.0), entry.0.push('S')),
        (key_bytes(entry.1), notation_of(entry.1)),
    ]);
}

/// How a keyed part stands for an entry.
spec fn is_part_of_entry() -> spec_fn((Seq<u8>, Part), (Seq<char>, Tree)) -> bool {
    |keyed: (Seq<u8>, Part), entry: (Seq<char>, Tree)|
        keyed.0 == encode_utf8(entry.0) && keyed.1 == part_of()(pair_of(entry))
}

/// The parts of the entries, taken in ascending order of the keys, are the
/// parts of the object's children.
proof fn lemma_entry_parts(entries: Seq<(Seq<char>, Tree)>)
    ensures
        in_key_order(keyed_entry_parts(entries)) == pairs_of(by_key(entries)).map_values(
            part_of(),
        ),
{
    let keyed = keyed_entry_parts(entries);
    assert forall|keyed: (Seq<u8>, Part), entry: (Seq<char>, Tree)| #[trigger]
        is_part_of_entry()(keyed, entry) implies leading::<Part>()(keyed) == entry_key()(
        entry,
    ) by {}
    assert forall|i: int| 0 <= i < keyed.len() implies #[trigger] is_part_of_entry()(
        keyed[i],
        entries[i],
    ) by {
        lemma_pair_notation(entries[i]);
    }
    lemma_stable_sort_related(keyed, leading(), entries, entry_key(), is_part_of_entry());
    let sorted = stable_sort(keyed, leading());
    let pairs = pairs_of(by_key(entries));
    assert forall|i: int| 0 <= i < sorted.len() implies in_key_order(keyed)[i] == part_of()(
        pairs[i],
    ) by {
        assert(is_part_of_entry()(sorted[i], by_key(entries)[i]));
    }
    assert(in_key_order(keyed) =~= pairs.map_values(part_of()));
}

/// The notation of an object is the notations of its pairs in canonical
/// order, one after the other, and the tag `H`.
pub proof fn lemma_object_notation(entries: Seq<(Seq<char>, Tree)>)
    ensures
        notation_of(Tree::Object(entries)) == notations(
            canonical_children(Tree::Object(entries)),
        ).flatten().push('H'),
{
    lemma_entry_parts(entries);
    lemma_arranged_parts(pairs_of(by_key(entries)));
}

/// Parts that hold the same parts equally often, and among which the bytes
/// decide the text, are arranged to the same text.
proof fn lemma_arranged_ignores_order(left: Seq<Part>, right: Seq<Part>)
    requires
        left.to_multiset() == right.to_multiset(),
        key_decides(left, by_bytes()),
    ensures
        arranged(left) == arranged(right),
{
    let sorted_left = stable_sort(left, by_bytes());
    let sorted_right = stable_sort(right, by_bytes());
    lemma_stable_sort_permutes(left, by_bytes());
    lemma_stable_sort_permutes(right, by_bytes());
    lemma_stable_sort_ascending(left, by_bytes());
    lemma_stable_sort_ascending(right, by_bytes());
    assert forall|a: int, b: int|
        0 <= a < sorted_left.len() && 0 <= b < sorted_left.len() && by_bytes()(
            #[trigger] sorted_left[a],
        ) == by_bytes()(#[trigger] sorted_left[b]) implies sorted_left[a] == sorted_left[b] by {
        assert(sorted_left.contains(sorted_left[a]));
        assert(sorted_left.contains(sorted_left[b]));
        vstd::seq_lib::to_multiset_contains(sorted_left, sorted_left[a]);
        vstd::seq_lib::to_multiset_contains(sorted_left, sorted_left[b]);
        vstd::seq_lib::to_multiset_contains(left, sorted_left[a]);
        vstd::seq_lib::to_multiset_contains(left, sorted_left[b]);
        let i = choose|i: int| 0 <= i < left.len() && left[i] == sorted_left[a];
        let j = choose|j: int| 0 <= j < left.len() && left[j] == sorted_left[b];
        assert(left[i] == left[j]);
    }
    lemma_ascending_unique(sorted_left, sorted_right, by_bytes());
}

/// Trees with the same ordering bytes have the same notation.
///
/// This leaves out the sequences in which two trees tie in the order and
/// are told apart by the notation, such as the number `1` and the string
/// `1`: the order of such a pair in the input shows in the output.
pub open spec fn ties_agree(trees: Seq<Tree>) -> bool {
    forall|i: int, j: int|
        #![trigger trees[i], trees[j]]
        0 <= i < trees.len() && 0 <= j < trees.len() && key_bytes(trees[i]) == key_bytes(
            trees[j],
        ) ==> notation_of(trees[i]) == notation_of(trees[j])
}

/// The notation of an array does not depend on the order of its items,
/// provided that items which tie in the order have one notation.
pub proof fn lemma_array_notation_ignores_order(items: Seq<Tree>, permuted: Seq<Tree>)
    requires
        permuted.to_multiset() == items.to_multiset(),
        ties_agree(items),
    ensures
        notation_of(Tree::Array(permuted)) == notation_of(Tree::Array(items)),
{
    assert(item_parts(items) =~= items.map_values(part_of()));
    assert(item_parts(permuted) =~= permuted.map_values(part_of()));
    lemma_map_keeps_permutation(items, permuted, part_of());
    lemma_arranged_ignores_order(item_parts(items), item_parts(permuted));
}

/// Entries with distinct keys have distinct key bytes.
proof fn lemma_distinct_key_bytes(entries: Seq<(Seq<char>, Tree)>)
    requires
        distinct_keys(entries),
    ensures
        forall|i: int, j: int|
            #![trigger entries[i], entries[j]]
            0 <= i < j < entries.len() ==> encode_utf8(entries[i].0) != encode_utf8(
                entries[j].0,
            ),
{
    assert forall|i: int, j: int|
        #![trigger entries[i], entries[j]]
        0 <= i < j < entries.len() implies encode_utf8(entries[i].0) != encode_utf8(
        entries[j].0,
    ) by {
        vstd::utf8::encode_utf8_decode_utf8(entries[i].0);
        vstd::utf8::encode_utf8_decode_utf8(entries[j].0);
    }
}

/// Entries that are the same entry, with values that have one minified text,
/// one notation and the same ordering bytes, have one keyed text and one
/// keyed part.
proof fn lemma_same_entry_same_parts(
    entries: Seq<(Seq<char>, Tree)>,
    i: int,
    others: Seq<(Seq<char>, Tree)>,
    j: int,
)
    requires
        0 <= i < entries.len(),
        0 <= j < others.len(),
        entries[i].0 == others[j].0,
        json_text(entries[i].1) == json_text(others[j].1),
        key_bytes(entries[i].1) == key_bytes(others[j].1),
        notation_of(entries[i].1) == notation_of(others[j].1),
    ensures
        keyed_entry_texts(entries)[i] == keyed_entry_texts(others)[j],
        keyed_entry_parts(entries)[i] == keyed_entry_parts(others)[j],
{
    let left = seq![Tree::String(entries[i].0), entries[i].1];
    let right = seq![Tree::String(others[j].0), others[j].1];
    assert(item_texts(left) =~= item_texts(right));
}

/// The entry of `others` that is the same entry as the one at `i`.
spec fn partner_among(
    entries: Seq<(Seq<char>, Tree)>,
    others: Seq<(Seq<char>, Tree)>,
) -> spec_fn(int) -> int {
    |i: int|
        choose|j: int| 0 <= j < others.len() && same_entry(entries[i], #[trigger] others[j])
}

/// The entry of `entries` that is the same entry as the one of `others` at
/// `j`.
spec fn partner_in(
    entries: Seq<(Seq<char>, Tree)>,
    others: Seq<(Seq<char>, Tree)>,
) -> spec_fn(int) -> int {
    |j: int|
        choose|i: int| 0 <= i < entries.len() && same_entry(#[trigger] entries[i], others[j])
}

/// Arrays of trees with the same content have the same texts and parts.
proof fn lemma_items_ignore_entry_order(items: Seq<Tree>, others: Seq<Tree>)
    requires
        all_well_formed(items),
        all_well_formed(others),
        same_items(items, others),
    ensures
        item_texts(others) == item_texts(items),
        item_parts(others) == item_parts(items),
    decreases items, 0nat,
{
    assert forall|i: int| 0 <= i < items.len() implies json_text(others[i]) == json_text(
        items[i],
    ) && key_bytes(others[i]) == key_bytes(items[i]) && notation_of(others[i]) == notation_of(
        items[i],
    ) by {
        assert(same_content(items[i], others[i]));
        assert(well_formed(items[i]));
        assert(well_formed(others[i]));
        lemma_entry_order_is_ignored(items[i], others[i]);
    }
    assert(item_texts(others) =~= item_texts(items));
    assert(item_parts(others) =~= item_parts(items));
}

/// Every entry has a partner in the other object, with the same keyed text
/// and the same keyed part.
proof fn lemma_partners(entries: Seq<(Seq<char>, Tree)>, others: Seq<(Seq<char>, Tree)>)
    requires
        all_values_well_formed(entries),
        all_values_well_formed(others),
        same_entries(entries, others),
    ensures
        forall|i: int|
            0 <= i < entries.len() ==> 0 <= #[trigger] partner_among(entries, others)(i)
                < others.len() && keyed_entry_texts(others)[partner_among(entries, others)(i)]
                == keyed_entry_texts(entries)[i] && keyed_entry_parts(others)[partner_among(
                entries,
                others,
            )(i)] == keyed_entry_parts(entries)[i],
        forall|j: int|
            0 <= j < others.len() ==> 0 <= #[trigger] partner_in(entries, others)(j)
                < entries.len() && keyed_entry_texts(entries)[partner_in(entries, others)(j)]
                == keyed_entry_texts(others)[j] && keyed_entry_parts(entries)[partner_in(
                entries,
                others,
            )(j)] == keyed_entry_parts(others)[j],
    decreases entries, 0nat,
{
    assert forall|i: int| 0 <= i < entries.len() implies 0 <= #[trigger] partner_among(
        entries,
        others,
    )(i) < others.len() && keyed_entry_texts(others)[partner_among(entries, others)(i)]
        == keyed_entry_texts(entries)[i] && keyed_entry_parts(others)[partner_among(
        entries,
        others,
    )(i)] == keyed_entry_parts(entries)[i] by {
        assert(found_among(entries[i], others));
        let j = partner_among(entries, others)(i);
        assert(well_formed(entries[i].1));
        assert(well_formed(others[j].1));
        lemma_entry_order_is_ignored(entries[i].1, others[j].1);
        lemma_same_entry_same_parts(entries, i, others, j);
    }
    assert forall|j: int| 0 <= j < others.len() implies 0 <= #[trigger] partner_in(
        entries,
        others,
    )(j) < entries.len() && keyed_entry_texts(entries)[partner_in(entries, others)(j)]
        == keyed_entry_texts(others)[j] && keyed_entry_parts(entries)[partner_in(
        entries,
        others,
    )(j)] == keyed_entry_parts(others)[j] by {
        assert(finds(entries, others[j]));
        let i = partner_in(entries, others)(j);
        assert(well_formed(entries[i].1));
        assert(well_formed(others[j].1));
        lemma_entry_order_is_ignored(entries[i].1, others[j].1);
        lemma_same_entry_same_parts(entries, i, others, j);
    }
}

/// Objects with distinct keys and the same entries have the same texts and
/// parts in key order.
proof fn lemma_entries_ignore_entry_order(
    entries: Seq<(Seq<char>, Tree)>,
    others: Seq<(Seq<char>, Tree)>,
)
    requires
        distinct_keys(entries),
        distinct_keys(others),
        all_values_well_formed(entries),
        all_values_well_formed(others),
        same_entries(entries, others),
    ensures
        in_key_order(keyed_entry_texts(others)) == in_key_order(keyed_entry_texts(entries)),
        in_key_order(keyed_entry_parts(others)) == in_key_order(keyed_entry_parts(entries)),
    decreases entries, 1nat,
{
    lemma_partners(entries, others);
    lemma_distinct_key_bytes(entries);
    lemma_distinct_key_bytes(others);
    lemma_in_key_order_of_distinct(
        keyed_entry_texts(entries),
        keyed_entry_texts(others),
        partner_among(entries, others),
        partner_in(entries, others),
    );
    lemma_in_key_order_of_distinct(
        keyed_entry_parts(entries),
        keyed_entry_parts(others),
        partner_among(entries, others),
        partner_in(entries, others),
    );
}

/// Trees that differ only in the order in which the entries of their
/// objects are given, at any depth, have one minified text, the same
/// ordering bytes and one notation, provided that the keys of every object
/// are distinct.
pub proof fn lemma_entry_order_is_ignored(tree: Tree, other: Tree)
    requires
        well_formed(tree),
        well_formed(other),
        same_content(tree, other),
    ensures
        json_text(other) == json_text(tree),
        key_bytes(other) == key_bytes(tree),
        notation_of(other) == notation_of(tree),
    decreases tree, 0nat,
{
    match tree {
        Tree::Array(items) => {
            lemma_items_ignore_entry_order(items, other->Array_0);
        },
        Tree::Object(entries) => {
            lemma_entries_ignore_entry_order(entries, other->Object_0);
        },
        _ => {},
    }
}

/// Every tree has the same content as itself.
pub proof fn lemma_same_content_reflexive(tree: Tree)
    ensures
        same_content(tree, tree),
    decreases tree,
{
    match tree {
        Tree::Array(items) => {
            assert forall|i: int| 0 <= i < items.len() implies same_content(
                #[trigger] items[i],
                items[i],
            ) by {
                lemma_same_content_reflexive(items[i]);
            }
        },
        Tree::Object(entries) => {
            assert forall|i: int| 0 <= i < entries.len() implies same_entry(
                #[trigger] entries[i],
                entries[i],
            ) by {
                lemma_same_content_reflexive(entries[i].1);
            }
            assert forall|i: int| 0 <= i < entries.len() implies found_among(
                #[trigger] entries[i],
                entries,
            ) by {
                assert(same_entry(entries[i], entries[i]));
            }
            assert forall|j: int| 0 <= j < entries.len() implies finds(
                entries,
                #[trigger] entries[j],
            ) by {
                assert(same_entry(entries[j], entries[j]));
            }
        },
        _ => {},
    }
}

/// An object with distinct keys whose entries are given in another order is
/// well formed as before and has the same content.
pub proof fn lemma_permuted_entries_have_same_content(
    entries: Seq<(Seq<char>, Tree)>,
    permuted: Seq<(Seq<char>, Tree)>,
)
    requires
        permuted.to_multiset() == entries.to_multiset(),
        well_formed(Tree::Object(entries)),
    ensures
        well_formed(Tree::Object(permuted)),
        same_content(Tree::Object(entries), Tree::Object(permuted)),
{
    assert forall|i: int| 0 <= i < entries.len() implies permuted.contains(
        #[trigger] entries[i],
    ) by {
        assert(entries.contains(entries[i]));
        vstd::seq_lib::to_multiset_contains(entries, entries[i]);
        vstd::seq_lib::to_multiset_contains(permuted, entries[i]);
    }
    assert forall|j: int| 0 <= j < permuted.len() implies entries.contains(
        #[trigger] permuted[j],
    ) by {
        assert(permuted.contains(permuted[j]));
        vstd::seq_lib::to_multiset_contains(entries, permuted[j]);
        vstd::seq_lib::to_multiset_contains(permuted, permuted[j]);
    }
    assert(entries.no_duplicates()) by {
        assert forall|i: int, j: int|
            0 <= i < entries.len() && 0 <= j < entries.len() && i != j implies entries[i]
            != entries[j] by {
            if i < j {
                assert(entries[i].0 != entries[j].0);
            } else {
                assert(entries[j].0 != entries[i].0);
            }
        }
    }
    entries.lemma_multiset_has_no_duplicates();
    permuted.lemma_multiset_has_no_duplicates_conv();
    assert forall|i: int, j: int|
        #![trigger permuted[i], permuted[j]]
        0 <= i < j < permuted.len() implies permuted[i].0 != permuted[j].0 by {
        assert(entries.contains(permuted[i]));
        assert(entries.contains(permuted[j]));
        let a = choose|a: int| 0 <= a < entries.len() && entries[a] == permuted[i];
        let b = choose|b: int| 0 <= b < entries.len() && entries[b] == permuted[j];
        assert(permuted[i] != permuted[j]);
        if a < b {
            assert(entries[a].0 != entries[b].0);
        } else {
            assert(entries[b].0 != entries[a].0);
        }
    }
    assert forall|j: int| 0 <= j < permuted.len() implies well_formed(
        (#[trigger] permuted[j]).1,
    ) by {
        assert(entries.contains(permuted[j]));
        let a = choose|a: int| 0 <= a < entries.len() && entries[a] == permuted[j];
        assert(well_formed(entries[a].1));
    }
    assert forall|i: int| 0 <= i < entries.len() implies found_among(
        #[trigger] entries[i],
        permuted,
    ) by {
        assert(permuted.contains(entries[i]));
        let j = choose|j: int| 0 <= j < permuted.len() && permuted[j] == entries[i];
        lemma_same_content_reflexive(entries[i].1);
        assert(same_entry(entries[i], permuted[j]));
    }
    assert forall|j: int| 0 <= j < permuted.len() implies finds(
        entries,
        #[trigger] permuted[j],
    ) by {
        assert(entries.contains(permuted[j]));
        let i = choose|i: int| 0 <= i < entries.len() && entries[i] == permuted[j];
        lemma_same_content_reflexive(entries[i].1);
        assert(same_entry(entries[i], permuted[j]));
    }
}

/// The notation of an object with distinct keys does not depend on the
/// order in which its entries are given.
pub proof fn lemma_object_notation_ignores_order(
    entries: Seq<(Seq<char>, Tree)>,
    permuted: Seq<(Seq<char>, Tree)>,
)
    requires
        permuted.to_multiset() == entries.to_multiset(),
        well_formed(Tree::Object(entries)),
    ensures
        notation_of(Tree::Object(permuted)) == notation_of(Tree::Object(entries)),
{
    lemma_permuted_entries_have_same_content(entries, permuted);
    lemma_entry_order_is_ignored(Tree::Object(entries), Tree::Object(permuted));
}

/// The tag that ends the notation of a tree and tells its kind.
pub open spec fn tag(tree: Tree) -> char {
    match tree {
        Tree::Null => '_',
        Tree::Bool(_) => 'B',
        Tree::Number(_) => 'N',
        Tree::String(_) => 'S',
        Tree::Array(_) => 'A',
        Tree::Object(_) => 'H',
    }
}

/// Every notation ends with the tag of the tree's kind.
pub proof fn lemma_notation_ends_with_tag(tree: Tree)
    ensures
        notation_of(tree).len() > 0,
        notation_of(tree).last() == tag(tree),
{
}

/// Trees of different kinds have different notations.
pub proof fn lemma_notation_tells_kinds_apart(a: Tree, b: Tree)
    requires
        tag(a) != tag(b),
    ensures
        notation_of(a) != notation_of(b),
{
    lemma_notation_ends_with_tag(a);
    lemma_notation_ends_with_tag(b);
}

/// A tree without children: null, a boolean, a number or a string.
pub open spec fn is_scalar(tree: Tree) -> bool {
    !(tree is Array) && !(tree is Object)
}

/// Different trees without children have different notations.
pub proof fn lemma_notation_tells_scalars_apart(a: Tree, b: Tree)
    requires
        is_scalar(a),
        is_scalar(b),
        a != b,
    ensures
        notation_of(a) != notation_of(b),
{
    if tag(a) != tag(b) {
        lemma_notation_tells_kinds_apart(a, b);
    } else {
        match (a, b) {
            (Tree::Number(s), Tree::Number(t)) => {
                assert(s.push('N').drop_last() =~= s);
                assert(t.push('N').drop_last() =~= t);
            },
            (Tree::String(s), Tree::String(t)) => {
                assert(s.push('S').drop_last() =~= s);
                assert(t.push('S').drop_last() =~= t);
            },
            (Tree::Bool(x), Tree::Bool(y)) => {
                assert(notation_of(a).len() != notation_of(b).len());
            },
            _ => {},
        }
    }
}

/// A value that has a notation.
pub trait Notation {
    /// The notation of the value.
    spec fn notation(&self) -> Seq<char>;

    /// Writes the notation of the value.
    fn notate(&self) -> (text: String)
        ensures
            text@ == self.notation(),
    ;
}

impl Notation for String {
    open spec fn notation(&self) -> Seq<char> {
        self@.push('S')
    }

    fn notate(&self) -> (text: String) {
        let mut text = self.clone();
        text.push('S');
        text
    }
}

impl Notation for bool {
    open spec fn notation(&self) -> Seq<char> {
        notation_of(Tree::Bool(*self))
    }

    fn notate(&self) -> (text: String) {
        proof {
            reveal_strlit("trueB");
            reveal_strlit("falseB");
        }
        let text = if *self {
            "trueB".to_owned()
        } else {
            "falseB".to_owned()
        };
        assert(text@ =~= notation_of(Tree::Bool(*self)));
        text
    }
}

impl Notation for Value {
    open spec fn notation(&self) -> Seq<char> {
        notation_of(self@)
    }

    fn notate(&self) -> (text: String) {
        notate_value(self)
    }
}

/// What the executable parts stand for.
spec fn parts_view(parts: Seq<(Vec<u8>, String)>) -> Seq<Part> {
    Seq::new(parts.len(), |i: int| (parts[i].0@, parts[i].1@))
}

/// How an executable part stands for a part.
spec fn stands_for() -> spec_fn((Vec<u8>, String), Part) -> bool {
    |item: (Vec<u8>, String), part: Part| item.0@ == part.0 && item.1@ == part.1
}

/// Writes the texts of the parts in ascending order of their bytes, then the
/// tag.
fn arrange(parts: Vec<(Vec<u8>, String)>, tag: char) -> (text: String)
    ensures
        text@ == arranged(parts_view(parts@)).push(tag),
{
    let ghost unsorted = parts@;
    let ghost target = stable_sort(parts_view(unsorted), by_bytes());
    let ghost texts = target.map_values(|part: Part| part.1);
    proof {
        lemma_stable_sort_related(
            unsorted,
            carried_key::<String>(),
            parts_view(unsorted),
            by_bytes(),
            stands_for(),
        );
    }
    let ordered = sort_by_key(parts);
    let mut text = String::new();
    let mut i: usize = 0;
    proof {
        assert(texts.take(0) =~= Seq::<Seq<char>>::empty());
    }
    while i < ordered.len()
        invariant
            i <= ordered.len(),
            ordered@ == stable_sort(unsorted, carried_key::<String>()),
            target == stable_sort(parts_view(unsorted), by_bytes()),
            texts == target.map_values(|part: Part| part.1),
            ordered.len() == target.len(),
            forall|j: int| 0 <= j < target.len() ==> #[trigger] stands_for()(ordered@[j], target[j]),
            text@ == texts.take(i as int).flatten(),
        decreases ordered.len() - i,
    {
        text.append(ordered[i].1.as_str());
        proof {
            assert(stands_for()(ordered@[i as int], target[i as int]));
            assert(texts.take(i + 1) =~= texts.take(i as int).push(texts[i as int]));
            texts.take(i as int).lemma_flatten_push(texts[i as int]);
        }
        i += 1;
    }
    proof {
        assert(texts.take(texts.len() as int) =~= texts);
    }
    text.push(tag);
    text
}

/// Writes the notation of an array from its items.
fn notate_items(items: &Vec<Value>) -> (text: String)
    ensures
        text@ == arranged(item_parts(items_view(*items))).push('A'),
    decreases items,
{
    let ghost target = item_parts(items_view(*items));
    let mut parts: Vec<(Vec<u8>, String)> = Vec::new();
    let mut i: usize = 0;
    while i < items.len()
        invariant
            i <= items.len(),
            target == item_parts(items_view(*items)),
            parts.len() == i,
            forall|j: int|
                0 <= j < i ==> (#[trigger] parts@[j]).0@ == target[j].0 && parts@[j].1@
                    == target[j].1,
        decreases items.len() - i,
    {
        let bytes = string_to_ascii(normalise_value(&items[i]));
        let text = notate_value(&items[i]);
        parts.push((bytes, text));
        i += 1;
    }
    proof {
        assert(parts_view(parts@) =~= target);
    }
    arrange(parts, 'A')
}

/// Writes the notation of the pair that stands for an entry.
fn notate_pair(key: &String, value_bytes: Vec<u8>, value_text: String) -> (text: String)
    ensures
        text@ == pair_notation(key@, value_bytes@, value_text@),
{
    let mut parts: Vec<(Vec<u8>, String)> = Vec::new();
    parts.push((string_to_ascii(key.clone()), key.notate()));
    parts.push((value_bytes, value_text));
    proof {
        assert(parts_view(parts@) =~= seq![
            (ascii_bytes(key@), key@.push('S')),
            (value_bytes@, value_text@),
        ]);
    }
    arrange(parts, 'A')
}

/// How an executable keyed part stands for a keyed part.
spec fn keyed_stands_for() -> spec_fn((Vec<u8>, (Vec<u8>, String)), (Seq<u8>, Part)) -> bool {
    |item: (Vec<u8>, (Vec<u8>, String)), keyed: (Seq<u8>, Part)|
        item.0@ == keyed.0 && item.1.0@ == keyed.1.0 && item.1.1@ == keyed.1.1
}

/// Writes the notation of an object from its entries.
fn notate_entries(entries: &Vec<(String, Value)>) -> (text: String)
    ensures
        text@ == notation_of(Tree::Object(entries_view(*entries))),
    decreases entries,
{
    let ghost keyed = keyed_entry_parts(entries_view(*entries));
    let ghost target = in_key_order(keyed);
    let mut items: Vec<(Vec<u8>, (Vec<u8>, String))> = Vec::new();
    let mut i: usize = 0;
    while i < entries.len()
        invariant
            i <= entries.len(),
            keyed == keyed_entry_parts(entries_view(*entries)),
            items.len() == i,
            forall|j: int|
                0 <= j < i ==> (#[trigger] items@[j]).0@ == keyed[j].0 && items@[j].1.0@
                    == keyed[j].1.0 && items@[j].1.1@ == keyed[j].1.1,
        decreases entries.len() - i,
    {
        let bytes = string_to_ascii(pair_text(&entries[i].0, &entries[i].1));
        let value_bytes = string_to_ascii(normalise_value(&entries[i].1));
        let text = notate_pair(&entries[i].0, value_bytes, notate_value(&entries[i].1));
        items.push((entries[i].0.as_str().as_bytes_vec(), (bytes, text)));
        i += 1;
    }
    let ghost unsorted = items@;
    proof {
        assert forall|j: int| 0 <= j < unsorted.len() implies #[trigger] keyed_stands_for()(
            unsorted[j],
            keyed[j],
        ) by {}
        lemma_stable_sort_related(
            unsorted,
            carried_key::<(Vec<u8>, String)>(),
            keyed,
            leading(),
            keyed_stands_for(),
        );
    }
    let parts = values_in_key_order(items);
    proof {
        assert forall|j: int| 0 <= j < parts.len() implies parts_view(parts@)[j] == target[j] by {
            assert(keyed_stands_for()(
                stable_sort(unsorted, carried_key::<(Vec<u8>, String)>())[j],
                stable_sort(keyed, leading())[j],
            ));
        }
        assert(parts_view(parts@) =~= target);
    }
    arrange(parts, 'H')
}

/// Writes the notation of a value.
fn notate_value(value: &Value) -> (text: String)
    ensures
        text@ == notation_of(value@),
    decreases value,
{
    match value {
        Value::Null => {
            let mut text = String::new();
            text.push('_');
            assert(text@ =~= notation_of(value@));
            text
        },
        Value::Bool(b) => b.notate(),
        Value::Number(literal) => {
            let mut text = literal.clone();
            text.push('N');
            text
        },
        Value::String(content) => content.notate(),
        Value::Array(items) => notate_items(items),
        Value::Object(entries) => notate_entries(entries),
    }
}

} // verus!
