//! The values of a parsed document and the trees that they stand for.

use crate::order::stable_sort;
use vstd::prelude::*;
use vstd::utf8::encode_utf8;

verus! {

/// A node of a parsed document.
///
/// A number keeps the text of its literal. An object keeps its entries in the
/// order in which they were given; that order shows in `==`, which compares
/// objects entry by entry, and in nothing that this library computes from a
/// value whose objects have distinct keys.
#[derive(Debug, PartialEq, Eq)]
pub enum Value {
    Null,
    Bool(bool),
    Number(String),
    String(String),
    Array(Vec<Value>),
    Object(Vec<(String, Value)>),
}

/// The mathematical tree that a [`Value`] stands for.
pub enum Tree {
    Null,
    Bool(bool),
    Number(Seq<char>),
    String(Seq<char>),
    Array(Seq<Tree>),
    Object(Seq<(Seq<char>, Tree)>),
}

/// The trees of the items of an array, in the array's order.
pub open spec fn items_view(items: Vec<Value>) -> Seq<Tree>
    decreases items,
{
    Seq::new(
        items.len() as nat,
        |i: int|
            if 0 <= i < items.len() {
                items[i].view()
            } else {
                Tree::Null
            },
    )
}

/// The keys and the trees of the entries of an object, in the object's order.
pub open spec fn entries_view(entries: Vec<(String, Value)>) -> Seq<(Seq<char>, Tree)>
    decreases entries,
{
    Seq::new(
        entries.len() as nat,
        |i: int|
            if 0 <= i < entries.len() {
                (entries[i].0@, entries[i].1.view())
            } else {
                (Seq::empty(), Tree::Null)
            },
    )
}

impl View for Value {
    type V = Tree;

    open spec fn view(&self) -> Tree
        decreases self,
    {
        match self {
            Value::Null => Tree::Null,
            Value::Bool(b) => Tree::Bool(*b),
            Value::Number(text) => Tree::Number(text@),
            Value::String(text) => Tree::String(text@),
            Value::Array(items) => Tree::Array(items_view(*items)),
            Value::Object(entries) => Tree::Object(entries_view(*entries)),
        }
    }
}

/// The bytes by which the entries of an object are put in order: the UTF-8
/// bytes of the key, by which std orders strings.
pub open spec fn entry_key() -> spec_fn((Seq<char>, Tree)) -> Seq<u8> {
    |entry: (Seq<char>, Tree)| encode_utf8(entry.0)
}

/// The entries in ascending order of their keys. Where the keys are
/// distinct, this does not depend on the order in which the entries are
/// given.
pub open spec fn by_key(entries: Seq<(Seq<char>, Tree)>) -> Seq<(Seq<char>, Tree)> {
    stable_sort(entries, entry_key())
}

/// No two entries have the same key.
pub open spec fn distinct_keys(entries: Seq<(Seq<char>, Tree)>) -> bool {
    forall|i: int, j: int|
        #![trigger entries[i], entries[j]]
        0 <= i < j < entries.len() ==> entries[i].0 != entries[j].0
}

/// Every tree of the sequence is well formed.
pub open spec fn all_well_formed(items: Seq<Tree>) -> bool
    decreases items,
{
    forall|i: int| 0 <= i < items.len() ==> well_formed(#[trigger] items[i])
}

/// The value of every entry is well formed.
pub open spec fn all_values_well_formed(entries: Seq<(Seq<char>, Tree)>) -> bool
    decreases entries,
{
    forall|i: int| 0 <= i < entries.len() ==> well_formed((#[trigger] entries[i]).1)
}

/// Every object of the tree has distinct keys.
pub open spec fn well_formed(tree: Tree) -> bool
    decreases tree,
{
    match tree {
        Tree::Array(items) => all_well_formed(items),
        Tree::Object(entries) => distinct_keys(entries) && all_values_well_formed(entries),
        _ => true,
    }
}

/// The entries have one key, and values with the same content.
pub open spec fn same_entry(entry: (Seq<char>, Tree), other: (Seq<char>, Tree)) -> bool
    decreases entry, 0nat,
{
    entry.0 == other.0 && same_content(entry.1, other.1)
}

/// One of `others` is the same entry as `entry`.
pub open spec fn found_among(entry: (Seq<char>, Tree), others: Seq<(Seq<char>, Tree)>) -> bool
    decreases entry, 1nat,
{
    exists|j: int| 0 <= j < others.len() && same_entry(entry, #[trigger] others[j])
}

/// One of `entries` is the same entry as `other`.
pub open spec fn finds(entries: Seq<(Seq<char>, Tree)>, other: (Seq<char>, Tree)) -> bool
    decreases entries, 0nat,
{
    exists|i: int| 0 <= i < entries.len() && same_entry(#[trigger] entries[i], other)
}

/// Every entry of either sequence is found in the other.
pub open spec fn same_entries(
    entries: Seq<(Seq<char>, Tree)>,
    others: Seq<(Seq<char>, Tree)>,
) -> bool
    decreases entries, 1nat,
{
    &&& forall|i: int| 0 <= i < entries.len() ==> found_among(#[trigger] entries[i], others)
    &&& forall|j: int| 0 <= j < others.len() ==> finds(entries, #[trigger] others[j])
}

/// The sequences are equally long and hold, place by place, trees with the
/// same content.
pub open spec fn same_items(items: Seq<Tree>, others: Seq<Tree>) -> bool
    decreases items, 0nat,
{
    &&& items.len() == others.len()
    &&& forall|i: int| 0 <= i < items.len() ==> same_content(#[trigger] items[i], others[i])
}

/// The trees differ at most in the order in which the entries of their
/// objects are given, at any depth: scalars are equal, arrays hold trees
/// with the same content in the same order, and every entry of an object is
/// found, by its key and with a value of the same content, in the other.
pub open spec fn same_content(tree: Tree, other: Tree) -> bool
    decreases tree, 0nat,
{
    match tree {
        Tree::Array(items) => other is Array && same_items(items, other->Array_0),
        Tree::Object(entries) => other is Object && same_entries(entries, other->Object_0),
        _ => tree == other,
    }
}

/// Every tree of the sequence is within the depth `limit`.
pub open spec fn all_within_depth(items: Seq<Tree>, limit: nat) -> bool
    decreases items,
{
    forall|i: int| 0 <= i < items.len() ==> within_depth(#[trigger] items[i], limit)
}

/// The value of every entry is within the depth `limit`.
pub open spec fn all_values_within_depth(entries: Seq<(Seq<char>, Tree)>, limit: nat) -> bool
    decreases entries,
{
    forall|i: int| 0 <= i < entries.len() ==> within_depth((#[trigger] entries[i]).1, limit)
}

/// No path from the root of the tree leads through more than `limit` arrays
/// and objects, the root counted.
pub open spec fn within_depth(tree: Tree, limit: nat) -> bool
    decreases tree,
{
    match tree {
        Tree::Array(items) => limit > 0 && all_within_depth(items, (limit - 1) as nat),
        Tree::Object(entries) => limit > 0 && all_values_within_depth(
            entries,
            (limit - 1) as nat,
        ),
        _ => true,
    }
}

/// Whether every item is within the depth `limit`.
fn items_fit(items: &Vec<Value>, limit: usize) -> (fit: bool)
    ensures
        fit == all_within_depth(items_view(*items), limit as nat),
    decreases items,
{
    let mut i: usize = 0;
    while i < items.len()
        invariant
            i <= items.len(),
            forall|j: int|
                0 <= j < i ==> within_depth(#[trigger] items_view(*items)[j], limit as nat),
        decreases items.len() - i,
    {
        if !items[i].fits_depth(limit) {
            assert(!within_depth(items_view(*items)[i as int], limit as nat));
            return false;
        }
        i += 1;
    }
    true
}

/// Whether the value of every entry is within the depth `limit`.
fn entries_fit(entries: &Vec<(String, Value)>, limit: usize) -> (fit: bool)
    ensures
        fit == all_values_within_depth(entries_view(*entries), limit as nat),
    decreases entries,
{
    let mut i: usize = 0;
    while i < entries.len()
        invariant
            i <= entries.len(),
            forall|j: int|
                0 <= j < i ==> within_depth(
                    (#[trigger] entries_view(*entries)[j]).1,
                    limit as nat,
                ),
        decreases entries.len() - i,
    {
        if !entries[i].1.fits_depth(limit) {
            assert(!within_depth(entries_view(*entries)[i as int].1, limit as nat));
            return false;
        }
        i += 1;
    }
    true
}

/// Whether every item is well formed.
fn items_well_formed(items: &Vec<Value>) -> (ok: bool)
    ensures
        ok == well_formed(Tree::Array(items_view(*items))),
    decreases items,
{
    let mut i: usize = 0;
    while i < items.len()
        invariant
            i <= items.len(),
            forall|j: int| 0 <= j < i ==> well_formed(#[trigger] items_view(*items)[j]),
        decreases items.len() - i,
    {
        if !items[i].is_well_formed() {
            assert(!well_formed(items_view(*items)[i as int]));
            return false;
        }
        i += 1;
    }
    true
}

/// Whether no entry before the one at `at` has its key.
fn key_is_new(entries: &Vec<(String, Value)>, at: usize) -> (new: bool)
    requires
        at < entries.len(),
    ensures
        new == forall|j: int|
            0 <= j < at ==> (#[trigger] entries_view(*entries)[j]).0 != entries_view(
                *entries,
            )[at as int].0,
{
    let mut j: usize = 0;
    while j < at
        invariant
            j <= at < entries.len(),
            forall|k: int|
                0 <= k < j ==> (#[trigger] entries_view(*entries)[k]).0 != entries_view(
                    *entries,
                )[at as int].0,
        decreases at - j,
    {
        if entries[j].0 == entries[at].0 {
            assert(entries_view(*entries)[j as int].0 == entries_view(*entries)[at as int].0);
            return false;
        }
        j += 1;
    }
    true
}

/// Whether the keys are distinct and every value is well formed.
fn entries_well_formed(entries: &Vec<(String, Value)>) -> (ok: bool)
    ensures
        ok == well_formed(Tree::Object(entries_view(*entries))),
    decreases entries,
{
    let ghost trees = entries_view(*entries);
    let mut i: usize = 0;
    while i < entries.len()
        invariant
            i <= entries.len(),
            trees == entries_view(*entries),
            forall|j: int| 0 <= j < i ==> well_formed((#[trigger] trees[j]).1),
            forall|a: int, b: int|
                #![trigger trees[a], trees[b]]
                0 <= a < b < i ==> trees[a].0 != trees[b].0,
        decreases entries.len() - i,
    {
        if !key_is_new(entries, i) {
            let ghost j = choose|j: int| 0 <= j < i && trees[j].0 == trees[i as int].0;
            assert(trees[j].0 == trees[i as int].0);
            return false;
        }
        if !entries[i].1.is_well_formed() {
            assert(!well_formed(trees[i as int].1));
            return false;
        }
        i += 1;
    }
    true
}

/// Copies of the items, in their order.
fn copy_items(items: &Vec<Value>) -> (copies: Vec<Value>)
    ensures
        items_view(copies) == items_view(*items),
    decreases items,
{
    let mut copies: Vec<Value> = Vec::new();
    let mut i: usize = 0;
    while i < items.len()
        invariant
            i <= items.len(),
            copies.len() == i,
            forall|j: int| 0 <= j < i ==> (#[trigger] copies@[j])@ == items@[j]@,
        decreases items.len() - i,
    {
        copies.push(items[i].clone());
        i += 1;
    }
    proof {
        assert(items_view(copies) =~= items_view(*items));
    }
    copies
}

/// Copies of the entries, in their order.
fn copy_entries(entries: &Vec<(String, Value)>) -> (copies: Vec<(String, Value)>)
    ensures
        entries_view(copies) == entries_view(*entries),
    decreases entries,
{
    let mut copies: Vec<(String, Value)> = Vec::new();
    let mut i: usize = 0;
    while i < entries.len()
        invariant
            i <= entries.len(),
            copies.len() == i,
            forall|j: int|
                0 <= j < i ==> (#[trigger] copies@[j]).0@ == entries@[j].0@ && copies@[j].1@
                    == entries@[j].1@,
        decreases entries.len() - i,
    {
        copies.push((entries[i].0.clone(), entries[i].1.clone()));
        i += 1;
    }
    proof {
        assert(entries_view(copies) =~= entries_view(*entries));
    }
    copies
}

impl Clone for Value {
    /// A copy that stands for the same tree.
    fn clone(&self) -> (copy: Self)
        ensures
            copy@ == self@,
        decreases self,
    {
        match self {
            Value::Null => Value::Null,
            Value::Bool(b) => Value::Bool(*b),
            Value::Number(literal) => Value::Number(literal.clone()),
            Value::String(content) => Value::String(content.clone()),
            Value::Array(items) => Value::Array(copy_items(items)),
            Value::Object(entries) => Value::Object(copy_entries(entries)),
        }
    }
}

impl Value {
    /// Whether no path from the root leads through more than `limit` arrays
    /// and objects. The work stops at the first node that lies deeper.
    pub fn fits_depth(&self, limit: usize) -> (fits: bool)
        ensures
            fits == within_depth(self@, limit as nat),
        decreases self,
    {
        match self {
            Value::Array(items) => limit > 0 && items_fit(items, limit - 1),
            Value::Object(entries) => limit > 0 && entries_fit(entries, limit - 1),
            _ => true,
        }
    }

    /// Whether every object of the value has distinct keys.
    pub fn is_well_formed(&self) -> (ok: bool)
        ensures
            ok == well_formed(self@),
        decreases self,
    {
        match self {
            Value::Array(items) => items_well_formed(items),
            Value::Object(entries) => entries_well_formed(entries),
            _ => true,
        }
    }
}

} // verus!
