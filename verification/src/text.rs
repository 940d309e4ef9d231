//! The minified text of a value, by which arrays, objects, numbers and
//! booleans are ordered among their siblings. The entries of an object are
//! written in ascending order of their keys.

use crate::merge_sort::{carried_key, values_in_key_order};
use crate::order::{in_key_order, leading, lemma_stable_sort_related, stable_sort};
use crate::value::{by_key, entries_view, entry_key, items_view, Tree, Value};
use vstd::prelude::*;
use vstd::string::*;
use vstd::utf8::encode_utf8;

verus! {

/// `String::push` appends the given character to the end of the string.
pub assume_specification[ std::string::String::push ](text: &mut std::string::String, ch: char)
    ensures
        final(text)@ == old(text)@.push(ch),
;

/// The sixteen lower-case hexadecimal digits, in ascending order.
pub open spec fn hex_digits() -> Seq<char> {
    seq!['0', '1', '2', '3', '4', '5', '6', '7', '8', '9', 'a', 'b', 'c', 'd', 'e', 'f']
}

/// What stands for one character inside a quoted string: a backslash escape
/// for the quotation mark, the backslash and the control characters below
/// U+0020, and the character itself otherwise.
pub open spec fn escaped(c: char) -> Seq<char> {
    if c == '"' {
        seq!['\\', '"']
    } else if c == '\\' {
        seq!['\\', '\\']
    } else if c == '\u{8}' {
        seq!['\\', 'b']
    } else if c == '\u{c}' {
        seq!['\\', 'f']
    } else if c == '\n' {
        seq!['\\', 'n']
    } else if c == '\r' {
        seq!['\\', 'r']
    } else if c == '\t' {
        seq!['\\', 't']
    } else if (c as int) < 0x20 {
        seq!['\\', 'u', '0', '0', hex_digits()[(c as int) / 16], hex_digits()[(c as int) % 16]]
    } else {
        seq![c]
    }
}

/// A text as a quoted string: its characters, each escaped where it has to
/// be, between two quotation marks.
pub open spec fn quoted(text: Seq<char>) -> Seq<char> {
    seq!['"'] + text.flat_map(|c: char| escaped(c)) + seq!['"']
}

/// The given texts with a comma between each two neighbours.
pub open spec fn joined(parts: Seq<Seq<char>>) -> Seq<char>
    decreases parts.len(),
{
    if parts.len() == 0 {
        Seq::empty()
    } else if parts.len() == 1 {
        parts[0]
    } else {
        joined(parts.drop_last()) + seq![','] + parts.last()
    }
}

/// The minified text of each item of an array, in the array's order.
pub open spec fn item_texts(items: Seq<Tree>) -> Seq<Seq<char>>
    decreases items,
{
    Seq::new(
        items.len(),
        |i: int|
            if 0 <= i < items.len() {
                json_text(items[i])
            } else {
                Seq::empty()
            },
    )
}

/// The key bytes and the minified text of each entry of an object, in the
/// order given: the text is the quoted key, a colon and the value's text.
pub open spec fn keyed_entry_texts(entries: Seq<(Seq<char>, Tree)>) -> Seq<(Seq<u8>, Seq<char>)>
    decreases entries,
{
    Seq::new(
        entries.len(),
        |i: int|
            if 0 <= i < entries.len() {
                (
                    encode_utf8(entries[i].0),
                    quoted(entries[i].0) + seq![':'] + json_text(entries[i].1),
                )
            } else {
                (Seq::empty(), Seq::empty())
            },
    )
}

/// The minified text of a tree: no white space, a number by its literal, the
/// items of an array in the order that they have in the tree, the entries of
/// an object in ascending order of their keys.
pub open spec fn json_text(tree: Tree) -> Seq<char>
    decreases tree,
{
    match tree {
        Tree::Null => seq!['n', 'u', 'l', 'l'],
        Tree::Bool(b) => if b {
            seq!['t', 'r', 'u', 'e']
        } else {
            seq!['f', 'a', 'l', 's', 'e']
        },
        Tree::Number(text) => text,
        Tree::String(text) => quoted(text),
        Tree::Array(items) => seq!['['] + joined(item_texts(items)) + seq![']'],
        Tree::Object(entries) => seq!['{'] + joined(in_key_order(keyed_entry_texts(entries)))
            + seq!['}'],
    }
}

/// The minified text of each of the given entries, in the order given: the
/// quoted key, a colon and the value's text.
pub open spec fn entry_texts(entries: Seq<(Seq<char>, Tree)>) -> Seq<Seq<char>> {
    entries.map_values(|entry: (Seq<char>, Tree)| quoted(entry.0) + seq![':'] + json_text(entry.1))
}

/// How a keyed text stands for an entry.
spec fn is_text_of() -> spec_fn((Seq<u8>, Seq<char>), (Seq<char>, Tree)) -> bool {
    |keyed: (Seq<u8>, Seq<char>), entry: (Seq<char>, Tree)|
        keyed.0 == encode_utf8(entry.0) && keyed.1 == quoted(entry.0) + seq![':'] + json_text(
            entry.1,
        )
}

/// The minified text of an object is the texts of its entries, taken in
/// ascending order of their keys, between braces.
pub proof fn lemma_object_text(entries: Seq<(Seq<char>, Tree)>)
    ensures
        json_text(Tree::Object(entries)) == seq!['{'] + joined(entry_texts(by_key(entries)))
            + seq!['}'],
{
    let keyed = keyed_entry_texts(entries);
    assert forall|keyed: (Seq<u8>, Seq<char>), entry: (Seq<char>, Tree)| #[trigger]
        is_text_of()(keyed, entry) implies leading::<Seq<char>>()(keyed) == entry_key()(
        entry,
    ) by {}
    assert forall|i: int| 0 <= i < keyed.len() implies #[trigger] is_text_of()(
        keyed[i],
        entries[i],
    ) by {}
    lemma_stable_sort_related(keyed, leading(), entries, entry_key(), is_text_of());
    let sorted = stable_sort(keyed, leading());
    assert forall|i: int| 0 <= i < sorted.len() implies in_key_order(keyed)[i] == entry_texts(
        by_key(entries),
    )[i] by {
        assert(is_text_of()(sorted[i], by_key(entries)[i]));
    }
    assert(in_key_order(keyed) =~= entry_texts(by_key(entries)));
}

/// The `Display` of `serde_json::Value`, applied to a JSON string: the text
/// between quotation marks, with `\"`, `\\`, `\b`, `\f`, `\n`, `\r`, `\t`
/// for those seven characters, `\u00` and two lower-case hexadecimal digits
/// for the other characters below U+0020, and every other character as it
/// is.
#[verifier::external_body]
fn quote(text: &str) -> (literal: String)
    ensures
        literal@ == quoted(text@),
{
    serde_json::Value::String(text.to_owned()).to_string()
}

/// Appends `part` to `out`.
fn append_text(out: &mut String, part: &String)
    ensures
        final(out)@ == old(out)@ + part@,
{
    out.append(part.as_str());
}

/// Joining one text more adds a comma and the text, but for the first.
proof fn lemma_joined_step(parts: Seq<Seq<char>>, n: int)
    requires
        0 <= n < parts.len(),
    ensures
        joined(parts.take(n + 1)) == if n == 0 {
            parts[0]
        } else {
            joined(parts.take(n)) + seq![','] + parts[n]
        },
{
    assert(parts.take(n + 1).drop_last() =~= parts.take(n));
}

/// Writes the minified text of an array from its items.
fn array_text(items: &Vec<Value>) -> (text: String)
    ensures
        text@ == seq!['['] + joined(item_texts(items_view(*items))) + seq![']'],
    decreases items,
{
    let ghost parts = item_texts(items_view(*items));
    let mut out = String::new();
    out.push('[');
    let mut i: usize = 0;
    while i < items.len()
        invariant
            i <= items.len(),
            parts == item_texts(items_view(*items)),
            parts.len() == items.len(),
            out@ == seq!['['] + joined(parts.take(i as int)),
        decreases items.len() - i,
    {
        if i > 0 {
            out.push(',');
        }
        let part = items[i].to_string();
        append_text(&mut out, &part);
        proof {
            lemma_joined_step(parts, i as int);
            assert(parts[i as int] == part@);
            assert(out@ =~= seq!['['] + joined(parts.take(i + 1)));
        }
        i += 1;
    }
    out.push(']');
    proof {
        assert(parts.take(items.len() as int) =~= parts);
    }
    out
}

/// How an executable keyed text stands for a keyed text.
spec fn text_stands_for() -> spec_fn((Vec<u8>, String), (Seq<u8>, Seq<char>)) -> bool {
    |item: (Vec<u8>, String), keyed: (Seq<u8>, Seq<char>)|
        item.0@ == keyed.0 && item.1@ == keyed.1
}

/// Writes the minified text of an object from its entries.
fn object_text(entries: &Vec<(String, Value)>) -> (text: String)
    ensures
        text@ == json_text(Tree::Object(entries_view(*entries))),
    decreases entries,
{
    let ghost keyed = keyed_entry_texts(entries_view(*entries));
    let ghost parts = in_key_order(keyed);
    let mut items: Vec<(Vec<u8>, String)> = Vec::new();
    let mut i: usize = 0;
    while i < entries.len()
        invariant
            i <= entries.len(),
            keyed == keyed_entry_texts(entries_view(*entries)),
            items.len() == i,
            forall|j: int|
                0 <= j < i ==> (#[trigger] items@[j]).0@ == keyed[j].0 && items@[j].1@
                    == keyed[j].1,
        decreases entries.len() - i,
    {
        let mut part = quote(entries[i].0.as_str());
        part.push(':');
        let value = entries[i].1.to_string();
        append_text(&mut part, &value);
        proof {
            assert(part@ =~= keyed[i as int].1);
        }
        items.push((entries[i].0.as_str().as_bytes_vec(), part));
        i += 1;
    }
    let ghost unsorted = items@;
    proof {
        assert forall|j: int| 0 <= j < unsorted.len() implies #[trigger] text_stands_for()(
            unsorted[j],
            keyed[j],
        ) by {}
        lemma_stable_sort_related(
            unsorted,
            carried_key::<String>(),
            keyed,
            leading(),
            text_stands_for(),
        );
    }
    let texts = values_in_key_order(items);
    proof {
        assert forall|j: int| 0 <= j < texts.len() implies (#[trigger] texts@[j])@
            == parts[j] by {
            assert(text_stands_for()(
                stable_sort(unsorted, carried_key::<String>())[j],
                stable_sort(keyed, leading())[j],
            ));
        }
    }
    let mut out = String::new();
    out.push('{');
    let mut i: usize = 0;
    while i < texts.len()
        invariant
            i <= texts.len(),
            parts.len() == texts.len(),
            forall|j: int| 0 <= j < texts.len() ==> (#[trigger] texts@[j])@ == parts[j],
            out@ == seq!['{'] + joined(parts.take(i as int)),
        decreases texts.len() - i,
    {
        if i > 0 {
            out.push(',');
        }
        append_text(&mut out, &texts[i]);
        proof {
            lemma_joined_step(parts, i as int);
            assert(out@ =~= seq!['{'] + joined(parts.take(i + 1)));
        }
        i += 1;
    }
    out.push('}');
    proof {
        assert(parts.take(texts.len() as int) =~= parts);
    }
    out
}

/// The minified text of the pair that stands for an entry of an object: the
/// two-item array of the key, as a string, and the value.
pub fn pair_text(key: &String, value: &Value) -> (text: String)
    ensures
        text@ == json_text(Tree::Array(seq![Tree::String(key@), value@])),
{
    let ghost parts = item_texts(seq![Tree::String(key@), value@]);
    let mut text = String::new();
    text.push('[');
    let name = quote(key.as_str());
    append_text(&mut text, &name);
    text.push(',');
    let part = value.to_string();
    append_text(&mut text, &part);
    text.push(']');
    proof {
        assert(parts.drop_last().drop_last() =~= Seq::<Seq<char>>::empty());
        assert(parts.drop_last() =~= seq![quoted(key@)]);
        assert(joined(parts.drop_last()) == quoted(key@));
        assert(joined(parts) == quoted(key@) + seq![','] + json_text(value@));
        assert(text@ =~= seq!['['] + joined(parts) + seq![']']);
    }
    text
}

impl Value {
    /// The minified text of the value.
    pub fn to_string(&self) -> (text: String)
        ensures
            text@ == json_text(self@),
            self@ is Object ==> text@ == seq!['{'] + joined(
                entry_texts(by_key(self@->Object_0)),
            ) + seq!['}'],
        decreases self,
    {
        proof {
            if self@ is Object {
                lemma_object_text(self@->Object_0);
            }
        }
        match self {
            Value::Null => {
                proof {
                    reveal_strlit("null");
                }
                let text = "null".to_owned();
                assert(text@ =~= json_text(self@));
                text
            },
            Value::Bool(b) => {
                proof {
                    reveal_strlit("true");
                    reveal_strlit("false");
                }
                let text = if *b {
                    "true".to_owned()
                } else {
                    "false".to_owned()
                };
                assert(text@ =~= json_text(self@));
                text
            },
            Value::Number(literal) => literal.clone(),
            Value::String(content) => quote(content.as_str()),
            Value::Array(items) => array_text(items),
            Value::Object(entries) => object_text(entries),
        }
    }
}

} // verus!
