//! Signatures of parsed documents, made so that the order in which a
//! document happens to list things shows as little as possible.
//!
//! A document is a tree of [`Value`]s. Its notation is a text in which every
//! node carries a tag for its kind and the children of every array and
//! object come in a canonical order; its signature is the MD5 digest of that
//! text, in hexadecimal.
//!
//! The order in which the entries of an object are given never shows, at any
//! depth, as long as the keys of every object are distinct. The order of the
//! items of an array does not show in the array's own notation, except
//! between items that tie in the canonical order and are told apart by the
//! notation, such as the number `1` and the string `1`, which keep the order
//! given. An array that is itself an item or a value is ordered among its
//! siblings by its text as given, so the order of its items can show in the
//! notation of the node above it.

pub mod digest;
pub mod merge_sort;
pub mod notation;
pub mod order;
pub mod sorter;
pub mod text;
pub mod value;

pub use crate::notation::Notation;
pub use crate::sorter::sorter;
pub use crate::value::Value;

use crate::digest::{lower_hex, md5_digest, md5_of, to_lower_hex};
use crate::notation::{
    lemma_array_notation_ignores_order, lemma_entry_order_is_ignored,
    lemma_object_notation_ignores_order, ties_agree,
};
use crate::value::{same_content, well_formed, within_depth, Tree};
use vstd::prelude::*;
use vstd::string::*;
use vstd::utf8::encode_utf8;

verus! {

/// The signature of a tree: the MD5 digest of the UTF-8 bytes of its
/// notation, in lower-case hexadecimal.
pub open spec fn signature_of(tree: Tree) -> Seq<char> {
    hex_digest_of(crate::notation::notation_of(tree))
}

/// Values that stand for the same tree have the same notation and the same
/// signature, however often and wherever they are computed.
pub proof fn lemma_signature_is_determined(a: Value, b: Value)
    requires
        a@ == b@,
    ensures
        a.notation() == b.notation(),
        signature_of(a@) == signature_of(b@),
{
}

/// The signature of an array does not depend on the order of its items,
/// provided that items which tie in the order have one notation.
pub proof fn lemma_signature_ignores_item_order(items: Seq<Tree>, permuted: Seq<Tree>)
    requires
        permuted.to_multiset() == items.to_multiset(),
        ties_agree(items),
    ensures
        signature_of(Tree::Array(permuted)) == signature_of(Tree::Array(items)),
{
    lemma_array_notation_ignores_order(items, permuted);
}

/// The signature of an object with distinct keys does not depend on the
/// order in which its entries are given.
pub proof fn lemma_signature_ignores_order_of_entries(
    entries: Seq<(Seq<char>, Tree)>,
    permuted: Seq<(Seq<char>, Tree)>,
)
    requires
        permuted.to_multiset() == entries.to_multiset(),
        well_formed(Tree::Object(entries)),
    ensures
        signature_of(Tree::Object(permuted)) == signature_of(Tree::Object(entries)),
{
    lemma_object_notation_ignores_order(entries, permuted);
}

/// Trees that differ only in the order in which the entries of their
/// objects are given, at any depth, have one notation and one signature,
/// provided that the keys of every object are distinct.
pub proof fn lemma_signature_ignores_entry_order(tree: Tree, other: Tree)
    requires
        well_formed(tree),
        well_formed(other),
        same_content(tree, other),
    ensures
        crate::notation::notation_of(other) == crate::notation::notation_of(tree),
        signature_of(other) == signature_of(tree),
{
    lemma_entry_order_is_ignored(tree, other);
}

/// The MD5 digest of the UTF-8 bytes of a text, in lower-case hexadecimal.
pub open spec fn hex_digest_of(text: Seq<char>) -> Seq<char> {
    lower_hex(md5_digest(encode_utf8(text)))
}

/// Hashes the text and writes the digest.
fn hex_digest(text: &String) -> (hex: String)
    ensures
        hex@ == hex_digest_of(text@),
        hex@.len() == 32,
{
    let bytes = md5_of(text.as_str().as_bytes());
    to_lower_hex(bytes.as_slice())
}

/// The signature of `value`: thirty-two lower-case hexadecimal digits.
///
/// The work descends as deep as the value is nested; see
/// [`signature_within`] for values of unknown depth.
pub fn signature(value: Value) -> (hex: String)
    ensures
        hex@ == signature_of(value@),
        hex@.len() == 32,
{
    let text = value.notate();
    hex_digest(&text)
}

/// Why no notation or signature was computed.
#[derive(Debug, Clone, Copy, PartialEq, Eq)]
pub enum SignatureError {
    /// The value is nested deeper than the limit allows.
    TooDeep,
}

/// The notation of `value`, if no path from its root leads through more
/// than `max_depth` arrays and objects; the error otherwise.
///
/// The depth is tested first, by a descent that stops at the limit, so that
/// no work descends deeper than `max_depth` levels.
pub fn notation_within(value: &Value, max_depth: usize) -> (result: Result<
    String,
    SignatureError,
>)
    ensures
        match result {
            Ok(text) => within_depth(value@, max_depth as nat) && text@
                == crate::notation::notation_of(value@),
            Err(error) => !within_depth(value@, max_depth as nat) && error
                == SignatureError::TooDeep,
        },
{
    if value.fits_depth(max_depth) {
        Ok(value.notate())
    } else {
        Err(SignatureError::TooDeep)
    }
}

/// The signature of `value`, if no path from its root leads through more
/// than `max_depth` arrays and objects; the error otherwise.
///
/// The depth is tested first, by a descent that stops at the limit, so that
/// no work descends deeper than `max_depth` levels.
pub fn signature_within(value: &Value, max_depth: usize) -> (result: Result<
    String,
    SignatureError,
>)
    ensures
        match result {
            Ok(hex) => within_depth(value@, max_depth as nat) && hex@ == signature_of(value@)
                && hex@.len() == 32,
            Err(error) => !within_depth(value@, max_depth as nat) && error
                == SignatureError::TooDeep,
        },
{
    match notation_within(value, max_depth) {
        Ok(text) => Ok(hex_digest(&text)),
        Err(error) => Err(error),
    }
}

} // verus!
