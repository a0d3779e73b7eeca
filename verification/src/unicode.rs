//! The crate's only trusted boundary: grapheme segmentation and Unicode
//! character classification, taken from outside crates.  Everything else in
//! the crate is verified against the names and facts stated here.

use vstd::prelude::*;

use unicode_categories::UnicodeCategories;
use unicode_segmentation::UnicodeSegmentation;

use crate::types::strings_view;

verus! {

/// The grapheme clusters of a character sequence, in order.  What exactly a
/// grapheme cluster is belongs to the segmentation algorithm; the contracts
/// below state only that the clusters are non-empty and concatenate back to
/// the input.
pub uninterp spec fn grapheme_split(s: Seq<char>) -> Seq<Seq<char>>;

/// The concatenation of a sequence of character sequences.
pub open spec fn concat_graphemes(gs: Seq<Seq<char>>) -> Seq<char>
    decreases gs.len(),
{
    if gs.len() == 0 {
        Seq::empty()
    } else {
        concat_graphemes(gs.subrange(0, gs.len() - 1)) + gs[gs.len() - 1]
    }
}

/// Relies on unicode_segmentation's `graphemes`: it partitions a string
/// into its extended grapheme clusters, so the clusters are non-empty and
/// concatenate back to the string.
#[verifier::external_body]
pub fn split_graphemes(s: &str) -> (r: Vec<String>)
    ensures
        strings_view(r@) == grapheme_split(s@),
        concat_graphemes(strings_view(r@)) == s@,
        forall|i: int| 0 <= i < r@.len() ==> #[trigger] r@[i]@.len() > 0,
{
    s.graphemes(true).map(|g| g.to_owned()).collect()
}

/// Whether a character belongs to one of the Unicode punctuation
/// categories.
pub uninterp spec fn unicode_punctuation(c: char) -> bool;

/// Relies on unicode_categories' `is_punctuation`: membership in the
/// Unicode punctuation categories depends on the character alone.
#[verifier::external_body]
pub fn is_punctuation_char(c: char) -> (r: bool)
    ensures
        r == unicode_punctuation(c),
{
    c.is_punctuation()
}

/// Whether a character belongs to the Unicode currency-symbol category.
pub uninterp spec fn unicode_currency_symbol(c: char) -> bool;

/// Relies on unicode_categories' `is_symbol_currency`: membership in the
/// Unicode currency-symbol category depends on the character alone.
#[verifier::external_body]
pub fn is_currency_symbol_char(c: char) -> (r: bool)
    ensures
        r == unicode_currency_symbol(c),
{
    c.is_symbol_currency()
}

/// Relies on std's `char::to_string`: the result is a string holding
/// exactly that character.
#[verifier::external_body]
pub fn char_to_string(c: char) -> (r: String)
    ensures
        r@ == seq![c],
{
    c.to_string()
}

} // verus!
