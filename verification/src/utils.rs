//! Small helpers shared by the tokenizer and the parsers.

use vstd::prelude::*;

use crate::types::{InlineModel, MdInlineElement, Token, TokenModel};

verus! {

/// A collection element that can be made from an accumulated text buffer.
pub trait FromBuffer: Sized + View {
    /// The model of the element made from a buffer with these characters.
    spec fn text_model(s: Seq<char>) -> Self::V;

    /// Builds the element owning the buffer's characters.
    fn from_buffer(buffer: String) -> (r: Self)
        ensures
            r@ == Self::text_model(buffer@),
    ;
}

impl FromBuffer for Token {
    open spec fn text_model(s: Seq<char>) -> TokenModel {
        TokenModel::Text(s)
    }

    fn from_buffer(buffer: String) -> (r: Self) {
        Token::Text(buffer)
    }
}

impl FromBuffer for MdInlineElement {
    open spec fn text_model(s: Seq<char>) -> InlineModel {
        InlineModel::Text(s)
    }

    fn from_buffer(buffer: String) -> (r: Self) {
        MdInlineElement::Text { content: buffer }
    }
}

impl FromBuffer for String {
    open spec fn text_model(s: Seq<char>) -> Seq<char> {
        s
    }

    fn from_buffer(buffer: String) -> (r: Self) {
        buffer
    }
}

/// Appends the buffer's text to the collection as one element and clears
/// the buffer; an empty buffer leaves both untouched.
pub fn push_buffer_to_collection<T: FromBuffer>(collection: &mut Vec<T>, buffer: &mut String)
    ensures
        old(buffer)@.len() == 0 ==> *final(collection) == *old(collection) && *final(buffer)
            == *old(buffer),
        old(buffer)@.len() > 0 ==> {
            &&& final(collection)@.len() == old(collection)@.len() + 1
            &&& forall|i: int|
                0 <= i < old(collection)@.len() ==> final(collection)@[i] == old(collection)@[i]
            &&& final(collection)@.last()@ == T::text_model(old(buffer)@)
            &&& final(buffer)@.len() == 0
        },
{
    if !buffer.as_str().is_empty() {
        let copy = buffer.clone();
        collection.push(T::from_buffer(copy));
        *buffer = String::new();
    }
}

/// Whether the string holds exactly the one character `c`.
pub fn string_is_char(g: &String, c: char) -> (r: bool)
    ensures
        r == (g@ == seq![c]),
{
    let s = g.as_str();
    if s.unicode_len() == 1 {
        let c0 = s.get_char(0);
        proof {
            if c0 == c {
                assert(g@ =~= seq![c]);
            } else {
                assert(g@[0] != seq![c][0]);
            }
        }
        c0 == c
    } else {
        proof {
            assert(g@.len() != seq![c].len());
        }
        false
    }
}

/// Whether the string's first character is `c`.
pub fn string_first_is_char(s: &String, c: char) -> (r: bool)
    ensures
        r == (s@.len() > 0 && s@[0] == c),
{
    let st = s.as_str();
    if st.unicode_len() >= 1 {
        st.get_char(0) == c
    } else {
        false
    }
}

} // verus!
