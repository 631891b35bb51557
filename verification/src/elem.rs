//! The content element for a single symbol character.

use vstd::prelude::*;
use crate::text::push_char;

verus! {

/// A single character.
#[derive(Clone, Copy, Debug, PartialEq, Eq)]
pub struct SymbolElem {
    /// The symbol's character.
    pub text: char,
}

/// A symbol element packed as content.
#[derive(Clone, Copy, Debug, PartialEq, Eq)]
pub struct Packed {
    pub elem: SymbolElem,
}

impl SymbolElem {
    /// An element for the character `text`.
    pub fn new(text: char) -> (r: SymbolElem)
        ensures
            r.text == text,
    {
        SymbolElem { text }
    }

    /// Create a new packed symbol element.
    pub fn packed(text: char) -> (r: Packed)
        ensures
            r.elem.text == text,
    {
        Packed { elem: Self::new(text) }
    }

    /// The representation, which matches that of normal content: the
    /// character in square brackets.
    pub fn repr(&self) -> (r: String)
        ensures
            r@ == seq!['[', self.text, ']'],
    {
        let mut r = String::new();
        push_char(&mut r, '[');
        push_char(&mut r, self.text);
        push_char(&mut r, ']');
        assert(r@ =~= seq!['[', self.text, ']']);
        r
    }
}

impl Packed {
    /// Appends the element's plain text: its character.
    pub fn plain_text(&self, text: &mut String)
        ensures
            final(text)@ == old(text)@.push(self.elem.text),
    {
        push_char(text, self.elem.text);
    }
}

} // verus!
