//! Positioned glyphs and words.
//!
//! All geometry is held in whole units of a fixed-point grid chosen by the
//! caller (for example thousandths of a point). The origin is the top-left
//! corner of the page and `y` grows downward.

use vstd::prelude::*;

verus! {

/// A single glyph with its bounding box.
#[derive(Debug, PartialEq, Eq, Clone, Copy)]
pub struct Character {
    pub unicode_data: char,
    pub x: i64,
    pub y: i64,
    pub width: i64,
    pub height: i64,
    pub angle: i64,
}

/// A token with its bounding box and the glyphs it is made of.
#[derive(Debug, PartialEq, Eq)]
pub struct Word {
    pub text: String,
    pub x: i64,
    pub y: i64,
    pub width: i64,
    pub height: i64,
    pub angle: i64,
    pub characters: Vec<Character>,
}

impl Word {
    /// The upper edge of the box.
    pub open spec fn top(&self) -> int {
        self.y as int
    }

    /// The lower edge of the box.
    pub open spec fn bottom(&self) -> int {
        self.y + self.height
    }

    /// The left edge of the box.
    pub open spec fn left(&self) -> int {
        self.x as int
    }

    /// The right edge of the box.
    pub open spec fn right(&self) -> int {
        self.x + self.width
    }

    /// The length of the text in bytes of its UTF-8 encoding.
    pub open spec fn text_len(&self) -> nat {
        vstd::utf8::encode_utf8(self.text@).len()
    }

    /// The box has non-negative extent and its far edges are representable
    /// coordinates.
    pub open spec fn well_formed(&self) -> bool {
        &&& 0 <= self.width
        &&& 0 <= self.height
        &&& self.x + self.width <= i64::MAX
        &&& self.y + self.height <= i64::MAX
    }

    /// The text holds at least one character.
    pub open spec fn has_text(&self) -> bool {
        self.text@.len() > 0
    }

    /// A text has bytes exactly when it has characters.
    pub proof fn lemma_text_len_positive(&self)
        ensures
            self.has_text() <==> self.text_len() > 0,
    {
        reveal_with_fuel(vstd::utf8::encode_utf8, 1);
    }

    /// The length of the text in bytes.
    pub fn byte_len(&self) -> (len: usize)
        ensures
            len == self.text_len(),
    {
        self.text.as_str().as_bytes().len()
    }

    /// A text has at least as many bytes as characters.
    pub proof fn lemma_text_len_bound(text: Seq<char>)
        ensures
            text.len() <= vstd::utf8::encode_utf8(text).len(),
        decreases text.len(),
    {
        if text.len() > 0 {
            Self::lemma_text_len_bound(text.drop_first());
        }
    }

    /// Decides whether the box is well formed and the text not empty.
    pub fn is_legible(&self) -> (ok: bool)
        ensures
            ok == (self.well_formed() && self.has_text()),
    {
        proof {
            self.lemma_text_len_positive();
        }
        self.is_well_formed() && self.byte_len() > 0
    }

    /// Decides `well_formed`.
    pub fn is_well_formed(&self) -> (ok: bool)
        ensures
            ok == self.well_formed(),
    {
        self.width >= 0 && self.height >= 0 && self.x <= i64::MAX - self.width && self.y
            <= i64::MAX - self.height
    }
}

/// Every word has a well-formed box.
pub open spec fn all_well_formed(words: Seq<Word>) -> bool {
    forall|i: int| 0 <= i < words.len() ==> (#[trigger] words[i]).well_formed()
}

/// Every word has a well-formed box and a text.
pub open spec fn all_legible(words: Seq<Word>) -> bool {
    forall|i: int|
        0 <= i < words.len() ==> (#[trigger] words[i]).well_formed() && words[i].has_text()
}

/// Decides `all_well_formed`.
pub fn are_well_formed(words: &Vec<Word>) -> (ok: bool)
    ensures
        ok == all_well_formed(words@),
{
    let mut at: usize = 0;
    while at < words.len()
        invariant
            at <= words.len(),
            forall|i: int| 0 <= i < at ==> (#[trigger] words@[i]).well_formed(),
        decreases words.len() - at,
    {
        if !words[at].is_well_formed() {
            return false;
        }
        at = at + 1;
    }
    true
}

/// Decides `all_legible`.
pub fn are_legible(words: &Vec<Word>) -> (ok: bool)
    ensures
        ok == all_legible(words@),
{
    let mut at: usize = 0;
    while at < words.len()
        invariant
            at <= words.len(),
            forall|i: int|
                0 <= i < at ==> (#[trigger] words@[i]).well_formed() && words@[i].has_text(),
        decreases words.len() - at,
    {
        if !words[at].is_legible() {
            return false;
        }
        at = at + 1;
    }
    true
}

} // verus!
