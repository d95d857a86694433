//! Words for trying the library out.

use vstd::prelude::*;
use crate::models::{Character, Word};

verus! {

/// The width that each glyph gets: the width of the word divided evenly by
/// the length of its text in bytes, rounded down.
pub open spec fn glyph_width(text: Seq<char>, width: int) -> int {
    let count = vstd::utf8::encode_utf8(text).len();
    if count == 0 {
        0
    } else {
        width / (count as int)
    }
}

/// The glyph of the character at `index`: as high as the word and as wide as
/// every other, each one glyph width to the right of the one before.
pub open spec fn glyph(
    text: Seq<char>,
    x: i64,
    y: i64,
    width: i64,
    height: i64,
    angle: i64,
    index: int,
) -> Character {
    Character {
        unicode_data: text[index],
        x: (x + index * glyph_width(text, width as int)) as i64,
        y,
        width: glyph_width(text, width as int) as i64,
        height,
        angle,
    }
}

/// The glyphs of a word, one for each character of its text.
pub open spec fn glyphs(text: Seq<char>, x: i64, y: i64, width: i64, height: i64, angle: i64)
    -> Seq<Character> {
    Seq::new(text.len(), |index: int| glyph(text, x, y, width, height, angle, index))
}

/// No glyph begins to the right of the word.
proof fn lemma_glyph_offset(index: int, count: int, width: int)
    requires
        0 <= index < count,
        0 <= width,
    ensures
        0 <= index * (width / count) <= width,
        0 <= width / count <= width,
{
    vstd::arithmetic::div_mod::lemma_fundamental_div_mod(width, count);
    vstd::arithmetic::div_mod::lemma_mod_bound(width, count);
    vstd::arithmetic::div_mod::lemma_div_pos_is_pos(width, count);
    let share = width / count;
    assert(0 <= index * share <= count * share) by (nonlinear_arith)
        requires
            0 <= index < count,
            0 <= share,
    ;
    assert(share <= count * share) by (nonlinear_arith)
        requires
            0 < count,
            0 <= share,
    ;
}

/// Builds a word with the given text and box, and a glyph for each character
/// of the text.
pub fn create_test_word(text: String, x: i64, y: i64, width: i64, height: i64, angle: i64) -> (word:
    Word)
    requires
        0 <= width,
        x + width <= i64::MAX,
    ensures
        word.text@ == text@,
        word.x == x,
        word.y == y,
        word.width == width,
        word.height == height,
        word.angle == angle,
        word.characters@ == glyphs(text@, x, y, width, height, angle),
{
    let count: usize = text.as_str().as_bytes().len();
    let share: i64 = if count == 0 { 0 } else { (width as i128 / count as i128) as i64 };
    proof {
        Word::lemma_text_len_bound(text@);
        if count > 0 {
            lemma_glyph_offset(0, count as int, width as int);
        }
        assert(share == glyph_width(text@, width as int));
    }
    let mut characters: Vec<Character> = Vec::new();
    let mut index: usize = 0;
    for unicode_data in it: text.as_str().chars()
        invariant
            it.seq() == text@,
            index == it.index(),
            index <= count,
            text@.len() <= count,
            count == vstd::utf8::encode_utf8(text@).len(),
            0 <= width,
            x + width <= i64::MAX,
            share == glyph_width(text@, width as int),
            characters@ == glyphs(text@, x, y, width, height, angle).take(index as int),
    {
        assert(index < text@.len());
        proof {
            lemma_glyph_offset(index as int, count as int, width as int);
        }
        let offset: i128 = (index as i128) * (share as i128);
        let left: i64 = (x as i128 + offset) as i64;
        characters.push(Character { unicode_data, x: left, y, width: share, height, angle });
        assert(characters@[index as int] == glyph(text@, x, y, width, height, angle, index as int));
        assert(characters@ =~= glyphs(text@, x, y, width, height, angle).take(index + 1));
        index = index + 1;
    }
    assert(characters@ =~= glyphs(text@, x, y, width, height, angle));
    Word { text, x, y, width, height, angle, characters }
}

} // verus!
