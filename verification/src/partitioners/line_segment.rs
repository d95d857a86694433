//! Splits a line into segments of adjacent words.
//!
//! Two neighbouring words are adjacent when the gap between them is at most
//! twice the average width of their characters. A segment is a longest run
//! of words, each adjacent to the next.

use vstd::prelude::*;
use vstd::string::StringExecFns;
use crate::models::{all_legible, Word};
use crate::partitioners::line::{Line, LineView};
use crate::partitioners::line_segment_laws::lemma_segments;

verus! {

/// How many average character widths two adjacent words may lie apart.
pub const ADJACENCY_FACTOR: u8 = 2;

/// A run of adjacent words of one line, with their texts joined and the
/// extent they cover.
#[derive(Debug, PartialEq, Eq)]
pub struct LineSegment {
    pub words: Vec<Word>,
    pub text: String,
    pub top: i64,
    pub bottom: i64,
    pub left: i64,
    pub right: i64,
}

/// What a `LineSegment` holds, as mathematical values.
pub struct LineSegmentView {
    pub words: Seq<Word>,
    pub text: Seq<char>,
    pub top: int,
    pub bottom: int,
    pub left: int,
    pub right: int,
}

impl View for LineSegment {
    type V = LineSegmentView;

    open spec fn view(&self) -> LineSegmentView {
        LineSegmentView {
            words: self.words@,
            text: self.text@,
            top: self.top as int,
            bottom: self.bottom as int,
            left: self.left as int,
            right: self.right as int,
        }
    }
}

/// The views of a sequence of segments.
pub open spec fn segment_views(segments: Seq<LineSegment>) -> Seq<LineSegmentView> {
    segments.map_values(|segment: LineSegment| segment@)
}

/// The gap between the right edge of `a` and the left edge of `b`.
pub open spec fn distance(a: Word, b: Word) -> int {
    if b.left() >= a.right() {
        b.left() - a.right()
    } else {
        a.right() - b.left()
    }
}

/// The gap between the words is at most `ADJACENCY_FACTOR` times the average
/// width of a character, which is the sum of the widths over the sum of the
/// text lengths.
pub open spec fn adjacent(a: Word, b: Word) -> bool {
    distance(a, b) * (a.text_len() + b.text_len()) <= ADJACENCY_FACTOR * (a.width + b.width)
}

/// The segment that a word opens.
pub open spec fn fresh_segment(word: Word, top: int, bottom: int) -> LineSegmentView {
    LineSegmentView {
        words: seq![word],
        text: word.text@,
        top,
        bottom,
        left: word.left(),
        right: word.right(),
    }
}

/// The segment after it has been given one more word.
pub open spec fn extended(segment: LineSegmentView, word: Word) -> LineSegmentView {
    LineSegmentView {
        words: segment.words.push(word),
        text: segment.text + word.text@,
        top: segment.top,
        bottom: segment.bottom,
        left: segment.left,
        right: word.right(),
    }
}

/// The segments that the words of a line with the given extent form.
pub open spec fn segmented(words: Seq<Word>, top: int, bottom: int) -> Seq<LineSegmentView>
    decreases words.len(),
{
    if words.len() == 0 {
        Seq::empty()
    } else if words.len() == 1 {
        seq![fresh_segment(words.last(), top, bottom)]
    } else {
        let before = segmented(words.drop_last(), top, bottom);
        if adjacent(words[words.len() - 2], words.last()) {
            before.update(before.len() - 1, extended(before.last(), words.last()))
        } else {
            before.push(fresh_segment(words.last(), top, bottom))
        }
    }
}

/// The segments that `partition` makes of the line.
pub open spec fn partition_spec(line: LineView) -> Seq<LineSegmentView> {
    segmented(line.words, line.top, line.bottom)
}

/// The words of all the segments, segment after segment.
pub open spec fn words_of(segments: Seq<LineSegmentView>) -> Seq<Word>
    decreases segments.len(),
{
    if segments.len() == 0 {
        Seq::empty()
    } else {
        words_of(segments.drop_last()) + segments.last().words
    }
}

/// The texts of the words, one after the other with nothing between them.
pub open spec fn joined_text(words: Seq<Word>) -> Seq<char>
    decreases words.len(),
{
    if words.len() == 0 {
        Seq::empty()
    } else {
        joined_text(words.drop_last()) + words.last().text@
    }
}

/// Each word but the first is adjacent to the word before it.
pub open spec fn is_run(words: Seq<Word>) -> bool {
    forall|i: int| 0 < i < words.len() ==> adjacent(words[i - 1], #[trigger] words[i])
}

/// The segment is a run of at least one word, its text is the joined text of
/// its words, it reaches from the left edge of its first word to the right
/// edge of its last, and it has the given vertical extent.
pub open spec fn well_shaped(segment: LineSegmentView, top: int, bottom: int) -> bool {
    &&& segment.words.len() > 0
    &&& is_run(segment.words)
    &&& segment.text == joined_text(segment.words)
    &&& segment.left == segment.words.first().left()
    &&& segment.right == segment.words.last().right()
    &&& segment.top == top
    &&& segment.bottom == bottom
}

/// No segment could have been continued by the first word of the next.
pub open spec fn runs_are_longest(segments: Seq<LineSegmentView>) -> bool {
    forall|k: int|
        0 < k < segments.len() ==> !adjacent(
            segments[k - 1].words.last(),
            (#[trigger] segments[k]).words.first(),
        )
}

/// A product stays within a bound exactly when one factor stays within the
/// bound divided by the other.
proof fn lemma_product_within(gap: int, count: int, budget: int)
    requires
        0 <= gap,
        0 < count,
        0 <= budget,
    ensures
        gap * count <= budget <==> gap <= budget / count,
{
    vstd::arithmetic::div_mod::lemma_fundamental_div_mod(budget, count);
    vstd::arithmetic::div_mod::lemma_mod_bound(budget, count);
    let quotient = budget / count;
    if gap <= quotient {
        assert(gap * count <= quotient * count) by (nonlinear_arith)
            requires
                gap <= quotient,
                0 < count,
        ;
        assert(quotient * count == count * quotient) by (nonlinear_arith);
    } else {
        assert(gap * count >= (quotient + 1) * count) by (nonlinear_arith)
            requires
                gap >= quotient + 1,
                0 < count,
        ;
        assert((quotient + 1) * count == count * quotient + count) by (nonlinear_arith);
    }
}

/// Tells whether `b` follows `a` closely enough to continue its segment.
pub fn words_are_adjacent(a: &Word, b: &Word) -> (near: bool)
    requires
        a.well_formed(),
        b.well_formed(),
        a.has_text() || b.has_text(),
    ensures
        near == adjacent(*a, *b),
{
    let edge: i128 = a.x as i128 + a.width as i128;
    let gap: i128 = if b.x as i128 >= edge { b.x as i128 - edge } else { edge - b.x as i128 };
    let count: i128 = a.byte_len() as i128 + b.byte_len() as i128;
    let budget: i128 = (ADJACENCY_FACTOR as i128) * (a.width as i128 + b.width as i128);
    proof {
        a.lemma_text_len_positive();
        b.lemma_text_len_positive();
        lemma_product_within(gap as int, count as int, budget as int);
    }
    gap <= budget / count
}

/// Splits the line into its segments, from left to right.
///
/// The words of the line are expected in ascending order of `x`.
pub fn partition(line: Line) -> (segments: Vec<LineSegment>)
    requires
        all_legible(line.words@),
    ensures
        segment_views(segments@) == partition_spec(line@),
        segments@.len() <= line.words@.len(),
        words_of(segment_views(segments@)) == line.words@,
        forall|k: int|
            0 <= k < segments@.len() ==> well_shaped(
                (#[trigger] segments@[k])@,
                line.top as int,
                line.bottom as int,
            ),
        runs_are_longest(segment_views(segments@)),
{
    let Line { words, top, bottom } = line;
    let mut segments: Vec<LineSegment> = Vec::new();
    for word in it: words
        invariant
            it.seq() == words@,
            all_legible(words@),
            segment_views(segments@) == segmented(
                it.seq().take(it.index()),
                top as int,
                bottom as int,
            ),
    {
        let ghost seen = it.seq().take(it.index());
        let ghost next = it.seq().take(it.index() + 1);
        let ghost before = segment_views(segments@);
        proof {
            assert(word == words@[it.index()]);
            assert(next.drop_last() =~= seen);
            assert(next.last() == word);
            if it.index() > 0 {
                lemma_segments(seen, top as int, bottom as int);
                assert(well_shaped(before.last(), top as int, bottom as int));
                assert(seen.last() == words@[it.index() - 1]);
                assert(next[next.len() - 2] == seen.last());
                assert(before.last() == segments@[segments@.len() - 1]@);
            }
        }
        let left: i64 = word.x;
        let right: i64 = word.x + word.width;
        let count: usize = segments.len();
        if count > 0 && words_are_adjacent(
            &segments[count - 1].words[segments[count - 1].words.len() - 1],
            &word,
        ) {
            let segment = &mut segments[count - 1];
            segment.right = right;
            segment.text.append(word.text.as_str());
            segment.words.push(word);
            assert(segment_views(segments@) =~= before.update(
                before.len() - 1,
                extended(before.last(), word),
            ));
        } else {
            let text = word.text.clone();
            let mut first: Vec<Word> = Vec::new();
            first.push(word);
            segments.push(LineSegment { words: first, text, top, bottom, left, right });
            assert(segment_views(segments@) =~= before.push(
                fresh_segment(word, top as int, bottom as int),
            ));
        }
    }
    assert(words@.take(words@.len() as int) =~= words@);
    proof {
        lemma_segments(words@, top as int, bottom as int);
        assert forall|k: int| 0 <= k < segments@.len() implies well_shaped(
            (#[trigger] segments@[k])@,
            top as int,
            bottom as int,
        ) by {
            assert(segments@[k]@ == segment_views(segments@)[k]);
        }
    }
    segments
}

} // verus!
