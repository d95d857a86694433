//! What holds of the segments that a line is split into.

use vstd::prelude::*;
use crate::models::Word;
use crate::partitioners::line::LineView;
use crate::partitioners::line_laws::lemma_every_word_in_one_line;
use crate::partitioners::line_segment::{
    adjacent, extended, fresh_segment, is_run, joined_text, partition_spec, runs_are_longest,
    segmented, well_shaped, words_of, LineSegmentView,
};

verus! {

/// A word alone forms one segment, which reaches as far as the word does.
pub proof fn lemma_single_word(word: Word, top: int, bottom: int)
    ensures
        segmented(seq![word], top, bottom) == seq![fresh_segment(word, top, bottom)],
{
}

/// Two words form one segment with their texts joined where the second is
/// adjacent to the first, and a segment each where it is not.
pub proof fn lemma_two_words(a: Word, b: Word, top: int, bottom: int)
    ensures
        adjacent(a, b) ==> segmented(seq![a, b], top, bottom) == seq![
            LineSegmentView {
                words: seq![a, b],
                text: a.text@ + b.text@,
                top,
                bottom,
                left: a.left(),
                right: b.right(),
            },
        ],
        !adjacent(a, b) ==> segmented(seq![a, b], top, bottom) == seq![
            fresh_segment(a, top, bottom),
            fresh_segment(b, top, bottom),
        ],
{
    let words = seq![a, b];
    assert(words.drop_last() =~= seq![a]);
    lemma_single_word(a, top, bottom);
    let before = segmented(words.drop_last(), top, bottom);
    if adjacent(a, b) {
        assert(extended(before.last(), b).words =~= seq![a, b]);
        assert(segmented(words, top, bottom) =~= seq![extended(before.last(), b)]);
    } else {
        assert(segmented(words, top, bottom) =~= seq![
            fresh_segment(a, top, bottom),
            fresh_segment(b, top, bottom),
        ]);
    }
}

/// The segments hold the words of the line, each once and in the order of
/// the line. Every segment is a run of adjacent words with their joined text
/// and the extent they cover, and no run could have been longer.
pub proof fn lemma_segments(words: Seq<Word>, top: int, bottom: int)
    ensures
        segmented(words, top, bottom).len() <= words.len(),
        words.len() > 0 ==> segmented(words, top, bottom).len() > 0,
        words_of(segmented(words, top, bottom)) == words,
        forall|k: int|
            0 <= k < segmented(words, top, bottom).len() ==> well_shaped(
                #[trigger] segmented(words, top, bottom)[k],
                top,
                bottom,
            ),
        runs_are_longest(segmented(words, top, bottom)),
        words.len() > 0 ==> segmented(words, top, bottom).last().words.last() == words.last(),
    decreases words.len(),
{
    let segments = segmented(words, top, bottom);
    if words.len() == 0 {
        assert(words_of(segments) =~= words);
    } else if words.len() == 1 {
        let only = fresh_segment(words.last(), top, bottom);
        assert(segments.drop_last() =~= Seq::<LineSegmentView>::empty());
        assert(words_of(segments) =~= words) by {
            reveal_with_fuel(words_of, 2);
        }
        assert(joined_text(only.words) =~= only.text) by {
            reveal_with_fuel(joined_text, 2);
        }
    } else {
        let front = words.drop_last();
        let word = words.last();
        let before = segmented(front, top, bottom);
        lemma_segments(front, top, bottom);
        assert(front.last() == words[words.len() - 2]);
        assert(front.push(word) =~= words);
        if adjacent(words[words.len() - 2], word) {
            let grown = extended(before.last(), word);
            assert(segments.drop_last() =~= before.drop_last());
            assert(words_of(segments) =~= words);
            assert(grown.words.drop_last() =~= before.last().words);
            assert forall|i: int| 0 < i < grown.words.len() implies adjacent(
                grown.words[i - 1],
                #[trigger] grown.words[i],
            ) by {
                if i < before.last().words.len() {
                    assert(adjacent(before.last().words[i - 1], before.last().words[i]));
                }
            }
            assert(well_shaped(before.last(), top, bottom));
            assert(well_shaped(grown, top, bottom));
            assert forall|k: int| 0 <= k < segments.len() implies well_shaped(
                #[trigger] segments[k],
                top,
                bottom,
            ) by {
                if k < segments.len() - 1 {
                    assert(segments[k] == before[k]);
                }
            }
            assert forall|k: int| 0 < k < segments.len() implies !adjacent(
                segments[k - 1].words.last(),
                (#[trigger] segments[k]).words.first(),
            ) by {
                assert(segments[k - 1] == before[k - 1]);
                assert(segments[k].words.first() == before[k].words.first());
            }
        } else {
            let opened = fresh_segment(word, top, bottom);
            assert(segments.drop_last() =~= before);
            assert(words_of(segments) =~= words);
            assert(joined_text(opened.words) =~= opened.text) by {
                reveal_with_fuel(joined_text, 2);
            }
            assert forall|k: int| 0 <= k < segments.len() implies well_shaped(
                #[trigger] segments[k],
                top,
                bottom,
            ) by {
                if k < segments.len() - 1 {
                    assert(segments[k] == before[k]);
                }
            }
            assert forall|k: int| 0 < k < segments.len() implies !adjacent(
                segments[k - 1].words.last(),
                (#[trigger] segments[k]).words.first(),
            ) by {
                if k < segments.len() - 1 {
                    assert(segments[k - 1] == before[k - 1]);
                    assert(segments[k] == before[k]);
                }
            }
        }
    }
}

/// The words of the segments of all the lines, line after line.
pub open spec fn segment_words_of(lines: Seq<LineView>) -> Seq<Word>
    decreases lines.len(),
{
    if lines.len() == 0 {
        Seq::empty()
    } else {
        segment_words_of(lines.drop_last()) + words_of(partition_spec(lines.last()))
    }
}

/// The segments of lines hold the words of the lines, in their order.
pub proof fn lemma_segments_of_lines(lines: Seq<LineView>)
    ensures
        segment_words_of(lines) == crate::partitioners::line::words_of(lines),
    decreases lines.len(),
{
    if lines.len() > 0 {
        lemma_segments_of_lines(lines.drop_last());
        lemma_segments(lines.last().words, lines.last().top, lines.last().bottom);
    }
}

/// Every word is in exactly one segment: the segments of the lines that the
/// words form hold each word as often as it was given.
pub proof fn lemma_every_word_in_one_segment(words: Seq<Word>)
    ensures
        segment_words_of(crate::partitioners::line::partition_spec(words)).to_multiset()
            == words.to_multiset(),
{
    lemma_segments_of_lines(crate::partitioners::line::partition_spec(words));
    lemma_every_word_in_one_line(words);
}

} // verus!
