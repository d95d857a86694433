//! From the words of a page to the amounts written on it.

use vstd::prelude::*;
use crate::indexers::amount::{all_amounts_well_formed, amounts_in, parse_amounts, Amount};
use crate::models::{all_legible, Word};
use crate::partitioners::line::LineView;
use crate::partitioners::line_segment::LineSegmentView;

verus! {

/// The amounts written in the segments, segment after segment.
pub open spec fn amounts_of_segments(segments: Seq<LineSegmentView>) -> Seq<Amount>
    decreases segments.len(),
{
    if segments.len() == 0 {
        Seq::empty()
    } else {
        amounts_of_segments(segments.drop_last()) + amounts_in(segments.last().text)
    }
}

/// The amounts written in the lines, line after line.
pub open spec fn amounts_of_lines(lines: Seq<LineView>) -> Seq<Amount>
    decreases lines.len(),
{
    if lines.len() == 0 {
        Seq::empty()
    } else {
        amounts_of_lines(lines.drop_last()) + amounts_of_segments(
            crate::partitioners::line_segment::partition_spec(lines.last()),
        )
    }
}

/// The amounts that `index_amounts` finds in the words.
pub open spec fn index_spec(words: Seq<Word>) -> Seq<Amount> {
    amounts_of_lines(crate::partitioners::line::partition_spec(words))
}

/// Finds the amounts written in the words of a page.
///
/// The words are grouped into lines and the lines split into segments; the
/// amounts come in the order of the lines, within a line in the order of its
/// segments, and within a segment in the order of its text.
pub fn index_amounts(words: Vec<Word>) -> (amounts: Vec<Amount>)
    requires
        all_legible(words@),
    ensures
        amounts@ == index_spec(words@),
        all_amounts_well_formed(amounts@),
{
    let mut amounts: Vec<Amount> = Vec::new();
    let lines = crate::partitioners::line::partition(words);
    let ghost line_views = crate::partitioners::line::line_views(lines@);
    proof {
        assert forall|k: int| 0 <= k < lines@.len() implies all_legible(
            (#[trigger] lines@[k]).words@,
        ) by {
            assert forall|i: int| 0 <= i < lines@[k].words@.len() implies (
            #[trigger] lines@[k].words@[i]).well_formed() && lines@[k].words@[i].has_text() by {
                assert(words@.contains(lines@[k].words@[i]));
            }
        }
    }
    for line in it: lines
        invariant
            it.seq() == lines@,
            line_views == crate::partitioners::line::line_views(lines@),
            forall|k: int| 0 <= k < lines@.len() ==> all_legible((#[trigger] lines@[k]).words@),
            amounts@ == amounts_of_lines(line_views.take(it.index())),
            all_amounts_well_formed(amounts@),
    {
        let ghost done = amounts@;
        let ghost line_view = line@;
        proof {
            assert(line == lines@[it.index()]);
            assert(line_views.take(it.index() + 1).drop_last() =~= line_views.take(it.index()));
            assert(line_views.take(it.index() + 1).last() == line_view);
        }
        let segments = crate::partitioners::line_segment::partition(line);
        let ghost segment_views = crate::partitioners::line_segment::segment_views(segments@);
        for segment in inner: segments
            invariant
                inner.seq() == segments@,
                segment_views == crate::partitioners::line_segment::segment_views(segments@),
                amounts@ == done + amounts_of_segments(segment_views.take(inner.index())),
                all_amounts_well_formed(amounts@),
        {
            proof {
                assert(segment_views.take(inner.index() + 1).drop_last() =~= segment_views.take(
                    inner.index(),
                ));
                assert(segment_views.take(inner.index() + 1).last() == segment@);
            }
            let ghost so_far = amounts@;
            let mut found = parse_amounts(segment.text.as_str());
            let ghost read = found@;
            amounts.append(&mut found);
            assert forall|i: int| 0 <= i < amounts@.len() implies (
            #[trigger] amounts@[i]).well_formed() by {
                if i < so_far.len() {
                    assert(amounts@[i] == so_far[i]);
                } else {
                    assert(amounts@[i] == read[i - so_far.len()]);
                }
            }
            assert(amounts@ =~= done + amounts_of_segments(
                segment_views.take(inner.index() + 1),
            ));
        }
        assert(segment_views.take(segments@.len() as int) =~= segment_views);
    }
    assert(line_views.take(lines@.len() as int) =~= line_views);
    amounts
}

} // verus!
