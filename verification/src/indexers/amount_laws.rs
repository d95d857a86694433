//! What holds of the candidates that the scanner finds.

use vstd::prelude::*;
use crate::indexers::amount::{
    candidate_ranges, candidates, closed_after, closes, is_candidate, is_digit, is_separator,
    marks_candidate, only_amount_characters, state_after, step, ScanView,
};

verus! {

/// What the scanner has made sure of once it has read the first `count`
/// characters: a pending sign is the character just read, and an open run
/// has the shape of a candidate and is followed by separators only.
pub open spec fn state_fits(text: Seq<char>, state: ScanView, count: int) -> bool {
    match state {
        ScanView::Idle => true,
        ScanView::PendingSign { at } => at == count - 1 && 0 <= at && text[at] == '-',
        ScanView::InRun { start, end } => {
            &&& marks_candidate(text, start, end)
            &&& end <= count
            &&& forall|i: int| end <= i < count ==> is_separator(#[trigger] text[i])
        },
    }
}

/// Every run that was closed has the shape of a candidate and ends before
/// `limit`.
pub open spec fn all_marked(text: Seq<char>, ranges: Seq<(int, int)>, limit: int) -> bool {
    forall|k: int|
        0 <= k < ranges.len() ==> marks_candidate(text, (#[trigger] ranges[k]).0, ranges[k].1)
            && ranges[k].1 < limit
}

/// Where an open run or a pending sign begins, or `count` where there is
/// neither.
pub open spec fn frontier(state: ScanView, count: int) -> int {
    match state {
        ScanView::Idle => count,
        ScanView::PendingSign { at } => at,
        ScanView::InRun { start, end } => start,
    }
}

/// Each run ends before the next begins.
pub open spec fn apart(ranges: Seq<(int, int)>) -> bool {
    forall|k: int| 0 < k < ranges.len() ==> ranges[k - 1].1 < (#[trigger] ranges[k]).0
}

/// The position lies in the run.
pub open spec fn covers(range: (int, int), at: int) -> bool {
    range.0 <= at < range.1
}

/// The position lies in one of the runs.
pub open spec fn marked(ranges: Seq<(int, int)>, at: int) -> bool {
    exists|k: int| 0 <= k < ranges.len() && #[trigger] covers(ranges[k], at)
}

/// The position lies in the open run.
pub open spec fn held(state: ScanView, at: int) -> bool {
    match state {
        ScanView::InRun { start, end } => start <= at < end,
        _ => false,
    }
}

/// After any number of characters the scanner's state fits what it has read.
pub proof fn lemma_state_fits(text: Seq<char>, count: int)
    requires
        0 <= count <= text.len(),
    ensures
        state_fits(text, state_after(text, count), count),
    decreases count,
{
    if count > 0 {
        lemma_state_fits(text, count - 1);
    }
}

/// Every closed run is a candidate that ends before anything still open.
pub proof fn lemma_closed_marked(text: Seq<char>, count: int)
    requires
        0 <= count <= text.len(),
    ensures
        all_marked(text, closed_after(text, count), frontier(state_after(text, count), count)),
    decreases count,
{
    if count > 0 {
        lemma_closed_marked(text, count - 1);
        lemma_state_fits(text, count - 1);
        lemma_state_fits(text, count);
        let before = state_after(text, count - 1);
        let closed = closed_after(text, count - 1);
        let after = closed_after(text, count);
        let limit = frontier(state_after(text, count), count);
        assert(frontier(before, count - 1) <= limit);
        assert forall|k: int| 0 <= k < after.len() implies marks_candidate(
            text,
            (#[trigger] after[k]).0,
            after[k].1,
        ) && after[k].1 < limit by {
            if k < closed.len() {
                assert(after[k] == closed[k]);
            }
        }
    }
}

/// The closed runs stand apart, in the order of the text.
pub proof fn lemma_closed_apart(text: Seq<char>, count: int)
    requires
        0 <= count <= text.len(),
    ensures
        apart(closed_after(text, count)),
    decreases count,
{
    if count > 0 {
        lemma_closed_apart(text, count - 1);
        lemma_closed_marked(text, count - 1);
        lemma_state_fits(text, count - 1);
        let closed = closed_after(text, count - 1);
        let after = closed_after(text, count);
        assert forall|k: int| 0 < k < after.len() implies after[k - 1].1 < (#[trigger] after[k]).0 by {
            assert(after[k - 1] == closed[k - 1]);
            if k < closed.len() {
                assert(after[k] == closed[k]);
            }
        }
    }
}

/// Every digit read lies in a closed run or in the open one.
pub proof fn lemma_digits_marked(text: Seq<char>, count: int, at: int)
    requires
        0 <= at < count <= text.len(),
        is_digit(text[at]),
    ensures
        marked(closed_after(text, count), at) || held(state_after(text, count), at),
    decreases count,
{
    let before = state_after(text, count - 1);
    let c = text[count - 1];
    let closed = closed_after(text, count - 1);
    let after = closed_after(text, count);
    lemma_state_fits(text, count - 1);
    if at < count - 1 {
        lemma_digits_marked(text, count - 1, at);
        if marked(closed, at) {
            let k = choose|k: int| 0 <= k < closed.len() && #[trigger] covers(closed[k], at);
            assert(after[k] == closed[k]);
            assert(covers(after[k], at));
        } else if closes(before, c) {
            assert(covers(after[after.len() - 1], at));
        }
    }
}

/// The character is neither a digit nor a separator, so it ends a run.
pub open spec fn is_delimiter(c: char) -> bool {
    !is_digit(c) && !is_separator(c)
}

/// A character that ends a run stands at or behind `from` and before `to`.
pub open spec fn delimited(text: Seq<char>, from: int, to: int) -> bool {
    exists|i: int| from <= i < to && is_delimiter(#[trigger] text[i])
}

/// Between each run and the next stands a character that ends a run.
pub open spec fn set_apart(text: Seq<char>, ranges: Seq<(int, int)>) -> bool {
    forall|k: int|
        0 < k < ranges.len() ==> delimited(text, ranges[k - 1].1, (#[trigger] ranges[k]).0)
}

/// Where a minus sign stands directly before `at`, it has ended the last of
/// the runs: nothing but separators stands between that run and the sign.
pub open spec fn minus_ends_run(text: Seq<char>, ranges: Seq<(int, int)>, at: int) -> bool {
    at > 0 && text[at - 1] == '-' ==> ranges.len() > 0 && forall|i: int|
        ranges.last().1 <= i < at - 1 ==> is_separator(#[trigger] text[i])
}

/// A run that begins with a digit leaves out a minus sign directly before it
/// only where that sign has ended the run before.
pub open spec fn signs_taken(text: Seq<char>, ranges: Seq<(int, int)>) -> bool {
    forall|k: int|
        0 <= k < ranges.len() && is_digit(text[(#[trigger] ranges[k]).0]) ==> minus_ends_run(
            text,
            ranges.take(k),
            ranges[k].0,
        )
}

/// Where a run begins with a digit, or would begin if the next character
/// were one.
pub open spec fn digit_start(text: Seq<char>, state: ScanView, count: int) -> Option<int> {
    match state {
        ScanView::Idle => Some(count),
        ScanView::PendingSign { at } => None,
        ScanView::InRun { start, end } => if is_digit(text[start]) {
            Some(start)
        } else {
            None
        },
    }
}

/// Between the closed runs, and between the last of them and anything still
/// open, stands a character that ends a run.
pub proof fn lemma_closed_set_apart(text: Seq<char>, count: int)
    requires
        0 <= count <= text.len(),
    ensures
        set_apart(text, closed_after(text, count)),
        closed_after(text, count).len() > 0 ==> delimited(
            text,
            closed_after(text, count).last().1,
            frontier(state_after(text, count), count),
        ),
    decreases count,
{
    if count > 0 {
        lemma_closed_set_apart(text, count - 1);
        lemma_state_fits(text, count - 1);
        let before = state_after(text, count - 1);
        let now = state_after(text, count);
        let c = text[count - 1];
        let closed = closed_after(text, count - 1);
        let after = closed_after(text, count);
        assert(frontier(before, count - 1) <= frontier(now, count));
        if closes(before, c) {
            assert(is_delimiter(text[count - 1]));
            assert(after.drop_last() =~= closed);
            assert forall|k: int| 0 < k < after.len() implies delimited(
                text,
                after[k - 1].1,
                (#[trigger] after[k]).0,
            ) by {
                if k < closed.len() {
                    assert(after[k] == closed[k]);
                    assert(after[k - 1] == closed[k - 1]);
                    assert(delimited(text, closed[k - 1].1, closed[k].0));
                } else {
                    assert(after[k - 1] == closed.last());
                }
            }
        } else if closed.len() > 0 {
            let i = choose|i: int|
                closed.last().1 <= i < frontier(before, count - 1) && is_delimiter(
                    #[trigger] text[i],
                );
            assert(is_delimiter(text[i]));
        }
    }
}

/// No closed run has left out a sign that it should have taken, and neither
/// has the open run, nor will a run that begins with the next character.
pub proof fn lemma_closed_signs_taken(text: Seq<char>, count: int)
    requires
        0 <= count <= text.len(),
    ensures
        signs_taken(text, closed_after(text, count)),
        match digit_start(text, state_after(text, count), count) {
            Some(at) => minus_ends_run(text, closed_after(text, count), at),
            None => true,
        },
    decreases count,
{
    if count > 0 {
        lemma_closed_signs_taken(text, count - 1);
        lemma_state_fits(text, count - 1);
        let before = state_after(text, count - 1);
        let c = text[count - 1];
        let closed = closed_after(text, count - 1);
        let after = closed_after(text, count);
        if closes(before, c) {
            assert(after.drop_last() =~= closed);
            assert forall|k: int|
                0 <= k < after.len() && is_digit(text[(#[trigger] after[k]).0]) implies minus_ends_run(
                text,
                after.take(k),
                after[k].0,
            ) by {
                if k < closed.len() {
                    assert(after[k] == closed[k]);
                    assert(after.take(k) =~= closed.take(k));
                } else {
                    assert(after.take(k) =~= closed);
                }
            }
        }
    } else {
        assert(closed_after(text, count) =~= Seq::<(int, int)>::empty());
    }
}

/// Between each candidate and the next stands a character that is neither a
/// digit nor a separator, and a candidate that begins with a digit leaves out
/// a minus sign directly before it only where that sign has ended the
/// candidate before.
pub proof fn lemma_candidates_longest(text: Seq<char>)
    ensures
        set_apart(text, candidate_ranges(text)),
        signs_taken(text, candidate_ranges(text)),
{
    let count = text.len() as int;
    lemma_closed_set_apart(text, count);
    lemma_closed_signs_taken(text, count);
    lemma_state_fits(text, count);
    let closed = closed_after(text, count);
    let ranges = candidate_ranges(text);
    assert forall|k: int| 0 < k < ranges.len() implies delimited(
        text,
        ranges[k - 1].1,
        (#[trigger] ranges[k]).0,
    ) by {
        assert(ranges[k - 1] == closed[k - 1]);
        if k < closed.len() {
            assert(ranges[k] == closed[k]);
            assert(delimited(text, closed[k - 1].1, closed[k].0));
        }
    }
    assert forall|k: int|
        0 <= k < ranges.len() && is_digit(text[(#[trigger] ranges[k]).0]) implies minus_ends_run(
        text,
        ranges.take(k),
        ranges[k].0,
    ) by {
        if k < closed.len() {
            assert(ranges[k] == closed[k]);
            assert(ranges.take(k) =~= closed.take(k));
        } else {
            assert(ranges.take(k) =~= closed);
        }
    }
}

/// The candidates are what the scanner has marked: each has the shape of a
/// candidate, and each ends before the next begins.
pub proof fn lemma_candidate_ranges(text: Seq<char>)
    ensures
        candidates(text).len() == candidate_ranges(text).len(),
        forall|k: int|
            0 <= k < candidate_ranges(text).len() ==> marks_candidate(
                text,
                (#[trigger] candidate_ranges(text)[k]).0,
                candidate_ranges(text)[k].1,
            ),
        apart(candidate_ranges(text)),
{
    let count = text.len() as int;
    lemma_state_fits(text, count);
    lemma_closed_marked(text, count);
    lemma_closed_apart(text, count);
    let closed = closed_after(text, count);
    let ranges = candidate_ranges(text);
    assert forall|k: int| 0 <= k < ranges.len() implies marks_candidate(
        text,
        (#[trigger] ranges[k]).0,
        ranges[k].1,
    ) by {
        if k < closed.len() {
            assert(ranges[k] == closed[k]);
        }
    }
    assert forall|k: int| 0 < k < ranges.len() implies ranges[k - 1].1 < (#[trigger] ranges[k]).0 by {
        assert(ranges[k - 1] == closed[k - 1]);
        if k < closed.len() {
            assert(ranges[k] == closed[k]);
        }
    }
}

/// Every digit of the text lies in one of its candidates.
pub proof fn lemma_every_digit_in_a_candidate(text: Seq<char>, at: int)
    requires
        0 <= at < text.len(),
        is_digit(text[at]),
    ensures
        marked(candidate_ranges(text), at),
{
    let count = text.len() as int;
    lemma_digits_marked(text, count, at);
    let closed = closed_after(text, count);
    let ranges = candidate_ranges(text);
    if marked(closed, at) {
        let k = choose|k: int| 0 <= k < closed.len() && #[trigger] covers(closed[k], at);
        assert(ranges[k] == closed[k]);
        assert(covers(ranges[k], at));
    } else {
        assert(covers(ranges[ranges.len() - 1], at));
    }
}

/// A part of a text that is marked as a candidate has, taken by itself, the
/// shape of a candidate.
pub proof fn lemma_marked_part(text: Seq<char>, start: int, end: int)
    requires
        marks_candidate(text, start, end),
    ensures
        is_candidate(text.subrange(start, end)),
        only_amount_characters(text.subrange(start, end)),
{
    let part = text.subrange(start, end);
    assert forall|i: int| 0 < i < part.len() implies is_digit(#[trigger] part[i]) || is_separator(
        part[i],
    ) by {
        assert(part[i] == text[start + i]);
    }
    assert(part[0] == text[start]);
    assert(part[part.len() - 1] == text[end - 1]);
    if !is_digit(part[0]) {
        assert(part[1] == text[start + 1]);
    }
}

/// Every candidate begins with a digit, or with a minus sign and a digit,
/// goes on in digits, commas and periods, and ends with a digit.
pub proof fn lemma_candidates(text: Seq<char>)
    ensures
        forall|k: int|
            0 <= k < candidates(text).len() ==> is_candidate(#[trigger] candidates(text)[k])
                && only_amount_characters(candidates(text)[k]),
{
    lemma_candidate_ranges(text);
    let ranges = candidate_ranges(text);
    assert forall|k: int| 0 <= k < candidates(text).len() implies is_candidate(
        #[trigger] candidates(text)[k],
    ) && only_amount_characters(candidates(text)[k]) by {
        assert(marks_candidate(text, ranges[k].0, ranges[k].1));
        lemma_marked_part(text, ranges[k].0, ranges[k].1);
    }
}

/// A text without a digit has no candidate.
pub proof fn lemma_no_digit_no_candidate(text: Seq<char>)
    requires
        forall|i: int| 0 <= i < text.len() ==> !is_digit(#[trigger] text[i]),
    ensures
        candidates(text).len() == 0,
{
    lemma_candidate_ranges(text);
    let ranges = candidate_ranges(text);
    if ranges.len() > 0 {
        assert(marks_candidate(text, ranges[0].0, ranges[0].1));
        assert(is_digit(text[ranges[0].1 - 1]));
    }
}

} // verus!
