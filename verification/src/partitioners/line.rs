//! Groups words into horizontal lines by the overlap of their vertical
//! extents.
//!
//! Words are taken in the order given. Each joins the earliest line whose
//! extent it overlaps by more than nine tenths of their union, and the line
//! grows to cover it; a word that fits no line opens a new one at the end.
//! Once every word has a line, the words of each line are put in ascending
//! order of `x`, words of equal `x` staying in the order in which they came.

use vstd::prelude::*;
use crate::models::{all_well_formed, Word};
use crate::partitioners::line_laws::{
    lemma_every_word_in_one_line, lemma_extents, lemma_line_count, lemma_lines_in_reading_order,
    lemma_partition_words_given,
};

verus! {

/// Numerator of the share of the union that two extents must have in common.
pub const OVERLAP_NUMERATOR: u32 = 9;

/// Denominator of the share of the union that two extents must have in common.
pub const OVERLAP_DENOMINATOR: u32 = 10;

/// Words that lie on one horizontal line, with the extent they cover.
#[derive(Debug, PartialEq, Eq)]
pub struct Line {
    pub words: Vec<Word>,
    pub top: i64,
    pub bottom: i64,
}

/// What a `Line` holds, as mathematical values.
pub struct LineView {
    pub words: Seq<Word>,
    pub top: int,
    pub bottom: int,
}

impl View for Line {
    type V = LineView;

    open spec fn view(&self) -> LineView {
        LineView { words: self.words@, top: self.top as int, bottom: self.bottom as int }
    }
}

/// The views of a sequence of lines.
pub open spec fn line_views(lines: Seq<Line>) -> Seq<LineView> {
    lines.map_values(|line: Line| line@)
}

/// Length of the part that the intervals `[a1, a2]` and `[b1, b2]` share.
pub open spec fn intersection(a1: int, a2: int, b1: int, b2: int) -> int {
    let low = if a1 >= b1 { a1 } else { b1 };
    let high = if a2 <= b2 { a2 } else { b2 };
    if high > low { high - low } else { 0 }
}

/// Length of the part that the intervals `[a1, a2]` and `[b1, b2]` cover
/// together.
pub open spec fn union_length(a1: int, a2: int, b1: int, b2: int) -> int {
    (a2 - a1) + (b2 - b1) - intersection(a1, a2, b1, b2)
}

/// The intervals `[a1, a2]` and `[b1, b2]` cover something, and the part they
/// share is more than `numerator / denominator` of it.
pub open spec fn overlaps(a1: int, a2: int, b1: int, b2: int, numerator: int, denominator: int)
    -> bool {
    &&& union_length(a1, a2, b1, b2) > 0
    &&& intersection(a1, a2, b1, b2) * denominator > union_length(a1, a2, b1, b2) * numerator
}

/// The line's extent overlaps that of the word by more than the threshold.
pub open spec fn line_takes(line: LineView, word: Word) -> bool {
    overlaps(
        line.top,
        line.bottom,
        word.top(),
        word.bottom(),
        OVERLAP_NUMERATOR as int,
        OVERLAP_DENOMINATOR as int,
    )
}

/// Index of the earliest line at or after `from` that takes the word, or the
/// number of lines if none does.
pub open spec fn first_fit_from(lines: Seq<LineView>, word: Word, from: int) -> int
    decreases lines.len() - from,
{
    if from < 0 || from >= lines.len() {
        lines.len() as int
    } else if line_takes(lines[from], word) {
        from
    } else {
        first_fit_from(lines, word, from + 1)
    }
}

/// Index of the earliest line that takes the word, or the number of lines if
/// none does.
pub open spec fn first_fit(lines: Seq<LineView>, word: Word) -> int {
    first_fit_from(lines, word, 0)
}

/// The line after it has been given one more word.
pub open spec fn absorb(line: LineView, word: Word) -> LineView {
    LineView {
        words: line.words.push(word),
        top: if word.top() < line.top { word.top() } else { line.top },
        bottom: if word.bottom() > line.bottom { word.bottom() } else { line.bottom },
    }
}

/// The line that a word opens.
pub open spec fn fresh_line(word: Word) -> LineView {
    LineView { words: seq![word], top: word.top(), bottom: word.bottom() }
}

/// The lines after one more word has been assigned.
pub open spec fn place(lines: Seq<LineView>, word: Word) -> Seq<LineView> {
    let k = first_fit(lines, word);
    if k < lines.len() {
        lines.update(k, absorb(lines[k], word))
    } else {
        lines.push(fresh_line(word))
    }
}

/// The lines that the words form, each holding its words in the order in
/// which they came.
pub open spec fn grouped(words: Seq<Word>) -> Seq<LineView>
    decreases words.len(),
{
    if words.len() == 0 {
        Seq::empty()
    } else {
        place(grouped(words.drop_last()), words.last())
    }
}

/// `sorted` with `word` put behind every word whose `x` is not greater.
pub open spec fn insert_by_x(sorted: Seq<Word>, word: Word) -> Seq<Word>
    decreases sorted.len(),
{
    if sorted.len() == 0 {
        seq![word]
    } else if sorted.last().x <= word.x {
        sorted.push(word)
    } else {
        insert_by_x(sorted.drop_last(), word).push(sorted.last())
    }
}

/// The words in ascending order of `x`; words of equal `x` keep their order.
pub open spec fn sorted_by_x(words: Seq<Word>) -> Seq<Word>
    decreases words.len(),
{
    if words.len() == 0 {
        Seq::empty()
    } else {
        insert_by_x(sorted_by_x(words.drop_last()), words.last())
    }
}

/// The line with its words in reading order.
pub open spec fn in_reading_order(line: LineView) -> LineView {
    LineView { words: sorted_by_x(line.words), top: line.top, bottom: line.bottom }
}

/// The lines that `partition` makes of the words.
pub open spec fn partition_spec(words: Seq<Word>) -> Seq<LineView> {
    grouped(words).map_values(|line: LineView| in_reading_order(line))
}

/// The words of all the lines, line after line.
pub open spec fn words_of(lines: Seq<LineView>) -> Seq<Word>
    decreases lines.len(),
{
    if lines.len() == 0 {
        Seq::empty()
    } else {
        words_of(lines.drop_last()) + lines.last().words
    }
}

/// The words stand in ascending order of `x`.
pub open spec fn ordered_by_x(words: Seq<Word>) -> bool {
    forall|i: int, j: int| 0 <= i <= j < words.len() ==> words[i].x <= words[j].x
}

/// The line has a word, and its extent is the least that covers the vertical
/// extents of all its words.
pub open spec fn extent_is_union(line: LineView) -> bool {
    &&& forall|i: int|
        0 <= i < line.words.len() ==> line.top <= (#[trigger] line.words[i]).top()
            && line.words[i].bottom() <= line.bottom
    &&& exists|i: int| 0 <= i < line.words.len() && (#[trigger] line.words[i]).top() == line.top
    &&& exists|i: int|
        0 <= i < line.words.len() && (#[trigger] line.words[i]).bottom() == line.bottom
}

/// Tells whether two vertical intervals share more than
/// `numerator / denominator` of what they cover together.
pub fn overlap(a1: i64, a2: i64, b1: i64, b2: i64, numerator: u32, denominator: u32) -> (matched:
    bool)
    ensures
        matched == overlaps(
            a1 as int,
            a2 as int,
            b1 as int,
            b2 as int,
            numerator as int,
            denominator as int,
        ),
{
    let low: i128 = if a1 >= b1 { a1 as i128 } else { b1 as i128 };
    let high: i128 = if a2 <= b2 { a2 as i128 } else { b2 as i128 };
    let shared: i128 = if high > low { high - low } else { 0 };
    let covered: i128 = (a2 as i128 - a1 as i128) + (b2 as i128 - b1 as i128) - shared;
    assert(0 <= shared * (denominator as i128) <= 0x1_0000_0000_0000_0000 * 0x1_0000_0000)
        by (nonlinear_arith)
        requires
            0 <= shared <= 0x1_0000_0000_0000_0000,
            0 <= denominator <= 0x1_0000_0000,
    ;
    assert(-0x4_0000_0000_0000_0000 * 0x1_0000_0000 <= covered * (numerator as i128)
        <= 0x4_0000_0000_0000_0000 * 0x1_0000_0000) by (nonlinear_arith)
        requires
            -0x4_0000_0000_0000_0000 <= covered <= 0x4_0000_0000_0000_0000,
            0 <= numerator <= 0x1_0000_0000,
    ;
    covered > 0 && shared * (denominator as i128) > covered * (numerator as i128)
}

/// Putting a word behind every word whose `x` is not greater is an insertion
/// at the place where the greater words begin.
pub proof fn lemma_insert_by_x_at(sorted: Seq<Word>, word: Word, at: int)
    requires
        0 <= at <= sorted.len(),
        forall|j: int| at <= j < sorted.len() ==> (#[trigger] sorted[j]).x > word.x,
        at > 0 ==> sorted[at - 1].x <= word.x,
    ensures
        insert_by_x(sorted, word) == sorted.insert(at, word),
    decreases sorted.len(),
{
    if sorted.len() == 0 {
        assert(seq![word] =~= sorted.insert(at, word));
    } else if at == sorted.len() {
        assert(sorted.push(word) =~= sorted.insert(at, word));
    } else {
        let front = sorted.drop_last();
        lemma_insert_by_x_at(front, word, at);
        assert(front.insert(at, word).push(sorted.last()) =~= sorted.insert(at, word));
    }
}

/// Puts the words in ascending order of `x`, keeping words of equal `x` in
/// the order in which they were given.
pub fn sort_by_x(words: Vec<Word>) -> (sorted: Vec<Word>)
    ensures
        sorted@ == sorted_by_x(words@),
{
    let mut sorted: Vec<Word> = Vec::new();
    for word in it: words
        invariant
            it.seq() == words@,
            sorted@ == sorted_by_x(it.seq().take(it.index())),
    {
        let mut at: usize = sorted.len();
        while at > 0 && sorted[at - 1].x > word.x
            invariant
                at <= sorted.len(),
                forall|j: int| at <= j < sorted.len() ==> (#[trigger] sorted@[j]).x > word.x,
            decreases at,
        {
            at -= 1;
        }
        proof {
            let seen = it.seq().take(it.index());
            let next = it.seq().take(it.index() + 1);
            assert(next.drop_last() =~= seen);
            assert(next.last() == word);
            lemma_insert_by_x_at(sorted@, word, at as int);
        }
        sorted.insert(at, word);
    }
    assert(words@.take(words@.len() as int) =~= words@);
    sorted
}

/// Groups the words into lines.
///
/// The lines stand in the order in which their first words came, and the words
/// of each line in ascending order of `x`.
pub fn partition(words: Vec<Word>) -> (lines: Vec<Line>)
    requires
        all_well_formed(words@),
    ensures
        line_views(lines@) == partition_spec(words@),
        lines@.len() <= words@.len(),
        words_of(line_views(lines@)).to_multiset() == words@.to_multiset(),
        forall|k: int| 0 <= k < lines@.len() ==> ordered_by_x((#[trigger] lines@[k]).words@),
        forall|k: int| 0 <= k < lines@.len() ==> extent_is_union((#[trigger] lines@[k])@),
        forall|k: int, i: int|
            0 <= k < lines@.len() && 0 <= i < lines@[k].words@.len() ==> words@.contains(
                #[trigger] lines@[k].words@[i],
            ),
{
    let mut partial: Vec<Line> = Vec::new();
    for word in it: words
        invariant
            it.seq() == words@,
            all_well_formed(words@),
            line_views(partial@) == grouped(it.seq().take(it.index())),
    {
        let ghost seen = it.seq().take(it.index());
        let ghost next = it.seq().take(it.index() + 1);
        let ghost before = line_views(partial@);
        assert(word == words@[it.index()]);
        assert(word.well_formed());
        let bottom: i64 = word.y + word.height;
        let mut k: usize = 0;
        while k < partial.len() && !overlap(
            partial[k].top,
            partial[k].bottom,
            word.y,
            bottom,
            OVERLAP_NUMERATOR,
            OVERLAP_DENOMINATOR,
        )
            invariant
                k <= partial.len(),
                bottom == word.bottom(),
                before == line_views(partial@),
                first_fit(before, word) == first_fit_from(before, word, k as int),
            decreases partial.len() - k,
        {
            k += 1;
        }
        proof {
            assert(next.drop_last() =~= seen);
            assert(next.last() == word);
            assert(first_fit(before, word) == k);
        }
        if k < partial.len() {
            let line = &mut partial[k];
            if word.y < line.top {
                line.top = word.y;
            }
            if bottom > line.bottom {
                line.bottom = bottom;
            }
            line.words.push(word);
            assert(line_views(partial@) =~= place(before, word));
        } else {
            let mut first: Vec<Word> = Vec::new();
            let top: i64 = word.y;
            first.push(word);
            partial.push(Line { words: first, top, bottom });
            assert(line_views(partial@) =~= place(before, word));
        }
    }
    assert(words@.take(words@.len() as int) =~= words@);
    let ghost groups = line_views(partial@);
    let mut lines: Vec<Line> = Vec::new();
    for line in it: partial
        invariant
            line_views(it.seq()) == groups,
            lines@.len() == it.index(),
            forall|j: int|
                0 <= j < it.index() ==> (#[trigger] lines@[j])@ == in_reading_order(groups[j]),
    {
        assert(line@ == groups[it.index()]);
        let Line { words: unsorted, top, bottom } = line;
        let sorted = sort_by_x(unsorted);
        lines.push(Line { words: sorted, top, bottom });
    }
    assert(line_views(lines@) =~= partition_spec(words@));
    proof {
        lemma_line_count(words@);
        lemma_every_word_in_one_line(words@);
        lemma_lines_in_reading_order(words@);
        lemma_extents(words@);
        lemma_partition_words_given(words@);
        assert forall|k: int, i: int|
            0 <= k < lines@.len() && 0 <= i < lines@[k].words@.len() implies words@.contains(
            #[trigger] lines@[k].words@[i],
        ) by {
            assert(lines@[k]@ == partition_spec(words@)[k]);
            assert(lines@[k].words@[i] == partition_spec(words@)[k].words[i]);
        }
        assert forall|k: int| 0 <= k < lines@.len() implies ordered_by_x(
            (#[trigger] lines@[k]).words@,
        ) && extent_is_union(lines@[k]@) by {
            assert(lines@[k]@ == partition_spec(words@)[k]);
        }
    }
    lines
}

} // verus!
