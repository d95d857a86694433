//! What holds of the lines that words are grouped into.

use vstd::prelude::*;
use vstd::seq_lib::lemma_multiset_commutative;
use crate::models::Word;
use crate::partitioners::line::{
    absorb, extent_is_union, first_fit, first_fit_from, fresh_line, grouped, in_reading_order,
    insert_by_x, line_takes, ordered_by_x, partition_spec, place, sorted_by_x, words_of, LineView,
};

verus! {

/// The search for a line ends at a line that takes the word, past every line
/// that does not, or behind the last line.
pub proof fn lemma_first_fit_from(lines: Seq<LineView>, word: Word, from: int)
    requires
        0 <= from <= lines.len(),
    ensures
        from <= first_fit_from(lines, word, from) <= lines.len(),
        first_fit_from(lines, word, from) < lines.len() ==> line_takes(
            lines[first_fit_from(lines, word, from)],
            word,
        ),
        forall|j: int|
            from <= j < first_fit_from(lines, word, from) ==> !line_takes(#[trigger] lines[j], word),
    decreases lines.len() - from,
{
    if from < lines.len() && !line_takes(lines[from], word) {
        lemma_first_fit_from(lines, word, from + 1);
    }
}

/// Assigning one more word keeps every line and adds at most one.
pub proof fn lemma_place_len(lines: Seq<LineView>, word: Word)
    ensures
        lines.len() <= place(lines, word).len() <= lines.len() + 1,
{
    lemma_first_fit_from(lines, word, 0);
}

/// There are at most as many lines as words, and at least one line where
/// there is a word.
pub proof fn lemma_line_count(words: Seq<Word>)
    ensures
        partition_spec(words).len() == grouped(words).len(),
        grouped(words).len() <= words.len(),
        words.len() > 0 ==> grouped(words).len() > 0,
    decreases words.len(),
{
    if words.len() > 0 {
        lemma_line_count(words.drop_last());
        lemma_place_len(grouped(words.drop_last()), words.last());
    }
}

/// A word alone forms one line, whose extent is the word's own.
pub proof fn lemma_single_word(word: Word)
    ensures
        partition_spec(seq![word]) == seq![fresh_line(word)],
        partition_spec(seq![word])[0].top == word.y,
        partition_spec(seq![word])[0].bottom == word.y + word.height,
{
    let words = seq![word];
    assert(words.drop_last() =~= Seq::<Word>::empty());
    assert(grouped(words.drop_last()) =~= Seq::<LineView>::empty());
    assert(grouped(words) =~= seq![fresh_line(word)]) by {
        reveal_with_fuel(grouped, 2);
    }
    assert(sorted_by_x(words) =~= words) by {
        reveal_with_fuel(sorted_by_x, 2);
    }
    assert(partition_spec(words) =~= seq![fresh_line(word)]);
}

/// A word put into its place is one more word, and the others stay.
pub proof fn lemma_insert_by_x_multiset(sorted: Seq<Word>, word: Word)
    ensures
        insert_by_x(sorted, word).to_multiset() == sorted.to_multiset().insert(word),
        insert_by_x(sorted, word).len() == sorted.len() + 1,
    decreases sorted.len(),
{
    broadcast use vstd::seq_lib::group_to_multiset_ensures;

    if sorted.len() > 0 && sorted.last().x > word.x {
        let front = sorted.drop_last();
        lemma_insert_by_x_multiset(front, word);
        assert(front.push(sorted.last()) =~= sorted);
        assert(insert_by_x(sorted, word).to_multiset() =~= sorted.to_multiset().insert(word));
    } else if sorted.len() == 0 {
        assert(seq![word] =~= sorted.push(word));
    }
}

/// Sorting neither loses a word nor repeats one.
pub proof fn lemma_sorted_by_x_multiset(words: Seq<Word>)
    ensures
        sorted_by_x(words).to_multiset() == words.to_multiset(),
        sorted_by_x(words).len() == words.len(),
    decreases words.len(),
{
    broadcast use vstd::seq_lib::group_to_multiset_ensures;

    if words.len() > 0 {
        let front = words.drop_last();
        lemma_sorted_by_x_multiset(front);
        lemma_insert_by_x_multiset(sorted_by_x(front), words.last());
        assert(front.push(words.last()) =~= words);
        assert(sorted_by_x(words).to_multiset() =~= words.to_multiset());
    } else {
        assert(sorted_by_x(words) =~= words);
    }
}

/// A word put into its place in ordered words leaves them ordered.
pub proof fn lemma_insert_by_x_ordered(sorted: Seq<Word>, word: Word)
    requires
        ordered_by_x(sorted),
    ensures
        ordered_by_x(insert_by_x(sorted, word)),
        forall|i: int|
            0 <= i < insert_by_x(sorted, word).len() ==> (#[trigger] insert_by_x(sorted, word)[i])
                == word || sorted.contains(insert_by_x(sorted, word)[i]),
    decreases sorted.len(),
{
    let out = insert_by_x(sorted, word);
    if sorted.len() == 0 {
    } else if sorted.last().x <= word.x {
        assert forall|i: int| 0 <= i < out.len() implies (#[trigger] out[i]) == word
            || sorted.contains(out[i]) by {
            if i < sorted.len() {
                assert(sorted[i] == out[i]);
            }
        }
    } else {
        let front = sorted.drop_last();
        lemma_insert_by_x_ordered(front, word);
        let inner = insert_by_x(front, word);
        lemma_insert_by_x_multiset(front, word);
        assert forall|i: int| 0 <= i < out.len() implies (#[trigger] out[i]) == word
            || sorted.contains(out[i]) by {
            if i < inner.len() {
                assert(out[i] == inner[i]);
                if inner[i] != word {
                    let j = choose|j: int| 0 <= j < front.len() && front[j] == inner[i];
                    assert(sorted[j] == out[i]);
                }
            } else {
                assert(out[i] == sorted[sorted.len() - 1]);
            }
        }
        assert forall|i: int, j: int| 0 <= i <= j < out.len() implies out[i].x <= out[j].x by {
            if j == out.len() - 1 && i < j {
                assert(out[i] == inner[i]);
                if inner[i] != word {
                    let m = choose|m: int| 0 <= m < front.len() && front[m] == inner[i];
                    assert(sorted[m].x <= sorted[sorted.len() - 1].x);
                }
            } else if i < j {
                assert(inner[i].x <= inner[j].x);
            }
        }
    }
}

/// Sorted words stand in ascending order of `x`.
pub proof fn lemma_sorted_by_x_ordered(words: Seq<Word>)
    ensures
        ordered_by_x(sorted_by_x(words)),
    decreases words.len(),
{
    if words.len() > 0 {
        lemma_sorted_by_x_ordered(words.drop_last());
        lemma_insert_by_x_ordered(sorted_by_x(words.drop_last()), words.last());
    }
}

/// Words that already stand in ascending order of `x` are left as they are.
pub proof fn lemma_sorted_by_x_fixes_ordered(words: Seq<Word>)
    requires
        ordered_by_x(words),
    ensures
        sorted_by_x(words) == words,
    decreases words.len(),
{
    if words.len() > 0 {
        let front = words.drop_last();
        assert forall|i: int, j: int| 0 <= i <= j < front.len() implies front[i].x
            <= front[j].x by {
            assert(words[i].x <= words[j].x);
        }
        lemma_sorted_by_x_fixes_ordered(front);
        if front.len() > 0 {
            assert(front.last() == words[words.len() - 2]);
            assert(words[words.len() - 2].x <= words[words.len() - 1].x);
        }
        assert(front.push(words.last()) =~= words);
    } else {
        assert(sorted_by_x(words) =~= words);
    }
}

/// The words at the given `x`, in their order.
pub open spec fn words_at(words: Seq<Word>, x: i64) -> Seq<Word> {
    words.filter(|word: Word| word.x == x)
}

/// A word put into its place comes behind the words of the same `x`, and the
/// words of any other `x` stay as they are.
pub proof fn lemma_insert_by_x_stable(sorted: Seq<Word>, word: Word, x: i64)
    ensures
        words_at(insert_by_x(sorted, word), x) == if word.x == x {
            words_at(sorted, x).push(word)
        } else {
            words_at(sorted, x)
        },
    decreases sorted.len(),
{
    reveal(Seq::filter);
    if sorted.len() == 0 {
        assert(seq![word].drop_last() =~= sorted);
    } else if sorted.last().x <= word.x {
        assert(sorted.push(word).drop_last() =~= sorted);
    } else {
        let inner = insert_by_x(sorted.drop_last(), word);
        lemma_insert_by_x_stable(sorted.drop_last(), word, x);
        assert(inner.push(sorted.last()).drop_last() =~= inner);
    }
}

/// Sorting is stable: the words of any one `x` keep their order.
pub proof fn lemma_sorted_by_x_stable(words: Seq<Word>, x: i64)
    ensures
        words_at(sorted_by_x(words), x) == words_at(words, x),
    decreases words.len(),
{
    reveal(Seq::filter);
    if words.len() > 0 {
        lemma_sorted_by_x_stable(words.drop_last(), x);
        lemma_insert_by_x_stable(sorted_by_x(words.drop_last()), words.last(), x);
    }
}

/// Giving one line one more word gives the lines together one more word.
pub proof fn lemma_words_of_update(lines: Seq<LineView>, k: int, word: Word)
    requires
        0 <= k < lines.len(),
    ensures
        words_of(lines.update(k, absorb(lines[k], word))).to_multiset() == words_of(
            lines,
        ).to_multiset().insert(word),
    decreases lines.len(),
{
    broadcast use vstd::seq_lib::group_to_multiset_ensures;

    let after = lines.update(k, absorb(lines[k], word));
    let front = lines.drop_last();
    lemma_multiset_commutative(words_of(front), lines.last().words);
    lemma_multiset_commutative(words_of(after.drop_last()), after.last().words);
    if k == lines.len() - 1 {
        assert(after.drop_last() =~= front);
        assert(words_of(after).to_multiset() =~= words_of(lines).to_multiset().insert(word));
    } else {
        lemma_words_of_update(front, k, word);
        assert(after.drop_last() =~= front.update(k, absorb(front[k], word)));
        assert(words_of(after).to_multiset() =~= words_of(lines).to_multiset().insert(word));
    }
}

/// Assigning a word gives the lines together that word and no other.
pub proof fn lemma_words_of_place(lines: Seq<LineView>, word: Word)
    ensures
        words_of(place(lines, word)).to_multiset() == words_of(lines).to_multiset().insert(word),
{
    broadcast use vstd::seq_lib::group_to_multiset_ensures;

    lemma_first_fit_from(lines, word, 0);
    let k = first_fit(lines, word);
    if k < lines.len() {
        lemma_words_of_update(lines, k, word);
    } else {
        let after = lines.push(fresh_line(word));
        assert(after.drop_last() =~= lines);
        lemma_multiset_commutative(words_of(lines), seq![word]);
        assert(seq![word] =~= Seq::<Word>::empty().push(word));
        assert(words_of(after).to_multiset() =~= words_of(lines).to_multiset().insert(word));
    }
}

/// Putting each line in reading order neither loses a word nor repeats one.
pub proof fn lemma_words_of_reading_order(lines: Seq<LineView>)
    ensures
        words_of(lines.map_values(|line: LineView| in_reading_order(line))).to_multiset()
            == words_of(lines).to_multiset(),
    decreases lines.len(),
{
    let ordered = lines.map_values(|line: LineView| in_reading_order(line));
    if lines.len() > 0 {
        let front = lines.drop_last();
        lemma_words_of_reading_order(front);
        assert(ordered.drop_last() =~= front.map_values(|line: LineView| in_reading_order(line)));
        lemma_sorted_by_x_multiset(lines.last().words);
        lemma_multiset_commutative(words_of(front), lines.last().words);
        lemma_multiset_commutative(words_of(ordered.drop_last()), ordered.last().words);
    }
}

/// Every word is in exactly one line: the lines together hold each word as
/// often as it was given.
pub proof fn lemma_every_word_in_one_line(words: Seq<Word>)
    ensures
        words_of(grouped(words)).to_multiset() == words.to_multiset(),
        words_of(partition_spec(words)).to_multiset() == words.to_multiset(),
    decreases words.len(),
{
    broadcast use vstd::seq_lib::group_to_multiset_ensures;

    if words.len() > 0 {
        let front = words.drop_last();
        lemma_every_word_in_one_line(front);
        lemma_words_of_place(grouped(front), words.last());
        assert(front.push(words.last()) =~= words);
        assert(words_of(grouped(words)).to_multiset() =~= words.to_multiset());
    } else {
        assert(words_of(grouped(words)) =~= words);
    }
    lemma_words_of_reading_order(grouped(words));
}

/// The words of every line stand in ascending order of `x`.
pub proof fn lemma_lines_in_reading_order(words: Seq<Word>)
    ensures
        forall|k: int|
            0 <= k < partition_spec(words).len() ==> ordered_by_x(
                (#[trigger] partition_spec(words)[k]).words,
            ),
{
    assert forall|k: int| 0 <= k < partition_spec(words).len() implies ordered_by_x(
        (#[trigger] partition_spec(words)[k]).words,
    ) by {
        lemma_sorted_by_x_ordered(grouped(words)[k].words);
    }
}

/// Sorted words are the words that were given.
pub proof fn lemma_sorted_by_x_same_words(words: Seq<Word>)
    ensures
        forall|word: Word| sorted_by_x(words).contains(word) <==> words.contains(word),
{
    lemma_sorted_by_x_multiset(words);
    words.to_multiset_ensures();
    sorted_by_x(words).to_multiset_ensures();
    assert forall|word: Word| sorted_by_x(words).contains(word) <==> words.contains(word) by {
        assert(sorted_by_x(words).to_multiset().count(word) == words.to_multiset().count(word));
    }
}

/// A line that has taken one more word still has the least extent that covers
/// its words.
pub proof fn lemma_absorb_extent(line: LineView, word: Word)
    requires
        extent_is_union(line),
    ensures
        extent_is_union(absorb(line, word)),
{
    let after = absorb(line, word);
    let last = line.words.len() as int;
    assert(after.words[last] == word);
    let i = choose|i: int| 0 <= i < line.words.len() && (#[trigger] line.words[i]).top() == line.top;
    let j = choose|j: int|
        0 <= j < line.words.len() && (#[trigger] line.words[j]).bottom() == line.bottom;
    assert(after.words[i] == line.words[i]);
    assert(after.words[j] == line.words[j]);
    assert forall|m: int| 0 <= m < after.words.len() implies after.top <= (
    #[trigger] after.words[m]).top() && after.words[m].bottom() <= after.bottom by {
        if m < last {
            assert(after.words[m] == line.words[m]);
        }
    }
    if word.top() < line.top {
        assert(after.words[last].top() == after.top);
    } else {
        assert(after.words[i].top() == after.top);
    }
    if word.bottom() > line.bottom {
        assert(after.words[last].bottom() == after.bottom);
    } else {
        assert(after.words[j].bottom() == after.bottom);
    }
}

/// Putting a line in reading order leaves its extent the least that covers
/// its words.
pub proof fn lemma_reading_order_extent(line: LineView)
    requires
        extent_is_union(line),
    ensures
        extent_is_union(in_reading_order(line)),
{
    let after = in_reading_order(line);
    lemma_sorted_by_x_same_words(line.words);
    assert forall|m: int| 0 <= m < after.words.len() implies after.top <= (
    #[trigger] after.words[m]).top() && after.words[m].bottom() <= after.bottom by {
        assert(sorted_by_x(line.words).contains(after.words[m]));
        assert(line.words.contains(after.words[m]));
        let n = choose|n: int| 0 <= n < line.words.len() && line.words[n] == after.words[m];
        assert(line.top <= line.words[n].top());
    }
    let i = choose|i: int| 0 <= i < line.words.len() && (#[trigger] line.words[i]).top() == line.top;
    assert(line.words.contains(line.words[i]));
    assert(sorted_by_x(line.words).contains(line.words[i]));
    let i2 = choose|i2: int| 0 <= i2 < after.words.len() && after.words[i2] == line.words[i];
    assert(after.words[i2].top() == after.top);
    let j = choose|j: int|
        0 <= j < line.words.len() && (#[trigger] line.words[j]).bottom() == line.bottom;
    assert(line.words.contains(line.words[j]));
    assert(sorted_by_x(line.words).contains(line.words[j]));
    let j2 = choose|j2: int| 0 <= j2 < after.words.len() && after.words[j2] == line.words[j];
    assert(after.words[j2].bottom() == after.bottom);
}

/// Every line has a word, and its extent is the least that covers the
/// vertical extents of its words.
pub proof fn lemma_extents(words: Seq<Word>)
    ensures
        forall|k: int|
            0 <= k < grouped(words).len() ==> extent_is_union(#[trigger] grouped(words)[k]),
        forall|k: int|
            0 <= k < partition_spec(words).len() ==> extent_is_union(
                #[trigger] partition_spec(words)[k],
            ),
    decreases words.len(),
{
    if words.len() > 0 {
        let before = grouped(words.drop_last());
        let word = words.last();
        lemma_extents(words.drop_last());
        lemma_first_fit_from(before, word, 0);
        let at = first_fit(before, word);
        assert forall|k: int| 0 <= k < grouped(words).len() implies extent_is_union(
            #[trigger] grouped(words)[k],
        ) by {
            if at < before.len() {
                if k == at {
                    lemma_absorb_extent(before[at], word);
                } else {
                    assert(grouped(words)[k] == before[k]);
                }
            } else if k < before.len() {
                assert(grouped(words)[k] == before[k]);
            } else {
                let line = fresh_line(word);
                assert(line.words[0].top() == line.top);
                assert(line.words[0].bottom() == line.bottom);
            }
        }
    }
    assert forall|k: int| 0 <= k < partition_spec(words).len() implies extent_is_union(
        #[trigger] partition_spec(words)[k],
    ) by {
        lemma_reading_order_extent(grouped(words)[k]);
    }
}

/// The words of a line, taken in the order in which they came, form that
/// line again and no other.
pub proof fn lemma_line_regroups(words: Seq<Word>, k: int)
    requires
        0 <= k < grouped(words).len(),
    ensures
        grouped(grouped(words)[k].words) == seq![grouped(words)[k]],
        partition_spec(grouped(words)[k].words) == seq![partition_spec(words)[k]],
    decreases words.len(),
{
    let line = grouped(words)[k];
    if words.len() > 0 {
        let before = grouped(words.drop_last());
        let word = words.last();
        lemma_first_fit_from(before, word, 0);
        let at = first_fit(before, word);
        if k < before.len() && k != at {
            assert(line == before[k]);
            lemma_line_regroups(words.drop_last(), k);
        } else if k < before.len() {
            lemma_line_regroups(words.drop_last(), k);
            let alone = seq![before[k]];
            assert(line.words.drop_last() =~= before[k].words);
            assert(line.words.last() == word);
            assert(first_fit(alone, word) == 0);
            assert(grouped(line.words) =~= seq![line]);
        } else {
            assert(line == fresh_line(word));
            assert(line.words.drop_last() =~= Seq::<Word>::empty());
            assert(grouped(line.words.drop_last()) =~= Seq::<LineView>::empty());
            assert(grouped(line.words) =~= seq![line]) by {
                reveal_with_fuel(grouped, 2);
            }
        }
    }
    assert(partition_spec(line.words) =~= seq![partition_spec(words)[k]]);
}

/// Every word of every line is one of the words that were given.
pub proof fn lemma_line_words_given(words: Seq<Word>)
    ensures
        forall|k: int, i: int|
            0 <= k < grouped(words).len() && 0 <= i < grouped(words)[k].words.len()
                ==> words.contains(#[trigger] grouped(words)[k].words[i]),
    decreases words.len(),
{
    if words.len() > 0 {
        let front = words.drop_last();
        let before = grouped(front);
        let word = words.last();
        lemma_line_words_given(front);
        lemma_first_fit_from(before, word, 0);
        let at = first_fit(before, word);
        assert(words[words.len() - 1] == word);
        assert forall|k: int, i: int|
            0 <= k < grouped(words).len() && 0 <= i < grouped(words)[k].words.len()
                implies words.contains(#[trigger] grouped(words)[k].words[i]) by {
            let held = grouped(words)[k].words[i];
            if k < before.len() && !(k == at && i == before[k].words.len()) {
                assert(held == before[k].words[i]);
                assert(front.contains(held));
                let m = choose|m: int| 0 <= m < front.len() && front[m] == held;
                assert(words[m] == held);
            } else {
                assert(held == word);
            }
        }
    }
}

/// Every word of every line in reading order is one of the words that were
/// given.
pub proof fn lemma_partition_words_given(words: Seq<Word>)
    ensures
        forall|k: int, i: int|
            0 <= k < partition_spec(words).len() && 0 <= i < partition_spec(words)[k].words.len()
                ==> words.contains(#[trigger] partition_spec(words)[k].words[i]),
{
    lemma_line_words_given(words);
    assert forall|k: int, i: int|
        0 <= k < partition_spec(words).len() && 0 <= i < partition_spec(
            words,
        )[k].words.len() implies words.contains(#[trigger] partition_spec(words)[k].words[i]) by {
        let unsorted = grouped(words)[k].words;
        let word = partition_spec(words)[k].words[i];
        lemma_sorted_by_x_same_words(unsorted);
        assert(sorted_by_x(unsorted).contains(word));
        assert(unsorted.contains(word));
        let j = choose|j: int| 0 <= j < unsorted.len() && unsorted[j] == word;
        assert(words.contains(grouped(words)[k].words[j]));
    }
}

/// Where the words are given in ascending order of `x`, every line holds its
/// words in that order from the start.
pub proof fn lemma_grouped_in_reading_order(words: Seq<Word>)
    requires
        ordered_by_x(words),
    ensures
        forall|k: int|
            0 <= k < grouped(words).len() ==> ordered_by_x((#[trigger] grouped(words)[k]).words),
    decreases words.len(),
{
    if words.len() > 0 {
        let front = words.drop_last();
        let before = grouped(front);
        let word = words.last();
        assert forall|i: int, j: int| 0 <= i <= j < front.len() implies front[i].x
            <= front[j].x by {
            assert(words[i].x <= words[j].x);
        }
        lemma_grouped_in_reading_order(front);
        lemma_line_words_given(front);
        lemma_first_fit_from(before, word, 0);
        let at = first_fit(before, word);
        assert forall|k: int| 0 <= k < grouped(words).len() implies ordered_by_x(
            (#[trigger] grouped(words)[k]).words,
        ) by {
            let held = grouped(words)[k].words;
            if k < before.len() && k != at {
                assert(grouped(words)[k] == before[k]);
            } else if k < before.len() {
                assert forall|i: int, j: int| 0 <= i <= j < held.len() implies held[i].x
                    <= held[j].x by {
                    if j < before[k].words.len() {
                        assert(before[k].words[i].x <= before[k].words[j].x);
                    } else if i < j {
                        assert(front.contains(before[k].words[i]));
                        let m = choose|m: int| 0 <= m < front.len() && front[m] == held[i];
                        assert(words[m].x <= words[words.len() - 1].x);
                    }
                }
            } else {
                assert(grouped(words)[k] == fresh_line(word));
            }
        }
    }
}

/// Where the words of a line came in ascending order of `x`, grouping the
/// words of the line that came out gives that line again and no other.
pub proof fn lemma_partition_idempotent(words: Seq<Word>, k: int)
    requires
        0 <= k < partition_spec(words).len(),
        ordered_by_x(grouped(words)[k].words),
    ensures
        partition_spec(partition_spec(words)[k].words) == seq![partition_spec(words)[k]],
{
    lemma_sorted_by_x_fixes_ordered(grouped(words)[k].words);
    lemma_line_regroups(words, k);
}

/// Where the words are given in ascending order of `x`, grouping the words
/// of any line that came out gives that line again and no other.
pub proof fn lemma_partition_idempotent_in_reading_order(words: Seq<Word>, k: int)
    requires
        ordered_by_x(words),
        0 <= k < partition_spec(words).len(),
    ensures
        partition_spec(partition_spec(words)[k].words) == seq![partition_spec(words)[k]],
{
    lemma_grouped_in_reading_order(words);
    lemma_partition_idempotent(words, k);
}

} // verus!
