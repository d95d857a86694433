//! Finds the monetary amounts written in a text.
//!
//! A scanner reads the text character by character and marks the candidates:
//! runs of digits that commas and periods may interrupt, with a minus sign in
//! front where one stands directly before the first digit. Each candidate is
//! then read as an amount of United States dollars, with the comma as
//! thousands separator and the period as decimal point; candidates that do
//! not read as one are left out.

use vstd::prelude::*;
use vstd::string::StrSliceExecFns;
use rusty_money::{iso, Money};
use crate::indexers::amount_laws::{lemma_candidates, lemma_state_fits};

verus! {

/// An exact decimal number: `mantissa` divided by ten to the power `scale`.
///
/// Two amounts are equal when both fields are, so `1.0` and `1.00` differ.
#[derive(Debug, PartialEq, Eq, Clone, Copy, Hash)]
pub struct Amount {
    pub mantissa: i128,
    pub scale: u32,
}

/// The greatest scale of a decimal number.
pub const MAX_SCALE: u32 = 28;

/// The least number that no mantissa reaches: two to the power 96.
pub const MANTISSA_LIMIT: i128 = 0x1_0000_0000_0000_0000_0000_0000;

impl Amount {
    /// The amount is one that a decimal number of 96 bits can hold: the
    /// mantissa lies within 96 bits and the scale is at most `MAX_SCALE`.
    pub open spec fn well_formed(&self) -> bool {
        &&& -MANTISSA_LIMIT < self.mantissa < MANTISSA_LIMIT
        &&& self.scale <= MAX_SCALE
    }

    /// Decides `well_formed`.
    pub fn is_well_formed(&self) -> (ok: bool)
        ensures
            ok == self.well_formed(),
    {
        -MANTISSA_LIMIT < self.mantissa && self.mantissa < MANTISSA_LIMIT && self.scale
            <= MAX_SCALE
    }
}

/// Every amount is well formed.
pub open spec fn all_amounts_well_formed(amounts: Seq<Amount>) -> bool {
    forall|i: int| 0 <= i < amounts.len() ==> (#[trigger] amounts[i]).well_formed()
}

/// What `rusty_money` reads out of a text as an amount of United States
/// dollars: the mantissa and the scale of the decimal number, or `None` where
/// it rejects the text.
pub uninterp spec fn usd_amount(text: Seq<char>) -> Option<(i128, u32)>;

/// The amount of United States dollars that a text is read as.
pub open spec fn read_usd(text: Seq<char>) -> Option<Amount> {
    match usd_amount(text) {
        Some((mantissa, scale)) => Some(Amount { mantissa, scale }),
        None => None,
    }
}

/// The amounts among the outcomes, in their order.
pub open spec fn kept(outcomes: Seq<Option<Amount>>) -> Seq<Amount>
    decreases outcomes.len(),
{
    if outcomes.len() == 0 {
        Seq::empty()
    } else {
        match outcomes.last() {
            Some(amount) => kept(outcomes.drop_last()).push(amount),
            None => kept(outcomes.drop_last()),
        }
    }
}

/// What each of the texts is read as.
pub open spec fn read_all(texts: Seq<Seq<char>>) -> Seq<Option<Amount>> {
    texts.map_values(|text: Seq<char>| read_usd(text))
}

/// The amounts written in the text, in the order in which they stand.
pub open spec fn amounts_in(text: Seq<char>) -> Seq<Amount> {
    kept(read_all(candidates(text)))
}

/// What the scanner remembers between two characters.
#[derive(Debug, PartialEq, Eq, Clone, Copy)]
pub enum ScanState {
    /// No run is open and no sign is pending.
    Idle,
    /// No run is open, and the character just read, at `at`, is a minus sign.
    PendingSign { at: usize },
    /// A run is open. It begins at `start`, and `end` is just past its last
    /// digit so far.
    InRun { start: usize, end: usize },
}

/// A scanner state over unbounded positions.
pub enum ScanView {
    Idle,
    PendingSign { at: int },
    InRun { start: int, end: int },
}

impl View for ScanState {
    type V = ScanView;

    open spec fn view(&self) -> ScanView {
        match *self {
            ScanState::Idle => ScanView::Idle,
            ScanState::PendingSign { at } => ScanView::PendingSign { at: at as int },
            ScanState::InRun { start, end } => ScanView::InRun {
                start: start as int,
                end: end as int,
            },
        }
    }
}

/// The character is one of the ten decimal digits.
pub open spec fn is_digit(c: char) -> bool {
    '0' <= c <= '9'
}

/// The character may stand between the digits of a run.
pub open spec fn is_separator(c: char) -> bool {
    c == ',' || c == '.'
}

/// The state after the character `c` at position `at` has been read.
pub open spec fn step(state: ScanView, c: char, at: int) -> ScanView {
    if is_digit(c) {
        match state {
            ScanView::Idle => ScanView::InRun { start: at, end: at + 1 },
            ScanView::PendingSign { at: sign } => ScanView::InRun { start: sign, end: at + 1 },
            ScanView::InRun { start, end } => ScanView::InRun { start, end: at + 1 },
        }
    } else if state is InRun {
        if is_separator(c) {
            state
        } else {
            ScanView::Idle
        }
    } else if c == '-' {
        ScanView::PendingSign { at }
    } else {
        ScanView::Idle
    }
}

/// Reading `c` in the given state closes the open run.
pub open spec fn closes(state: ScanView, c: char) -> bool {
    state is InRun && !is_digit(c) && !is_separator(c)
}

/// The state after the first `count` characters of the text.
pub open spec fn state_after(text: Seq<char>, count: int) -> ScanView
    decreases count,
{
    if count <= 0 {
        ScanView::Idle
    } else {
        step(state_after(text, count - 1), text[count - 1], count - 1)
    }
}

/// The runs closed within the first `count` characters of the text, each as
/// the position of its first character and the position just past its last.
pub open spec fn closed_after(text: Seq<char>, count: int) -> Seq<(int, int)>
    decreases count,
{
    if count <= 0 {
        Seq::empty()
    } else {
        let state = state_after(text, count - 1);
        let closed = closed_after(text, count - 1);
        match state {
            ScanView::InRun { start, end } if closes(state, text[count - 1]) => closed.push(
                (start, end),
            ),
            _ => closed,
        }
    }
}

/// The candidates of the text, each as the position of its first character
/// and the position just past its last, in the order in which they stand.
pub open spec fn candidate_ranges(text: Seq<char>) -> Seq<(int, int)> {
    let closed = closed_after(text, text.len() as int);
    match state_after(text, text.len() as int) {
        ScanView::InRun { start, end } => closed.push((start, end)),
        _ => closed,
    }
}

/// The parts of the text that the ranges mark.
pub open spec fn cut(text: Seq<char>, ranges: Seq<(int, int)>) -> Seq<Seq<char>> {
    ranges.map_values(|range: (int, int)| text.subrange(range.0, range.1))
}

/// The candidates of the text, in the order in which they stand.
pub open spec fn candidates(text: Seq<char>) -> Seq<Seq<char>> {
    cut(text, candidate_ranges(text))
}

/// The part of the text from `start` up to `end` has the shape of a
/// candidate: it begins with a digit, or with a minus sign and a digit, goes
/// on in digits, commas and periods, and ends with a digit.
pub open spec fn marks_candidate(text: Seq<char>, start: int, end: int) -> bool {
    &&& 0 <= start < end <= text.len()
    &&& is_digit(text[end - 1])
    &&& is_digit(text[start]) || (text[start] == '-' && start + 1 < end && is_digit(
        text[start + 1],
    ))
    &&& forall|i: int| start < i < end ==> is_digit(#[trigger] text[i]) || is_separator(text[i])
}

/// The text has the shape of a candidate.
pub open spec fn is_candidate(text: Seq<char>) -> bool {
    marks_candidate(text, 0, text.len() as int)
}

/// The text holds nothing but digits, commas, periods and minus signs.
pub open spec fn only_amount_characters(text: Seq<char>) -> bool {
    forall|i: int|
        0 <= i < text.len() ==> is_digit(#[trigger] text[i]) || is_separator(text[i]) || text[i]
            == '-'
}

/// What the strings hold.
pub open spec fn texts(strings: Seq<String>) -> Seq<Seq<char>> {
    strings.map_values(|string: String| string@)
}

/// Reads one character: gives the next state and, where the character closes
/// a run, the run's first position and the position just past its last.
pub fn advance(state: ScanState, c: char, at: usize) -> (next: (ScanState, Option<(usize, usize)>))
    requires
        at < usize::MAX,
    ensures
        next.0@ == step(state@, c, at as int),
        match state {
            ScanState::InRun { start, end } if closes(state@, c) => next.1 == Some((start, end)),
            _ => next.1 is None,
        },
{
    if '0' <= c && c <= '9' {
        match state {
            ScanState::Idle => (ScanState::InRun { start: at, end: at + 1 }, None),
            ScanState::PendingSign { at: sign } => (
                ScanState::InRun { start: sign, end: at + 1 },
                None,
            ),
            ScanState::InRun { start, end: _ } => (ScanState::InRun { start, end: at + 1 }, None),
        }
    } else {
        match state {
            ScanState::InRun { start, end } => {
                if c == ',' || c == '.' {
                    (state, None)
                } else {
                    (ScanState::Idle, Some((start, end)))
                }
            },
            _ => {
                if c == '-' {
                    (ScanState::PendingSign { at }, None)
                } else {
                    (ScanState::Idle, None)
                }
            },
        }
    }
}

/// Finds the candidates of the text, in the order in which they stand.
pub fn extract_amounts(text: &str) -> (found: Vec<String>)
    ensures
        texts(found@) == candidates(text@),
{
    let length: usize = text.unicode_len();
    let mut found: Vec<String> = Vec::new();
    let mut state = ScanState::Idle;
    let mut at: usize = 0;
    for c in it: text.chars()
        invariant
            it.seq() == text@,
            length == text@.len(),
            at == it.index(),
            at <= length,
            state@ == state_after(text@, at as int),
            texts(found@) == cut(text@, closed_after(text@, at as int)),
    {
        assert(at < length);
        assert(c == text@[at as int]);
        proof {
            lemma_state_fits(text@, at as int);
        }
        let ghost before = texts(found@);
        let (next, closed) = advance(state, c, at);
        match closed {
            Some((start, end)) => {
                let candidate = text.substring_char(start, end).to_owned();
                found.push(candidate);
                assert(texts(found@) =~= before.push(text@.subrange(start as int, end as int)));
                assert(texts(found@) =~= cut(text@, closed_after(text@, at + 1)));
            },
            None => {
                assert(texts(found@) =~= cut(text@, closed_after(text@, at + 1)));
            },
        }
        state = next;
        at = at + 1;
    }
    proof {
        lemma_state_fits(text@, at as int);
    }
    let ghost before = texts(found@);
    match state {
        ScanState::InRun { start, end } => {
            let candidate = text.substring_char(start, end).to_owned();
            found.push(candidate);
            assert(texts(found@) =~= before.push(text@.subrange(start as int, end as int)));
            assert(texts(found@) =~= candidates(text@));
        },
        _ => {
            assert(texts(found@) =~= candidates(text@));
        },
    }
    found
}

/// Reads a text as an amount of United States dollars, with the comma as
/// thousands separator and the period as decimal point.
///
/// Calls `rusty_money::Money::from_str` with `rusty_money::iso::USD` and takes
/// the mantissa and the scale of the `rust_decimal::Decimal` that it holds.
/// Trusted: for a text of digits, commas, periods and minus signs the call
/// returns, and what it returns depends on the text alone; the decimal number
/// of an accepted text has a mantissa within 96 bits and a scale of at most
/// `MAX_SCALE`.
#[verifier::external_body]
fn parse_usd(text: &str) -> (parsed: Option<Amount>)
    requires
        only_amount_characters(text@),
    ensures
        usd_amount(text@) == match parsed {
            Some(amount) => Some((amount.mantissa, amount.scale)),
            None => None,
        },
        match parsed {
            Some(amount) => amount.well_formed(),
            None => true,
        },
{
    match Money::from_str(text, iso::USD) {
        Ok(money) => Some(
            Amount { mantissa: money.amount().mantissa(), scale: money.amount().scale() },
        ),
        Err(_) => None,
    }
}

/// Every outcome that is an amount is a well-formed one.
pub open spec fn all_outcomes_well_formed(outcomes: Seq<Option<Amount>>) -> bool {
    forall|i: int|
        0 <= i < outcomes.len() ==> match #[trigger] outcomes[i] {
            Some(amount) => amount.well_formed(),
            None => true,
        }
}

/// Keeps the amounts among the outcomes of reading, in their order.
pub fn keep_parsed(outcomes: Vec<Option<Amount>>) -> (amounts: Vec<Amount>)
    ensures
        amounts@ == kept(outcomes@),
        amounts@.len() <= outcomes@.len(),
        all_outcomes_well_formed(outcomes@) ==> all_amounts_well_formed(amounts@),
{
    let mut amounts: Vec<Amount> = Vec::new();
    for outcome in it: outcomes
        invariant
            it.seq() == outcomes@,
            amounts@ == kept(it.seq().take(it.index())),
            amounts@.len() <= it.index(),
            all_outcomes_well_formed(outcomes@) ==> all_amounts_well_formed(amounts@),
    {
        assert(outcome == outcomes@[it.index()]);
        assert(it.seq().take(it.index() + 1).drop_last() =~= it.seq().take(it.index()));
        match outcome {
            Some(amount) => {
                amounts.push(amount);
            },
            None => {},
        }
    }
    assert(outcomes@.take(outcomes@.len() as int) =~= outcomes@);
    amounts
}

/// Finds the amounts written in the text, in the order in which they stand.
///
/// Every candidate is read, and those that do not read as an amount are left
/// out.
pub fn parse_amounts(text: &str) -> (amounts: Vec<Amount>)
    ensures
        amounts@ == amounts_in(text@),
        amounts@.len() <= candidates(text@).len(),
        all_amounts_well_formed(amounts@),
{
    let found = extract_amounts(text);
    let mut outcomes: Vec<Option<Amount>> = Vec::new();
    let mut at: usize = 0;
    while at < found.len()
        invariant
            at <= found.len(),
            texts(found@) == candidates(text@),
            outcomes@ == read_all(texts(found@).take(at as int)),
            all_outcomes_well_formed(outcomes@),
        decreases found.len() - at,
    {
        proof {
            lemma_candidates(text@);
            assert(texts(found@)[at as int] == found@[at as int]@);
        }
        let outcome = parse_usd(found[at].as_str());
        outcomes.push(outcome);
        assert(outcomes@ =~= read_all(texts(found@).take(at + 1)));
        at = at + 1;
    }
    assert(texts(found@).take(at as int) =~= texts(found@));
    keep_parsed(outcomes)
}

} // verus!
