//! The score of a guess: one mark per slot.

use crate::letters::{
    lemma_occurrences_at, lemma_occurrences_contains, lemma_occurrences_step, occurrences,
};
use vstd::prelude::*;

verus! {

/// The mark that one slot of a guess receives.
#[derive(Copy, Clone, Debug, PartialEq, Eq, Structural)]
pub enum Letter {
    /// The goal does not account for this occurrence of the letter.
    Incorrect,
    /// The letter occurs in the goal, but not at this slot.
    Partial,
    /// The goal holds the same letter at this slot.
    Correct,
}

impl Letter {
    /// The coloured square that stands for the mark: black for `Incorrect`,
    /// yellow for `Partial`, green for `Correct`.
    pub open spec fn glyph_of(self) -> char {
        match self {
            Letter::Incorrect => '\u{2b1b}',
            Letter::Partial => '\u{1f7e8}',
            Letter::Correct => '\u{1f7e9}',
        }
    }

    /// The coloured square that stands for the mark.
    pub fn glyph(self) -> (glyph: char)
        ensures
            glyph == self.glyph_of(),
    {
        match self {
            Letter::Incorrect => '\u{2b1b}',
            Letter::Partial => '\u{1f7e8}',
            Letter::Correct => '\u{1f7e9}',
        }
    }
}

/// `String::push` appends one character to the end of the string.
pub assume_specification[ String::push ](text: &mut String, ch: char)
    ensures
        final(text)@ == old(text)@.push(ch),
;

/// The marks of a whole guess, slot by slot.
pub struct Feedback<const N: usize>(pub [Letter; N]);

impl<const N: usize> View for Feedback<N> {
    type V = Seq<Letter>;

    open spec fn view(&self) -> Seq<Letter> {
        self.0@
    }
}

/// The row of `n` marks that are all `Correct`.
pub open spec fn all_correct(n: nat) -> Seq<Letter> {
    Seq::new(n, |s: int| Letter::Correct)
}

/// The mark of slot `slot` when `guess` is scored against `goal`.
///
/// A letter that matches the goal at its own slot is `Correct`. Otherwise it
/// is `Partial` when the goal contains it and it has been seen in the guess,
/// before this slot, at most as often as the goal holds it; and `Incorrect`
/// in every other case.
pub open spec fn classify(guess: Seq<u8>, goal: Seq<u8>, slot: int) -> Letter {
    let letter = guess[slot];
    if letter == goal[slot] {
        Letter::Correct
    } else if goal.contains(letter) && occurrences(guess.take(slot), letter) <= occurrences(
        goal,
        letter,
    ) {
        Letter::Partial
    } else {
        Letter::Incorrect
    }
}

/// The marks of `guess` scored against `goal`, one per slot of the guess.
pub open spec fn feedback_row(guess: Seq<u8>, goal: Seq<u8>) -> Seq<Letter> {
    Seq::new(guess.len(), |slot: int| classify(guess, goal, slot))
}

/// Among the first `end` slots, the number at which `guess` holds `letter` and
/// `row` marks it `Correct` or `Partial`.
pub open spec fn confirmed_before(guess: Seq<u8>, row: Seq<Letter>, letter: u8, end: int) -> nat
    decreases end,
{
    if end <= 0 {
        0
    } else {
        confirmed_before(guess, row, letter, end - 1) + if guess[end - 1] == letter && row[end - 1]
            != Letter::Incorrect {
            1nat
        } else {
            0nat
        }
    }
}

/// The number of slots at which `guess` holds `letter` and `row` marks it
/// `Correct` or `Partial`.
pub open spec fn confirmed(guess: Seq<u8>, row: Seq<Letter>, letter: u8) -> nat {
    confirmed_before(guess, row, letter, guess.len() as int)
}

/// A word scored against itself is `Correct` at every slot.
pub proof fn lemma_own_feedback_all_correct(word: Seq<u8>)
    ensures
        feedback_row(word, word) == all_correct(word.len()),
{
    assert(feedback_row(word, word) =~= all_correct(word.len()));
}

/// How the confirmed occurrences of a letter among the first `end` slots of a
/// scored guess relate to the occurrences of the letter in the guess so far
/// and in the goal: never more than the guess has shown; none when the goal
/// lacks the letter; and otherwise all of those shown, up to one more than the
/// goal holds.
pub proof fn lemma_confirmed_bounds(guess: Seq<u8>, goal: Seq<u8>, letter: u8, end: int)
    requires
        guess.len() == goal.len(),
        0 <= end <= guess.len(),
    ensures
        confirmed_before(guess, feedback_row(guess, goal), letter, end) <= occurrences(
            guess.take(end),
            letter,
        ),
        occurrences(goal, letter) == 0 ==> confirmed_before(
            guess,
            feedback_row(guess, goal),
            letter,
            end,
        ) == 0,
        occurrences(goal, letter) > 0 ==> confirmed_before(
            guess,
            feedback_row(guess, goal),
            letter,
            end,
        ) >= if occurrences(guess.take(end), letter) <= occurrences(goal, letter) + 1 {
            occurrences(guess.take(end), letter)
        } else {
            occurrences(goal, letter) + 1
        },
    decreases end,
{
    if end > 0 {
        let slot = end - 1;
        lemma_confirmed_bounds(guess, goal, letter, slot);
        lemma_occurrences_step(guess, letter, slot);
        lemma_occurrences_contains(goal, letter);
        if guess[slot] == letter && goal[slot] == letter {
            lemma_occurrences_at(goal, letter, slot);
        }
        assert(feedback_row(guess, goal)[slot] == classify(guess, goal, slot));
    }
}

/// Where the goal lacks a letter, or holds it at least as often as the guess
/// does, the slots of the guess at which the letter is marked `Correct` or
/// `Partial` are no more than the occurrences of the letter in the goal.
pub proof fn lemma_confirmed_within_goal(guess: Seq<u8>, goal: Seq<u8>, letter: u8)
    requires
        guess.len() == goal.len(),
        occurrences(goal, letter) == 0 || occurrences(guess, letter) <= occurrences(goal, letter),
    ensures
        confirmed(guess, feedback_row(guess, goal), letter) <= occurrences(goal, letter),
{
    lemma_confirmed_bounds(guess, goal, letter, guess.len() as int);
    assert(guess.take(guess.len() as int) =~= guess);
}

/// Where the goal holds a letter, but less often than the guess does, the
/// slots of the guess at which the letter is marked `Correct` or `Partial` are
/// more than the occurrences of the letter in the goal.
pub proof fn lemma_confirmed_beyond_goal(guess: Seq<u8>, goal: Seq<u8>, letter: u8)
    requires
        guess.len() == goal.len(),
        0 < occurrences(goal, letter) < occurrences(guess, letter),
    ensures
        confirmed(guess, feedback_row(guess, goal), letter) > occurrences(goal, letter),
{
    lemma_confirmed_bounds(guess, goal, letter, guess.len() as int);
    assert(guess.take(guess.len() as int) =~= guess);
}

impl<const N: usize> Feedback<N> {
    /// The row of coloured squares that stands for the marks, slot by slot.
    pub fn to_string(&self) -> (text: String)
        ensures
            text@ == self@.map_values(|mark: Letter| mark.glyph_of()),
    {
        let mut text = String::new();
        let mut slot: usize = 0;
        while slot < N
            invariant
                slot <= N,
                text@ == self@.take(slot as int).map_values(|mark: Letter| mark.glyph_of()),
            decreases N - slot,
        {
            text.push(self.0[slot].glyph());
            assert(self@.take(slot + 1) =~= self@.take(slot as int).push(self@[slot as int]));
            slot = slot + 1;
        }
        assert(self@.take(N as int) =~= self@);
        text
    }

    /// The feedback of a guess that equals the goal: every slot `Correct`.
    pub fn correct() -> (row: Self)
        ensures
            row@ == all_correct(N as nat),
    {
        let row = Feedback([Letter::Correct;N]);
        assert(row@ =~= all_correct(N as nat));
        row
    }
}

} // verus!
