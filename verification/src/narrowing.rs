//! What a scored guess says about the words of a dictionary.

use crate::feedback::{
    all_correct, classify, confirmed, confirmed_before, feedback_row, lemma_confirmed_bounds,
    Letter,
};
use crate::dictionary::{holds_at, holds_more_than};
use crate::letters::{lemma_occurrences_at, lemma_occurrences_contains};
use vstd::prelude::*;

verus! {

/// Whether the mark at `slot` leaves the word with the given index in play.
///
/// `Correct` asks for the letter at the slot. `Partial` asks for the letter
/// somewhere, but not at the slot. `Incorrect` depends on the whole row: when
/// the same letter is confirmed at `m > 0` slots of the guess, the word may
/// hold it at most `m` times and not at this slot; when it is confirmed
/// nowhere, the word may not hold it at all.
pub open spec fn slot_admits(
    words: Seq<Seq<u8>>,
    index: u32,
    guess: Seq<u8>,
    row: Seq<Letter>,
    slot: int,
) -> bool {
    let letter = guess[slot];
    match row[slot] {
        Letter::Correct => holds_at(words, index, slot, letter),
        Letter::Partial => holds_more_than(words, index, 0, letter) && !holds_at(
            words,
            index,
            slot,
            letter,
        ),
        Letter::Incorrect => {
            let m = confirmed(guess, row, letter);
            if m > 0 {
                !holds_more_than(words, index, m as int, letter) && !holds_at(
                    words,
                    index,
                    slot,
                    letter,
                )
            } else {
                !holds_more_than(words, index, 0, letter)
            }
        },
    }
}

/// Whether the marks of the first `end` slots leave the word in play.
pub open spec fn admits_before(
    words: Seq<Seq<u8>>,
    index: u32,
    guess: Seq<u8>,
    row: Seq<Letter>,
    end: int,
) -> bool {
    forall|slot: int| 0 <= slot < end ==> slot_admits(words, index, guess, row, slot)
}

/// Whether the scored guess leaves the word with the given index in play.
pub open spec fn admits(words: Seq<Seq<u8>>, index: u32, guess: Seq<u8>, row: Seq<Letter>) -> bool {
    admits_before(words, index, guess, row, guess.len() as int)
}

/// The candidates that a scored guess leaves in play.
pub open spec fn narrowed(
    candidates: Set<u32>,
    words: Seq<Seq<u8>>,
    guess: Seq<u8>,
    row: Seq<Letter>,
) -> Set<u32> {
    candidates.filter(|index: u32| admits(words, index, guess, row))
}

/// The marks of one more slot leave a word in play exactly when the earlier
/// ones and the new one do.
pub proof fn lemma_admits_step(
    words: Seq<Seq<u8>>,
    index: u32,
    guess: Seq<u8>,
    row: Seq<Letter>,
    end: int,
)
    requires
        0 <= end,
    ensures
        admits_before(words, index, guess, row, end + 1) <==> admits_before(
            words,
            index,
            guess,
            row,
            end,
        ) && slot_admits(words, index, guess, row, end),
{
}

/// A longer prefix of a row confirms a letter at least as often as a shorter
/// one.
pub proof fn lemma_confirmed_grows(
    guess: Seq<u8>,
    row: Seq<Letter>,
    letter: u8,
    shorter: int,
    longer: int,
)
    requires
        shorter <= longer,
    ensures
        confirmed_before(guess, row, letter, shorter) <= confirmed_before(
            guess,
            row,
            letter,
            longer,
        ),
    decreases longer - shorter,
{
    if shorter < longer {
        lemma_confirmed_grows(guess, row, letter, shorter, longer - 1);
    }
}

/// A prefix of `end` slots confirms a letter at most `end` times, and fewer
/// when one of its slots holds the letter marked `Incorrect`.
pub proof fn lemma_confirmed_room(
    guess: Seq<u8>,
    row: Seq<Letter>,
    letter: u8,
    slot: int,
    end: int,
)
    requires
        0 <= end,
    ensures
        confirmed_before(guess, row, letter, end) <= end,
        0 <= slot < end && guess[slot] == letter && row[slot] == Letter::Incorrect
            ==> confirmed_before(guess, row, letter, end) < end,
    decreases end,
{
    if end > 0 {
        lemma_confirmed_room(guess, row, letter, slot, end - 1);
    }
}

/// Narrowing removes candidates and adds none.
pub proof fn lemma_narrowed_subset(
    candidates: Set<u32>,
    words: Seq<Seq<u8>>,
    guess: Seq<u8>,
    row: Seq<Letter>,
)
    ensures
        narrowed(candidates, words, guess, row).subset_of(candidates),
{
}

/// Whatever is guessed, the feedback that the goal gives leaves the goal's own
/// index in play.
pub proof fn lemma_goal_admitted(words: Seq<Seq<u8>>, index: u32, guess: Seq<u8>)
    requires
        index < words.len(),
        guess.len() == words[index as int].len(),
    ensures
        admits(words, index, guess, feedback_row(guess, words[index as int])),
{
    let goal = words[index as int];
    let row = feedback_row(guess, goal);
    assert forall|slot: int| 0 <= slot < guess.len() implies slot_admits(
        words,
        index,
        guess,
        row,
        slot,
    ) by {
        let letter = guess[slot];
        assert(row[slot] == classify(guess, goal, slot));
        lemma_occurrences_contains(goal, letter);
        lemma_confirmed_bounds(guess, goal, letter, slot);
        lemma_confirmed_bounds(guess, goal, letter, guess.len() as int);
        lemma_confirmed_grows(guess, row, letter, slot, guess.len() as int);
    }
}

/// Goal retention: a candidate set that holds the goal's index still holds it
/// after narrowing by any guess scored against the goal.
pub proof fn lemma_goal_retained(
    candidates: Set<u32>,
    words: Seq<Seq<u8>>,
    index: u32,
    guess: Seq<u8>,
)
    requires
        index < words.len(),
        candidates.contains(index),
        guess.len() == words[index as int].len(),
    ensures
        narrowed(candidates, words, guess, feedback_row(guess, words[index as int])).contains(
            index,
        ),
{
    lemma_goal_admitted(words, index, guess);
}

/// A guessed word that differs from the goal is ruled out by its own feedback.
pub proof fn lemma_wrong_guess_rejected(words: Seq<Seq<u8>>, index: u32, goal: Seq<u8>)
    requires
        index < words.len(),
        words[index as int].len() == goal.len(),
        words[index as int] != goal,
    ensures
        !admits(words, index, words[index as int], feedback_row(words[index as int], goal)),
{
    let guess = words[index as int];
    let row = feedback_row(guess, goal);
    if forall|s: int| 0 <= s < guess.len() ==> guess[s] == goal[s] {
        assert(guess =~= goal);
    }
    let slot = choose|s: int| 0 <= s < guess.len() && guess[s] != goal[s];
    assert(row[slot] == classify(guess, goal, slot));
    lemma_occurrences_at(guess, guess[slot], slot);
    assert(!slot_admits(words, index, guess, row, slot));
}

/// After the goal itself is guessed, only words equal to the goal stay in
/// play.
pub proof fn lemma_right_guess_selects(words: Seq<Seq<u8>>, index: u32, goal: Seq<u8>)
    requires
        index < words.len(),
        words[index as int].len() == goal.len(),
        admits(words, index, goal, all_correct(goal.len())),
    ensures
        words[index as int] == goal,
{
    let word = words[index as int];
    assert forall|s: int| 0 <= s < goal.len() implies word[s] == goal[s] by {
        assert(slot_admits(words, index, goal, all_correct(goal.len()), s));
    }
    assert(word =~= goal);
}

} // verus!
