//! Solve runs: the rounds that lead from the whole dictionary to the goal.

use crate::bitmap::lemma_finite;
use crate::dictionary::{all_indices, lemma_all_indices_len, valid_dictionary};
use crate::feedback::{
    all_correct, feedback_row, lemma_own_feedback_all_correct, Feedback, Letter,
};
use crate::narrowing::{
    lemma_goal_retained, lemma_right_guess_selects, lemma_wrong_guess_rejected, narrowed,
};
use vstd::prelude::*;
use vstd::set_lib::lemma_len_subset;

verus! {

/// One round of a solve run.
pub struct Round {
    /// The word that was guessed.
    pub word: Seq<u8>,
    /// The marks that the guess received.
    pub row: Seq<Letter>,
    /// The number of candidates when the guess was made.
    pub pool: nat,
}

/// The rounds that a recorded trace stands for.
pub open spec fn rounds_of<const N: usize>(trace: Seq<(&[u8], Feedback<N>, u64)>) -> Seq<Round> {
    Seq::new(
        trace.len(),
        |k: int| Round { word: trace[k].0@, row: trace[k].1@, pool: trace[k].2 as nat },
    )
}

/// The candidates that are left before round `k`: all indices at the start,
/// narrowed by each earlier round in turn.
pub open spec fn pool_before(words: Seq<Seq<u8>>, rounds: Seq<Round>, k: int) -> Set<u32>
    decreases k,
{
    if k <= 0 {
        all_indices(words)
    } else {
        narrowed(pool_before(words, rounds, k - 1), words, rounds[k - 1].word, rounds[k - 1].row)
    }
}

/// Whether `word` is the word of one of the candidates in `pool`.
pub open spec fn is_candidate(words: Seq<Seq<u8>>, pool: Set<u32>, word: Seq<u8>) -> bool {
    exists|index: u32|
        pool.contains(index) && index < words.len() && #[trigger] words[index as int] == word
}

/// Whether round `k` is a step of a run towards `goal`: its word is one of
/// the candidates left by the earlier rounds, its marks are those that the
/// goal gives, and its pool size is the number of those candidates.
pub open spec fn round_follows(
    words: Seq<Seq<u8>>,
    goal: Seq<u8>,
    rounds: Seq<Round>,
    k: int,
) -> bool {
    let pool = pool_before(words, rounds, k);
    &&& is_candidate(words, pool, rounds[k].word)
    &&& rounds[k].row == feedback_row(rounds[k].word, goal)
    &&& rounds[k].pool == pool.len()
}

/// Whether `goal` stands at no more than one index of `words`.
pub open spec fn at_most_once(words: Seq<Seq<u8>>, goal: Seq<u8>) -> bool {
    forall|i: int, j: int|
        0 <= i < words.len() && 0 <= j < words.len() && #[trigger] words[i] == goal
            && #[trigger] words[j] == goal ==> i == j
}

/// Whether `rounds` is a complete run that finds `goal`: every round is a step
/// of the run, every round but the last guesses another word while at least
/// two candidates are left, the last round guesses the goal, and there are no
/// more rounds than words.
pub open spec fn solves(words: Seq<Seq<u8>>, goal: Seq<u8>, rounds: Seq<Round>) -> bool {
    &&& 1 <= rounds.len() <= words.len()
    &&& forall|k: int| 0 <= k < rounds.len() ==> round_follows(words, goal, rounds, k)
    &&& forall|k: int|
        0 <= k < rounds.len() - 1 ==> (#[trigger] rounds[k]).word != goal && rounds[k].pool >= 2
    &&& rounds.last().word == goal
}

/// The candidates before round `k` depend on the first `k` rounds only.
pub proof fn lemma_pool_prefix(words: Seq<Seq<u8>>, left: Seq<Round>, right: Seq<Round>, k: int)
    requires
        k <= left.len(),
        k <= right.len(),
        forall|j: int| 0 <= j < k ==> left[j] == right[j],
    ensures
        pool_before(words, left, k) == pool_before(words, right, k),
    decreases k,
{
    if k > 0 {
        lemma_pool_prefix(words, left, right, k - 1);
    }
}

/// No round adds a candidate: the pool before a later round is within the
/// pool before an earlier one, and all pools hold indices of words only.
pub proof fn lemma_pool_shrinks(words: Seq<Seq<u8>>, rounds: Seq<Round>, earlier: int, later: int)
    requires
        earlier <= later,
    ensures
        pool_before(words, rounds, later).subset_of(pool_before(words, rounds, earlier)),
        pool_before(words, rounds, later).subset_of(all_indices(words)),
    decreases later,
{
    if later > 0 {
        if earlier < later {
            lemma_pool_shrinks(words, rounds, earlier, later - 1);
        } else {
            lemma_pool_shrinks(words, rounds, earlier - 1, later - 1);
        }
    }
}

/// Goal retention throughout a run: when every round so far was scored
/// against the goal, the goal's index is among the candidates before each
/// round.
pub proof fn lemma_goal_in_every_pool(
    words: Seq<Seq<u8>>,
    index: u32,
    rounds: Seq<Round>,
    k: int,
)
    requires
        index < words.len(),
        k <= rounds.len(),
        forall|j: int|
            0 <= j < k ==> (#[trigger] rounds[j]).word.len() == words[index as int].len()
                && rounds[j].row == feedback_row(rounds[j].word, words[index as int]),
    ensures
        pool_before(words, rounds, k).contains(index),
    decreases k,
{
    if k > 0 {
        lemma_goal_in_every_pool(words, index, rounds, k - 1);
        let round = rounds[k - 1];
        lemma_goal_retained(pool_before(words, rounds, k - 1), words, index, round.word);
    }
}

/// Goal retention in a run: where every round is a step of a run towards a
/// word of the dictionary, the index of that word is among the candidates
/// before each round and after the last.
pub proof fn lemma_run_keeps_goal(words: Seq<Seq<u8>>, index: u32, rounds: Seq<Round>, k: int)
    requires
        index < words.len(),
        valid_dictionary(words, words[index as int].len()),
        0 <= k <= rounds.len(),
        forall|j: int|
            0 <= j < rounds.len() ==> round_follows(words, words[index as int], rounds, j),
    ensures
        pool_before(words, rounds, k).contains(index),
{
    let goal = words[index as int];
    assert forall|j: int| 0 <= j < k implies (#[trigger] rounds[j]).word.len() == goal.len()
        && rounds[j].row == feedback_row(rounds[j].word, goal) by {
        assert(round_follows(words, goal, rounds, j));
    }
    lemma_goal_in_every_pool(words, index, rounds, k);
}

/// A pool of one candidate holds no second one.
pub proof fn lemma_single_member(pool: Set<u32>, a: u32, b: u32)
    requires
        pool.len() == 1,
        pool.contains(a),
        pool.contains(b),
    ensures
        a == b,
{
    lemma_finite(pool);
    if a != b {
        assert(pool.remove(a).contains(b));
    }
}

/// Each round leaves fewer candidates, where the goal stands at no more than
/// one index: a guess other than the goal rules itself out, and a guess of the
/// goal leaves at most the goal.
pub proof fn lemma_round_shrinks(words: Seq<Seq<u8>>, pool: Set<u32>, index: u32, goal: Seq<u8>)
    requires
        valid_dictionary(words, goal.len()),
        at_most_once(words, goal),
        pool.subset_of(all_indices(words)),
        pool.contains(index),
        pool.len() >= 2,
    ensures
        narrowed(
            pool,
            words,
            words[index as int],
            feedback_row(words[index as int], goal),
        ).len() < pool.len(),
        words[index as int] == goal ==> narrowed(
            pool,
            words,
            goal,
            feedback_row(goal, goal),
        ).len() <= 1,
{
    let word = words[index as int];
    let row = feedback_row(word, goal);
    let next = narrowed(pool, words, word, row);
    lemma_finite(pool);
    lemma_finite(next);
    if word == goal {
        lemma_own_feedback_all_correct(goal);
        assert forall|other: u32| next.contains(other) implies other == index by {
            lemma_right_guess_selects(words, other, goal);
        }
        assert(next.subset_of(set![index]));
        lemma_len_subset(next, set![index]);
    } else {
        lemma_wrong_guess_rejected(words, index, goal);
        assert(next.subset_of(pool.remove(index)));
        lemma_len_subset(next, pool.remove(index));
    }
}

/// A run is short: where the goal stands at no more than one index, the
/// rounds played and the candidates still left are together no more than the
/// words of the dictionary. So no run has more rounds than the dictionary has
/// words.
pub proof fn lemma_run_bounded(words: Seq<Seq<u8>>, goal: Seq<u8>, rounds: Seq<Round>, k: int)
    requires
        valid_dictionary(words, goal.len()),
        at_most_once(words, goal),
        0 <= k <= rounds.len(),
        forall|j: int|
            0 <= j < k ==> round_follows(words, goal, rounds, j) && (#[trigger] rounds[j]).pool
                >= 2,
    ensures
        pool_before(words, rounds, k).finite(),
        k + pool_before(words, rounds, k).len() <= words.len(),
    decreases k,
{
    lemma_finite(pool_before(words, rounds, k));
    if k == 0 {
        lemma_all_indices_len(words);
    } else {
        lemma_run_bounded(words, goal, rounds, k - 1);
        let pool = pool_before(words, rounds, k - 1);
        let round = rounds[k - 1];
        assert(round_follows(words, goal, rounds, k - 1));
        let index = choose|index: u32|
            pool.contains(index) && index < words.len() && #[trigger] words[index as int]
                == round.word;
        lemma_pool_shrinks(words, rounds, 0, k - 1);
        lemma_round_shrinks(words, pool, index, goal);
    }
}

/// A run that finds the goal ends with the goal as the one candidate left.
pub proof fn lemma_run_leaves_goal(words: Seq<Seq<u8>>, goal: Seq<u8>, rounds: Seq<Round>)
    requires
        valid_dictionary(words, goal.len()),
        at_most_once(words, goal),
        solves(words, goal, rounds),
    ensures
        exists|index: u32|
            index < words.len() && #[trigger] words[index as int] == goal && pool_before(
                words,
                rounds,
                rounds.len() as int,
            ) == set![index],
{
    let last = rounds.len() - 1;
    let pool = pool_before(words, rounds, last);
    let left = pool_before(words, rounds, rounds.len() as int);
    assert(round_follows(words, goal, rounds, last));
    let index = choose|index: u32|
        pool.contains(index) && index < words.len() && #[trigger] words[index as int] == goal;
    lemma_own_feedback_all_correct(goal);
    lemma_goal_retained(pool, words, index, goal);
    assert forall|other: u32| left.contains(other) implies other == index by {
        lemma_pool_shrinks(words, rounds, 0, last);
        lemma_right_guess_selects(words, other, goal);
    }
    assert(left =~= set![index]);
}

/// In a dictionary of one word, the run that finds that word has one round:
/// the word itself, marked `Correct` at every slot, with a pool of one.
pub proof fn lemma_single_word_run(words: Seq<Seq<u8>>, rounds: Seq<Round>)
    requires
        words.len() == 1,
        solves(words, words[0], rounds),
    ensures
        rounds.len() == 1,
        rounds[0].word == words[0],
        rounds[0].row == all_correct(words[0].len()),
        rounds[0].pool == 1,
{
    lemma_all_indices_len(words);
    lemma_own_feedback_all_correct(words[0]);
    assert(round_follows(words, words[0], rounds, 0));
}

} // verus!
