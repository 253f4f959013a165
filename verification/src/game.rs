//! The dictionary and its two indexes.

use crate::bitmap::{
    insert_range, intersect_with, lemma_finite, lemma_nth_is, members, nth, subtract,
};
use crate::dictionary::{
    all_indices, frequency_set, holds_at, holds_more_than, lemma_all_indices_len, position_set,
    spelled, split_words, valid_dictionary,
};
use crate::feedback::{
    all_correct, classify, confirmed, confirmed_before, feedback_row,
    lemma_own_feedback_all_correct, Feedback, Letter,
};
use crate::letters::{
    all_lowercase, count_letter, is_lowercase, lemma_occurrences_contains, letter_byte, same_word,
    ALPHABET, FIRST_LETTER, LAST_LETTER,
};
use crate::narrowing::{
    admits_before, lemma_admits_step, lemma_confirmed_room, lemma_goal_retained, narrowed,
    slot_admits,
};
use crate::random::random_below;
use crate::run::{
    at_most_once, lemma_pool_prefix, lemma_round_shrinks, lemma_single_member, pool_before,
    round_follows, rounds_of, solves,
};
use roaring::RoaringBitmap;
use vstd::prelude::*;
use vstd::slice::slice_subrange;

verus! {

/// The word length of the daily puzzle.
pub const WORD_LENGTH: usize = 5;

/// A dictionary of words of `N` lowercase letters, with the set of words for
/// each letter at each slot and for each number of occurrences of each letter.
pub struct Wordle<'a, const N: usize> {
    words: Vec<&'a [u8]>,
    pos: Vec<Vec<RoaringBitmap>>,
    at_least: Vec<Vec<RoaringBitmap>>,
}

impl<'a, const N: usize> View for Wordle<'a, N> {
    type V = Seq<Seq<u8>>;

    /// The words of the dictionary, each at its index.
    closed spec fn view(&self) -> Seq<Seq<u8>> {
        spelled(self.words@)
    }
}

impl<'a, const N: usize> Wordle<'a, N> {
    /// The position index: the set held for `letter` at `slot`.
    pub closed spec fn position_index(&self, slot: int, letter: u8) -> Set<u32> {
        members(self.pos@[slot]@[letter - FIRST_LETTER])
    }

    /// The frequency index: the set held for at least `threshold + 1`
    /// occurrences of `letter`.
    pub closed spec fn frequency_index(&self, threshold: int, letter: u8) -> Set<u32> {
        members(self.at_least@[threshold]@[letter - FIRST_LETTER])
    }

    /// Whether both indexes hold, for every slot or threshold below `N` and
    /// every lowercase letter, exactly the set that the dictionary gives.
    pub open spec fn indexed(&self) -> bool {
        &&& forall|slot: int, letter: u8|
            0 <= slot < N && is_lowercase(letter) ==> #[trigger] self.position_index(slot, letter)
                == position_set(self@, slot, letter)
        &&& forall|threshold: int, letter: u8|
            0 <= threshold < N && is_lowercase(letter) ==> #[trigger] self.frequency_index(
                threshold,
                letter,
            ) == frequency_set(self@, threshold, letter)
    }
}

/// Whether `rows` holds, for each of `n` rows and each letter, the set that
/// `content` gives for that row and letter.
spec fn rows_hold(
    rows: Seq<Vec<RoaringBitmap>>,
    n: int,
    content: spec_fn(int, u8) -> Set<u32>,
) -> bool {
    &&& rows.len() == n
    &&& forall|r: int| 0 <= r < n ==> (#[trigger] rows[r])@.len() == ALPHABET
    &&& forall|r: int, l: int|
        0 <= r < n && 0 <= l < ALPHABET ==> members(#[trigger] rows[r]@[l]) == content(
            r,
            letter_byte(l),
        )
}

impl<'a, const N: usize> Wordle<'a, N> {
    #[verifier::type_invariant]
    spec fn inv(self) -> bool {
        &&& valid_dictionary(self@, N as nat)
        &&& rows_hold(self.pos@, N as int, |slot: int, letter: u8| position_set(self@, slot, letter))
        &&& rows_hold(
            self.at_least@,
            N as int,
            |threshold: int, letter: u8| frequency_set(self@, threshold, letter),
        )
    }

    /// Whether `words_raw` is a buffer that `new` can index: `N` leaves room
    /// for the separator byte, there are no more words than a `u32` can
    /// number, and every letter of every word is lowercase.
    pub fn accepts(words_raw: &[u8]) -> (ok: bool)
        ensures
            ok == (N < usize::MAX && valid_dictionary(
                split_words(words_raw@, N as nat),
                N as nat,
            )),
    {
        if N == usize::MAX {
            return false;
        }
        let width = N + 1;
        let count = words_raw.len() / width;
        let ghost words = split_words(words_raw@, N as nat);
        if count > 0xffff_ffff {
            return false;
        }
        let mut start: usize = 0;
        let mut w: usize = 0;
        while w < count
            invariant
                width == N + 1,
                words_raw@.len() <= usize::MAX,
                count == words_raw@.len() / (width as nat),
                count <= u32::MAX,
                words == split_words(words_raw@, N as nat),
                w <= count,
                start == w * width,
                forall|i: int|
                    0 <= i < w ==> (#[trigger] words[i]).len() == N && all_lowercase(words[i]),
            decreases count - w,
        {
            proof {
                lemma_record_in_buffer(words_raw@.len() as int, width as int, w as int);
            }
            let ghost word = words[w as int];
            assert(word == words_raw@.subrange(start as int, start + N));
            let mut s: usize = 0;
            while s < N
                invariant
                    N < usize::MAX,
                    words_raw@.len() <= usize::MAX,
                    start + N < words_raw@.len(),
                    words == split_words(words_raw@, N as nat),
                    word == words_raw@.subrange(start as int, start + N),
                    word == words[w as int],
                    word.len() == N,
                    w < words.len(),
                    s <= N,
                    forall|t: int| 0 <= t < s ==> is_lowercase(#[trigger] word[t]),
                decreases N - s,
            {
                let byte = words_raw[start + s];
                assert(byte == word[s as int]);
                if byte < FIRST_LETTER || byte > LAST_LETTER {
                    assert(!is_lowercase(word[s as int]));
                    assert(!all_lowercase(words[w as int]));
                    return false;
                }
                s = s + 1;
            }
            start = start + width;
            w = w + 1;
        }
        true
    }

    /// Cuts a buffer of records into its words.
    fn split(words_raw: &'a [u8]) -> (words: Vec<&'a [u8]>)
        requires
            N < usize::MAX,
        ensures
            spelled(words@) == split_words(words_raw@, N as nat),
    {
        let width = N + 1;
        let count = words_raw.len() / width;
        let mut words: Vec<&'a [u8]> = Vec::new();
        let mut start: usize = 0;
        let mut w: usize = 0;
        while w < count
            invariant
                width == N + 1,
                words_raw@.len() <= usize::MAX,
                count == words_raw@.len() / (width as nat),
                w <= count,
                start == w * width,
                words@.len() == w,
                forall|i: int|
                    0 <= i < w ==> (#[trigger] words@[i])@ == words_raw@.subrange(
                        i * width,
                        i * width + N,
                    ),
            decreases count - w,
        {
            proof {
                lemma_record_in_buffer(words_raw@.len() as int, width as int, w as int);
            }
            let word = slice_subrange(words_raw, start, start + N);
            words.push(word);
            start = start + width;
            w = w + 1;
        }
        assert(spelled(words@) =~= split_words(words_raw@, N as nat));
        words
    }

    /// Collects the indices of the words that hold the letter with index
    /// `letter` at `slot`.
    fn position_bitmap(words: &Vec<&'a [u8]>, slot: usize, letter: u8) -> (bitmap: RoaringBitmap)
        requires
            valid_dictionary(spelled(words@), N as nat),
            slot < N,
            letter < ALPHABET,
        ensures
            members(bitmap) == position_set(spelled(words@), slot as int, letter_byte(letter as int)),
    {
        let ghost dictionary = spelled(words@);
        let ghost target = letter_byte(letter as int);
        let mut bitmap = RoaringBitmap::new();
        let mut i: usize = 0;
        while i < words.len()
            invariant
                valid_dictionary(dictionary, N as nat),
                dictionary == spelled(words@),
                target == letter_byte(letter as int),
                slot < N,
                letter < ALPHABET,
                i <= words@.len(),
                members(bitmap) == Set::new(
                    |j: u32| j < i && holds_at(dictionary, j, slot as int, target),
                ),
            decreases words@.len() - i,
        {
            let word = words[i];
            assert(word@ == dictionary[i as int]);
            assert(is_lowercase(word@[slot as int]));
            let ghost before = members(bitmap);
            if word[slot] - FIRST_LETTER == letter {
                bitmap.insert(i as u32);
            }
            i = i + 1;
            assert(members(bitmap) =~= Set::new(
                |j: u32| j < i && holds_at(dictionary, j, slot as int, target),
            ));
        }
        assert(members(bitmap) =~= position_set(dictionary, slot as int, target));
        bitmap
    }

    /// Collects the indices of the words in which the letter with index
    /// `letter` occurs at least `threshold + 1` times.
    fn frequency_bitmap(words: &Vec<&'a [u8]>, threshold: usize, letter: u8) -> (bitmap:
        RoaringBitmap)
        requires
            valid_dictionary(spelled(words@), N as nat),
            threshold < N,
            letter < ALPHABET,
        ensures
            members(bitmap) == frequency_set(
                spelled(words@),
                threshold as int,
                letter_byte(letter as int),
            ),
    {
        let ghost dictionary = spelled(words@);
        let ghost target = letter_byte(letter as int);
        let mut bitmap = RoaringBitmap::new();
        let mut i: usize = 0;
        while i < words.len()
            invariant
                valid_dictionary(dictionary, N as nat),
                dictionary == spelled(words@),
                target == letter_byte(letter as int),
                threshold < N,
                letter < ALPHABET,
                i <= words@.len(),
                members(bitmap) == Set::new(
                    |j: u32| j < i && holds_more_than(dictionary, j, threshold as int, target),
                ),
            decreases words@.len() - i,
        {
            let word = words[i];
            assert(word@ == dictionary[i as int]);
            assert(word@.take(word@.len() as int) =~= word@);
            let occurrences = count_letter(word, word.len(), FIRST_LETTER + letter);
            if occurrences >= threshold + 1 {
                bitmap.insert(i as u32);
            }
            i = i + 1;
            assert(members(bitmap) =~= Set::new(
                |j: u32| j < i && holds_more_than(dictionary, j, threshold as int, target),
            ));
        }
        assert(members(bitmap) =~= frequency_set(dictionary, threshold as int, target));
        bitmap
    }

    /// The position sets of one slot, one for each letter.
    fn position_row(words: &Vec<&'a [u8]>, slot: usize) -> (row: Vec<RoaringBitmap>)
        requires
            valid_dictionary(spelled(words@), N as nat),
            slot < N,
        ensures
            row@.len() == ALPHABET,
            forall|l: int|
                0 <= l < ALPHABET ==> members(#[trigger] row@[l]) == position_set(
                    spelled(words@),
                    slot as int,
                    letter_byte(l),
                ),
    {
        let mut row: Vec<RoaringBitmap> = Vec::new();
        let mut letter: u8 = 0;
        while letter < ALPHABET
            invariant
                valid_dictionary(spelled(words@), N as nat),
                slot < N,
                letter <= ALPHABET,
                row@.len() == letter,
                forall|l: int|
                    0 <= l < letter ==> members(#[trigger] row@[l]) == position_set(
                        spelled(words@),
                        slot as int,
                        letter_byte(l),
                    ),
            decreases ALPHABET - letter,
        {
            let bitmap = Self::position_bitmap(words, slot, letter);
            row.push(bitmap);
            letter = letter + 1;
        }
        row
    }

    /// The frequency sets of one threshold, one for each letter.
    fn frequency_row(words: &Vec<&'a [u8]>, threshold: usize) -> (row: Vec<RoaringBitmap>)
        requires
            valid_dictionary(spelled(words@), N as nat),
            threshold < N,
        ensures
            row@.len() == ALPHABET,
            forall|l: int|
                0 <= l < ALPHABET ==> members(#[trigger] row@[l]) == frequency_set(
                    spelled(words@),
                    threshold as int,
                    letter_byte(l),
                ),
    {
        let mut row: Vec<RoaringBitmap> = Vec::new();
        let mut letter: u8 = 0;
        while letter < ALPHABET
            invariant
                valid_dictionary(spelled(words@), N as nat),
                threshold < N,
                letter <= ALPHABET,
                row@.len() == letter,
                forall|l: int|
                    0 <= l < letter ==> members(#[trigger] row@[l]) == frequency_set(
                        spelled(words@),
                        threshold as int,
                        letter_byte(l),
                    ),
            decreases ALPHABET - letter,
        {
            let bitmap = Self::frequency_bitmap(words, threshold, letter);
            row.push(bitmap);
            letter = letter + 1;
        }
        row
    }

    /// Builds the dictionary and both indexes from a buffer of records, each
    /// made of `N` lowercase letters and one separator byte.
    pub fn new(words_raw: &'a [u8]) -> (wordle: Self)
        requires
            N < usize::MAX,
            valid_dictionary(split_words(words_raw@, N as nat), N as nat),
        ensures
            wordle@ == split_words(words_raw@, N as nat),
            wordle.indexed(),
    {
        let words = Self::split(words_raw);
        let ghost dictionary = spelled(words@);
        let mut pos: Vec<Vec<RoaringBitmap>> = Vec::new();
        let mut slot: usize = 0;
        while slot < N
            invariant
                dictionary == spelled(words@),
                valid_dictionary(dictionary, N as nat),
                slot <= N,
                pos@.len() == slot,
                forall|r: int| 0 <= r < slot ==> (#[trigger] pos@[r])@.len() == ALPHABET,
                forall|r: int, l: int|
                    0 <= r < slot && 0 <= l < ALPHABET ==> members(#[trigger] pos@[r]@[l])
                        == position_set(dictionary, r, letter_byte(l)),
            decreases N - slot,
        {
            let row = Self::position_row(&words, slot);
            pos.push(row);
            slot = slot + 1;
        }
        let mut at_least: Vec<Vec<RoaringBitmap>> = Vec::new();
        let mut threshold: usize = 0;
        while threshold < N
            invariant
                dictionary == spelled(words@),
                valid_dictionary(dictionary, N as nat),
                threshold <= N,
                at_least@.len() == threshold,
                forall|r: int| 0 <= r < threshold ==> (#[trigger] at_least@[r])@.len() == ALPHABET,
                forall|r: int, l: int|
                    0 <= r < threshold && 0 <= l < ALPHABET ==> members(
                        #[trigger] at_least@[r]@[l],
                    ) == frequency_set(dictionary, r, letter_byte(l)),
            decreases N - threshold,
        {
            let row = Self::frequency_row(&words, threshold);
            at_least.push(row);
            threshold = threshold + 1;
        }
        let wordle = Wordle { words, pos, at_least };
        proof {
            wordle.lemma_indexed();
        }
        wordle
    }

    /// A dictionary that meets its invariant is indexed.
    proof fn lemma_indexed(&self)
        requires
            self.inv(),
        ensures
            self.indexed(),
    {
        assert forall|slot: int, letter: u8| 0 <= slot < N && is_lowercase(letter) implies (
        #[trigger] self.position_index(slot, letter)) == position_set(self@, slot, letter) by {
            let l = letter - FIRST_LETTER;
            assert(letter_byte(l) == letter);
            assert(members(self.pos@[slot]@[l]) == position_set(self@, slot, letter_byte(l)));
        }
        assert forall|threshold: int, letter: u8|
            0 <= threshold < N && is_lowercase(letter) implies (#[trigger] self.frequency_index(
            threshold,
            letter,
        )) == frequency_set(self@, threshold, letter) by {
            let l = letter - FIRST_LETTER;
            assert(letter_byte(l) == letter);
            assert(members(self.at_least@[threshold]@[l]) == frequency_set(
                self@,
                threshold,
                letter_byte(l),
            ));
        }
    }

    /// The set of the position index for `letter` at `slot`: the indices of
    /// the words that hold the letter there.
    pub fn position(&self, slot: usize, letter: u8) -> (set: &RoaringBitmap)
        requires
            slot < N,
            is_lowercase(letter),
        ensures
            members(*set) == self.position_index(slot as int, letter),
            members(*set) == position_set(self@, slot as int, letter),
            members(*set).subset_of(all_indices(self@)),
    {
        proof {
            use_type_invariant(self);
            self.lemma_indexed();
        }
        &self.pos[slot][(letter - FIRST_LETTER) as usize]
    }

    /// The set of the frequency index for `letter` at `threshold`: the indices
    /// of the words in which the letter occurs at least `threshold + 1` times.
    pub fn frequency(&self, threshold: usize, letter: u8) -> (set: &RoaringBitmap)
        requires
            threshold < N,
            is_lowercase(letter),
        ensures
            members(*set) == self.frequency_index(threshold as int, letter),
            members(*set) == frequency_set(self@, threshold as int, letter),
            members(*set).subset_of(all_indices(self@)),
            threshold > 0 ==> members(*set).subset_of(
                self.frequency_index(threshold - 1, letter),
            ),
    {
        proof {
            use_type_invariant(self);
            self.lemma_indexed();
        }
        &self.at_least[threshold][(letter - FIRST_LETTER) as usize]
    }

    /// The word at `index`.
    pub fn word(&self, index: u32) -> (word: &'a [u8])
        requires
            index < self@.len(),
        ensures
            word@ == self@[index as int],
            word@.len() == N,
            all_lowercase(word@),
    {
        proof {
            use_type_invariant(self);
            assert(self@[index as int] == self.words@[index as int]@);
        }
        self.words[index as usize]
    }

    /// Whether `goal` stands at no more than one index of the dictionary.
    pub fn unambiguous(&self, goal: &[u8]) -> (ok: bool)
        ensures
            ok == at_most_once(self@, goal@),
    {
        let ghost words = self@;
        let mut found: Option<usize> = None;
        let mut i: usize = 0;
        while i < self.words.len()
            invariant
                words == self@,
                words.len() == self.words@.len(),
                i <= words.len(),
                forall|j: int| 0 <= j < words.len() ==> words[j] == self.words@[j]@,
                match found {
                    Some(first) => first < i && words[first as int] == goal@,
                    None => true,
                },
                forall|j: int|
                    0 <= j < i && #[trigger] words[j] == goal@ ==> found == Some(j as usize),
            decreases words.len() - i,
        {
            if same_word(self.words[i], goal) {
                if let Some(first) = found {
                    assert(words[first as int] == goal@ && words[i as int] == goal@);
                    return false;
                }
                found = Some(i);
            }
            i = i + 1;
        }
        true
    }

    /// The candidate set at the start of a solve run: the index of every word.
    pub fn new_bitmap(&self) -> (bitmap: RoaringBitmap)
        ensures
            members(bitmap) == all_indices(self@),
    {
        proof {
            use_type_invariant(self);
        }
        let mut bitmap = RoaringBitmap::new();
        insert_range(&mut bitmap, 0, self.words.len() as u32);
        assert(members(bitmap) =~= all_indices(self@));
        bitmap
    }

    /// Scores `guess` against `goal`, slot by slot.
    pub fn guess(guess: &[u8], goal: &[u8]) -> (feedback: Feedback<N>)
        requires
            guess@.len() == N,
            goal@.len() == N,
        ensures
            feedback@ == feedback_row(guess@, goal@),
            guess@ == goal@ ==> feedback@ == all_correct(N as nat),
    {
        let mut row = [Letter::Incorrect;N];
        let mut slot: usize = 0;
        while slot < N
            invariant
                guess@.len() == N,
                goal@.len() == N,
                slot <= N,
                forall|s: int| 0 <= s < slot ==> row@[s] == classify(guess@, goal@, s),
            decreases N - slot,
        {
            let letter = guess[slot];
            if letter == goal[slot] {
                row[slot] = Letter::Correct;
            } else {
                let prev_seen = count_letter(guess, slot, letter);
                let num_in_goal = count_letter(goal, N, letter);
                proof {
                    assert(goal@.take(N as int) =~= goal@);
                    lemma_occurrences_contains(goal@, letter);
                }
                if num_in_goal > 0 && prev_seen <= num_in_goal {
                    row[slot] = Letter::Partial;
                } else {
                    row[slot] = Letter::Incorrect;
                }
            }
            slot = slot + 1;
        }
        let feedback = Feedback(row);
        proof {
            assert(feedback@ =~= feedback_row(guess@, goal@));
            if guess@ == goal@ {
                lemma_own_feedback_all_correct(guess@);
            }
        }
        feedback
    }

    /// Counts the slots at which `guess` holds `letter` and `feedback` marks it
    /// `Correct` or `Partial`.
    fn count_confirmed(guess: &[u8], feedback: &Feedback<N>, letter: u8) -> (m: usize)
        requires
            guess@.len() == N,
        ensures
            m == confirmed(guess@, feedback@, letter),
    {
        let mut m: usize = 0;
        let mut slot: usize = 0;
        while slot < N
            invariant
                guess@.len() == N,
                slot <= N,
                m <= slot,
                m == confirmed_before(guess@, feedback@, letter, slot as int),
            decreases N - slot,
        {
            let confirmed_here = match feedback.0[slot] {
                Letter::Incorrect => false,
                _ => guess[slot] == letter,
            };
            if confirmed_here {
                m = m + 1;
            }
            slot = slot + 1;
        }
        m
    }

    /// Narrows `bitmap` to the candidates that the scored guess leaves in
    /// play.
    pub fn apply_guess(&self, bitmap: &mut RoaringBitmap, guess: &[u8], feedback: &Feedback<N>)
        requires
            guess@.len() == N,
            all_lowercase(guess@),
        ensures
            members(*final(bitmap)) == narrowed(members(*old(bitmap)), self@, guess@, feedback@),
            members(*final(bitmap)).subset_of(members(*old(bitmap))),
    {
        let ghost before = members(*bitmap);
        let ghost row = feedback@;
        assert(before.filter(|index: u32| admits_before(self@, index, guess@, row, 0)) =~= before);
        let mut slot: usize = 0;
        while slot < N
            invariant
                guess@.len() == N,
                all_lowercase(guess@),
                row == feedback@,
                slot <= N,
                members(*bitmap) == before.filter(
                    |index: u32| admits_before(self@, index, guess@, row, slot as int),
                ),
            decreases N - slot,
        {
            proof {
                use_type_invariant(self);
            }
            let ghost narrowed_so_far = members(*bitmap);
            let ch = guess[slot];
            assert(is_lowercase(guess@[slot as int]));
            let char_index = (ch - FIRST_LETTER) as usize;
            assert(letter_byte(char_index as int) == ch);
            match feedback.0[slot] {
                Letter::Correct => {
                    intersect_with(bitmap, &self.pos[slot][char_index]);
                },
                Letter::Partial => {
                    intersect_with(bitmap, &self.at_least[0][char_index]);
                    subtract(bitmap, &self.pos[slot][char_index]);
                },
                Letter::Incorrect => {
                    let m = Self::count_confirmed(guess, feedback, ch);
                    proof {
                        lemma_confirmed_room(guess@, row, ch, slot as int, N as int);
                    }
                    if m > 0 {
                        subtract(bitmap, &self.at_least[m][char_index]);
                        subtract(bitmap, &self.pos[slot][char_index]);
                    } else {
                        subtract(bitmap, &self.at_least[0][char_index]);
                    }
                },
            }
            proof {
                assert forall|index: u32|
                    members(*bitmap).contains(index) == (narrowed_so_far.contains(index)
                        && slot_admits(self@, index, guess@, row, slot as int)) by {}
                assert forall|index: u32|
                    members(*bitmap).contains(index) == before.filter(
                        |index: u32| admits_before(self@, index, guess@, row, slot + 1),
                    ).contains(index) by {
                    lemma_admits_step(self@, index, guess@, row, slot as int);
                }
                assert(members(*bitmap) =~= before.filter(
                    |index: u32| admits_before(self@, index, guess@, row, slot + 1),
                ));
            }
            slot = slot + 1;
        }
        assert(members(*bitmap) =~= narrowed(before, self@, guess@, row));
    }

    /// Plays one round of a solve run: guesses the candidate at position
    /// `pick` in ascending order of index, scores it against `goal`, and
    /// narrows the candidates by the score. Returns the guess and its score.
    pub fn play(&self, candidates: &mut RoaringBitmap, pick: u32, goal: &[u8]) -> (round: (
        &'a [u8],
        Feedback<N>,
    ))
        requires
            goal@.len() == N,
            members(*old(candidates)).subset_of(all_indices(self@)),
            pick < members(*old(candidates)).len(),
        ensures
            round.0@ == self@[nth(members(*old(candidates)), pick as nat) as int],
            round.1@ == feedback_row(round.0@, goal@),
            members(*final(candidates)) == narrowed(
                members(*old(candidates)),
                self@,
                round.0@,
                round.1@,
            ),
            members(*old(candidates)).contains(nth(members(*old(candidates)), pick as nat)),
            round.0@.len() == N,
            all_lowercase(round.0@),
    {
        let found = candidates.select(pick);
        let index = found.unwrap();
        proof {
            lemma_nth_is(members(*candidates), pick as nat, index);
        }
        let word = self.word(index);
        let feedback = Self::guess(word, goal);
        self.apply_guess(candidates, word, &feedback);
        (word, feedback)
    }
}

/// Where record `w` of a buffer of `len` bytes lies, when records are `width`
/// bytes wide: it starts at `w * width`, and the whole of it is in the buffer.
proof fn lemma_record_in_buffer(len: int, width: int, w: int)
    requires
        0 <= len,
        0 < width,
        0 <= w < len / width,
    ensures
        0 <= w * width,
        (w + 1) * width == w * width + width,
        (w + 1) * width <= len,
{
    let count = len / width;
    assert(count * width <= len) by (nonlinear_arith)
        requires
            count == len / width,
            width > 0,
            len >= 0,
    ;
    assert((w + 1) * width <= count * width) by (nonlinear_arith)
        requires
            w + 1 <= count,
            width > 0,
    ;
    assert((w + 1) * width == w * width + width) by (nonlinear_arith);
    assert(0 <= w * width) by (nonlinear_arith)
        requires
            0 <= w,
            0 < width,
    ;
}

/// Runs the solver for `goal`: starting from every word of the dictionary, it
/// guesses a candidate drawn at random, scores the guess against the goal and
/// narrows the candidates by the score, until one candidate is left or none.
///
/// Returns the rounds played, each with the guess, its score and the number
/// of candidates before it, when the run ends at the goal; and `None` when the
/// goal is not a word of the dictionary.
///
/// The goal may stand at no more than one index of the dictionary: a run for
/// a goal that stands at two never gets below two candidates, and so never
/// ends. [`Wordle::unambiguous`] tells.
pub fn guess<'a, const N: usize>(wordle: &'a Wordle<'a, N>, goal: &[u8]) -> (outcome: Option<
    Vec<(&'a [u8], Feedback<N>, u64)>,
>)
    requires
        goal@.len() == N,
        at_most_once(wordle@, goal@),
    ensures
        outcome is Some <==> wordle@.contains(goal@),
        outcome matches Some(trace) ==> solves(wordle@, goal@, rounds_of(trace@)),
{
    let ghost words = wordle@;
    let mut c = wordle.new_bitmap();
    let mut guesses: Vec<(&'a [u8], Feedback<N>, u64)> = Vec::new();
    proof {
        use_type_invariant(wordle);
        lemma_all_indices_len(words);
    }
    loop
        invariant
            goal@.len() == N,
            words == wordle@,
            valid_dictionary(words, N as nat),
            at_most_once(words, goal@),
            members(c) == pool_before(words, rounds_of(guesses@), guesses@.len() as int),
            members(c).subset_of(all_indices(words)),
            guesses@.len() + members(c).len() <= words.len(),
            forall|k: int|
                0 <= k < guesses@.len() ==> round_follows(words, goal@, rounds_of(guesses@), k),
            forall|k: int| 0 <= k < guesses@.len() ==> (#[trigger] rounds_of(guesses@)[k]).pool >= 2,
            forall|k: int|
                0 <= k < guesses@.len() - 1 ==> (#[trigger] rounds_of(guesses@)[k]).word != goal@,
            guesses@.len() > 0 && rounds_of(guesses@).last().word == goal@ ==> members(c).len()
                <= 1,
            forall|index: u32|
                index < words.len() && #[trigger] words[index as int] == goal@ ==> members(
                    c,
                ).contains(index),
        decreases members(c).len(),
    {
        let ghost pool = members(c);
        let ghost played = rounds_of(guesses@);
        proof {
            lemma_finite(pool);
        }
        let len = c.len();
        if len == 1 {
            let index = c.select(0).unwrap();
            let my_guess = wordle.word(index);
            if same_word(my_guess, goal) {
                let told = guesses.len() > 0 && same_word(guesses[guesses.len() - 1].0, goal);
                if !told {
                    guesses.push((my_guess, Feedback::correct(), len));
                    proof {
                        let rounds = rounds_of(guesses@);
                        let last = played.len() as int;
                        lemma_own_feedback_all_correct(goal@);
                        assert forall|k: int| 0 <= k <= last implies round_follows(
                            words,
                            goal@,
                            rounds,
                            k,
                        ) by {
                            lemma_pool_prefix(words, played, rounds, k);
                            if k < last {
                                assert(round_follows(words, goal@, played, k));
                                assert(rounds[k] == played[k]);
                            }
                        }
                        assert forall|k: int| 0 <= k < last implies (#[trigger] rounds[k]).word
                            != goal@ && rounds[k].pool >= 2 by {
                            assert(rounds[k] == played[k]);
                        }
                    }
                }
                return Some(guesses);
            } else {
                proof {
                    if words.contains(goal@) {
                        let at = choose|i: int| 0 <= i < words.len() && words[i] == goal@;
                        lemma_single_member(pool, at as u32, index);
                    }
                }
                return None;
            }
        } else if len == 0 {
            proof {
                if words.contains(goal@) {
                    let at = choose|i: int| 0 <= i < words.len() && words[i] == goal@;
                    assert(pool.contains(at as u32));
                }
            }
            return None;
        }
        let pick = random_below(len as u32);
        let (word, feedback) = wordle.play(&mut c, pick, goal);
        guesses.push((word, feedback, len));
        proof {
            let rounds = rounds_of(guesses@);
            let last = played.len() as int;
            let index = nth(pool, pick as nat);
            lemma_round_shrinks(words, pool, index, goal@);
            assert forall|k: int| 0 <= k <= last implies round_follows(words, goal@, rounds, k) by {
                lemma_pool_prefix(words, played, rounds, k);
                if k < last {
                    assert(round_follows(words, goal@, played, k));
                    assert(rounds[k] == played[k]);
                }
            }
            lemma_pool_prefix(words, played, rounds, last);
            assert forall|k: int| 0 <= k <= last implies (#[trigger] rounds[k]).pool >= 2 by {
                if k < last {
                    assert(rounds[k] == played[k]);
                }
            }
            assert forall|k: int| 0 <= k < last implies (#[trigger] rounds[k]).word != goal@ by {
                assert(rounds[k] == played[k]);
            }
            assert forall|at: u32|
                at < words.len() && #[trigger] words[at as int] == goal@ implies members(
                c,
            ).contains(at) by {
                lemma_goal_retained(pool, words, at, word@);
            }
        }
    }
}

} // verus!
