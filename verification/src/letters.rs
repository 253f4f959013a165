//! Letters and how often they occur in a word.

use vstd::prelude::*;

verus! {

/// The byte of the first letter of the alphabet, `a`.
pub const FIRST_LETTER: u8 = 0x61;

/// The byte of the last letter of the alphabet, `z`.
pub const LAST_LETTER: u8 = 0x7a;

/// The number of letters that a slot can hold.
pub const ALPHABET: u8 = 26;

/// The byte of the letter with the given index: 0 is `a`, 25 is `z`.
pub open spec fn letter_byte(index: int) -> u8 {
    (FIRST_LETTER + index) as u8
}

/// Whether `byte` is one of the lowercase ASCII letters.
pub open spec fn is_lowercase(byte: u8) -> bool {
    FIRST_LETTER <= byte <= LAST_LETTER
}

/// Whether every byte of `word` is a lowercase ASCII letter.
pub open spec fn all_lowercase(word: Seq<u8>) -> bool {
    forall|s: int| 0 <= s < word.len() ==> is_lowercase(#[trigger] word[s])
}

/// How many times `letter` occurs in `word`.
pub open spec fn occurrences(word: Seq<u8>, letter: u8) -> nat
    decreases word.len(),
{
    if word.len() == 0 {
        0
    } else {
        occurrences(word.drop_last(), letter) + if word.last() == letter {
            1nat
        } else {
            0nat
        }
    }
}

/// Extending a prefix by one slot adds one occurrence exactly when that slot
/// holds the letter.
pub proof fn lemma_occurrences_step(word: Seq<u8>, letter: u8, n: int)
    requires
        0 <= n < word.len(),
    ensures
        occurrences(word.take(n + 1), letter) == occurrences(word.take(n), letter) + if word[n]
            == letter {
            1nat
        } else {
            0nat
        },
{
    assert(word.take(n + 1).drop_last() =~= word.take(n));
}

/// A letter occurs at least once exactly when some slot holds it.
pub proof fn lemma_occurrences_contains(word: Seq<u8>, letter: u8)
    ensures
        occurrences(word, letter) > 0 <==> word.contains(letter),
    decreases word.len(),
{
    if word.len() > 0 {
        let front = word.drop_last();
        lemma_occurrences_contains(front, letter);
        if word.contains(letter) {
            let s = choose|s: int| 0 <= s < word.len() && word[s] == letter;
            if s < word.len() - 1 {
                assert(front[s] == letter);
            }
        }
        if front.contains(letter) {
            let s = choose|s: int| 0 <= s < front.len() && front[s] == letter;
            assert(word[s] == letter);
        }
    }
}

/// A word that holds `letter` at some slot has at least one occurrence of it.
pub proof fn lemma_occurrences_at(word: Seq<u8>, letter: u8, s: int)
    requires
        0 <= s < word.len(),
        word[s] == letter,
    ensures
        occurrences(word, letter) >= 1,
{
    lemma_occurrences_contains(word, letter);
}

/// Counts the occurrences of `letter` among the first `end` bytes of `word`.
pub fn count_letter(word: &[u8], end: usize, letter: u8) -> (n: usize)
    requires
        end <= word@.len(),
    ensures
        n == occurrences(word@.take(end as int), letter),
        n <= end,
{
    let mut n: usize = 0;
    let mut s: usize = 0;
    while s < end
        invariant
            s <= end <= word@.len(),
            n == occurrences(word@.take(s as int), letter),
            n <= s,
        decreases end - s,
    {
        proof {
            lemma_occurrences_step(word@, letter, s as int);
        }
        if word[s] == letter {
            n = n + 1;
        }
        s = s + 1;
    }
    n
}

/// Whether two words hold the same bytes.
pub fn same_word(left: &[u8], right: &[u8]) -> (same: bool)
    ensures
        same == (left@ == right@),
{
    if left.len() != right.len() {
        return false;
    }
    let mut s: usize = 0;
    while s < left.len()
        invariant
            left@.len() == right@.len(),
            s <= left@.len(),
            forall|t: int| 0 <= t < s ==> left@[t] == right@[t],
        decreases left@.len() - s,
    {
        if left[s] != right[s] {
            return false;
        }
        s = s + 1;
    }
    assert(left@ =~= right@);
    true
}

} // verus!
