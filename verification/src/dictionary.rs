//! Dictionaries of fixed-length words, and the sets of word indices that answer
//! questions about them.

use crate::letters::{all_lowercase, occurrences};
use vstd::prelude::*;
use vstd::set_lib::range_set_properties;

verus! {

/// The words of a flat buffer of records, each made of `n` letters and one
/// separator byte. Bytes after the last whole record belong to no word.
pub open spec fn split_words(raw: Seq<u8>, n: nat) -> Seq<Seq<u8>> {
    Seq::new(
        raw.len() / ((n + 1) as nat),
        |w: int| raw.subrange(w * (n + 1), w * (n + 1) + n),
    )
}

/// Whether `words` can be indexed: every word has `n` lowercase letters, and
/// every position in the sequence fits in a `u32`.
pub open spec fn valid_dictionary(words: Seq<Seq<u8>>, n: nat) -> bool {
    &&& words.len() <= u32::MAX
    &&& forall|w: int|
        0 <= w < words.len() ==> (#[trigger] words[w]).len() == n && all_lowercase(words[w])
}

/// Whether `index` names a word that holds `letter` at `slot`.
pub open spec fn holds_at(words: Seq<Seq<u8>>, index: u32, slot: int, letter: u8) -> bool {
    index < words.len() && words[index as int][slot] == letter
}

/// Whether `index` names a word in which `letter` occurs more than `count`
/// times.
pub open spec fn holds_more_than(words: Seq<Seq<u8>>, index: u32, count: int, letter: u8) -> bool {
    index < words.len() && occurrences(words[index as int], letter) > count
}

/// The indices of all words.
pub open spec fn all_indices(words: Seq<Seq<u8>>) -> Set<u32> {
    Set::new(|index: u32| index < words.len())
}

/// The indices of the words that hold `letter` at `slot`.
pub open spec fn position_set(words: Seq<Seq<u8>>, slot: int, letter: u8) -> Set<u32> {
    Set::new(|index: u32| holds_at(words, index, slot, letter))
}

/// The indices of the words in which `letter` occurs at least `threshold + 1`
/// times.
pub open spec fn frequency_set(words: Seq<Seq<u8>>, threshold: int, letter: u8) -> Set<u32> {
    Set::new(|index: u32| holds_more_than(words, index, threshold, letter))
}

/// A position set names words of the dictionary only.
pub proof fn lemma_position_set_in_range(words: Seq<Seq<u8>>, slot: int, letter: u8)
    ensures
        position_set(words, slot, letter).subset_of(all_indices(words)),
{
}

/// A frequency set names words of the dictionary only.
pub proof fn lemma_frequency_set_in_range(words: Seq<Seq<u8>>, threshold: int, letter: u8)
    ensures
        frequency_set(words, threshold, letter).subset_of(all_indices(words)),
{
}

/// The frequency sets of one letter are nested: a word with at least
/// `threshold + 1` occurrences has at least `threshold` of them.
pub proof fn lemma_frequency_sets_nested(words: Seq<Seq<u8>>, threshold: int, letter: u8)
    ensures
        frequency_set(words, threshold, letter).subset_of(
            frequency_set(words, threshold - 1, letter),
        ),
{
}

/// The byte sequences behind a sequence of slices.
pub open spec fn spelled(words: Seq<&[u8]>) -> Seq<Seq<u8>> {
    Seq::new(words.len(), |w: int| words[w]@)
}

/// A dictionary whose positions fit in a `u32` has as many indices as words.
pub proof fn lemma_all_indices_len(words: Seq<Seq<u8>>)
    requires
        words.len() <= u32::MAX,
    ensures
        all_indices(words).finite(),
        all_indices(words).len() == words.len(),
{
    let count = words.len() as u32;
    range_set_properties::<u32>(0, count);
    assert(all_indices(words) =~= Set::<u32>::range(0, count));
}

} // verus!
