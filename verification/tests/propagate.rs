use roaring::RoaringBitmap;
use wordle_solver::{Feedback, Letter, Wordle};

use Letter::{Correct, Incorrect, Partial};

const WORDS: &[u8] = b"crane\nslate\nreact\ntrace\neerie\nabbey\nkebab\nbobby\n";

fn members(bitmap: &RoaringBitmap) -> Vec<u32> {
    bitmap.iter().collect()
}

fn of(values: &[u32]) -> RoaringBitmap {
    let mut bitmap = RoaringBitmap::new();
    for &value in values {
        bitmap.insert(value);
    }
    bitmap
}

#[test]
fn correct_keeps_words_with_the_letter_in_place() {
    let wordle: Wordle<5> = Wordle::new(WORDS);
    let mut candidates = wordle.new_bitmap();
    let feedback = Feedback([Incorrect, Incorrect, Incorrect, Incorrect, Correct]);
    // No word but `crane`, `slate`, `trace` and `eerie` ends in `e`; `z` occurs nowhere.
    wordle.apply_guess(&mut candidates, b"zzzze", &feedback);
    assert_eq!(members(&candidates), vec![0, 1, 3, 4]);
}

#[test]
fn partial_asks_for_the_letter_elsewhere() {
    let wordle: Wordle<5> = Wordle::new(WORDS);
    let mut candidates = wordle.new_bitmap();
    let feedback = Feedback([Partial, Incorrect, Incorrect, Incorrect, Incorrect]);
    // Words that hold `r`, but not in front: crane, trace, eerie.
    wordle.apply_guess(&mut candidates, b"rzzzz", &feedback);
    assert_eq!(members(&candidates), vec![0, 3, 4]);
}

#[test]
fn incorrect_without_confirmation_bans_the_letter() {
    let wordle: Wordle<5> = Wordle::new(WORDS);
    let mut candidates = wordle.new_bitmap();
    let feedback = Feedback([Incorrect; 5]);
    // Words without any `e`: bobby.
    wordle.apply_guess(&mut candidates, b"eeeee", &feedback);
    assert_eq!(members(&candidates), vec![7]);
}

#[test]
fn incorrect_with_confirmation_caps_the_count() {
    let wordle: Wordle<5> = Wordle::new(WORDS);
    let mut candidates = wordle.new_bitmap();
    // `b` is confirmed once (slot 0, out of place) and refused at slot 1: words
    // with one `b` at most, none at slot 0 or 1, and at least one.
    let feedback = Feedback([Partial, Incorrect, Incorrect, Incorrect, Incorrect]);
    wordle.apply_guess(&mut candidates, b"bbzzz", &feedback);
    assert_eq!(members(&candidates), Vec::<u32>::new());

    let mut candidates = wordle.new_bitmap();
    // `e` confirmed twice, refused a third time at slot 4: words with `e` at
    // slots 0 and 1, no more than two `e`s, none at slot 4.
    let feedback = Feedback([Correct, Correct, Incorrect, Incorrect, Incorrect]);
    wordle.apply_guess(&mut candidates, b"eezze", &feedback);
    assert_eq!(members(&candidates), Vec::<u32>::new());

    let mut candidates = wordle.new_bitmap();
    // `b` confirmed twice out of place (slots 0 and 4), refused at slot 1:
    // at least one `b`, at most two, none at slot 0, 1 or 4: abbey has `b` at
    // slot 1; kebab has `b` at slot 4; bobby has three.
    let feedback = Feedback([Partial, Incorrect, Incorrect, Incorrect, Partial]);
    wordle.apply_guess(&mut candidates, b"bbzzb", &feedback);
    assert_eq!(members(&candidates), Vec::<u32>::new());

    let mut candidates = wordle.new_bitmap();
    // `b` confirmed once in place at slot 2, refused at slot 0: `b` at slot 2,
    // one `b` at most, none at slot 0: kebab has two, abbey has two, bobby three.
    let feedback = Feedback([Incorrect, Incorrect, Correct, Incorrect, Incorrect]);
    wordle.apply_guess(&mut candidates, b"bzbzz", &feedback);
    assert_eq!(members(&candidates), Vec::<u32>::new());
}

#[test]
fn incorrect_with_confirmation_keeps_words_within_the_cap() {
    let wordle: Wordle<5> = Wordle::new(b"abbey\nkebab\nbobby\nrebut\nabbot\n");
    let mut candidates = wordle.new_bitmap();
    // `b` confirmed at slot 2, refused at slot 0: rebut only (one `b`, at slot 2).
    let feedback = Feedback([Incorrect, Incorrect, Correct, Incorrect, Incorrect]);
    wordle.apply_guess(&mut candidates, b"bzbzz", &feedback);
    assert_eq!(members(&candidates), vec![3]);

    let mut candidates = wordle.new_bitmap();
    // `b` confirmed at slots 1 and 2, refused at slot 0: abbey and abbot.
    let feedback = Feedback([Incorrect, Correct, Correct, Incorrect, Incorrect]);
    wordle.apply_guess(&mut candidates, b"bbbzz", &feedback);
    assert_eq!(members(&candidates), vec![0, 4]);
}

#[test]
fn slate_then_crane_is_left() {
    let wordle: Wordle<5> = Wordle::new(b"crane\nslate\nreact\n");
    let mut candidates = wordle.new_bitmap();
    let feedback = Wordle::<5>::guess(b"slate", b"crane");
    wordle.apply_guess(&mut candidates, b"slate", &feedback);
    assert_eq!(members(&candidates), vec![0]);
}

#[test]
fn apply_never_adds_a_candidate() {
    let wordle: Wordle<5> = Wordle::new(WORDS);
    let count = wordle.new_bitmap().len() as u32;
    for goal in 0..count {
        for guess in 0..count {
            let before = of(&[0, 2, 3, 5, 7]);
            let mut after = of(&[0, 2, 3, 5, 7]);
            let feedback = Wordle::<5>::guess(wordle.word(guess), wordle.word(goal));
            wordle.apply_guess(&mut after, wordle.word(guess), &feedback);
            assert!(after.is_subset(&before));
        }
    }
}

#[test]
fn apply_keeps_the_goal() {
    let wordle: Wordle<5> = Wordle::new(WORDS);
    let count = wordle.new_bitmap().len() as u32;
    for goal in 0..count {
        let mut candidates = wordle.new_bitmap();
        for guess in 0..count {
            let feedback = Wordle::<5>::guess(wordle.word(guess), wordle.word(goal));
            wordle.apply_guess(&mut candidates, wordle.word(guess), &feedback);
            assert!(candidates.contains(goal));
        }
        assert_eq!(members(&candidates), vec![goal]);
    }
}

#[test]
fn apply_keeps_the_goal_for_guesses_outside_the_dictionary() {
    let wordle: Wordle<3> = Wordle::new(b"abc aab aaa bca ");
    for goal in 0..4u32 {
        let mut candidates = wordle.new_bitmap();
        for guess in [b"aaa", b"aab", b"baa", b"ccc", b"cab", b"zzz", b"bbb"] {
            let feedback = Wordle::<3>::guess(guess, wordle.word(goal));
            wordle.apply_guess(&mut candidates, guess, &feedback);
            assert!(candidates.contains(goal));
        }
    }
}

#[test]
fn indices_beyond_the_dictionary_survive_only_refusals() {
    let wordle: Wordle<5> = Wordle::new(b"crane\nslate\nreact\n");
    let mut candidates = of(&[1, 2, 90]);
    wordle.apply_guess(&mut candidates, b"zzzzz", &Feedback([Incorrect; 5]));
    assert_eq!(members(&candidates), vec![1, 2, 90]);
    wordle.apply_guess(
        &mut candidates,
        b"zzzze",
        &Feedback([Incorrect, Incorrect, Incorrect, Incorrect, Correct]),
    );
    assert_eq!(members(&candidates), vec![1]);
}

#[test]
fn play_guesses_the_candidate_at_the_given_position() {
    let wordle: Wordle<5> = Wordle::new(WORDS);
    let mut candidates = of(&[1, 3, 4]);
    let (word, feedback) = wordle.play(&mut candidates, 1, b"crane");
    assert_eq!(word, b"trace");
    assert_eq!(feedback.0, [Incorrect, Correct, Correct, Partial, Correct]);
    assert_eq!(members(&candidates), Vec::<u32>::new());

    let mut candidates = wordle.new_bitmap();
    let (word, feedback) = wordle.play(&mut candidates, 1, b"crane");
    assert_eq!(word, b"slate");
    assert_eq!(feedback.0, [Incorrect, Incorrect, Correct, Incorrect, Correct]);
    assert_eq!(members(&candidates), vec![0]);

    let mut candidates = wordle.new_bitmap();
    let (word, feedback) = wordle.play(&mut candidates, 0, b"crane");
    assert_eq!(word, b"crane");
    assert_eq!(feedback.0, [Correct; 5]);
    assert_eq!(members(&candidates), vec![0]);
}
