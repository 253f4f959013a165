use wordle_solver::{Feedback, Letter, Wordle};

use Letter::{Correct, Incorrect, Partial};

#[test]
fn slate_against_crane() {
    // `s`, `l` and `t` are not in the goal; `a` and `e` stand where the goal has them.
    let feedback = Wordle::<5>::guess(b"slate", b"crane");
    assert_eq!(feedback.0, [Incorrect, Incorrect, Correct, Incorrect, Correct]);
}

#[test]
fn react_against_crane() {
    let feedback = Wordle::<5>::guess(b"react", b"crane");
    assert_eq!(feedback.0, [Partial, Partial, Correct, Partial, Incorrect]);
}

#[test]
fn word_against_itself_is_all_correct() {
    for word in [b"crane", b"slate", b"react", b"eerie", b"aaaaa"] {
        let feedback = Wordle::<5>::guess(word, word);
        assert_eq!(feedback.0, [Correct; 5]);
    }
}

#[test]
fn correct_is_all_correct() {
    assert_eq!(Feedback::<5>::correct().0, [Correct; 5]);
    assert_eq!(Feedback::<3>::correct().0, [Correct; 3]);
    assert_eq!(Feedback::<0>::correct().0, []);
}

#[test]
fn letter_absent_from_goal_is_incorrect_everywhere() {
    let feedback = Wordle::<5>::guess(b"zzzzz", b"crane");
    assert_eq!(feedback.0, [Incorrect; 5]);
}

#[test]
fn repeated_letter_is_partial_while_seen_no_more_than_goal_holds() {
    // The goal holds one `a`. The first `a` of the guess is in place; the
    // second has been seen once before, which the goal still covers; the third
    // has been seen twice.
    let feedback = Wordle::<3>::guess(b"aaa", b"abc");
    assert_eq!(feedback.0, [Correct, Partial, Incorrect]);
}

#[test]
fn repeated_letter_out_of_place() {
    // The goal holds two `e`s; the guess shows three before the last slot.
    let feedback = Wordle::<5>::guess(b"eeexe", b"xxeex");
    assert_eq!(feedback.0, [Partial, Partial, Correct, Partial, Incorrect]);
}

fn confirmed(guess: &[u8], marks: &[Letter], letter: u8) -> usize {
    (0..guess.len())
        .filter(|&s| guess[s] == letter && marks[s] != Incorrect)
        .count()
}

fn occurrences(word: &[u8], letter: u8) -> usize {
    word.iter().filter(|&&b| b == letter).count()
}

#[test]
fn marks_stay_within_goal_when_guess_repeats_no_more_than_goal() {
    let words: [&[u8; 5]; 6] = [b"crane", b"react", b"eerie", b"abbey", b"kebab", b"bobby"];
    for goal in words {
        for guess in words {
            let feedback = Wordle::<5>::guess(guess, goal);
            for letter in b'a'..=b'z' {
                let in_goal = occurrences(goal, letter);
                if in_goal == 0 || occurrences(guess, letter) <= in_goal {
                    assert!(confirmed(guess, &feedback.0, letter) <= in_goal);
                } else {
                    assert!(confirmed(guess, &feedback.0, letter) > in_goal);
                }
            }
        }
    }
}

#[test]
fn marks_exceed_goal_when_guess_repeats_more_than_goal() {
    // One `a` in the goal, two in the guess: both are marked.
    let feedback = Wordle::<3>::guess(b"aab", b"abc");
    assert_eq!(feedback.0, [Correct, Partial, Partial]);
    assert_eq!(confirmed(b"aab", &feedback.0, b'a'), 2);
}

#[test]
fn evaluation_takes_any_bytes() {
    let feedback = Wordle::<2>::guess(&[0, 255], &[255, 255]);
    assert_eq!(feedback.0, [Incorrect, Correct]);
}

#[test]
fn glyphs_are_coloured_squares() {
    assert_eq!(Incorrect.glyph(), '\u{2b1b}');
    assert_eq!(Partial.glyph(), '\u{1f7e8}');
    assert_eq!(Correct.glyph(), '\u{1f7e9}');
}

#[test]
fn feedback_renders_one_square_per_slot() {
    let feedback = Wordle::<5>::guess(b"slate", b"crane");
    assert_eq!(
        feedback.to_string(),
        "\u{2b1b}\u{2b1b}\u{1f7e9}\u{2b1b}\u{1f7e9}"
    );
    let feedback = Wordle::<5>::guess(b"react", b"crane");
    assert_eq!(
        feedback.to_string(),
        "\u{1f7e8}\u{1f7e8}\u{1f7e9}\u{1f7e8}\u{2b1b}"
    );
    assert_eq!(Feedback::<0>::correct().to_string(), "");
}
