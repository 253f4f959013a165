use wordle_solver::{guess, Letter, Wordle};

const WORDS: &[u8] = b"crane\nslate\nreact\ntrace\neerie\nabbey\nkebab\nbobby\n";

#[test]
fn single_word_dictionary_is_solved_in_one_round() {
    let wordle: Wordle<5> = Wordle::new(b"crane\n");
    let trace = guess(&wordle, b"crane").unwrap();
    assert_eq!(trace.len(), 1);
    assert_eq!(trace[0].0, b"crane");
    assert_eq!(trace[0].1 .0, [Letter::Correct; 5]);
    assert_eq!(trace[0].2, 1);
}

#[test]
fn goal_outside_the_dictionary_is_not_found() {
    let wordle: Wordle<5> = Wordle::new(WORDS);
    for _ in 0..50 {
        assert!(guess(&wordle, b"zesty").is_none());
        assert!(guess(&wordle, b"crank").is_none());
    }
}

#[test]
fn not_found_when_one_other_word_is_left() {
    // Whichever word is guessed first, its letters rule it out and leave the
    // other, which is not the goal.
    let wordle: Wordle<5> = Wordle::new(b"aaaaa\nbbbbb\n");
    for _ in 0..20 {
        assert!(guess(&wordle, b"ccccc").is_none());
    }
}

#[test]
fn not_found_when_no_word_is_left() {
    // Either guess refuses both `a` and `b`, which rules out both words.
    let wordle: Wordle<5> = Wordle::new(b"aabbb\nbbbaa\n");
    for _ in 0..20 {
        assert!(guess(&wordle, b"ccccc").is_none());
    }
}

#[test]
fn not_found_in_an_empty_dictionary() {
    let wordle: Wordle<5> = Wordle::new(b"");
    assert!(guess(&wordle, b"crane").is_none());
}

#[test]
fn every_word_of_the_dictionary_is_found() {
    let wordle: Wordle<5> = Wordle::new(WORDS);
    let count = wordle.new_bitmap().len();
    for goal in 0..count as u32 {
        let goal = wordle.word(goal);
        for _ in 0..50 {
            let trace = guess(&wordle, goal).unwrap();
            assert!(!trace.is_empty());
            assert!(trace.len() as u64 <= count);
            assert_eq!(trace[trace.len() - 1].0, goal);
            assert_eq!(trace[trace.len() - 1].1 .0, [Letter::Correct; 5]);
        }
    }
}

#[test]
fn trace_replays_as_a_run() {
    let wordle: Wordle<5> = Wordle::new(WORDS);
    let goal = b"react";
    for _ in 0..100 {
        let trace = guess(&wordle, goal).unwrap();
        let mut candidates = wordle.new_bitmap();
        let last = trace.len() - 1;
        for (k, (word, feedback, pool)) in trace.iter().enumerate() {
            assert_eq!(*pool, candidates.len());
            assert!(candidates.iter().any(|index| wordle.word(index) == *word));
            assert_eq!(feedback.0, Wordle::<5>::guess(word, goal).0);
            if k < last {
                assert_ne!(*word, goal);
                assert!(*pool >= 2);
            }
            let before = candidates.len();
            wordle.apply_guess(&mut candidates, word, feedback);
            assert!(candidates.contains(2));
            assert!(k == last || candidates.len() < before);
        }
        assert_eq!(candidates.iter().collect::<Vec<u32>>(), vec![2]);
    }
}

#[test]
fn first_guess_is_drawn_from_the_whole_dictionary() {
    let wordle: Wordle<5> = Wordle::new(WORDS);
    let mut seen = [false; 8];
    for _ in 0..2000 {
        let trace = guess(&wordle, b"bobby").unwrap();
        assert_eq!(trace[0].2, 8);
        let first = (0..8u32).find(|&i| wordle.word(i) == trace[0].0).unwrap();
        seen[first as usize] = true;
    }
    assert_eq!(seen, [true; 8]);
}

#[test]
fn crane_among_three_words() {
    let wordle: Wordle<5> = Wordle::new(b"crane\nslate\nreact\n");
    for _ in 0..50 {
        let trace = guess(&wordle, b"crane").unwrap();
        assert_eq!(trace[0].2, 3);
        match trace[0].0 {
            b"crane" => assert_eq!(trace.len(), 1),
            b"slate" => {
                assert_eq!(trace.len(), 2);
                assert_eq!(trace[1].0, b"crane");
                assert_eq!(trace[1].2, 1);
            }
            b"react" => {
                assert_eq!(trace.len(), 2);
                assert_eq!(trace[1].0, b"crane");
                assert_eq!(trace[1].2, 1);
            }
            other => panic!("{:?} is no word of the dictionary", other),
        }
    }
}

#[test]
fn longer_words_are_solved_too() {
    let wordle: Wordle<7> = Wordle::new(b"letters,pattern,lattice,tattler,");
    assert!(Wordle::<7>::accepts(b"letters,pattern,lattice,tattler,"));
    for goal in [b"letters", b"pattern", b"lattice", b"tattler"] {
        for _ in 0..20 {
            let trace = guess(&wordle, goal).unwrap();
            assert!(trace.len() <= 4);
            assert_eq!(trace[trace.len() - 1].0, goal);
        }
    }
    assert!(guess(&wordle, b"letterz").is_none());
}
