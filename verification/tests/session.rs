use wordle_solver::solvers::{basic, pattern_counts, score_of, solver, Strategy};
use wordle_solver::wordle::{Environment, Turn, Wordle};
use wordle_solver::words::{calculate_pattern, pattern_text};

const POOL: [&str; 10] = [
    "CRANE", "SLATE", "TRACE", "CRATE", "REACT", "CARET", "CATER", "STARE", "BRACE", "GRACE",
];

const TARGETS: [&str; 5] = ["CRATE", "TRACE", "REACT", "STARE", "GRACE"];

fn lines(texts: &[&str]) -> Vec<String> {
    texts.iter().map(|text| text.to_string()).collect()
}

fn no_scorer(_session: &Wordle) -> u16 {
    0
}

fn environment(pool: &[&str], targets: &[&str], strategy: u8) -> Environment {
    let data = Environment::build(lines(pool), lines(targets), strategy, no_scorer).unwrap();
    Environment::new(&data).unwrap()
}

fn expected_information(session: &Wordle) -> u16 {
    let total = session.targets().len() as f64;
    let mut best = 0u16;
    let mut best_gain = f64::MIN;
    for &(id, candidate) in session.words() {
        let mut gain = if candidate { 1.0 / total } else { 0.0 };
        for &count in &pattern_counts(session, id) {
            if count > 0 {
                let share = count as f64 / total;
                gain -= share * share.log2();
            }
        }
        if gain >= best_gain {
            best_gain = gain;
            best = id;
        }
    }
    best
}

#[test]
fn solver_names_two_strategies() {
    assert_eq!(solver(0), Some(Strategy::Minimax));
    assert_eq!(solver(1), Some(Strategy::Entropy));
    assert_eq!(solver(2), None);
    assert_eq!(solver(255), None);
}

#[test]
fn new_session_holds_every_target() {
    let env = environment(&POOL, &TARGETS, 0);
    let session = Wordle::new(&env);
    assert_eq!(session.targets().to_vec(), vec![4, 5, 6, 8, 9]);
    assert_eq!(session.options(), 5);
    assert_eq!(session.only_remaining(), None);
    let words = session.words().to_vec();
    assert_eq!(words.len(), 10);
    for (place, &(id, candidate)) in words.iter().enumerate() {
        assert_eq!(id as usize, place);
        assert_eq!(candidate, [4, 5, 6, 8, 9].contains(&id));
    }
    assert_eq!(session.get_word(4).unwrap().text(), "CRATE");
    assert!(session.get_word(10).is_none());
}

#[test]
fn cull_keeps_the_targets_that_agree() {
    let env = environment(&POOL, &TARGETS, 0);
    let mut session = Wordle::new(&env);
    session.cull(8, 210);
    assert_eq!(session.targets().to_vec(), vec![4, 9]);
    assert_eq!(session.options(), 2);
    let flagged: Vec<u16> =
        session.words().iter().filter(|entry| entry.1).map(|entry| entry.0).collect();
    assert_eq!(flagged, vec![4, 9]);
    session.cull(4, 214);
    assert_eq!(session.targets().to_vec(), vec![9]);
    assert_eq!(session.only_remaining(), Some(9));
    assert_eq!(session.options(), 1);
}

#[test]
fn cull_never_adds_a_target() {
    let env = environment(&POOL, &TARGETS, 0);
    for guess in 0..12u16 {
        for pattern in 0..=255u8 {
            let mut session = Wordle::new(&env);
            session.cull(3, 187);
            let before = session.targets().to_vec();
            session.cull(guess, pattern);
            let after = session.targets().to_vec();
            assert!(after.len() <= before.len());
            assert!(after.len() as u16 == session.options());
            assert!(after.iter().all(|id| before.contains(id)));
            assert!(after.windows(2).all(|pair| pair[0] < pair[1]));
            for &id in &before {
                let agrees = session.get_pattern(guess, id) == Some(pattern);
                assert_eq!(after.contains(&id), agrees);
            }
        }
    }
}

#[test]
fn cull_a_second_time_changes_nothing() {
    let env = environment(&POOL, &TARGETS, 0);
    for guess in 0..10u16 {
        for pattern in 0..243u8 {
            let mut session = Wordle::new(&env);
            session.cull(guess, pattern);
            let once = session.targets().to_vec();
            let flags = session.words().to_vec();
            session.cull(guess, pattern);
            assert_eq!(session.targets().to_vec(), once);
            assert_eq!(session.words().to_vec(), flags);
        }
    }
}

#[test]
fn cull_by_a_guess_that_is_no_word_leaves_nothing() {
    let env = environment(&POOL, &TARGETS, 0);
    let mut session = Wordle::new(&env);
    session.cull(10, 0);
    assert_eq!(session.options(), 0);
    assert_eq!(session.only_remaining(), None);
    assert!(session.words().iter().all(|entry| !entry.1));
    session.cull(0, 0);
    assert_eq!(session.options(), 0);
}

#[test]
fn pattern_counts_are_the_sizes_of_the_groups() {
    let env = environment(&POOL, &TARGETS, 0);
    let session = Wordle::new(&env);
    let counts = pattern_counts(&session, 8);
    assert_eq!(counts.len(), 243);
    assert_eq!(counts[129], 1);
    assert_eq!(counts[207], 1);
    assert_eq!(counts[210], 2);
    assert_eq!(counts[242], 1);
    assert_eq!(counts.iter().sum::<usize>(), 5);
    assert_eq!(counts.iter().filter(|&&count| count > 0).count(), 4);
    let beyond = pattern_counts(&session, 10);
    assert_eq!(beyond.len(), 243);
    assert!(beyond.iter().all(|&count| count == 0));
}

#[test]
fn score_is_the_sum_of_the_squares() {
    let env = environment(&POOL, &TARGETS, 0);
    let mut session = Wordle::new(&env);
    let scores: Vec<u64> = (0..10).map(|id| score_of(&session, id)).collect();
    assert_eq!(scores, vec![7, 5, 7, 7, 5, 5, 5, 5, 7, 5]);
    assert_eq!(score_of(&session, 10), 0);
    session.cull(8, 210);
    assert_eq!(score_of(&session, 8), 4);
    assert_eq!(score_of(&session, 4), 2);
}

#[test]
fn minimax_prefers_a_possible_target_among_equal_scores() {
    let env = environment(&POOL, &TARGETS, 0);
    let session = Wordle::new(&env);
    assert_eq!(basic(&session), 4);
    assert_eq!(session.next_guess(no_scorer), Some(4));
    assert_eq!(session.starting_guess(), 4);
}

#[test]
fn minimax_takes_a_word_outside_the_targets_when_it_scores_less() {
    let env = environment(
        &["ABCDE", "BBBBB", "CCCCC", "DDDDD", "EEEEE"],
        &["BBBBB", "CCCCC", "DDDDD", "EEEEE"],
        0,
    );
    let session = Wordle::new(&env);
    assert_eq!(score_of(&session, 0), 4);
    assert_eq!(score_of(&session, 1), 10);
    assert_eq!(basic(&session), 0);
}

#[test]
fn minimax_on_three_words_and_two_targets() {
    let env = environment(&["AAAAA", "AAAAB", "BBBBB"], &["AAAAB", "BBBBB"], 0);
    let session = Wordle::new(&env);
    assert_eq!(score_of(&session, 0), 2);
    assert_eq!(score_of(&session, 1), 2);
    assert_eq!(score_of(&session, 2), 2);
    let guess = session.next_guess(no_scorer).unwrap();
    assert!(guess == 1 || guess == 2);
    assert_eq!(guess, 1);
    assert_eq!(session.get_word(guess).unwrap().text(), "AAAAB");
    assert_eq!(session.starting_guess(), 1);
}

#[test]
fn minimax_without_targets_takes_the_first_word() {
    let env = environment(&["CRANE", "SLATE"], &[], 0);
    let session = Wordle::new(&env);
    assert_eq!(session.options(), 0);
    assert_eq!(basic(&session), 0);
}

#[test]
fn next_guess_is_the_one_target_that_is_left() {
    for strategy in [0u8, 1] {
        let env = environment(&POOL, &TARGETS, strategy);
        let mut session = Wordle::new(&env);
        session.cull(8, 129);
        assert_eq!(session.only_remaining(), Some(6));
        assert_eq!(session.next_guess(|_session: &Wordle| 3), Some(6));
        assert_eq!(basic(&session), 6);
    }
}

#[test]
fn next_guess_needs_a_known_strategy() {
    let mut data = Environment::build(lines(&POOL), lines(&TARGETS), 0, no_scorer).unwrap();
    data[0] = 2;
    let env = Environment::new(&data).unwrap();
    let mut session = Wordle::new(&env);
    assert_eq!(session.next_guess(no_scorer), None);
    session.cull(8, 129);
    assert_eq!(session.options(), 1);
    assert_eq!(session.next_guess(no_scorer), None);
}

#[test]
fn next_guess_hands_on_what_the_scorer_returns() {
    let env = environment(&POOL, &TARGETS, 1);
    let session = Wordle::new(&env);
    assert_eq!(session.next_guess(|_session: &Wordle| 7), Some(7));
    assert_eq!(session.next_guess(expected_information), Some(9));
    let by_size = environment(&POOL, &TARGETS, 0);
    assert_eq!(Wordle::new(&by_size).next_guess(|_session: &Wordle| 7), Some(4));
}

#[test]
fn next_guess_sets_aside_an_answer_that_is_no_word() {
    let env = environment(&POOL, &TARGETS, 1);
    let session = Wordle::new(&env);
    assert_eq!(session.next_guess(|_session: &Wordle| 9), Some(9));
    assert_eq!(session.next_guess(|_session: &Wordle| 10), Some(4));
    assert_eq!(session.next_guess(|_session: &Wordle| 65535), Some(4));
    assert_eq!(session.next_guess(|_session: &Wordle| 10), Some(basic(&session)));
}

#[test]
fn next_guess_is_always_a_word_for_a_known_strategy() {
    for strategy in [0u8, 1] {
        let env = environment(&POOL, &TARGETS, strategy);
        for answer in [0u16, 5, 9, 10, 11, 4000, 65535] {
            let mut session = Wordle::new(&env);
            let guess = session.next_guess(move |_session: &Wordle| answer).unwrap();
            assert!(guess < 10);
            session.cull(8, 210);
            let guess = session.next_guess(move |_session: &Wordle| answer).unwrap();
            assert!(guess < 10);
            session.cull(0, 0);
            assert_eq!(session.options(), 0);
            let guess = session.next_guess(move |_session: &Wordle| answer).unwrap();
            assert!(guess < 10);
        }
    }
}

#[test]
fn respond_asks_again_for_feedback_that_is_no_pattern() {
    let env = environment(&POOL, &TARGETS, 0);
    let mut session = Wordle::new(&env);
    assert_eq!(session.respond(4, "GGXGG", no_scorer), Turn::Retry);
    assert_eq!(session.respond(4, "GGGG", no_scorer), Turn::Retry);
    assert_eq!(session.respond(4, "", no_scorer), Turn::Retry);
    assert_eq!(session.targets().to_vec(), vec![4, 5, 6, 8, 9]);
}

#[test]
fn respond_narrows_and_says_how_the_game_goes_on() {
    let env = environment(&POOL, &TARGETS, 0);
    let mut session = Wordle::new(&env);
    let feedback = pattern_text(210);
    assert_eq!(session.respond(8, &feedback, no_scorer), Turn::Next(4));
    assert_eq!(session.targets().to_vec(), vec![4, 9]);
    assert_eq!(session.respond(4, &pattern_text(214).to_lowercase(), no_scorer), Turn::Solved(9));
    assert_eq!(session.respond(9, "BBBBB", no_scorer), Turn::Exhausted);
    assert_eq!(session.respond(9, "GGGGG", no_scorer), Turn::Exhausted);
    assert_eq!(session.options(), 0);
}

#[test]
fn respond_is_stuck_without_a_strategy() {
    let mut data = Environment::build(lines(&POOL), lines(&TARGETS), 0, no_scorer).unwrap();
    data[0] = 9;
    let env = Environment::new(&data).unwrap();
    let mut session = Wordle::new(&env);
    assert_eq!(session.respond(8, &pattern_text(210), no_scorer), Turn::Stuck);
    assert_eq!(session.targets().to_vec(), vec![4, 9]);
    assert_eq!(session.respond(4, &pattern_text(214), no_scorer), Turn::Solved(9));
}

#[test]
fn respond_uses_the_scorer_for_expected_information() {
    let env = environment(&POOL, &TARGETS, 1);
    let mut session = Wordle::new(&env);
    assert_eq!(session.respond(8, &pattern_text(210), |_session: &Wordle| 3), Turn::Next(3));
}

#[test]
fn every_target_is_found_by_group_sizes() {
    let env = environment(&POOL, &TARGETS, 0);
    for &target in env.targets() {
        let answer = env.get_word(target).unwrap();
        let mut session = Wordle::new(&env);
        let mut guess = session.starting_guess();
        let mut steps = 0;
        loop {
            steps += 1;
            assert!(steps <= 5);
            let pattern = calculate_pattern(session.get_word(guess).unwrap(), answer);
            assert_eq!(session.get_pattern(guess, target), Some(pattern));
            let before = session.options();
            session.cull(guess, pattern);
            assert!(session.options() <= before);
            assert!(session.targets().contains(&target));
            if session.only_remaining() == Some(target) {
                break;
            }
            guess = session.next_guess(no_scorer).unwrap();
        }
        assert_eq!(session.only_remaining(), Some(target));
        assert_eq!(session.next_guess(no_scorer), Some(target));
    }
}

#[test]
fn every_target_is_found_by_expected_information() {
    let data = Environment::build(lines(&POOL), lines(&TARGETS), 1, expected_information).unwrap();
    let env = Environment::new(&data).unwrap();
    assert_eq!(env.solver(), 1);
    for &target in env.targets() {
        let answer = env.get_word(target).unwrap();
        let mut session = Wordle::new(&env);
        let mut guess = session.starting_guess();
        assert_eq!(guess, 9);
        let mut steps = 0;
        while session.only_remaining() != Some(target) {
            steps += 1;
            assert!(steps <= 5);
            let pattern = calculate_pattern(session.get_word(guess).unwrap(), answer);
            session.cull(guess, pattern);
            guess = session.next_guess(expected_information).unwrap();
        }
        assert_eq!(guess, target);
    }
}

#[test]
fn advance_plays_one_turn_against_the_answer() {
    let env = environment(&POOL, &TARGETS, 0);
    let mut session = Wordle::new(&env);
    assert_eq!(session.advance(8, 9, no_scorer), Some(4));
    assert_eq!(session.targets().to_vec(), vec![4, 9]);
    assert_eq!(session.advance(4, 9, no_scorer), Some(9));
    assert_eq!(session.targets().to_vec(), vec![9]);
}

#[test]
fn advance_leaves_the_session_when_the_table_has_no_entry() {
    let env = environment(&POOL, &TARGETS, 0);
    let mut session = Wordle::new(&env);
    assert_eq!(session.advance(8, 0, no_scorer), None);
    assert_eq!(session.advance(8, 10, no_scorer), None);
    assert_eq!(session.advance(10, 9, no_scorer), None);
    assert_eq!(session.targets().to_vec(), vec![4, 5, 6, 8, 9]);
}

#[test]
fn every_target_is_reached_turn_by_turn() {
    let env = environment(&POOL, &TARGETS, 0);
    for &target in env.targets() {
        let mut session = Wordle::new(&env);
        let mut guess = session.starting_guess();
        let mut guesses = 1;
        while guess != target {
            guesses += 1;
            guess = session.advance(guess, target, no_scorer).unwrap();
            assert!(guesses <= 5);
        }
    }
}

#[test]
fn best_guess_tells_targets_apart() {
    let env = environment(&POOL, &TARGETS, 0);
    let mut session = Wordle::new(&env);
    while session.options() >= 2 {
        let count = session.options() as u64;
        let guess = basic(&session);
        assert!(score_of(&session, guess) < count * count);
        let groups = pattern_counts(&session, guess);
        assert!(groups.iter().filter(|&&size| size > 0).count() >= 2);
        let answer = *session.targets().last().unwrap();
        let pattern = session.get_pattern(guess, answer).unwrap();
        session.cull(guess, pattern);
        assert!(session.options() < count as u16);
        assert!(session.targets().contains(&answer));
    }
    assert_eq!(session.options(), 1);
}

#[test]
fn a_game_by_group_sizes_ends_in_fewer_turns_than_targets() {
    let pool = ["BATCH", "CATCH", "HATCH", "LATCH", "MATCH", "PATCH", "WATCH", "TATTY"];
    let targets = ["BATCH", "CATCH", "HATCH", "LATCH", "MATCH", "PATCH", "WATCH"];
    let env = environment(&pool, &targets, 0);
    for &answer in env.targets() {
        let mut session = Wordle::new(&env);
        let count = session.options();
        let mut turns = 0;
        while session.only_remaining() != Some(answer) {
            let guess = session.next_guess(no_scorer).unwrap();
            let pattern = calculate_pattern(
                session.get_word(guess).unwrap(),
                session.get_word(answer).unwrap(),
            );
            session.cull(guess, pattern);
            turns += 1;
            assert!(turns < count);
        }
        assert_eq!(session.targets().to_vec(), vec![answer]);
    }
}
