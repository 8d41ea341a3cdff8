use pbf::feedback::PbfStats;
use pbf::secret::Secret;
use pbf::solver::{real_combinations, Guess, GuessState};

fn digits(upto: u32) -> Vec<char> {
    (0..upto).map(|d| char::from_digit(d, 10).unwrap()).collect()
}

#[test]
fn enumeration_is_lexicographic() {
    let words = real_combinations(&vec!['0', '1'], 2);
    assert_eq!(
        words,
        vec![
            vec!['0', '0'],
            vec!['0', '1'],
            vec!['1', '0'],
            vec!['1', '1'],
        ]
    );
}

#[test]
fn enumeration_counts_the_full_space() {
    let words = real_combinations(&digits(10), 3);
    assert_eq!(words.len(), 1000);
}

#[test]
fn new_solver_starts_with_the_full_space() {
    let state = GuessState::new(digits(10), 3);
    assert_eq!(state.candidate_count(), 1000);
    assert_eq!(state.guesses().len(), 0);
}

#[test]
fn add_guess_never_grows_the_candidate_set() {
    let mut state = GuessState::new(digits(5), 3);
    let mut previous = state.candidate_count();
    let secret = Secret::new(vec!['1', '2', '3']);
    for probe in [vec!['0', '1', '2'], vec!['4', '4', '4'], vec!['1', '2', '0']] {
        let result = secret.compare(&probe);
        state.add_guess(Guess { guess: probe, result });
        let count = state.candidate_count();
        assert!(count <= previous);
        previous = count;
    }
}

#[test]
fn add_guess_keeps_exactly_the_consistent_candidates() {
    // Secret space over {0, 1} with two positions: 00, 01, 10, 11.
    let mut state = GuessState::new(vec!['0', '1'], 2);
    assert_eq!(state.candidate_count(), 4);
    // Guess "00" answered (p = 1, f = 1): only "01" and "10" reproduce it.
    state.add_guess(Guess { guess: vec!['0', '0'], result: PbfStats { p: 1, f: 1 } });
    assert_eq!(state.candidate_count(), 2);
    // Guess "01" answered (p = 0, f = 2): only "01" itself reproduces it.
    state.add_guess(Guess { guess: vec!['0', '1'], result: PbfStats { p: 0, f: 2 } });
    assert_eq!(state.candidate_count(), 1);
    assert_eq!(state.next_guess(), Some(vec!['0', '1']));
}

#[test]
fn contradictory_feedback_empties_the_candidate_set() {
    let mut state = GuessState::new(vec!['0', '1'], 2);
    state.add_guess(Guess { guess: vec!['0', '0'], result: PbfStats { p: 0, f: 2 } });
    state.add_guess(Guess { guess: vec!['0', '0'], result: PbfStats { p: 0, f: 0 } });
    assert_eq!(state.candidate_count(), 0);
    assert_eq!(state.next_guess(), None);
}

#[test]
fn guesses_are_kept_in_entry_order() {
    let mut state = GuessState::new(digits(5), 2);
    state.add_guess(Guess { guess: vec!['0', '1'], result: PbfStats { p: 0, f: 0 } });
    state.add_guess(Guess { guess: vec!['2', '3'], result: PbfStats { p: 1, f: 0 } });
    let recorded = state.guesses();
    assert_eq!(recorded.len(), 2);
    assert_eq!(recorded[0].guess, vec!['0', '1']);
    assert_eq!(recorded[0].result, PbfStats { p: 0, f: 0 });
    assert_eq!(recorded[1].guess, vec!['2', '3']);
    assert_eq!(recorded[1].result, PbfStats { p: 1, f: 0 });
}

#[test]
fn ties_resolve_toward_later_enumeration_order() {
    // Over {0, 1} with one position both probes score the same, so the
    // documented tie-break — the probe later in enumeration order — decides.
    let state = GuessState::new(vec!['0', '1'], 1);
    assert_eq!(state.next_guess(), Some(vec!['1']));
}

#[test]
fn next_guess_is_deterministic() {
    let build = || {
        let mut state = GuessState::new(digits(5), 3);
        let secret = Secret::new(vec!['1', '2', '3']);
        for probe in [vec!['0', '1', '2'], vec!['3', '3', '4']] {
            let result = secret.compare(&probe);
            state.add_guess(Guess { guess: probe, result });
        }
        state
    };
    let a = build();
    let b = build();
    assert_eq!(a.next_guess(), b.next_guess());
    assert_eq!(a.next_guess(), a.next_guess());
}

#[test]
fn solver_finds_the_secret() {
    // A full cooperative game: feedback is reported truthfully, so the
    // candidate set keeps the secret and the hints converge on it.
    let secret_word = vec!['1', '2', '3'];
    let secret = Secret::new(secret_word.clone());
    let mut state = GuessState::new(digits(5), 3);
    let mut rounds: u32 = 0;
    while state.candidate_count() > 1 {
        let probe = state.next_guess().expect("candidates remain, so a hint must exist");
        let result = secret.compare(&probe);
        state.add_guess(Guess { guess: probe, result });
        rounds += 1;
        assert!(rounds <= 125, "the candidate space must shrink to one");
    }
    assert_eq!(state.candidate_count(), 1);
    assert_eq!(state.next_guess(), Some(secret_word));
}

#[test]
fn solved_state_answers_without_probing() {
    // Once one candidate is left, the answer is that candidate even though
    // it was already recorded as a guess (the probe filter skips recorded
    // guesses, the certain answer is returned before probing).
    let mut state = GuessState::new(vec!['0', '1'], 2);
    state.add_guess(Guess { guess: vec!['0', '1'], result: PbfStats { p: 0, f: 2 } });
    assert_eq!(state.candidate_count(), 1);
    assert_eq!(state.next_guess(), Some(vec!['0', '1']));
}
