use pbf::feedback::PbfStats;
use pbf::parse::parse_guess;
use pbf::secret::Secret;

#[test]
fn compare_secret_with_itself_gives_full_alignment() {
    let secret = Secret::new(vec!['1', '2', '3']);
    let fb = secret.compare(&vec!['1', '2', '3']);
    assert_eq!(fb, PbfStats { p: 0, f: 3 });
}

#[test]
fn compare_worked_example() {
    // The secret is "123". "456" shares nothing with it; "124" aligns on
    // '1' and '2' and its '4' is absent.
    let secret = Secret::new(vec!['1', '2', '3']);
    let miss = secret.compare(&vec!['4', '5', '6']);
    assert_eq!(miss, PbfStats { p: 0, f: 0 });
    let close = secret.compare(&vec!['1', '2', '4']);
    assert_eq!(close, PbfStats { p: 0, f: 2 });
}

#[test]
fn compare_counts_presence_only_matches() {
    let secret = Secret::new(vec!['1', '2', '3']);
    // Every symbol present, none aligned.
    let rotated = secret.compare(&vec!['3', '1', '2']);
    assert_eq!(rotated, PbfStats { p: 3, f: 0 });
    // '2' aligned; '1' present elsewhere; '9' absent.
    let mixed = secret.compare(&vec!['9', '2', '1']);
    assert_eq!(mixed, PbfStats { p: 1, f: 1 });
}

#[test]
fn compare_ignores_repetition_in_the_reference() {
    // Presence is by set membership: the reference's repeated '1' is not
    // counted separately.
    let secret = Secret::new(vec!['1', '1', '2']);
    let fb = secret.compare(&vec!['2', '2', '1']);
    // Position 1: '2' vs '1' no; position 2: '1' vs '2' no; no alignment.
    // All three guess symbols occur in the reference set {1, 2}.
    assert_eq!(fb, PbfStats { p: 3, f: 0 });
}

#[test]
fn compare_stays_within_bounds() {
    let n = 4i32;
    let secret = Secret::new(vec!['0', '1', '2', '3']);
    for guess in [
        vec!['0', '1', '2', '3'],
        vec!['3', '2', '1', '0'],
        vec!['9', '9', '9', '9'],
        vec!['0', '0', '0', '0'],
    ] {
        let fb = secret.compare(&guess);
        assert!(0 <= fb.f && fb.f <= n);
        assert!(0 <= fb.p && fb.p <= n - fb.f);
    }
}

#[test]
fn create_scores_text_guesses() {
    let secret = Secret::new(vec!['1', '2', '3']);
    assert_eq!(PbfStats::create(&secret, "124"), PbfStats { p: 0, f: 2 });
    assert_eq!(PbfStats::create(&secret, "456"), PbfStats { p: 0, f: 0 });
    assert_eq!(PbfStats::create(&secret, "312"), PbfStats { p: 3, f: 0 });
}

#[test]
fn as_guess_returns_the_symbols_in_order() {
    let secret = Secret::new(vec!['4', '0', '7']);
    assert_eq!(secret.as_guess(), &vec!['4', '0', '7']);
}

#[test]
fn duplicate_copies_the_reference() {
    let secret = Secret::new(vec!['4', '0', '7']);
    let copy = secret.duplicate();
    assert_eq!(copy.as_guess(), secret.as_guess());
}

#[test]
fn feedback_renders_as_text() {
    assert_eq!(PbfStats { p: 0, f: 0 }.to_text(), "b");
    assert_eq!(PbfStats { p: 1, f: 2 }.to_text(), "ffp");
    assert_eq!(PbfStats { p: 2, f: 0 }.to_text(), "pp");
    assert_eq!(PbfStats { p: 0, f: 3 }.to_text(), "fff");
}

#[test]
fn parse_guess_reads_digits_and_outcome() {
    let guess = parse_guess("123", "fp").unwrap();
    assert_eq!(guess.guess, vec!['1', '2', '3']);
    assert_eq!(guess.result, PbfStats { p: 1, f: 1 });
}

#[test]
fn parse_guess_ignores_other_outcome_symbols() {
    let guess = parse_guess("905", "b").unwrap();
    assert_eq!(guess.guess, vec!['9', '0', '5']);
    assert_eq!(guess.result, PbfStats { p: 0, f: 0 });
}

#[test]
fn parse_guess_rejects_the_first_non_digit() {
    assert_eq!(parse_guess("12x4y", "f").err(), Some('x'));
    assert_eq!(parse_guess("a23", "").err(), Some('a'));
}
