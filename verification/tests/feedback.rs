use wordlehelper::analyze::pattern::feedback_for;
use wordlehelper::analyze::pattern::PatternBasedAnalyzer;
use wordlehelper::guess::known_word_constraints::CharKnowledge;
use wordlehelper::guess::known_word_constraints::CharKnowledge::Correct;
use wordlehelper::guess::known_word_constraints::CharKnowledge::Missing;
use wordlehelper::guess::known_word_constraints::CharKnowledge::WrongPosition;

fn pattern5(guess: &str, answer: &str) -> Vec<CharKnowledge> {
    PatternBasedAnalyzer::<5>::pattern(guess, answer).knowledge().clone()
}

#[test]
fn a_guess_that_is_the_answer_is_all_correct() {
    for word in ["CRATE", "LABEL", "AAAAA", "QUALM"] {
        assert_eq!(vec![Correct; 5], pattern5(word, word));
    }
}

#[test]
fn allot_against_label() {
    // LABEL has two Ls and none of them where ALLOT has its own, so both Ls
    // of the guess are in the wrong position.
    assert_eq!(
        vec![WrongPosition, WrongPosition, WrongPosition, Missing, Missing],
        pattern5("ALLOT", "LABEL")
    );
}

#[test]
fn a_repeated_letter_is_only_placed_as_often_as_the_answer_has_it() {
    // LATER has one L: the first L of the guess takes it, the second is missing.
    assert_eq!(
        vec![WrongPosition, WrongPosition, Missing, Missing, WrongPosition],
        pattern5("ALLOT", "LATER")
    );
    // The L that matches is counted first, so the earlier L is missing.
    assert_eq!(
        vec![Missing, Missing, Correct, Missing, Missing],
        pattern5("LOLXX", "ABLCD")
    );
    // STOLE has one E: the first E of the guess takes it.
    assert_eq!(
        vec![Correct, Missing, WrongPosition, Missing, Missing],
        pattern5("SPEED", "STOLE")
    );
}

#[test]
fn feedback_for_takes_characters() {
    let guess: Vec<char> = "abba".chars().collect();
    let answer: Vec<char> = "baab".chars().collect();
    assert_eq!(
        vec![WrongPosition, WrongPosition, WrongPosition, WrongPosition],
        feedback_for(&guess, &answer)
    );
    let guess: Vec<char> = "a-b".chars().collect();
    let answer: Vec<char> = "b-c".chars().collect();
    assert_eq!(vec![Missing, Correct, WrongPosition], feedback_for(&guess, &answer));
}

#[test]
fn letters_count_without_regard_to_case() {
    let guess: Vec<char> = "xa".chars().collect();
    let answer: Vec<char> = "Ay".chars().collect();
    assert_eq!(vec![Missing, WrongPosition], feedback_for(&guess, &answer));
}
