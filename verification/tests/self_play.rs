use wordlehelper::analyze::analyzer::Analyzer;
use wordlehelper::analyze::auto_guesser::best_guess;
use wordlehelper::analyze::auto_guesser::enter_guess;
use wordlehelper::analyze::auto_guesser::AutoGuesser;
use wordlehelper::analyze::auto_guesser::GuessResult;
use wordlehelper::analyze::pattern::PatternBasedAnalyzer;
use wordlehelper::analyze::simple_analyzers::AlphabeticalOrder;
use wordlehelper::analyze::simple_analyzers::WordFrequencies;
use wordlehelper::analyze::suite::standard_suite;
use wordlehelper::analyze::suite::Strategy;
use wordlehelper::guess::guesses::GuessStr;
use wordlehelper::guess::known_word_constraints::CharKnowledge;
use wordlehelper::guess::known_word_constraints::CharKnowledge::Correct;
use wordlehelper::guess::known_word_constraints::CharKnowledge::Missing;
use wordlehelper::guess::known_word_constraints::CharKnowledge::WrongPosition;
use wordlehelper::word_list::WordFreq;
use wordlehelper::word_list::WordList;

fn catalog(words: &[(&str, u64)]) -> WordList<5> {
    let entries: Vec<WordFreq> =
        words.iter().map(|(word, freq)| WordFreq { word: word.to_string(), freq: *freq }).collect();
    WordList::from_entries(&entries, 1000)
}

fn cells<const N: usize>(row: &GuessStr<N>) -> Vec<(Option<char>, CharKnowledge)> {
    row.guesses().iter().map(|c| (c.ch(), c.knowledge())).collect()
}

fn word_of<const N: usize>(row: &GuessStr<N>) -> String {
    row.guesses().iter().map(|c| c.ch().unwrap_or(' ')).collect()
}

#[test]
fn enter_guess_writes_letters_and_feedback() {
    let mut row: GuessStr<5> = GuessStr::new();
    enter_guess("allot", &mut row, "later");
    assert_eq!(
        vec![
            (Some('A'), WrongPosition),
            (Some('L'), WrongPosition),
            (Some('L'), Missing),
            (Some('O'), Missing),
            (Some('T'), WrongPosition),
        ],
        cells(&row)
    );
    // What the row held before is gone.
    enter_guess("LATER", &mut row, "later");
    assert_eq!(vec![Correct; 5], row.guesses().iter().map(|c| c.knowledge()).collect::<Vec<_>>());
    assert_eq!("LATER", word_of(&row));
    enter_guess("L-TER", &mut row, "LATER");
    assert_eq!((None, CharKnowledge::Unknown), cells(&row)[1]);
    assert_eq!((Some('T'), Correct), cells(&row)[2]);
}

#[test]
fn best_guess_is_the_first_of_the_ranking() {
    let list = catalog(&[("crate", 3), ("slate", 9), ("qualm", 9), ("stamp", 1)]);
    let by_frequency = Strategy::WordFrequencies(WordFrequencies {});
    // QUALM and SLATE have the same score: the dictionary decides.
    assert_eq!(Some("QUALM"), best_guess(&by_frequency, &list));
    assert_eq!(None, best_guess(&by_frequency, &WordList::empty()));
    let none = Strategy::Pattern(PatternBasedAnalyzer::<5> { limit: 0 });
    assert_eq!(None, best_guess(&none, &list));
}

#[test]
fn guess_one_finds_the_answer() {
    let list = catalog(&[("crate", 5), ("slate", 4), ("plate", 3), ("qualm", 2), ("stamp", 1)]);
    let by_frequency = Strategy::WordFrequencies(WordFrequencies {});
    let (result, rows) = AutoGuesser::<5, 6>::guess_one(&list, "plate", &by_frequency);
    assert_eq!(GuessResult::Success, result);
    let guesses: Vec<String> = rows.iter().map(word_of).collect();
    // CRATE leaves SLATE and PLATE, and SLATE is the more frequent.
    assert_eq!(vec!["CRATE", "SLATE", "PLATE"], guesses);
    assert_eq!(
        vec![
            (Some('C'), Missing),
            (Some('R'), Missing),
            (Some('A'), Correct),
            (Some('T'), Correct),
            (Some('E'), Correct),
        ],
        cells(&rows[0])
    );
    assert_eq!(vec![Correct; 5], rows[2].guesses().iter().map(|c| c.knowledge()).collect::<Vec<_>>());
}

#[test]
fn guess_one_at_the_first_guess() {
    let list = catalog(&[("crate", 5), ("slate", 4)]);
    let by_frequency = Strategy::WordFrequencies(WordFrequencies {});
    let (result, rows) = AutoGuesser::<5, 6>::guess_one(&list, "Crate", &by_frequency);
    assert_eq!(GuessResult::Success, result);
    assert_eq!(1, rows.len());
}

#[test]
fn guess_one_fails_when_the_rows_run_out() {
    let list = catalog(&[("crate", 5), ("slate", 4), ("plate", 3), ("qualm", 2), ("stamp", 1)]);
    let by_frequency = Strategy::WordFrequencies(WordFrequencies {});
    let (result, rows) = AutoGuesser::<5, 2>::guess_one(&list, "plate", &by_frequency);
    assert_eq!(GuessResult::Failure, result);
    assert_eq!(vec!["CRATE", "SLATE"], rows.iter().map(word_of).collect::<Vec<_>>());
    let (result, rows) = AutoGuesser::<5, 0>::guess_one(&list, "plate", &by_frequency);
    assert_eq!(GuessResult::Failure, result);
    assert!(rows.is_empty());
}

#[test]
fn guess_one_fails_when_no_word_is_left() {
    let list = catalog(&[("crate", 5), ("slate", 4)]);
    let by_frequency = Strategy::WordFrequencies(WordFrequencies {});
    let (result, rows) = AutoGuesser::<5, 6>::guess_one(&list, "qualm", &by_frequency);
    assert_eq!(GuessResult::Failure, result);
    // After CRATE no word agrees with the feedback: SLATE has a T and an E.
    assert_eq!(vec!["CRATE"], rows.iter().map(word_of).collect::<Vec<_>>());
    let (result, rows) = AutoGuesser::<5, 6>::guess_one(&WordList::empty(), "qualm", &by_frequency);
    assert_eq!(GuessResult::Failure, result);
    assert!(rows.is_empty());
}

#[test]
fn guess_all_plays_every_analyzer_against_every_answer() {
    let list = catalog(&[("crate", 5), ("slate", 4), ("plate", 3), ("qualm", 2), ("stamp", 1)]);
    let guesser: AutoGuesser<5, 6> = AutoGuesser {
        answer_words: vec!["stamp".to_string(), "toolong".to_string(), "qualm".to_string()],
        words_list: list,
        analyzers: standard_suite(),
    };
    let results = guesser.guess_all();
    assert_eq!(2, results.len());
    assert_eq!("stamp", results[0].answer);
    assert_eq!("qualm", results[1].answer);
    let names: Vec<String> = standard_suite::<5>().iter().map(|a| a.name()).collect();
    for by_word in &results {
        assert_eq!(6, by_word.analyzer_results.len());
        for (idx, by_analyzer) in by_word.analyzer_results.iter().enumerate() {
            assert_eq!(names[idx], by_analyzer.name);
            assert_eq!(GuessResult::Success, by_analyzer.result);
            let last = by_analyzer.guesses.last().unwrap();
            assert_eq!(by_word.answer.to_uppercase(), word_of(last));
            assert!(by_analyzer.guesses.len() <= 5);
        }
    }
}

#[test]
fn guess_result_in_words() {
    assert_eq!("Success", GuessResult::Success.to_text());
    assert_eq!("Failure", GuessResult::Failure.to_text());
}

#[test]
fn alphabetical_order() {
    let list = catalog(&[("crate", 5), ("slate", 4), ("plate", 3), ("crate", 1)]);
    let up = AlphabeticalOrder { ascending: true };
    let scored: Vec<(String, i128)> =
        Analyzer::<5>::analyze(&up, &list).iter().map(|s| (s.word.to_string(), s.score)).collect();
    assert_eq!(
        vec![
            ("SLATE".to_string(), 0),
            ("PLATE".to_string(), 1),
            ("CRATE".to_string(), 2),
            ("CRATE".to_string(), 3)
        ],
        scored
    );
    let down = AlphabeticalOrder { ascending: false };
    let scored: Vec<(String, i128)> =
        Analyzer::<5>::analyze(&down, &list).iter().map(|s| (s.word.to_string(), s.score)).collect();
    assert_eq!(
        vec![
            ("CRATE".to_string(), 0),
            ("CRATE".to_string(), 1),
            ("PLATE".to_string(), 2),
            ("SLATE".to_string(), 3)
        ],
        scored
    );
    assert_eq!("Alphabetical  \u{fe0e}\u{2193}", Analyzer::<5>::name(&up));
    assert_eq!("Alphabetical \u{2191}", Analyzer::<5>::name(&down));
}
