use wordlehelper::guess::guesses::GuessGrid;
use wordlehelper::guess::guesses::GuessStr;
use wordlehelper::guess::known_word_constraints::CharKnowledge;
use wordlehelper::guess::known_word_constraints::KnowledgePerLetter;
use wordlehelper::guess::known_word_constraints::KnownWordConstraints;
use wordlehelper::guess::known_word_constraints::LetterKnowledge;

fn write_chars<const N: usize>(to: &mut GuessStr<N>, chars: [(char, CharKnowledge); N]) {
    for (idx, (ch, kn)) in chars.into_iter().enumerate() {
        let guess_ch = to.guess_mut(idx);
        guess_ch.set_ch(ch);
        guess_ch.set_knowledge(kn);
    }
}

fn sorted_vec<I, T>(iterable: I) -> Vec<T>
where
    I: IntoIterator<Item = T>,
    T: Ord,
{
    let mut vec: Vec<T> = iterable.into_iter().collect();
    vec.sort();
    vec
}

fn sorted_entries(entries: Vec<(char, LetterKnowledge)>) -> Vec<(char, LetterKnowledge)> {
    let mut vec = entries;
    vec.sort_by_key(|(ch, _)| *ch);
    vec
}

#[test]
fn create_knowledge_per_letter() {
    struct Case<const N: usize> {
        given: [(char, CharKnowledge); N],
        expect: Vec<(char, LetterKnowledge)>,
    }
    let cases = vec![
        Case {
            given: [
                ('I', CharKnowledge::Missing),
                ('R', CharKnowledge::Missing),
                ('A', CharKnowledge::Correct),
                ('T', CharKnowledge::Missing),
                ('E', CharKnowledge::Missing),
            ],
            expect: vec![
                ('I', LetterKnowledge { at_least: 0, no_more_than: Some(0) }),
                ('R', LetterKnowledge { at_least: 0, no_more_than: Some(0) }),
                ('A', LetterKnowledge { at_least: 1, no_more_than: None }),
                ('T', LetterKnowledge { at_least: 0, no_more_than: Some(0) }),
                ('E', LetterKnowledge { at_least: 0, no_more_than: Some(0) }),
            ],
        },
        Case {
            given: [
                ('A', CharKnowledge::Missing),
                ('B', CharKnowledge::WrongPosition),
                ('C', CharKnowledge::WrongPosition),
                ('B', CharKnowledge::Correct),
                ('C', CharKnowledge::Missing),
            ],
            expect: vec![
                ('A', LetterKnowledge { at_least: 0, no_more_than: Some(0) }),
                ('B', LetterKnowledge { at_least: 2, no_more_than: None }),
                ('C', LetterKnowledge { at_least: 1, no_more_than: Some(1) }),
            ],
        },
    ];

    for case in cases {
        let mut guess_str: GuessStr<5> = GuessStr::new();
        write_chars(&mut guess_str, case.given);

        let mut expect = KnowledgePerLetter::new(5);
        for (ch, bounds) in case.expect {
            expect.set(ch, bounds);
        }
        let actual = KnowledgePerLetter::from(&guess_str);

        assert_eq!(expect, actual);
    }
}

#[test]
fn create_known_word_constraints() {
    let mut grid: GuessGrid<5, 6> = GuessGrid::new();
    write_chars(
        grid.guess_mut(0),
        [
            ('I', CharKnowledge::Missing),
            ('R', CharKnowledge::Missing),
            ('A', CharKnowledge::Correct),
            ('T', CharKnowledge::Missing),
            ('E', CharKnowledge::Missing),
        ],
    );
    write_chars(
        grid.guess_mut(1),
        [
            ('C', CharKnowledge::Missing),
            ('L', CharKnowledge::WrongPosition),
            ('A', CharKnowledge::Correct),
            ('S', CharKnowledge::Missing),
            ('H', CharKnowledge::Missing),
        ],
    );

    let actual = KnownWordConstraints::from_grid(&grid);

    let expected_fully_known = vec![None, None, Some('A'), None, None];
    let expected_wrong_positions: Vec<Vec<char>> =
        vec![vec![], vec!['L'], vec![], vec![], vec![]];
    let expected_missing = vec!['I', 'R', 'T', 'E', 'C', 'S', 'H'];
    let expected_letters_count = vec![
        ('I', LetterKnowledge { at_least: 0, no_more_than: Some(0) }),
        ('R', LetterKnowledge { at_least: 0, no_more_than: Some(0) }),
        ('A', LetterKnowledge { at_least: 1, no_more_than: None }),
        ('T', LetterKnowledge { at_least: 0, no_more_than: Some(0) }),
        ('E', LetterKnowledge { at_least: 0, no_more_than: Some(0) }),
        ('C', LetterKnowledge { at_least: 0, no_more_than: Some(0) }),
        ('L', LetterKnowledge { at_least: 1, no_more_than: None }),
        ('S', LetterKnowledge { at_least: 0, no_more_than: Some(0) }),
        ('H', LetterKnowledge { at_least: 0, no_more_than: Some(0) }),
    ];

    assert_eq!(&expected_fully_known, actual.fully_known());
    assert_eq!(
        sorted_vec(expected_fully_known.clone()),
        sorted_vec(actual.fully_known().clone())
    );
    assert_eq!(sorted_vec(expected_missing), sorted_vec(actual.missing()));
    assert_eq!(
        sorted_entries(expected_letters_count.clone()),
        sorted_entries(actual.letters_count().entries())
    );

    for (idx, expected) in expected_wrong_positions.into_iter().enumerate() {
        assert_eq!(expected, actual.wrong_positions(idx));
    }
    let mut expected_counts = KnowledgePerLetter::new(5);
    for (ch, bounds) in expected_letters_count {
        expected_counts.set(ch, bounds);
    }
    assert_eq!(&expected_counts, actual.letters_count());

    // The whole of it: the positions of the two rows, and the counts as they
    // are written out above.
    let mut expected: KnownWordConstraints<5> = KnownWordConstraints::empty();
    expected.add_row(&grid.guesses()[0]);
    expected.add_row(&grid.guesses()[1]);
    expected.add_counts(&expected_counts);
    assert_eq!(expected, actual);
    assert_ne!(KnownWordConstraints::<5>::empty(), actual);

    assert!(actual.is_word_possible("QUALM"))
}

fn knowledge_of<const R: usize>(rows: [[(char, CharKnowledge); 5]; R]) -> KnownWordConstraints<5> {
    let mut grid: GuessGrid<5, R> = GuessGrid::new();
    for (idx, row) in rows.into_iter().enumerate() {
        write_chars(grid.guess_mut(idx), row);
    }
    KnownWordConstraints::from_grid(&grid)
}

fn bounds(at_least: usize, no_more_than: Option<usize>) -> LetterKnowledge {
    LetterKnowledge { at_least, no_more_than }
}

#[test]
fn crate_with_only_the_a_right() {
    let knowledge = knowledge_of([[
        ('C', CharKnowledge::Missing),
        ('R', CharKnowledge::Missing),
        ('A', CharKnowledge::Correct),
        ('T', CharKnowledge::Missing),
        ('E', CharKnowledge::Missing),
    ]]);
    assert_eq!(Some('A'), knowledge.fully_known()[2]);
    assert_eq!(&vec![None, None, Some('A'), None, None], knowledge.fully_known());
    let counts = knowledge.letters_count();
    assert_eq!(Some(bounds(1, None)), counts.get('A'));
    for ch in ['C', 'R', 'T', 'E'] {
        assert_eq!(Some(bounds(0, Some(0))), counts.get(ch));
    }
    assert_eq!(None, counts.get('Q'));
    assert_eq!(None, counts.get('a'));
    assert_eq!(5, counts.entries().len());
    assert_eq!(vec!['C', 'E', 'R', 'T'], knowledge.missing());

    assert!(knowledge.is_word_possible("QUALM"));
    assert!(knowledge.is_word_possible("BLAND"));
    // The third letter is not an A.
    assert!(!knowledge.is_word_possible("ALOUD"));
    assert!(!knowledge.is_word_possible("BLOND"));
    // A C, an R, a T or an E.
    assert!(!knowledge.is_word_possible("CHAOS"));
    assert!(!knowledge.is_word_possible("BRAND"));
    assert!(!knowledge.is_word_possible("STAMP"));
    assert!(!knowledge.is_word_possible("FLAKE"));
}

#[test]
fn a_letter_that_is_placed_and_missing_has_its_count() {
    // The first O is somewhere else and the second is missing: one O exactly.
    let knowledge = knowledge_of([[
        ('F', CharKnowledge::Missing),
        ('O', CharKnowledge::WrongPosition),
        ('O', CharKnowledge::Missing),
        ('B', CharKnowledge::Missing),
        ('R', CharKnowledge::Missing),
    ]]);
    assert_eq!(Some(bounds(1, Some(1))), knowledge.letters_count().get('O'));
    assert_eq!(vec!['O'], knowledge.wrong_positions(1));
    assert!(knowledge.wrong_positions(2).is_empty());
    assert!(knowledge.is_word_possible("ONSET"));
    // O where it is known not to be.
    assert!(!knowledge.is_word_possible("TOAST"));
    // Two Os.
    assert!(!knowledge.is_word_possible("OUTDO"));
    // No O.
    assert!(!knowledge.is_word_possible("PLANT"));
}

#[test]
fn the_later_row_wins_a_position() {
    let knowledge = knowledge_of([
        [
            ('A', CharKnowledge::Correct),
            ('X', CharKnowledge::Missing),
            ('X', CharKnowledge::Missing),
            ('X', CharKnowledge::Missing),
            ('X', CharKnowledge::Missing),
        ],
        [
            ('B', CharKnowledge::Correct),
            ('Y', CharKnowledge::Missing),
            ('Y', CharKnowledge::Missing),
            ('Y', CharKnowledge::Missing),
            ('Y', CharKnowledge::Missing),
        ],
    ]);
    assert_eq!(Some('B'), knowledge.fully_known()[0]);
    // Both letters are still known to be in the word, so no word is left.
    assert_eq!(Some(bounds(1, None)), knowledge.letters_count().get('A'));
    assert_eq!(Some(bounds(1, None)), knowledge.letters_count().get('B'));
    assert!(knowledge.is_word_possible("BANJO"));
    assert!(!knowledge.is_word_possible("ABBOT"));
    assert!(!knowledge.is_word_possible("BONGO"));
}

#[test]
fn bounds_that_contradict_are_left_out() {
    // First no A at all, then an A that is right: the second is not taken.
    let knowledge = knowledge_of([
        [
            ('A', CharKnowledge::Missing),
            ('X', CharKnowledge::Missing),
            ('X', CharKnowledge::Missing),
            ('X', CharKnowledge::Missing),
            ('X', CharKnowledge::Missing),
        ],
        [
            ('Y', CharKnowledge::Missing),
            ('A', CharKnowledge::Correct),
            ('Y', CharKnowledge::Missing),
            ('Y', CharKnowledge::Missing),
            ('Y', CharKnowledge::Missing),
        ],
    ]);
    assert_eq!(Some(bounds(0, Some(0))), knowledge.letters_count().get('A'));
    assert_eq!(Some('A'), knowledge.fully_known()[1]);
}

#[test]
fn bounds_merge_to_the_tighter() {
    let mut mine = KnowledgePerLetter::new(5);
    mine.set('A', bounds(1, None));
    mine.set('B', bounds(0, Some(3)));
    mine.set('C', bounds(2, Some(2)));
    let mut other = KnowledgePerLetter::new(5);
    other.set('A', bounds(2, Some(4)));
    other.set('B', bounds(1, Some(2)));
    other.set('C', bounds(3, None));
    other.set('D', bounds(0, Some(0)));
    other.set('E', bounds(5, Some(1)));
    mine.add(&other);
    assert_eq!(
        vec![
            ('A', bounds(2, Some(4))),
            ('B', bounds(1, Some(2))),
            // Three at least and two at most: left as it was.
            ('C', bounds(2, Some(2))),
            ('D', bounds(0, Some(0))),
            // What contradicts itself leaves a letter without bounds.
            ('E', bounds(0, None)),
        ],
        mine.entries()
    );
    assert_eq!(bounds(0, None), LetterKnowledge::default());
    assert!(bounds(1, Some(2)).allows(1));
    assert!(bounds(1, Some(2)).allows(2));
    assert!(!bounds(1, Some(2)).allows(0));
    assert!(!bounds(1, Some(2)).allows(3));
    assert!(bounds(1, None).allows(99));
}

#[test]
fn add_row_takes_the_positions_only() {
    let mut row: GuessStr<5> = GuessStr::new();
    write_chars(
        &mut row,
        [
            ('S', CharKnowledge::Correct),
            ('L', CharKnowledge::WrongPosition),
            ('A', CharKnowledge::Missing),
            ('T', CharKnowledge::WrongPosition),
            ('E', CharKnowledge::Missing),
        ],
    );
    let mut knowledge: KnownWordConstraints<5> = KnownWordConstraints::empty();
    knowledge.add_row(&row);
    assert_eq!(&vec![Some('S'), None, None, None, None], knowledge.fully_known());
    assert_eq!(vec!['L'], knowledge.wrong_positions(1));
    assert_eq!(vec!['T'], knowledge.wrong_positions(3));
    assert_eq!(vec!['A', 'E'], knowledge.missing());
    assert!(knowledge.letters_count().entries().is_empty());
    // The counts are not known, so a word with an A still passes.
    assert!(knowledge.is_word_possible("STALE"));
    assert!(!knowledge.is_word_possible("SLATE"));
    knowledge.add_counts(&KnowledgePerLetter::from(&row));
    assert!(!knowledge.is_word_possible("STALE"));
    assert!(knowledge.is_word_possible("STILT"));
}

#[test]
fn words_are_matched_letter_for_letter() {
    let knowledge = knowledge_of([[
        ('C', CharKnowledge::Missing),
        ('R', CharKnowledge::Missing),
        ('A', CharKnowledge::Correct),
        ('T', CharKnowledge::Missing),
        ('E', CharKnowledge::Missing),
    ]]);
    // A word in lower case has no A in the third place.
    assert!(!knowledge.is_word_possible("qualm"));
}
