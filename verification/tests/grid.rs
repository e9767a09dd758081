use wordlehelper::guess::editor::incr_usize;
use wordlehelper::guess::editor::EditKey;
use wordlehelper::guess::editor::EditOutcome;
use wordlehelper::guess::editor::GuessEditor;
use wordlehelper::guess::editor::NO_WRAP;
use wordlehelper::guess::editor::WRAP;
use wordlehelper::guess::guesses::GuessChar;
use wordlehelper::guess::guesses::GuessGrid;
use wordlehelper::guess::guesses::GuessStr;
use wordlehelper::guess::known_word_constraints::CharKnowledge;
use wordlehelper::guess::known_word_constraints::CharKnowledge::Correct;
use wordlehelper::guess::known_word_constraints::CharKnowledge::Missing;
use wordlehelper::guess::known_word_constraints::CharKnowledge::Unknown;
use wordlehelper::guess::known_word_constraints::CharKnowledge::WrongPosition;
use wordlehelper::guess::known_word_constraints::KnownWordConstraints;
use wordlehelper::palette::color_for_knowledge;
use wordlehelper::palette::Color;
use wordlehelper::scroll::scroll_down;
use wordlehelper::scroll::scroll_up;
use wordlehelper::word_list::WordFreq;
use wordlehelper::word_list::WordList;

fn write_row<const N: usize>(row: &mut GuessStr<N>, cells: [(char, CharKnowledge); N]) {
    for (idx, (ch, kn)) in cells.into_iter().enumerate() {
        let cell = row.guess_mut(idx);
        cell.set_ch(ch);
        cell.set_knowledge(kn);
    }
}

fn cells<const N: usize>(row: &GuessStr<N>) -> Vec<(Option<char>, CharKnowledge)> {
    row.guesses().iter().map(|c| (c.ch(), c.knowledge())).collect()
}

#[test]
fn feedback_classes_cycle() {
    assert_eq!(Unknown, CharKnowledge::default());
    assert_eq!(4, CharKnowledge::COUNT);
    assert_eq!(WrongPosition, Unknown.cycle(true));
    assert_eq!(Correct, WrongPosition.cycle(true));
    assert_eq!(Missing, Correct.cycle(true));
    assert_eq!(Unknown, Missing.cycle(true));
    assert_eq!(Missing, Unknown.cycle(false));
    assert_eq!(Unknown, WrongPosition.cycle(false));
    assert_eq!(WrongPosition, Correct.cycle(false));
    assert_eq!(Correct, Missing.cycle(false));
    for repr in 0..4 {
        assert_eq!(repr, CharKnowledge::from_repr(repr).unwrap().repr());
    }
    assert_eq!(None, CharKnowledge::from_repr(4));
}

#[test]
fn a_cell_has_feedback_only_with_a_letter() {
    let mut cell = GuessChar::default();
    assert_eq!(None, cell.ch());
    assert_eq!(CharKnowledge::Unknown, cell.knowledge());
    cell.set_knowledge(CharKnowledge::Correct);
    assert_eq!(CharKnowledge::Unknown, cell.knowledge());
    assert!(!cell.set_ch('7'));
    assert_eq!(None, cell.ch());
    assert!(cell.set_ch('q'));
    assert_eq!(Some('Q'), cell.ch());
    cell.set_knowledge(CharKnowledge::Missing);
    assert_eq!(CharKnowledge::Missing, cell.knowledge());
    // The same letter again changes nothing, in whichever case it comes.
    assert!(cell.set_ch('Q'));
    assert_eq!(Some('Q'), cell.ch());
    assert_eq!(CharKnowledge::Missing, cell.knowledge());
    assert!(cell.set_ch('q'));
    assert_eq!(Some('Q'), cell.ch());
    assert_eq!(CharKnowledge::Missing, cell.knowledge());
    cell.set_knowledge(CharKnowledge::Correct);
    assert!(cell.set_ch('q'));
    assert_eq!(CharKnowledge::Correct, cell.knowledge());
    // What is no letter changes nothing either.
    assert!(!cell.set_ch('-'));
    assert_eq!(Some('Q'), cell.ch());
    assert_eq!(CharKnowledge::Correct, cell.knowledge());
    // Another letter is written, and the feedback is lost.
    assert!(cell.set_ch('z'));
    assert_eq!(Some('Z'), cell.ch());
    assert_eq!(CharKnowledge::Unknown, cell.knowledge());
    cell.set_knowledge(CharKnowledge::WrongPosition);
    assert_eq!(Some('Z'), cell.unset_ch());
    assert_eq!(None, cell.ch());
    assert_eq!(CharKnowledge::Unknown, cell.knowledge());
    assert_eq!(None, cell.unset_ch());
}

#[test]
fn rows_and_grids_start_empty() {
    let row: GuessStr<4> = GuessStr::new();
    assert_eq!(4, row.guesses().len());
    assert_eq!(vec![(None, CharKnowledge::Unknown); 4], cells(&row));
    assert!(!row.is_fully_filled());
    let same: GuessStr<4> = GuessStr::default();
    assert_eq!(cells(&row), cells(&same));
    let grid: GuessGrid<4, 3> = GuessGrid::new();
    assert_eq!(3, grid.guesses().len());
    for row in grid.guesses() {
        assert_eq!(vec![(None, CharKnowledge::Unknown); 4], cells(row));
    }
    assert_eq!(vec![None; 4], grid.known_chars());
    assert_eq!(3, grid.into_rows().len());
}

#[test]
fn a_row_is_full_when_every_cell_has_letter_and_feedback() {
    let mut row: GuessStr<2> = GuessStr::new();
    write_row(&mut row, [('a', CharKnowledge::Missing), ('b', CharKnowledge::Unknown)]);
    assert!(!row.is_fully_filled());
    row.guess_mut(1).set_knowledge(CharKnowledge::Correct);
    assert!(row.is_fully_filled());
    row.guess_mut(0).unset_ch();
    assert!(!row.is_fully_filled());
    let none: GuessStr<0> = GuessStr::new();
    assert!(none.is_fully_filled());
}

#[test]
fn known_chars_stop_at_the_first_row_that_is_not_full() {
    let mut grid: GuessGrid<3, 4> = GuessGrid::new();
    write_row(grid.guess_mut(0), [('a', Correct), ('b', Missing), ('c', WrongPosition)]);
    assert_eq!(vec![Some('A'), None, None], grid.known_chars());
    write_row(grid.guess_mut(1), [('x', Correct), ('y', Correct), ('z', Missing)]);
    // The later row wins the first position.
    assert_eq!(vec![Some('X'), Some('Y'), None], grid.known_chars());
    // Row 2 is not full, so row 3 is not looked at.
    write_row(grid.guess_mut(3), [('p', Correct), ('q', Correct), ('r', Correct)]);
    assert_eq!(vec![Some('X'), Some('Y'), None], grid.known_chars());
    grid.guess_mut(2).guess_mut(0).set_ch('k');
    grid.guess_mut(2).guess_mut(0).set_knowledge(Correct);
    assert_eq!(vec![Some('X'), Some('Y'), None], grid.known_chars());
    write_row(grid.guess_mut(2), [('k', Correct), ('l', Missing), ('m', Missing)]);
    assert_eq!(vec![Some('P'), Some('Q'), Some('R')], grid.known_chars());
}

#[test]
fn an_empty_grid_allows_every_word() {
    let grid: GuessGrid<5, 6> = GuessGrid::new();
    let knowledge = KnownWordConstraints::from_grid(&grid);
    for word in ["QUALM", "AAAAA", "zzzzz", "a-b c", "\u{e9}\u{e9}\u{e9}\u{e9}\u{e9}"] {
        assert!(knowledge.is_word_possible(word));
        assert!(KnownWordConstraints::<5>::empty().is_word_possible(word));
    }
    assert_eq!(&vec![None; 5], knowledge.fully_known());
    assert!(knowledge.missing().is_empty());
    assert!(knowledge.letters_count().entries().is_empty());
}

#[test]
fn letters_without_feedback_say_nothing() {
    let mut grid: GuessGrid<5, 6> = GuessGrid::new();
    for (idx, ch) in "CRATE".chars().enumerate() {
        grid.guess_mut(0).guess_mut(idx).set_ch(ch);
    }
    let knowledge = KnownWordConstraints::from_grid(&grid);
    assert!(knowledge.is_word_possible("QUALM"));
    assert!(knowledge.is_word_possible("CRATE"));
    assert!(knowledge.letters_count().entries().is_empty());
}

#[test]
fn incr_usize_steps() {
    assert_eq!(3, incr_usize(2, 5, true, WRAP));
    assert_eq!(0, incr_usize(4, 5, true, WRAP));
    assert_eq!(4, incr_usize(0, 5, false, WRAP));
    assert_eq!(1, incr_usize(2, 5, false, WRAP));
    assert_eq!(4, incr_usize(4, 5, true, NO_WRAP));
    assert_eq!(0, incr_usize(0, 5, false, NO_WRAP));
    assert_eq!(3, incr_usize(2, 5, true, NO_WRAP));
    assert_eq!(4, incr_usize(9, 5, false, NO_WRAP));
    assert_eq!(3, incr_usize(9, 5, false, WRAP));
    assert_eq!(4, incr_usize(usize::MAX, 5, true, WRAP));
    assert_eq!(0, incr_usize(usize::MAX, 5, true, NO_WRAP));
    assert_eq!(0, incr_usize(0, 1, true, WRAP));
}

fn words() -> WordList<3> {
    let entries: Vec<WordFreq> = ["cat", "cot", "dog", "act", "tac"]
        .iter()
        .map(|w| WordFreq { word: w.to_string(), freq: 1 })
        .collect();
    WordList::from_entries(&entries, 100)
}

fn row_of(editor: &GuessEditor<3, 4>, row: usize) -> Vec<(Option<char>, CharKnowledge)> {
    cells(&editor.grid().guesses()[row])
}

fn remaining(list: &WordList<3>) -> Vec<String> {
    list.entries().iter().map(|e| e.word.clone()).collect()
}

#[test]
fn typing_moves_the_cursor_and_goes_round() {
    let mut editor: GuessEditor<3, 4> = GuessEditor::new(words());
    assert_eq!((0, 0), (editor.active_row(), editor.active_col()));
    assert_eq!(EditOutcome::Handled, editor.handle_input(EditKey::Character('c')));
    assert_eq!(EditOutcome::Handled, editor.handle_input(EditKey::Character('A')));
    assert_eq!(2, editor.active_col());
    assert_eq!(EditOutcome::Handled, editor.handle_input(EditKey::Character('t')));
    assert_eq!(0, editor.active_col());
    assert_eq!(
        vec![
            (Some('C'), CharKnowledge::Unknown),
            (Some('A'), CharKnowledge::Unknown),
            (Some('T'), CharKnowledge::Unknown)
        ],
        row_of(&editor, 0)
    );
    assert_eq!(EditOutcome::Passed, editor.handle_input(EditKey::Character('1')));
    assert_eq!(EditOutcome::Passed, editor.handle_input(EditKey::Other));
    assert_eq!(0, editor.active_col());
    assert_eq!(EditOutcome::Handled, editor.handle_input(EditKey::Left));
    assert_eq!(2, editor.active_col());
    assert_eq!(EditOutcome::Handled, editor.handle_input(EditKey::Right));
    assert_eq!(0, editor.active_col());
}

#[test]
fn feedback_is_new_knowledge() {
    let mut editor: GuessEditor<3, 4> = GuessEditor::new(words());
    let first = editor.handle_new_knowledge().unwrap();
    assert_eq!(5, first.len());
    assert!(editor.handle_new_knowledge().is_none());
    editor.handle_input(EditKey::Character('c'));
    // A letter without feedback changes nothing.
    assert!(editor.handle_new_knowledge().is_none());
    editor.handle_input(EditKey::Left);
    // Down from no feedback is Missing.
    editor.handle_input(EditKey::Down);
    assert_eq!((Some('C'), CharKnowledge::Missing), row_of(&editor, 0)[0]);
    let after = editor.handle_new_knowledge().unwrap();
    assert_eq!(vec!["DOG"], remaining(&after));
    // The words to choose from stay until the row is handed in.
    assert_eq!(5, editor.possible_words().len());
    // Up from Missing is no feedback again, which is a change too.
    editor.handle_input(EditKey::Up);
    assert_eq!(5, editor.handle_new_knowledge().unwrap().len());
    // A cell without a letter takes no feedback, but the key is a change.
    editor.handle_input(EditKey::Right);
    editor.handle_input(EditKey::Up);
    assert_eq!((None, CharKnowledge::Unknown), row_of(&editor, 0)[1]);
    assert!(editor.handle_new_knowledge().is_some());
}

#[test]
fn delete_takes_the_letter_or_steps_back() {
    let mut editor: GuessEditor<3, 4> = GuessEditor::new(words());
    editor.handle_new_knowledge();
    editor.handle_input(EditKey::Character('c'));
    editor.handle_input(EditKey::Character('a'));
    assert_eq!(2, editor.active_col());
    // Nothing to delete here: the cursor steps back.
    assert_eq!(EditOutcome::Handled, editor.handle_input(EditKey::Delete));
    assert_eq!(1, editor.active_col());
    assert!(editor.handle_new_knowledge().is_none());
    assert_eq!(EditOutcome::Handled, editor.handle_input(EditKey::Delete));
    assert_eq!(1, editor.active_col());
    assert_eq!((None, CharKnowledge::Unknown), row_of(&editor, 0)[1]);
    assert!(editor.handle_new_knowledge().is_some());
}

#[test]
fn a_row_is_handed_in_when_it_is_full() {
    let mut editor: GuessEditor<3, 4> = GuessEditor::new(words());
    for ch in ['c', 'o', 't'] {
        editor.handle_input(EditKey::Character(ch));
    }
    // No feedback yet.
    assert_eq!(EditOutcome::Refused, editor.handle_input(EditKey::Enter));
    assert_eq!(0, editor.active_row());
    // C is right, O is missing, T is right.
    editor.handle_input(EditKey::Up);
    editor.handle_input(EditKey::Up);
    editor.handle_input(EditKey::Right);
    editor.handle_input(EditKey::Down);
    assert_eq!(EditOutcome::Refused, editor.handle_input(EditKey::Enter));
    editor.handle_input(EditKey::Right);
    editor.handle_input(EditKey::Up);
    editor.handle_input(EditKey::Up);
    assert!(!editor.fully_guessed());
    assert_eq!(EditOutcome::Handled, editor.handle_input(EditKey::Enter));
    assert_eq!(1, editor.active_row());
    // The letters that are known stand in the new row, and the cursor is on
    // the first cell that is open.
    assert_eq!(
        vec![
            (Some('C'), CharKnowledge::Correct),
            (None, CharKnowledge::Unknown),
            (Some('T'), CharKnowledge::Correct)
        ],
        row_of(&editor, 1)
    );
    assert_eq!(1, editor.active_col());
    assert_eq!(vec!["CAT"], remaining(editor.possible_words()));
    // A known letter that is typed again is right at once.
    editor.handle_input(EditKey::Left);
    editor.handle_input(EditKey::Character('x'));
    assert_eq!((Some('X'), CharKnowledge::Unknown), row_of(&editor, 1)[0]);
    editor.handle_input(EditKey::Left);
    editor.handle_input(EditKey::Character('c'));
    assert_eq!((Some('C'), CharKnowledge::Correct), row_of(&editor, 1)[0]);
}

#[test]
fn a_word_that_is_found_ends_the_game() {
    let mut editor: GuessEditor<3, 4> = GuessEditor::new(words());
    for ch in ['c', 'a', 't'] {
        editor.handle_input(EditKey::Character(ch));
        editor.handle_input(EditKey::Left);
        editor.handle_input(EditKey::Up);
        editor.handle_input(EditKey::Up);
        editor.handle_input(EditKey::Right);
    }
    assert!(editor.fully_guessed());
    assert_eq!(EditOutcome::Handled, editor.handle_input(EditKey::Enter));
    assert_eq!(0, editor.active_row());
    assert_eq!(5, editor.possible_words().len());
}

#[test]
fn the_last_row_cannot_be_handed_in() {
    let mut editor: GuessEditor<3, 4> = GuessEditor::new(words());
    for row in 0..4 {
        assert_eq!(row, editor.active_row());
        for idx in 0..3 {
            while editor.active_col() != idx {
                editor.handle_input(EditKey::Right);
            }
            editor.handle_input(EditKey::Character('z'));
            editor.handle_input(EditKey::Left);
            editor.handle_input(EditKey::Down);
        }
        let outcome = editor.handle_input(EditKey::Enter);
        if row < 3 {
            assert_eq!(EditOutcome::Handled, outcome);
        } else {
            assert_eq!(EditOutcome::Refused, outcome);
        }
    }
    assert_eq!(3, editor.active_row());
    // No word has a Z, so all of them are still possible.
    assert_eq!(5, editor.possible_words().len());
}

#[test]
fn feedback_colours() {
    assert_eq!(Color::StandardForeground, color_for_knowledge(Unknown));
    assert_eq!(Color::Warning, color_for_knowledge(WrongPosition));
    assert_eq!(Color::Good, Correct.color());
    assert_eq!(Color::Error, Missing.color());
    assert_eq!(5, Color::COUNT);
    for repr in 0..5 {
        assert_eq!(repr, Color::from_repr(repr).unwrap().repr());
    }
    assert_eq!(Some(Color::Hidden), Color::from_repr(4));
    assert_eq!(None, Color::from_repr(5));
}

#[test]
fn a_catalog_can_be_copied() {
    let list = words();
    let mut copy = list.clone();
    assert_eq!(remaining(&list), remaining(&copy));
    let mut grid: GuessGrid<3, 1> = GuessGrid::new();
    write_row(grid.guess_mut(0), [('c', Correct), ('x', Missing), ('t', Correct)]);
    copy.filter(&KnownWordConstraints::from_grid(&grid));
    assert_eq!(vec!["CAT", "COT"], remaining(&copy));
    assert_eq!(5, list.len());
    let preview = copy.filter_preview(&KnownWordConstraints::empty());
    let again = preview.clone();
    assert_eq!(vec!["CAT", "COT"], remaining(&again));
}

#[test]
fn scrolling_stops_at_the_ends() {
    // Ten lines in a pane of four: the list can go down while more than the
    // pane holds is left.
    assert_eq!(1, scroll_down(0, 4, 10));
    assert_eq!(6, scroll_down(5, 4, 10));
    assert_eq!(6, scroll_down(6, 4, 10));
    assert_eq!(0, scroll_down(0, 4, 4));
    assert_eq!(0, scroll_down(0, 4, 0));
    assert_eq!(3, scroll_down(3, usize::MAX, 10));
    assert_eq!(usize::MAX, scroll_down(usize::MAX, 0, usize::MAX));
    assert_eq!(4, scroll_up(5));
    assert_eq!(0, scroll_up(1));
    assert_eq!(0, scroll_up(0));
}

#[test]
fn a_letter_typed_again_keeps_its_feedback() {
    let mut editor: GuessEditor<3, 4> = GuessEditor::new(words());
    editor.handle_new_knowledge();
    editor.handle_input(EditKey::Character('C'));
    editor.handle_input(EditKey::Left);
    editor.handle_input(EditKey::Down);
    assert_eq!((Some('C'), Missing), row_of(&editor, 0)[0]);
    editor.handle_new_knowledge();
    // The same letter in lower case: the cell stays, and the cursor moves on.
    assert_eq!(EditOutcome::Handled, editor.handle_input(EditKey::Character('c')));
    assert_eq!((Some('C'), Missing), row_of(&editor, 0)[0]);
    assert_eq!(1, editor.active_col());
    // The cell had feedback, so the key counts as a change all the same.
    assert!(editor.handle_new_knowledge().is_some());
    editor.handle_input(EditKey::Left);
    editor.handle_input(EditKey::Character('d'));
    assert_eq!((Some('D'), Unknown), row_of(&editor, 0)[0]);
}
