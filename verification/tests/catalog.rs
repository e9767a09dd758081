use wordlehelper::guess::guesses::GuessGrid;
use wordlehelper::guess::known_word_constraints::CharKnowledge;
use wordlehelper::guess::known_word_constraints::KnownWordConstraints;
use wordlehelper::word_list::WordFreq;
use wordlehelper::word_list::WordList;

fn entry(word: &str, freq: u64) -> WordFreq {
    WordFreq { word: word.to_string(), freq }
}

fn sample() -> WordList<5> {
    let entries = vec![
        entry("crate", 90),
        entry("SLATE", 80),
        entry("qualm", 5),
        entry("toolong", 70),
        entry("four", 60),
        entry("Llama", 40),
        entry("stamp", 30),
        entry("BLAND", 20),
    ];
    WordList::from_entries(&entries, 100)
}

fn texts(list: &WordList<5>) -> Vec<String> {
    list.entries().iter().map(|e| e.word.clone()).collect()
}

fn crate_row() -> KnownWordConstraints<5> {
    let mut grid: GuessGrid<5, 6> = GuessGrid::new();
    let given = [
        ('C', CharKnowledge::Missing),
        ('R', CharKnowledge::Missing),
        ('A', CharKnowledge::Correct),
        ('T', CharKnowledge::Missing),
        ('E', CharKnowledge::Missing),
    ];
    for (idx, (ch, kn)) in given.into_iter().enumerate() {
        let cell = grid.guess_mut(0).guess_mut(idx);
        cell.set_ch(ch);
        cell.set_knowledge(kn);
    }
    KnownWordConstraints::from_grid(&grid)
}

#[test]
fn from_entries_keeps_the_length_and_folds_case() {
    let list = sample();
    assert_eq!(6, list.len());
    assert_eq!(vec!["CRATE", "SLATE", "QUALM", "LLAMA", "STAMP", "BLAND"], texts(&list));
    let freqs: Vec<u64> = list.entries().iter().map(|e| e.freq).collect();
    assert_eq!(vec![90, 80, 5, 40, 30, 20], freqs);
}

#[test]
fn from_entries_caps_in_corpus_order() {
    let entries = vec![entry("aaaaa", 1), entry("bb", 9), entry("ccccc", 2), entry("ddddd", 3)];
    let list: WordList<5> = WordList::from_entries(&entries, 2);
    assert_eq!(vec!["AAAAA", "CCCCC"], texts(&list));
    let none: WordList<5> = WordList::from_entries(&entries, 0);
    assert_eq!(0, none.len());
}

#[test]
fn empty_catalog() {
    let list: WordList<5> = WordList::empty();
    assert_eq!(0, list.len());
    assert!(list.words().next().is_none());
    assert_eq!(0, list.words().total_length());
    let mut same = WordList::<5>::empty();
    same.filter(&crate_row());
    assert_eq!(0, same.len());
    assert_eq!(0, same.filter_preview(&crate_row()).len());
}

#[test]
fn words_is_restartable_and_knows_its_length() {
    let list = sample();
    let mut first = list.words();
    assert_eq!(6, first.total_length());
    assert_eq!("CRATE", first.next().unwrap().word);
    assert_eq!("SLATE", first.next().unwrap().word);
    assert_eq!(6, first.total_length());
    let mut second = list.words();
    assert_eq!("CRATE", second.next().unwrap().word);
    let mut count = 1;
    while second.next().is_some() {
        count += 1;
    }
    assert_eq!(6, count);
    assert!(second.next().is_none());
}

#[test]
fn all_chars_glues_the_words() {
    let entries = vec![entry("ab", 1), entry("cd", 1)];
    let list: WordList<2> = WordList::from_entries(&entries, 10);
    assert_eq!(vec!['A', 'B', 'C', 'D'], list.all_chars());
}

#[test]
fn filter_by_crate_row() {
    // No C, R, T or E, and an A in the middle.
    let mut list = sample();
    list.filter(&crate_row());
    assert_eq!(vec!["QUALM", "LLAMA", "BLAND"], texts(&list));
    assert_eq!(3, list.len());
    for entry in list.entries() {
        assert_eq!(Some('A'), entry.word.chars().nth(2));
        for banned in ['C', 'R', 'T', 'E'] {
            assert!(!entry.word.contains(banned));
        }
    }
}

#[test]
fn filtering_twice_is_filtering_once() {
    let knowledge = crate_row();
    let mut once = sample();
    once.filter(&knowledge);
    let mut twice = sample();
    twice.filter(&knowledge);
    twice.filter(&knowledge);
    assert_eq!(texts(&once), texts(&twice));
    assert_eq!(once.len(), twice.len());

    let preview = sample().filter_preview(&knowledge);
    let mut again = preview.filter_preview(&knowledge);
    assert_eq!(texts(&preview), texts(&again));
    again.filter(&knowledge);
    assert_eq!(texts(&preview), texts(&again));
}

#[test]
fn preview_leaves_the_catalog() {
    let list = sample();
    let before = texts(&list);
    let preview = list.filter_preview(&crate_row());
    assert_eq!(vec!["QUALM", "LLAMA", "BLAND"], texts(&preview));
    assert_eq!(3, preview.len());
    assert_eq!(3, preview.words().total_length());
    assert_eq!(6, list.len());
    assert_eq!(before, texts(&list));
}

#[test]
fn previews_of_one_catalog_do_not_touch_each_other() {
    let list = sample();
    let all = list.filter_preview(&KnownWordConstraints::empty());
    let mut narrow = all.filter_preview(&KnownWordConstraints::empty());
    narrow.filter(&crate_row());
    assert_eq!(3, narrow.len());
    assert_eq!(6, all.len());
    assert_eq!(texts(&list), texts(&all));
}

#[test]
fn a_filter_that_leaves_nothing() {
    let mut grid: GuessGrid<5, 6> = GuessGrid::new();
    for idx in 0..5 {
        let cell = grid.guess_mut(0).guess_mut(idx);
        cell.set_ch('A');
        cell.set_knowledge(CharKnowledge::Missing);
    }
    let knowledge = KnownWordConstraints::from_grid(&grid);
    let mut list = sample();
    list.filter(&knowledge);
    assert_eq!(0, list.len());
    assert!(list.entries().is_empty());
    let preview = sample().filter_preview(&knowledge);
    assert_eq!(0, preview.len());
    assert!(preview.words().next().is_none());
}
