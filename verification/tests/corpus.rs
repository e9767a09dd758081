use wordlehelper::corpus::catalog_of;
use wordlehelper::corpus::corpus_entries;
use wordlehelper::corpus::corpus_lines;
use wordlehelper::corpus::parse_weight;
use wordlehelper::corpus::WordsFile;
use wordlehelper::guess::known_word_constraints::KnownWordConstraints;
use wordlehelper::word_list::WordFreq;
use wordlehelper::word_list::WordList;

fn texts<const N: usize>(list: &WordList<N>) -> Vec<(String, u64)> {
    list.entries().iter().map(|e| (e.word.clone(), e.freq)).collect()
}

fn pair(word: &str, weight: &str) -> (String, String) {
    (word.to_string(), weight.to_string())
}

fn entry(word: &str, freq: u64) -> (String, u64) {
    (word.to_string(), freq)
}

#[test]
fn corpus_lines_part_at_the_first_tab_or_space() {
    let text = "crate\t12\nslate 7\nnogap\n\nqualm\t3 4\n\tx\nlast\t1";
    assert_eq!(
        vec![
            pair("crate", "12"),
            pair("slate", "7"),
            pair("qualm", "3 4"),
            pair("", "x"),
            pair("last", "1"),
        ],
        corpus_lines(text)
    );
}

#[test]
fn corpus_lines_of_texts_without_entries() {
    assert!(corpus_lines("").is_empty());
    assert!(corpus_lines("\n\n\n").is_empty());
    assert!(corpus_lines("word").is_empty());
    assert_eq!(vec![pair("a", "")], corpus_lines("a\t"));
    assert_eq!(vec![pair("a", "1")], corpus_lines("a\t1\n"));
}

#[test]
fn parse_weight_reads_whole_numbers() {
    assert_eq!(Some(0), parse_weight("0"));
    assert_eq!(Some(7), parse_weight("007"));
    assert_eq!(Some(1234567890), parse_weight("1234567890"));
    assert_eq!(Some(u64::MAX), parse_weight("18446744073709551615"));
    assert_eq!(None, parse_weight("18446744073709551616"));
    assert_eq!(None, parse_weight("99999999999999999999999"));
    assert_eq!(None, parse_weight(""));
    assert_eq!(None, parse_weight("12a"));
    assert_eq!(None, parse_weight("-1"));
    assert_eq!(None, parse_weight("1.5"));
    assert_eq!(None, parse_weight(" 1"));
    assert_eq!(None, parse_weight("1\r"));
}

#[test]
fn corpus_entries_skip_lines_without_a_number() {
    let text = "crate\t12\nslate\tseven\nnogap\nqualm\t3\nstamp\t\n";
    let entries: Vec<(String, u64)> =
        corpus_entries(text).into_iter().map(|e| (e.word, e.freq)).collect();
    assert_eq!(vec![entry("crate", 12), entry("qualm", 3)], entries);
}

#[test]
fn catalog_of_a_corpus() {
    let text = "crate\t12\nfour\t99\nSlate\t7\nbroken\nqualm\tx\nstamp 3\ntoolong\t1\nllama\t0\n";
    let list: WordList<5> = catalog_of(text, 100);
    assert_eq!(
        vec![entry("CRATE", 12), entry("SLATE", 7), entry("STAMP", 3), entry("LLAMA", 0)],
        texts(&list)
    );
    let capped: WordList<5> = catalog_of(text, 2);
    assert_eq!(vec![entry("CRATE", 12), entry("SLATE", 7)], texts(&capped));
    let four: WordList<4> = catalog_of(text, 100);
    assert_eq!(vec![entry("FOUR", 99)], texts(&four));
}

#[test]
fn words_files() {
    assert_eq!(
        vec![WordsFile::WGutenberg, WordsFile::Norvig, WordsFile::HermitDave],
        WordsFile::all()
    );
    assert_eq!("words-5chars-wiktionary-gutenberg.txt", WordsFile::WGutenberg.file_name());
    assert_eq!("words-5chars-norvig.txt", WordsFile::Norvig.file_name());
    assert_eq!("words-5chars-hermitdave.txt", WordsFile::HermitDave.file_name());
}

fn list(words: &[(&str, u64)]) -> WordList<3> {
    let entries: Vec<WordFreq> =
        words.iter().map(|(word, freq)| WordFreq { word: word.to_string(), freq: *freq }).collect();
    WordList::from_entries(&entries, 1000)
}

#[test]
fn combine_adds_up_and_ranks() {
    let lists = vec![
        list(&[("cat", 5), ("dog", 9), ("eel", 1)]),
        list(&[("dog", 1), ("ant", 6), ("cat", 1)]),
        list(&[]),
        list(&[("bee", 6), ("eel", 2), ("eel", 3)]),
    ];
    let all = WordList::combine(&lists, 100);
    assert_eq!(
        vec![entry("DOG", 10), entry("ANT", 6), entry("BEE", 6), entry("CAT", 6), entry("EEL", 6)],
        texts(&all)
    );
    let top = WordList::combine(&lists, 2);
    assert_eq!(vec![entry("DOG", 10), entry("ANT", 6)], texts(&top));
    assert_eq!(0, WordList::combine(&lists, 0).len());
}

#[test]
fn combine_of_nothing() {
    let none: Vec<WordList<3>> = vec![];
    assert_eq!(0, WordList::combine(&none, 10).len());
    let empty = vec![WordList::<3>::empty(), list(&[])];
    assert_eq!(0, WordList::combine(&empty, 10).len());
}

#[test]
fn combine_stops_at_the_highest_frequency() {
    let lists = vec![list(&[("cat", u64::MAX), ("dog", u64::MAX - 1)]), list(&[("cat", 5), ("dog", 1)])];
    let all = WordList::combine(&lists, 100);
    assert_eq!(vec![entry("CAT", u64::MAX), entry("DOG", u64::MAX)], texts(&all));
}

#[test]
fn combine_sees_only_what_a_filter_left() {
    let full = list(&[("cat", 5), ("dog", 9)]);
    let preview = full.filter_preview(&KnownWordConstraints::empty());
    let all = WordList::combine(&vec![full, preview], 100);
    assert_eq!(vec![entry("DOG", 18), entry("CAT", 10)], texts(&all));
}
