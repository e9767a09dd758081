use wordlehelper::analyze::analyzer::sort_ranked;
use wordlehelper::analyze::analyzer::Analyzer;
use wordlehelper::analyze::analyzer::ScoredWord;
use wordlehelper::analyze::char_stats::CharCounts;
use wordlehelper::analyze::pattern::PatternBasedAnalyzer;
use wordlehelper::analyze::position_chars::CharPositionScorer;
use wordlehelper::analyze::scored_chars::CharScorer;
use wordlehelper::analyze::simple_analyzers::CharFrequencies;
use wordlehelper::analyze::simple_analyzers::WordFrequencies;
use wordlehelper::analyze::suite::standard_suite;
use wordlehelper::word_list::WordFreq;
use wordlehelper::word_list::WordList;

fn catalog<const N: usize>(words: &[(&str, u64)]) -> WordList<N> {
    let entries: Vec<WordFreq> =
        words.iter().map(|(word, freq)| WordFreq { word: word.to_string(), freq: *freq }).collect();
    WordList::from_entries(&entries, 1000)
}

fn pairs(scored: &[ScoredWord]) -> Vec<(String, i128)> {
    scored.iter().map(|s| (s.word.to_string(), s.score)).collect()
}

fn expect(words: &[(&str, i128)]) -> Vec<(String, i128)> {
    words.iter().map(|(word, score)| (word.to_string(), *score)).collect()
}

#[test]
fn normalize_constant_scores() {
    let mut words = vec![
        ScoredWord { word: "A", score: 3 },
        ScoredWord { word: "B", score: 3 },
        ScoredWord { word: "C", score: 3 },
    ];
    let scale = ScoredWord::normalize_scores(&mut words).unwrap();
    let normal: Vec<f64> = words.iter().map(|w| w.score as f64 / scale as f64).collect();
    assert_eq!(vec![100.0, 100.0, 100.0], normal);
    assert_eq!(1, scale);
}

#[test]
fn normalize_spread_scores() {
    let mut words = vec![
        ScoredWord { word: "A", score: 1 },
        ScoredWord { word: "B", score: 2 },
        ScoredWord { word: "C", score: 4 },
    ];
    let scale = ScoredWord::normalize_scores(&mut words).unwrap();
    assert_eq!(3, scale);
    assert_eq!(expect(&[("A", 0), ("B", 100), ("C", 300)]), pairs(&words));
    let normal: Vec<f64> = words.iter().map(|w| w.score as f64 / scale as f64).collect();
    assert_eq!(0.0, normal[0]);
    assert!((normal[1] - 33.33).abs() < 0.01);
    assert_eq!(100.0, normal[2]);
}

#[test]
fn normalize_one_word_and_none() {
    let mut one = vec![ScoredWord { word: "A", score: -7 }];
    assert_eq!(Some(1), ScoredWord::normalize_scores(&mut one));
    assert_eq!(100, one[0].score);
    let mut none: Vec<ScoredWord> = vec![];
    assert_eq!(Some(1), ScoredWord::normalize_scores(&mut none));
    assert!(none.is_empty());
}

#[test]
fn normalize_negative_scores() {
    let mut words = vec![
        ScoredWord { word: "A", score: -10 },
        ScoredWord { word: "B", score: 0 },
        ScoredWord { word: "C", score: -5 },
    ];
    assert_eq!(Some(10), ScoredWord::normalize_scores(&mut words));
    assert_eq!(expect(&[("A", 0), ("B", 1000), ("C", 500)]), pairs(&words));
}

#[test]
fn normalize_gives_up_on_scores_too_far_apart() {
    let mut words =
        vec![ScoredWord { word: "A", score: i128::MIN }, ScoredWord { word: "B", score: i128::MAX }];
    assert_eq!(None, ScoredWord::normalize_scores(&mut words));
    assert_eq!(expect(&[("A", i128::MIN), ("B", i128::MAX)]), pairs(&words));
    let mut wide =
        vec![ScoredWord { word: "A", score: 0 }, ScoredWord { word: "B", score: i128::MAX / 50 }];
    assert_eq!(None, ScoredWord::normalize_scores(&mut wide));
    assert_eq!(0, wide[0].score);
}

#[test]
fn scored_word_ordering() {
    let a = ScoredWord { word: "APPLE", score: 5 };
    let b = ScoredWord { word: "BERRY", score: 5 };
    assert!(a < b);
    assert!(!(b < a));
    assert!(b > a);
    let a = ScoredWord { word: "ZEBRA", score: 6 };
    let b = ScoredWord { word: "APPLE", score: 5 };
    assert!(a < b);
    assert!(!(b < a));
    let same = ScoredWord { word: "APPLE", score: 5 };
    assert!(b == same);
    assert!(b <= same && b >= same);
    assert!(a != b);
    assert!(a.goes_before(&b));
    assert!(!b.goes_before(&same));
}

#[test]
fn dictionary_order_puts_a_prefix_first() {
    let a = ScoredWord { word: "CAT", score: 0 };
    let b = ScoredWord { word: "CATS", score: 0 };
    let c = ScoredWord { word: "CAB", score: 0 };
    assert!(a < b);
    assert!(c < a);
    assert!(c < b);
    let empty = ScoredWord { word: "", score: 0 };
    assert!(empty < c);
}

#[test]
fn sort_ranked_orders_by_score_then_word() {
    let mut words = vec![
        ScoredWord { word: "PEAR", score: 2 },
        ScoredWord { word: "FIG", score: 9 },
        ScoredWord { word: "APPLE", score: 2 },
        ScoredWord { word: "KIWI", score: -1 },
        ScoredWord { word: "LIME", score: 9 },
        ScoredWord { word: "APPLE", score: 2 },
    ];
    sort_ranked(&mut words);
    assert_eq!(
        expect(&[("FIG", 9), ("LIME", 9), ("APPLE", 2), ("APPLE", 2), ("PEAR", 2), ("KIWI", -1)]),
        pairs(&words)
    );
    let mut none: Vec<ScoredWord> = vec![];
    sort_ranked(&mut none);
    assert!(none.is_empty());
}

#[test]
fn letter_frequency_scores() {
    // A occurs 3 times, B 2, C 1, D 1 among all the letters.
    let list: WordList<3> = catalog(&[("aab", 1), ("abc", 1), ("ddd", 1)]);
    let scored = Analyzer::<3>::analyze(&CharFrequencies {}, &list);
    assert_eq!(expect(&[("AAB", 5), ("ABC", 6), ("DDD", 3)]), pairs(&scored));
    assert_eq!("Char Freqs", Analyzer::<3>::name(&CharFrequencies {}));
}

#[test]
fn word_frequency_scores() {
    let list: WordList<3> = catalog(&[("aab", 7), ("abc", 0), ("ddd", u64::MAX)]);
    let scored = Analyzer::<3>::analyze(&WordFrequencies {}, &list);
    assert_eq!(expect(&[("AAB", 7), ("ABC", 0), ("DDD", u64::MAX as i128)]), pairs(&scored));
    assert_eq!("Most Common Words", Analyzer::<3>::name(&WordFrequencies {}));
}

#[test]
fn letter_statistics() {
    let list: WordList<3> = catalog(&[("aab", 1), ("abc", 1), ("ddd", 1), ("bcd", 1)]);
    let counts = CharCounts::new(&list);
    assert_eq!(4, counts.words_count());
    assert_eq!(3, counts.occurrence_by_char().get('a'));
    assert_eq!(2, counts.word_count_by_char().get('a'));
    assert_eq!(4, counts.occurrence_by_char().get('D'));
    assert_eq!(2, counts.word_count_by_char().get('D'));
    assert_eq!(0, counts.word_count_by_char().get('z'));
}

#[test]
fn bisection_scores() {
    // Four words. A is in 2 of them: a full point, which is 8 in units of an
    // eighth. B is in 3: 8 - |4 - 6| = 6. C is in 2: 8. D is in 2: 8.
    let list: WordList<3> = catalog(&[("aab", 1), ("abc", 3), ("ddd", 5), ("bcd", 7)]);
    let plain = CharScorer::<3> { double_count_freq: false };
    assert_eq!(
        expect(&[("AAB", 14), ("ABC", 22), ("DDD", 8), ("BCD", 22)]),
        pairs(&plain.analyze(&list))
    );
    assert_eq!("Scored Chars (std)", plain.name());
    let weighted = CharScorer::<3> { double_count_freq: true };
    assert_eq!(
        expect(&[("AAB", 14), ("ABC", 66), ("DDD", 40), ("BCD", 154)]),
        pairs(&weighted.analyze(&list))
    );
    assert_eq!("Scored Chars (2x-count freq)", weighted.name());
}

#[test]
fn a_letter_in_half_of_the_words_scores_a_full_point() {
    // X is in 3 of the 6 words and in none with another letter of its kind.
    let list: WordList<2> =
        catalog(&[("xx", 1), ("xx", 1), ("xx", 1), ("yy", 1), ("zz", 1), ("ww", 1)]);
    let scored = CharScorer::<2> { double_count_freq: false }.analyze(&list);
    let unit = 2 * list.len() as i128;
    assert_eq!(unit, scored[0].score);
    assert_eq!(1.0, scored[0].score as f64 / unit as f64);
    // Y is in one word of six: 1 - |1/2 - 1/6| = 2/3.
    assert_eq!(8, scored[3].score);
}

#[test]
fn positional_scores() {
    // Words AB, AC, BA. For A at 0: correct 2, elsewhere 1 (BA), missing 0:
    // -(|1-2| + |2-0| + |0-1|) = -4. For B at 1: correct 1 (AB), elsewhere 1
    // (BA), missing 1: 0. For C at 1: correct 1, elsewhere 0, missing 2: -4.
    // For B at 0: correct 1, elsewhere 1, missing 1: 0. For A at 1: correct
    // 1, elsewhere 2, missing 0: -4.
    let list: WordList<2> = catalog(&[("ab", 1), ("ac", 1), ("ba", 1)]);
    let scorer = CharPositionScorer::<2> {};
    assert_eq!(expect(&[("AB", -4), ("AC", -8), ("BA", -4)]), pairs(&scorer.analyze(&list)));
    assert_eq!("Char-Pos", scorer.name());
}

#[test]
fn positional_scores_of_other_characters() {
    // A character that is no letter is never elsewhere. For - at 1: correct 2,
    // missing 1: -(2 + 1 + 1) = -4. For A at 0: correct 2, elsewhere 0,
    // missing 1: -4. For B at 0: correct 1, missing 2: -4. For C at 1:
    // correct 1, missing 2: -4.
    let list: WordList<2> = catalog(&[("a-", 1), ("b-", 1), ("ac", 1)]);
    let scorer = CharPositionScorer::<2> {};
    assert_eq!(expect(&[("A-", -8), ("B-", -8), ("AC", -8)]), pairs(&scorer.analyze(&list)));
}

#[test]
fn pattern_counts() {
    let list: WordList<2> = catalog(&[("ab", 4), ("ba", 2), ("cc", 0), ("ac", 1)]);
    // AB against AB, BA, CC, AC: all correct; both in the wrong position;
    // both missing; A correct and B missing: four patterns.
    assert_eq!(4, PatternBasedAnalyzer::<2>::score_word("AB", &list));
    // CC against them: MM, MM, CC, MC: three patterns.
    assert_eq!(3, PatternBasedAnalyzer::<2>::score_word("CC", &list));
    assert_eq!(4, PatternBasedAnalyzer::<2>::score_word("BA", &list));
    assert_eq!(4, PatternBasedAnalyzer::<2>::score_word("AC", &list));
    assert_eq!(0, PatternBasedAnalyzer::<2>::score_word("AB", &WordList::empty()));
}

#[test]
fn pattern_scores_blend_in_the_frequency() {
    let list: WordList<2> = catalog(&[("ab", 4), ("ba", 2), ("cc", 0), ("ac", 1)]);
    // Highest count 4, highest frequency 4: ten times the count times four,
    // plus the frequency times four.
    let analyzer = PatternBasedAnalyzer::<2> { limit: 10 };
    assert_eq!(
        expect(&[("AB", 176), ("BA", 168), ("CC", 120), ("AC", 164)]),
        pairs(&analyzer.analyze(&list))
    );
    assert_eq!("Pattern (10)", analyzer.name());
    assert_eq!("Pattern (0)", PatternBasedAnalyzer::<2> { limit: 0 }.name());
    assert_eq!("Pattern (10000)", PatternBasedAnalyzer::<2> { limit: 10000 }.name());
}

#[test]
fn pattern_scores_stop_at_the_limit() {
    let list: WordList<2> = catalog(&[("ab", 1), ("ba", 2), ("cc", 9), ("ac", 1)]);
    // Only AB and BA are scored, against all four words. Highest count 4,
    // highest frequency 2 among the two.
    let analyzer = PatternBasedAnalyzer::<2> { limit: 2 };
    assert_eq!(expect(&[("AB", 84), ("BA", 88)]), pairs(&analyzer.analyze(&list)));
    assert!(PatternBasedAnalyzer::<2> { limit: 0 }.analyze(&list).is_empty());
}

#[test]
fn pattern_scores_with_all_frequencies_zero() {
    let list: WordList<2> = catalog(&[("ab", 0), ("cc", 0)]);
    let analyzer = PatternBasedAnalyzer::<2> { limit: 10 };
    assert_eq!(expect(&[("AB", 20), ("CC", 20)]), pairs(&analyzer.analyze(&list)));
}

#[test]
fn pattern_scores_of_long_words() {
    // Words of more than five letters take the other kind of pattern set.
    let list: WordList<6> = catalog(&[("abcdef", 1), ("fedcba", 1), ("abcdez", 1)]);
    assert_eq!(3, PatternBasedAnalyzer::<6>::score_word("ABCDEF", &list));
    assert_eq!(3, PatternBasedAnalyzer::<6>::score_word("FEDCBA", &list));
    // Q, W, X, Y, V and U are in none of the words: one pattern.
    assert_eq!(1, PatternBasedAnalyzer::<6>::score_word("QWXYVU", &list));
    // ABCDEZ and ABCDEF look the same to a guess without F and Z.
    assert_eq!(2, PatternBasedAnalyzer::<6>::score_word("AAAAAA", &list));
    let five: WordList<5> = catalog(&[("abcde", 1), ("edcba", 1), ("abcdz", 1)]);
    assert_eq!(3, PatternBasedAnalyzer::<5>::score_word("ABCDE", &five));
    assert_eq!(3, PatternBasedAnalyzer::<5>::score_word("EDCBA", &five));
    assert_eq!(1, PatternBasedAnalyzer::<5>::score_word("QWXYV", &five));
    assert_eq!(2, PatternBasedAnalyzer::<5>::score_word("AAAAA", &five));
}

#[test]
fn analyzers_of_an_empty_catalog() {
    let list: WordList<5> = WordList::empty();
    for analyzer in standard_suite::<5>() {
        assert!(analyzer.analyze(&list).is_empty());
    }
}

#[test]
fn standard_suite_names() {
    let names: Vec<String> = standard_suite::<5>().iter().map(|a| a.name()).collect();
    assert_eq!(
        vec![
            "Char Freqs",
            "Scored Chars (std)",
            "Scored Chars (2x-count freq)",
            "Most Common Words",
            "Char-Pos",
            "Pattern (10000)",
        ],
        names
    );
}

#[test]
fn analyzers_leave_the_catalog_as_it_is() {
    let list: WordList<2> = catalog(&[("ab", 4), ("ba", 2), ("cc", 0), ("ac", 1)]);
    for analyzer in standard_suite::<2>() {
        let scored = analyzer.analyze(&list);
        assert_eq!(4, scored.len());
        let words: Vec<&str> = scored.iter().map(|s| s.word).collect();
        assert_eq!(vec!["AB", "BA", "CC", "AC"], words);
        assert_eq!(4, list.len());
    }
}
