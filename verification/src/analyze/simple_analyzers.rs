//! The analyzers that need no more than counts and frequencies.

use vstd::prelude::*;
use vstd::string::StringExecFns;
use vstd::seq_lib::group_to_multiset_ensures;
use crate::analyze::analyzer::Analyzer;
use crate::analyze::analyzer::ScoredWord;
use crate::analyze::analyzer::outcome;
use crate::analyze::analyzer::lex_less;
use crate::analyze::analyzer::sort_ranked;
use crate::analyze::analyzer::lemma_map_multiset;
use crate::analyze::util::CharsCount;
use crate::analyze::util::NUM_CHARS;
use crate::analyze::util::count_letters;
use crate::analyze::util::counts_of;
use crate::analyze::util::letter_of;
use crate::analyze::util::to_chars;
use crate::word_list::WordFreq;
use crate::word_list::WordList;
use crate::word_list::glued;

verus! {

/// The sum of `totals` over the first `upto` slots whose mark is not zero.
pub open spec fn present_total(marks: Seq<usize>, totals: Seq<usize>, upto: int) -> int
    decreases upto,
{
    if upto <= 0 {
        0
    } else {
        present_total(marks, totals, upto - 1) + if marks[upto - 1] > 0 {
            totals[upto - 1] as int
        } else {
            0
        }
    }
}

/// The sum of `totals` over the letters that `marks` has counted at least
/// once.
pub fn sum_present(marks: &CharsCount, totals: &CharsCount) -> (r: i128)
    ensures
        r == present_total(marks@, totals@, NUM_CHARS as int),
        0 <= r <= NUM_CHARS * usize::MAX,
{
    let mut sum: i128 = 0;
    let mut k: usize = 0;
    while k < NUM_CHARS
        invariant
            k <= NUM_CHARS,
            sum == present_total(marks@, totals@, k as int),
            0 <= sum <= k * usize::MAX,
        decreases NUM_CHARS - k,
    {
        let c = letter_of(k);
        if marks.get(c) > 0 {
            sum = sum + totals.get(c) as i128;
        }
        k += 1;
    }
    sum
}

/// The letter-frequency score of the `i`-th word of `words`: for each letter
/// that the word has, counted once, the number of times that the letter
/// occurs in all the words together.
pub open spec fn letter_frequency_score(words: Seq<WordFreq>, i: int) -> int {
    present_total(counts_of(words[i].word@), counts_of(glued(words)), NUM_CHARS as int)
}

/// Scores a word by how common its letters are among the words that are left.
pub struct CharFrequencies {}

impl<const N: usize> Analyzer<N> for CharFrequencies {
    open spec fn label(&self) -> Seq<char> {
        "Char Freqs"@
    }

    open spec fn yields(&self, words: Seq<WordFreq>, out: Seq<(Seq<char>, int)>) -> bool {
        &&& out.len() == words.len()
        &&& forall|i: int|
            0 <= i < words.len() ==> #[trigger] out[i] == (
                words[i].word@,
                letter_frequency_score(words, i),
            )
    }

    fn name(&self) -> (r: String) {
        String::from_str("Char Freqs")
    }

    fn analyze<'a>(&self, words_list: &'a WordList<N>) -> (r: Vec<ScoredWord<'a>>) {
        let all = words_list.all_chars();
        let totals = count_letters(&all);
        let entries = words_list.entries();
        let mut out: Vec<ScoredWord<'a>> = Vec::new();
        let mut i: usize = 0;
        while i < entries.len()
            invariant
                i <= entries@.len(),
                entries@.len() == words_list@.len(),
                forall|k: int| 0 <= k < entries@.len() ==> *(#[trigger] entries@[k]) == words_list@[k],
                totals@ == counts_of(glued(words_list@)),
                out@.len() == i,
                forall|k: int|
                    0 <= k < i ==> (#[trigger] out@[k]).word@ == words_list@[k].word@
                        && out@[k].score == letter_frequency_score(words_list@, k),
            decreases entries@.len() - i,
        {
            let entry: &'a WordFreq = entries[i];
            let chars = to_chars(entry.word.as_str());
            let marks = count_letters(&chars);
            let score = sum_present(&marks, &totals);
            out.push(ScoredWord { word: entry.word.as_str(), score });
            i += 1;
        }
        out
    }
}

/// The words of `out`, in order.
pub open spec fn texts_of(out: Seq<(Seq<char>, int)>) -> Seq<Seq<char>> {
    Seq::new(out.len(), |i: int| out[i].0)
}

/// The words of `words`, in order.
pub open spec fn words_of(words: Seq<WordFreq>) -> Seq<Seq<char>> {
    Seq::new(words.len(), |i: int| words[i].word@)
}

/// Lists the words in dictionary order and scores each by its place in the
/// list, so that the last of the list ranks first.
pub struct AlphabeticalOrder {
    /// Whether the words rank from A to Z: the list then runs from Z to A, so
    /// that the highest score goes to the first word of the dictionary.
    pub ascending: bool,
}

impl<const N: usize> Analyzer<N> for AlphabeticalOrder {
    open spec fn label(&self) -> Seq<char> {
        if self.ascending {
            "Alphabetical  ︎↓"@
        } else {
            "Alphabetical ↑"@
        }
    }

    /// The list holds the words of the catalog, each as often as the catalog
    /// has it; it runs against dictionary order where `ascending` and in
    /// dictionary order otherwise; and the score of each word is its place in
    /// the list, counted from zero.
    open spec fn yields(&self, words: Seq<WordFreq>, out: Seq<(Seq<char>, int)>) -> bool {
        &&& out.len() == words.len()
        &&& texts_of(out).to_multiset() == words_of(words).to_multiset()
        &&& forall|i: int| 0 <= i < out.len() ==> (#[trigger] out[i]).1 == i
        &&& forall|i: int, j: int|
            #![trigger out[i], out[j]]
            0 <= i < j < out.len() ==> if self.ascending {
                !lex_less(out[i].0, out[j].0)
            } else {
                !lex_less(out[j].0, out[i].0)
            }
    }

    fn name(&self) -> (r: String) {
        if self.ascending {
            String::from_str("Alphabetical  ︎↓")
        } else {
            String::from_str("Alphabetical ↑")
        }
    }

    fn analyze<'a>(&self, words_list: &'a WordList<N>) -> (r: Vec<ScoredWord<'a>>) {
        broadcast use group_to_multiset_ensures;

        let entries = words_list.entries();
        let n = entries.len();
        let mut words: Vec<ScoredWord<'a>> = Vec::new();
        let mut i: usize = 0;
        while i < n
            invariant
                i <= n,
                n == entries@.len(),
                entries@.len() == words_list@.len(),
                forall|k: int| 0 <= k < entries@.len() ==> *(#[trigger] entries@[k]) == words_list@[k],
                words@.len() == i,
                forall|k: int|
                    0 <= k < i ==> (#[trigger] words@[k]).word@ == words_list@[k].word@
                        && words@[k].score == 0,
            decreases n - i,
        {
            let entry: &'a WordFreq = entries[i];
            words.push(ScoredWord { word: entry.word.as_str(), score: 0 });
            i += 1;
        }
        let ghost unsorted = words@;
        sort_ranked(&mut words);
        let ghost sorted = words@;
        let ghost text = |w: ScoredWord<'a>| w.word@;
        proof {
            lemma_map_multiset(sorted, unsorted, text);
            assert(unsorted.map_values(text) =~= words_of(words_list@));
            assert forall|k: int| 0 <= k < n implies (#[trigger] sorted[k]).score == 0
                && sorted[k].word@.len() == N by {
                assert(sorted.contains(sorted[k]));
                assert(unsorted.to_multiset().count(sorted[k]) > 0);
                assert(unsorted.contains(sorted[k]));
                let m = choose|m: int| 0 <= m < unsorted.len() && unsorted[m] == sorted[k];
                assert(unsorted[m].word@ == words_list@[m].word@);
            }
        }
        let mut out: Vec<ScoredWord<'a>> = Vec::new();
        let mut i: usize = 0;
        while i < n
            invariant
                i <= n,
                n == sorted.len(),
                words@ == sorted,
                out@.len() == i,
                forall|k: int|
                    0 <= k < i ==> (#[trigger] out@[k]).score == k && out@[k].word@ == sorted[if self.ascending {
                        n - 1 - k
                    } else {
                        k
                    }].word@,
            decreases n - i,
        {
            let from = if self.ascending {
                n - 1 - i
            } else {
                i
            };
            out.push(ScoredWord { word: words[from].word, score: i as i128 });
            i += 1;
        }
        proof {
            let result = outcome(out@);
            let texts = texts_of(result);
            let sorted_texts = sorted.map_values(text);
            if self.ascending {
                assert(texts =~= sorted_texts.reverse());
                sorted_texts.lemma_reverse_to_multiset();
            } else {
                assert(texts =~= sorted_texts);
            }
            assert forall|a: int, b: int|
                #![trigger result[a], result[b]]
                0 <= a < b < result.len() implies if self.ascending {
                !lex_less(result[a].0, result[b].0)
            } else {
                !lex_less(result[b].0, result[a].0)
            } by {
                if self.ascending {
                    let x = sorted[n - 1 - a];
                    let y = sorted[n - 1 - b];
                    assert(!x.before(&y));
                } else {
                    let x = sorted[a];
                    let y = sorted[b];
                    assert(!y.before(&x));
                }
            }
        }
        out
    }
}

/// Scores a word by its frequency in the corpus.
pub struct WordFrequencies {}

impl<const N: usize> Analyzer<N> for WordFrequencies {
    open spec fn label(&self) -> Seq<char> {
        "Most Common Words"@
    }

    open spec fn yields(&self, words: Seq<WordFreq>, out: Seq<(Seq<char>, int)>) -> bool {
        &&& out.len() == words.len()
        &&& forall|i: int|
            0 <= i < words.len() ==> #[trigger] out[i] == (words[i].word@, words[i].freq as int)
    }

    fn name(&self) -> (r: String) {
        String::from_str("Most Common Words")
    }

    fn analyze<'a>(&self, words_list: &'a WordList<N>) -> (r: Vec<ScoredWord<'a>>) {
        let entries = words_list.entries();
        let mut out: Vec<ScoredWord<'a>> = Vec::new();
        let mut i: usize = 0;
        while i < entries.len()
            invariant
                i <= entries@.len(),
                entries@.len() == words_list@.len(),
                forall|k: int| 0 <= k < entries@.len() ==> *(#[trigger] entries@[k]) == words_list@[k],
                out@.len() == i,
                forall|k: int|
                    0 <= k < i ==> (#[trigger] out@[k]).word@ == words_list@[k].word@
                        && out@[k].score == words_list@[k].freq,
            decreases entries@.len() - i,
        {
            let entry: &'a WordFreq = entries[i];
            out.push(ScoredWord { word: entry.word.as_str(), score: entry.freq as i128 });
            i += 1;
        }
        out
    }
}

} // verus!
