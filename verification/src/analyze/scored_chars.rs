//! Scoring by how evenly the letters of a word split the catalog.

use vstd::prelude::*;
use vstd::string::StringExecFns;
use crate::analyze::analyzer::Analyzer;
use crate::analyze::analyzer::ScoredWord;
use crate::analyze::char_stats::CharCounts;
use crate::analyze::char_stats::words_with;
use crate::analyze::char_stats::lemma_words_with_bound;
use crate::analyze::util::CharsCount;
use crate::analyze::util::NUM_CHARS;
use crate::analyze::util::count_letters;
use crate::analyze::util::counts_of;
use crate::analyze::util::letter_of;
use crate::analyze::util::to_chars;
use crate::word_list::MAX_WORDS;
use crate::word_list::WordFreq;
use crate::word_list::WordList;

verus! {

/// The score of a letter that `holders` of `words` words hold, as a multiple
/// of one over twice the number of words: one minus the distance of the
/// letter's share of the words from a half. It is highest for a letter that
/// half of the words hold.
pub open spec fn char_score(holders: int, words: int) -> int {
    if words >= 2 * holders {
        2 * words - (words - 2 * holders)
    } else {
        2 * words - (2 * holders - words)
    }
}

/// The score of a letter is at most a full point (twice the number of words,
/// in its unit) and at least half a point, and it is a full point for a letter
/// that exactly half of the words hold.
pub proof fn lemma_char_score_peak(holders: int, words: int)
    requires
        0 <= holders <= words,
    ensures
        words <= char_score(holders, words) <= 2 * words,
        2 * holders == words ==> char_score(holders, words) == 2 * words,
        char_score(holders, words) == 2 * words ==> 2 * holders == words,
{
}

/// The sum of the scores of the letters among the first `upto` slots that
/// `marks` has counted at least once.
pub open spec fn present_score(marks: Seq<usize>, words: Seq<WordFreq>, upto: int) -> int
    decreases upto,
{
    if upto <= 0 {
        0
    } else {
        present_score(marks, words, upto - 1) + if marks[upto - 1] > 0 {
            char_score(words_with(words, upto - 1, words.len() as int) as int, words.len() as int)
        } else {
            0
        }
    }
}

/// The score of the `i`-th word of `words`, as a multiple of one over twice
/// the number of words: the sum of the scores of its letters, each letter
/// counted once; times the frequency of the word if `weighted`.
pub open spec fn bisection_score(words: Seq<WordFreq>, i: int, weighted: bool) -> int {
    let plain = present_score(counts_of(words[i].word@), words, NUM_CHARS as int);
    if weighted {
        plain * words[i].freq
    } else {
        plain
    }
}

/// Scores a word by how close each of its letters comes to splitting the
/// catalog in half.
pub struct CharScorer<const N: usize> {
    /// Whether the score of a word is weighted by the frequency of the word.
    ///
    /// How well a letter splits the catalog depends on how common the letter
    /// is, so the weight counts frequency twice and moves the ranking towards
    /// that of the most common words. It is best left off.
    pub double_count_freq: bool,
}

impl<const N: usize> CharScorer<N> {
    /// The sum of the scores of the letters that `marks` has counted at least once.
    fn word_score(marks: &CharsCount, counts: &CharCounts<N>, Ghost(words): Ghost<Seq<WordFreq>>) -> (r:
        i128)
        requires
            words.len() <= MAX_WORDS,
            counts.words() == words.len(),
            counts.holders().len() == NUM_CHARS,
            forall|k: int|
                0 <= k < NUM_CHARS ==> #[trigger] counts.holders()[k] == words_with(
                    words,
                    k,
                    words.len() as int,
                ),
        ensures
            r == present_score(marks@, words, NUM_CHARS as int),
            0 <= r <= 2 * NUM_CHARS * MAX_WORDS,
    {
        let n = counts.words_count() as i128;
        let mut sum: i128 = 0;
        let mut k: usize = 0;
        while k < NUM_CHARS
            invariant
                k <= NUM_CHARS,
                n == words.len(),
                n <= MAX_WORDS,
                counts.holders().len() == NUM_CHARS,
                forall|m: int|
                    0 <= m < NUM_CHARS ==> #[trigger] counts.holders()[m] == words_with(
                        words,
                        m,
                        words.len() as int,
                    ),
                sum == present_score(marks@, words, k as int),
                0 <= sum <= 2 * k * MAX_WORDS,
            decreases NUM_CHARS - k,
        {
            let c = letter_of(k);
            if marks.get(c) > 0 {
                let holders = counts.word_count_by_char().get(c) as i128;
                proof {
                    lemma_words_with_bound(words, k as int, words.len() as int);
                    lemma_char_score_peak(holders as int, n as int);
                }
                let part = if n >= 2 * holders {
                    2 * n - (n - 2 * holders)
                } else {
                    2 * n - (2 * holders - n)
                };
                sum = sum + part;
            }
            k += 1;
        }
        sum
    }
}

impl<const N: usize> Analyzer<N> for CharScorer<N> {
    open spec fn label(&self) -> Seq<char> {
        if self.double_count_freq {
            "Scored Chars (2x-count freq)"@
        } else {
            "Scored Chars (std)"@
        }
    }

    open spec fn yields(&self, words: Seq<WordFreq>, out: Seq<(Seq<char>, int)>) -> bool {
        &&& out.len() == words.len()
        &&& forall|i: int|
            0 <= i < words.len() ==> #[trigger] out[i] == (
                words[i].word@,
                bisection_score(words, i, self.double_count_freq),
            )
    }

    fn name(&self) -> (r: String) {
        if self.double_count_freq {
            String::from_str("Scored Chars (2x-count freq)")
        } else {
            String::from_str("Scored Chars (std)")
        }
    }

    fn analyze<'a>(&self, words_list: &'a WordList<N>) -> (r: Vec<ScoredWord<'a>>) {
        let char_counts = CharCounts::new(words_list);
        let entries = words_list.entries();
        let mut out: Vec<ScoredWord<'a>> = Vec::new();
        let mut i: usize = 0;
        while i < entries.len()
            invariant
                i <= entries@.len(),
                entries@.len() == words_list@.len(),
                entries@.len() <= MAX_WORDS,
                forall|k: int| 0 <= k < entries@.len() ==> *(#[trigger] entries@[k]) == words_list@[k],
                char_counts.words() == words_list@.len(),
                char_counts.holders().len() == NUM_CHARS,
                forall|k: int|
                    0 <= k < NUM_CHARS ==> #[trigger] char_counts.holders()[k] == words_with(
                        words_list@,
                        k,
                        words_list@.len() as int,
                    ),
                out@.len() == i,
                forall|k: int|
                    0 <= k < i ==> (#[trigger] out@[k]).word@ == words_list@[k].word@
                        && out@[k].score == bisection_score(
                        words_list@,
                        k,
                        self.double_count_freq,
                    ),
            decreases entries@.len() - i,
        {
            let entry: &'a WordFreq = entries[i];
            let chars = to_chars(entry.word.as_str());
            let marks = count_letters(&chars);
            let mut score = Self::word_score(&marks, &char_counts, Ghost(words_list@));
            if self.double_count_freq {
                proof {
                    assert(score * entry.freq <= 2 * NUM_CHARS * MAX_WORDS * u64::MAX)
                        by (nonlinear_arith)
                        requires
                            0 <= score <= 2 * NUM_CHARS * MAX_WORDS,
                            0 <= entry.freq <= u64::MAX,
                    ;
                    assert(0 <= score * entry.freq) by (nonlinear_arith)
                        requires
                            0 <= score,
                            0 <= entry.freq,
                    ;
                }
                score = score * (entry.freq as i128);
            }
            out.push(ScoredWord { word: entry.word.as_str(), score });
            i += 1;
        }
        out
    }
}

} // verus!
