//! Scoring by how evenly each letter of a word, at its position, splits the
//! catalog three ways.

use vstd::prelude::*;
use vstd::string::StringExecFns;
use crate::analyze::analyzer::Analyzer;
use crate::analyze::analyzer::ScoredWord;
use crate::analyze::char_stats::CharCounts;
use crate::analyze::char_stats::words_with;
use crate::analyze::util::NUM_CHARS;
use crate::analyze::util::counts_of;
use crate::analyze::util::is_ascii_letter;
use crate::analyze::util::is_letter;
use crate::analyze::util::letter_at;
use crate::analyze::util::lemma_counts_of_len;
use crate::analyze::util::slot;
use crate::analyze::util::slot_of;
use crate::analyze::util::to_chars;
use crate::word_list::MAX_WORDS;
use crate::word_list::WordFreq;
use crate::word_list::WordList;
use crate::word_list::all_length;

verus! {

/// Among the first `upto` of `words`: how many have exactly `ch` at position
/// `idx`. With such a word as the answer, a guess of `ch` at `idx` would be
/// `Correct`.
pub open spec fn correct_at(words: Seq<WordFreq>, idx: int, ch: char, upto: int) -> nat
    decreases upto,
{
    if upto <= 0 {
        0
    } else {
        correct_at(words, idx, ch, upto - 1) + if words[upto - 1].word@[idx] == ch {
            1nat
        } else {
            0nat
        }
    }
}

/// Among the first `upto` of `words`: how many hold the letter `ch`, in
/// either case, but have another character at position `idx`. With such a
/// word as the answer, a guess of `ch` at `idx` would be in the
/// `WrongPosition`.
pub open spec fn elsewhere_at(words: Seq<WordFreq>, idx: int, ch: char, upto: int) -> nat
    decreases upto,
{
    if upto <= 0 {
        0
    } else {
        elsewhere_at(words, idx, ch, upto - 1) + if words[upto - 1].word@[idx] != ch && is_letter(
            ch,
        ) && counts_of(words[upto - 1].word@)[slot(ch)] > 0 {
            1nat
        } else {
            0nat
        }
    }
}

/// How close three counts are to being equal: zero when they are, and the
/// further below zero the further they are apart.
pub open spec fn closeness_to_equal(a: int, b: int, c: int) -> int {
    -(abs_diff(a, b) + abs_diff(b, c) + abs_diff(c, a))
}

/// The distance between `a` and `b`.
pub open spec fn abs_diff(a: int, b: int) -> int {
    if a >= b {
        a - b
    } else {
        b - a
    }
}

/// The score of the character `ch` at position `idx`: how close the words
/// come to splitting in three equal parts by the feedback that `ch` at `idx`
/// would get with each of them as the answer: in the wrong position, correct
/// or missing.
pub open spec fn position_score(words: Seq<WordFreq>, idx: int, ch: char) -> int {
    let n = words.len() as int;
    let correct = correct_at(words, idx, ch, n) as int;
    let elsewhere = elsewhere_at(words, idx, ch, n) as int;
    closeness_to_equal(elsewhere, correct, n - correct - elsewhere)
}

/// The sum of the scores of the first `upto` characters of `word`, each at its
/// position.
pub open spec fn positions_total(words: Seq<WordFreq>, word: Seq<char>, upto: int) -> int
    decreases upto,
{
    if upto <= 0 {
        0
    } else {
        positions_total(words, word, upto - 1) + position_score(words, upto - 1, word[upto - 1])
    }
}

/// A letter that stands in a word has been counted for it.
pub proof fn lemma_counted(word: Seq<char>, i: int)
    requires
        0 <= i < word.len(),
        word.len() <= usize::MAX,
        is_letter(word[i]),
    ensures
        counts_of(word)[slot(word[i])] > 0,
    decreases word.len(),
{
    lemma_counts_of_len(word.drop_last());
    if i < word.len() - 1 {
        lemma_counted(word.drop_last(), i);
        assert(word.drop_last()[i] == word[i]);
    }
}

/// Each word counts in at most one of the two ways, and the words that hold a
/// letter are those that have it at the position and those that have it
/// elsewhere.
pub proof fn lemma_three_way(words: Seq<WordFreq>, idx: int, ch: char, upto: int)
    requires
        0 <= upto <= words.len(),
        forall|i: int|
            0 <= i < words.len() ==> 0 <= idx < (#[trigger] words[i]).word@.len() <= usize::MAX,
    ensures
        correct_at(words, idx, ch, upto) + elsewhere_at(words, idx, ch, upto) <= upto,
        is_letter(ch) ==> correct_at(words, idx, ch, upto) + elsewhere_at(words, idx, ch, upto)
            == words_with(words, slot(ch), upto),
        !is_letter(ch) ==> elsewhere_at(words, idx, ch, upto) == 0,
    decreases upto,
{
    if upto > 0 {
        lemma_three_way(words, idx, ch, upto - 1);
        let word = words[upto - 1].word@;
        if word[idx] == ch && is_letter(ch) {
            lemma_counted(word, idx);
        }
    }
}

/// A score is never above zero, and never below minus twice the number of
/// words.
pub proof fn lemma_position_score_range(words: Seq<WordFreq>, idx: int, ch: char)
    requires
        forall|i: int|
            0 <= i < words.len() ==> 0 <= idx < (#[trigger] words[i]).word@.len() <= usize::MAX,
    ensures
        -2 * words.len() <= position_score(words, idx, ch) <= 0,
{
    lemma_three_way(words, idx, ch, words.len() as int);
}

/// Scores a word by how close each of its letters, at its position, comes to
/// splitting the catalog into three equal parts.
pub struct CharPositionScorer<const N: usize> {}

/// The score of the `i`-th word of `words`, as a multiple of one over the
/// number of letters of a word: the sum of the scores of its letters, each at
/// its position.
pub open spec fn positional_score(words: Seq<WordFreq>, i: int) -> int {
    positions_total(words, words[i].word@, words[i].word@.len() as int)
}

impl<const N: usize> CharPositionScorer<N> {
    /// By position and by upper-case letter: the number of words that have the
    /// letter at the position.
    fn tally(texts: &Vec<Vec<char>>, Ghost(words): Ghost<Seq<WordFreq>>) -> (r: Vec<Vec<usize>>)
        requires
            texts@.len() == words.len(),
            words.len() <= MAX_WORDS,
            forall|i: int| 0 <= i < texts@.len() ==> (#[trigger] texts@[i])@ == words[i].word@,
            all_length(words, N as nat),
        ensures
            r@.len() == N,
            forall|idx: int| 0 <= idx < N ==> (#[trigger] r@[idx])@.len() == NUM_CHARS,
            forall|idx: int, k: int|
                0 <= idx < N && 0 <= k < NUM_CHARS ==> #[trigger] r@[idx]@[k] == correct_at(
                    words,
                    idx,
                    letter_at(k),
                    words.len() as int,
                ),
    {
        let mut table: Vec<Vec<usize>> = Vec::new();
        let mut idx: usize = 0;
        while idx < N
            invariant
                idx <= N,
                texts@.len() == words.len(),
                words.len() <= MAX_WORDS,
                forall|i: int| 0 <= i < texts@.len() ==> (#[trigger] texts@[i])@ == words[i].word@,
                all_length(words, N as nat),
                table@.len() == idx,
                forall|p: int| 0 <= p < idx ==> (#[trigger] table@[p])@.len() == NUM_CHARS,
                forall|p: int, k: int|
                    0 <= p < idx && 0 <= k < NUM_CHARS ==> #[trigger] table@[p]@[k] == correct_at(
                        words,
                        p,
                        letter_at(k),
                        words.len() as int,
                    ),
            decreases N - idx,
        {
            let mut row: Vec<usize> = Vec::new();
            let mut k: usize = 0;
            while k < NUM_CHARS
                invariant
                    k <= NUM_CHARS,
                    row@.len() == k,
                    forall|m: int| 0 <= m < k ==> #[trigger] row@[m] == 0,
                decreases NUM_CHARS - k,
            {
                row.push(0);
                k += 1;
            }
            let mut i: usize = 0;
            while i < texts.len()
                invariant
                    i <= texts@.len(),
                    idx < N,
                    texts@.len() == words.len(),
                    words.len() <= MAX_WORDS,
                    forall|j: int| 0 <= j < texts@.len() ==> (#[trigger] texts@[j])@ == words[j].word@,
                    all_length(words, N as nat),
                    row@.len() == NUM_CHARS,
                    forall|m: int|
                        0 <= m < NUM_CHARS ==> #[trigger] row@[m] == correct_at(
                            words,
                            idx as int,
                            letter_at(m),
                            i as int,
                        ),
                    forall|m: int| 0 <= m < NUM_CHARS ==> (#[trigger] row@[m]) <= i,
                decreases texts@.len() - i,
            {
                proof {
                    assert(words[i as int].word@.len() == N);
                }
                let ch = texts[i][idx];
                if ch >= 'A' && ch <= 'Z' {
                    let k = slot_of(ch);
                    proof {
                        assert(letter_at(k as int) == ch);
                    }
                    let before = row[k];
                    row[k] = before + 1;
                }
                i += 1;
            }
            table.push(row);
            idx += 1;
        }
        table
    }

    /// The number of words that have exactly `ch` at position `idx`.
    fn count_at(texts: &Vec<Vec<char>>, idx: usize, ch: char, Ghost(words): Ghost<Seq<WordFreq>>) -> (r:
        usize)
        requires
            idx < N,
            texts@.len() == words.len(),
            forall|i: int| 0 <= i < texts@.len() ==> (#[trigger] texts@[i])@ == words[i].word@,
            all_length(words, N as nat),
        ensures
            r == correct_at(words, idx as int, ch, words.len() as int),
    {
        let mut r: usize = 0;
        let mut i: usize = 0;
        while i < texts.len()
            invariant
                i <= texts@.len(),
                idx < N,
                texts@.len() == words.len(),
                forall|j: int| 0 <= j < texts@.len() ==> (#[trigger] texts@[j])@ == words[j].word@,
                all_length(words, N as nat),
                r == correct_at(words, idx as int, ch, i as int),
                r <= i,
            decreases texts@.len() - i,
        {
            proof {
                assert(words[i as int].word@.len() == N);
            }
            if texts[i][idx] == ch {
                r += 1;
            }
            i += 1;
        }
        r
    }

    /// How close three counts are to being equal.
    fn closeness(a: i128, b: i128, c: i128) -> (r: i128)
        requires
            0 <= a <= MAX_WORDS,
            0 <= b <= MAX_WORDS,
            0 <= c <= MAX_WORDS,
        ensures
            r == closeness_to_equal(a as int, b as int, c as int),
    {
        let ab = if a >= b {
            a - b
        } else {
            b - a
        };
        let bc = if b >= c {
            b - c
        } else {
            c - b
        };
        let ca = if c >= a {
            c - a
        } else {
            a - c
        };
        -(ab + bc + ca)
    }
}

impl<const N: usize> Analyzer<N> for CharPositionScorer<N> {
    open spec fn label(&self) -> Seq<char> {
        "Char-Pos"@
    }

    open spec fn yields(&self, words: Seq<WordFreq>, out: Seq<(Seq<char>, int)>) -> bool {
        &&& out.len() == words.len()
        &&& forall|i: int|
            0 <= i < words.len() ==> #[trigger] out[i] == (words[i].word@, positional_score(words, i))
    }

    fn name(&self) -> (r: String) {
        String::from_str("Char-Pos")
    }

    fn analyze<'a>(&self, words_list: &'a WordList<N>) -> (r: Vec<ScoredWord<'a>>) {
        let entries = words_list.entries();
        let ghost words = words_list@;
        let n = entries.len();
        let mut texts: Vec<Vec<char>> = Vec::new();
        let mut i: usize = 0;
        while i < n
            invariant
                i <= n,
                n == entries@.len(),
                entries@.len() == words.len(),
                forall|k: int| 0 <= k < entries@.len() ==> *(#[trigger] entries@[k]) == words[k],
                texts@.len() == i,
                forall|k: int| 0 <= k < i ==> (#[trigger] texts@[k])@ == words[k].word@,
            decreases n - i,
        {
            texts.push(to_chars(entries[i].word.as_str()));
            i += 1;
        }
        let counts = CharCounts::new(words_list);
        let table = Self::tally(&texts, Ghost(words));
        let mut out: Vec<ScoredWord<'a>> = Vec::new();
        let mut i: usize = 0;
        while i < n
            invariant
                i <= n,
                n == entries@.len(),
                entries@.len() == words.len(),
                words.len() <= MAX_WORDS,
                forall|k: int| 0 <= k < entries@.len() ==> *(#[trigger] entries@[k]) == words[k],
                all_length(words, N as nat),
                texts@.len() == n,
                forall|k: int| 0 <= k < n ==> (#[trigger] texts@[k])@ == words[k].word@,
                counts.words() == words.len(),
                counts.holders().len() == NUM_CHARS,
                forall|k: int|
                    0 <= k < NUM_CHARS ==> #[trigger] counts.holders()[k] == words_with(
                        words,
                        k,
                        words.len() as int,
                    ),
                table@.len() == N,
                forall|idx: int| 0 <= idx < N ==> (#[trigger] table@[idx])@.len() == NUM_CHARS,
                forall|idx: int, k: int|
                    0 <= idx < N && 0 <= k < NUM_CHARS ==> #[trigger] table@[idx]@[k] == correct_at(
                        words,
                        idx,
                        letter_at(k),
                        words.len() as int,
                    ),
                out@.len() == i,
                forall|k: int|
                    0 <= k < i ==> (#[trigger] out@[k]).word@ == words[k].word@ && out@[k].score
                        == positional_score(words, k),
            decreases n - i,
        {
            let entry: &'a WordFreq = entries[i];
            let text = &texts[i];
            proof {
                assert(words[i as int].word@.len() == N);
                assert forall|j: int| 0 <= j < words.len() implies (#[trigger] words[j]).word@.len()
                    == N by {}
            }
            let mut sum: i128 = 0;
            let mut idx: usize = 0;
            while idx < N
                invariant
                    idx <= N,
                    i < n,
                    n == words.len(),
                    words.len() <= MAX_WORDS,
                    all_length(words, N as nat),
                    text@ == words[i as int].word@,
                    text@.len() == N,
                    texts@.len() == n,
                    forall|k: int| 0 <= k < n ==> (#[trigger] texts@[k])@ == words[k].word@,
                    counts.words() == words.len(),
                    counts.holders().len() == NUM_CHARS,
                    forall|k: int|
                        0 <= k < NUM_CHARS ==> #[trigger] counts.holders()[k] == words_with(
                            words,
                            k,
                            words.len() as int,
                        ),
                    table@.len() == N,
                    forall|p: int| 0 <= p < N ==> (#[trigger] table@[p])@.len() == NUM_CHARS,
                    forall|p: int, k: int|
                        0 <= p < N && 0 <= k < NUM_CHARS ==> #[trigger] table@[p]@[k] == correct_at(
                            words,
                            p,
                            letter_at(k),
                            words.len() as int,
                        ),
                    sum == positions_total(words, text@, idx as int),
                    -2 * MAX_WORDS * idx <= sum <= 0,
                decreases N - idx,
            {
                let ch = text[idx];
                proof {
                    assert forall|j: int| 0 <= j < words.len() implies 0 <= idx < (
                    #[trigger] words[j]).word@.len() <= usize::MAX by {}
                    lemma_three_way(words, idx as int, ch, words.len() as int);
                    lemma_position_score_range(words, idx as int, ch);
                }
                let correct = if ch >= 'A' && ch <= 'Z' {
                    let k = slot_of(ch);
                    proof {
                        assert(letter_at(k as int) == ch);
                    }
                    table[idx][k]
                } else {
                    Self::count_at(&texts, idx, ch, Ghost(words))
                };
                let elsewhere = if is_ascii_letter(ch) {
                    counts.word_count_by_char().get(ch) - correct
                } else {
                    0
                };
                let missing = n - correct - elsewhere;
                let part = Self::closeness(elsewhere as i128, correct as i128, missing as i128);
                proof {
                    assert(-2 * MAX_WORDS * (idx + 1) == -2 * MAX_WORDS * idx - 2 * MAX_WORDS)
                        by (nonlinear_arith);
                }
                sum = sum + part;
                idx += 1;
            }
            out.push(ScoredWord { word: entry.word.as_str(), score: sum });
            i += 1;
        }
        out
    }
}

} // verus!
