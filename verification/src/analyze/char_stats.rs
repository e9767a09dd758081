//! How often each letter occurs among the words of a catalog.

use vstd::prelude::*;
use crate::analyze::util::CharsCount;
use crate::analyze::util::NUM_CHARS;
use crate::analyze::util::count_letters;
use crate::analyze::util::counts_of;
use crate::analyze::util::letter_of;
use crate::analyze::util::to_chars;
use crate::word_list::MAX_WORDS;
use crate::word_list::WordFreq;
use crate::word_list::WordList;
use crate::word_list::glued;

verus! {

/// The number of words among the first `upto` of `words` that hold the letter
/// of slot `k` at least once.
pub open spec fn words_with(words: Seq<WordFreq>, k: int, upto: int) -> nat
    decreases upto,
{
    if upto <= 0 {
        0
    } else {
        words_with(words, k, upto - 1) + if counts_of(words[upto - 1].word@)[k] > 0 {
            1nat
        } else {
            0nat
        }
    }
}

/// No more words hold a letter than there are words.
pub proof fn lemma_words_with_bound(words: Seq<WordFreq>, k: int, upto: int)
    requires
        0 <= upto,
    ensures
        words_with(words, k, upto) <= upto,
    decreases upto,
{
    if upto > 0 {
        lemma_words_with_bound(words, k, upto - 1);
    }
}

/// Letter statistics of a catalog of `N`-letter words.
pub struct CharCounts<const N: usize> {
    occurrence_by_char: CharsCount,
    word_count_by_char: CharsCount,
    words_count: usize,
}

impl<const N: usize> CharCounts<N> {
    /// By letter: how often it occurs in all the words together.
    pub closed spec fn occurrences(&self) -> Seq<usize> {
        self.occurrence_by_char@
    }

    /// By letter: how many words hold it.
    pub closed spec fn holders(&self) -> Seq<usize> {
        self.word_count_by_char@
    }

    /// The number of words.
    pub closed spec fn words(&self) -> nat {
        self.words_count as nat
    }

    /// Counts the letters of the words of `words_list`.
    pub fn new(words_list: &WordList<N>) -> (r: Self)
        ensures
            r.occurrences() == counts_of(glued(words_list@)),
            r.holders().len() == NUM_CHARS,
            forall|k: int|
                0 <= k < NUM_CHARS ==> #[trigger] r.holders()[k] == words_with(
                    words_list@,
                    k,
                    words_list@.len() as int,
                ),
            r.words() == words_list@.len(),
    {
        let entries = words_list.entries();
        let mut occurrence_by_char = CharsCount::new();
        let mut word_count_by_char = CharsCount::new();
        let mut words_count: usize = 0;
        let mut i: usize = 0;
        while i < entries.len()
            invariant
                i <= entries@.len(),
                entries@.len() == words_list@.len(),
                entries@.len() <= MAX_WORDS,
                forall|k: int| 0 <= k < entries@.len() ==> *(#[trigger] entries@[k]) == words_list@[k],
                words_count == i,
                occurrence_by_char@ == counts_of(glued(words_list@.take(i as int))),
                word_count_by_char@.len() == NUM_CHARS,
                forall|k: int|
                    0 <= k < NUM_CHARS ==> #[trigger] word_count_by_char@[k] == words_with(
                        words_list@,
                        k,
                        i as int,
                    ),
            decreases entries@.len() - i,
        {
            let chars = to_chars(entries[i].word.as_str());
            let ghost before = glued(words_list@.take(i as int));
            proof {
                assert(words_list@.take(i + 1).drop_last() =~= words_list@.take(i as int));
                assert(words_list@.take(i + 1).last() == words_list@[i as int]);
                assert(before + chars@.take(0) =~= before);
            }
            let mut j: usize = 0;
            while j < chars.len()
                invariant
                    j <= chars@.len(),
                    occurrence_by_char@ == counts_of(before + chars@.take(j as int)),
                decreases chars@.len() - j,
            {
                proof {
                    let longer = before + chars@.take(j + 1);
                    assert(longer.drop_last() =~= before + chars@.take(j as int));
                    assert(longer.last() == chars@[j as int]);
                }
                occurrence_by_char.increment(chars[j]);
                j += 1;
            }
            proof {
                assert(chars@.take(j as int) =~= chars@);
            }
            let marks = count_letters(&chars);
            let mut k: usize = 0;
            while k < NUM_CHARS
                invariant
                    k <= NUM_CHARS,
                    i < entries@.len(),
                    entries@.len() <= MAX_WORDS,
                    marks@ == counts_of(words_list@[i as int].word@),
                    word_count_by_char@.len() == NUM_CHARS,
                    forall|m: int|
                        0 <= m < k ==> #[trigger] word_count_by_char@[m] == words_with(
                            words_list@,
                            m,
                            i + 1,
                        ),
                    forall|m: int|
                        k <= m < NUM_CHARS ==> #[trigger] word_count_by_char@[m] == words_with(
                            words_list@,
                            m,
                            i as int,
                        ),
                decreases NUM_CHARS - k,
            {
                let c = letter_of(k);
                proof {
                    lemma_words_with_bound(words_list@, k as int, i as int);
                }
                if marks.get(c) > 0 {
                    word_count_by_char.increment(c);
                }
                k += 1;
            }
            words_count += 1;
            i += 1;
        }
        proof {
            assert(words_list@.take(i as int) =~= words_list@);
        }
        CharCounts { occurrence_by_char, word_count_by_char, words_count }
    }

    /// By letter: how often it occurs in all the words together.
    pub fn occurrence_by_char(&self) -> (r: &CharsCount)
        ensures
            r@ == self.occurrences(),
    {
        &self.occurrence_by_char
    }

    /// By letter: how many words hold it.
    pub fn word_count_by_char(&self) -> (r: &CharsCount)
        ensures
            r@ == self.holders(),
    {
        &self.word_count_by_char
    }

    /// The number of words.
    pub fn words_count(&self) -> (r: usize)
        ensures
            r == self.words(),
    {
        self.words_count
    }
}

} // verus!
