//! The analyzers that are offered together.

use vstd::prelude::*;
use crate::analyze::analyzer::Analyzer;
use crate::analyze::analyzer::ScoredWord;
use crate::analyze::pattern::PatternBasedAnalyzer;
use crate::analyze::position_chars::CharPositionScorer;
use crate::analyze::scored_chars::CharScorer;
use crate::analyze::simple_analyzers::AlphabeticalOrder;
use crate::analyze::simple_analyzers::CharFrequencies;
use crate::analyze::simple_analyzers::WordFrequencies;
use crate::word_list::WordFreq;
use crate::word_list::WordList;

verus! {

/// One of the analyzers of this library.
pub enum Strategy<const N: usize> {
    CharFrequencies(CharFrequencies),
    CharScorer(CharScorer<N>),
    WordFrequencies(WordFrequencies),
    CharPositionScorer(CharPositionScorer<N>),
    Pattern(PatternBasedAnalyzer<N>),
    AlphabeticalOrder(AlphabeticalOrder),
}

impl<const N: usize> Analyzer<N> for Strategy<N> {
    open spec fn label(&self) -> Seq<char> {
        match self {
            Strategy::CharFrequencies(a) => Analyzer::<N>::label(a),
            Strategy::CharScorer(a) => a.label(),
            Strategy::WordFrequencies(a) => Analyzer::<N>::label(a),
            Strategy::CharPositionScorer(a) => a.label(),
            Strategy::Pattern(a) => a.label(),
            Strategy::AlphabeticalOrder(a) => Analyzer::<N>::label(a),
        }
    }

    open spec fn yields(&self, words: Seq<WordFreq>, out: Seq<(Seq<char>, int)>) -> bool {
        match self {
            Strategy::CharFrequencies(a) => Analyzer::<N>::yields(a, words, out),
            Strategy::CharScorer(a) => a.yields(words, out),
            Strategy::WordFrequencies(a) => Analyzer::<N>::yields(a, words, out),
            Strategy::CharPositionScorer(a) => a.yields(words, out),
            Strategy::Pattern(a) => a.yields(words, out),
            Strategy::AlphabeticalOrder(a) => Analyzer::<N>::yields(a, words, out),
        }
    }

    fn name(&self) -> (r: String) {
        match self {
            Strategy::CharFrequencies(a) => Analyzer::<N>::name(a),
            Strategy::CharScorer(a) => a.name(),
            Strategy::WordFrequencies(a) => Analyzer::<N>::name(a),
            Strategy::CharPositionScorer(a) => a.name(),
            Strategy::Pattern(a) => a.name(),
            Strategy::AlphabeticalOrder(a) => Analyzer::<N>::name(a),
        }
    }

    fn analyze<'a>(&self, words_list: &'a WordList<N>) -> (r: Vec<ScoredWord<'a>>) {
        match self {
            Strategy::CharFrequencies(a) => a.analyze(words_list),
            Strategy::CharScorer(a) => a.analyze(words_list),
            Strategy::WordFrequencies(a) => a.analyze(words_list),
            Strategy::CharPositionScorer(a) => a.analyze(words_list),
            Strategy::Pattern(a) => a.analyze(words_list),
            Strategy::AlphabeticalOrder(a) => a.analyze(words_list),
        }
    }
}


/// The analyzers that are offered together, in the order in which they are
/// shown: letter frequencies, the letter scorer without and with the weight
/// of the word, word frequencies, the positional scorer, and the pattern
/// scorer over the first 10000 words.
pub fn standard_suite<const N: usize>() -> (r: Vec<Strategy<N>>)
    ensures
        r@ == seq![
            Strategy::<N>::CharFrequencies(CharFrequencies {  }),
            Strategy::<N>::CharScorer(CharScorer::<N> { double_count_freq: false }),
            Strategy::<N>::CharScorer(CharScorer::<N> { double_count_freq: true }),
            Strategy::<N>::WordFrequencies(WordFrequencies {  }),
            Strategy::<N>::CharPositionScorer(CharPositionScorer::<N> {  }),
            Strategy::<N>::Pattern(PatternBasedAnalyzer::<N> { limit: 10000 }),
        ],
{
    let mut r: Vec<Strategy<N>> = Vec::new();
    r.push(Strategy::CharFrequencies(CharFrequencies {  }));
    r.push(Strategy::CharScorer(CharScorer::<N> { double_count_freq: false }));
    r.push(Strategy::CharScorer(CharScorer::<N> { double_count_freq: true }));
    r.push(Strategy::WordFrequencies(WordFrequencies {  }));
    r.push(Strategy::CharPositionScorer(CharPositionScorer::<N> {  }));
    r.push(Strategy::Pattern(PatternBasedAnalyzer::<N> { limit: 10000 }));
    assert(r@ =~= seq![
        Strategy::<N>::CharFrequencies(CharFrequencies {  }),
        Strategy::<N>::CharScorer(CharScorer::<N> { double_count_freq: false }),
        Strategy::<N>::CharScorer(CharScorer::<N> { double_count_freq: true }),
        Strategy::<N>::WordFrequencies(WordFrequencies {  }),
        Strategy::<N>::CharPositionScorer(CharPositionScorer::<N> {  }),
        Strategy::<N>::Pattern(PatternBasedAnalyzer::<N> { limit: 10000 }),
    ]);
    r
}

} // verus!
