//! Playing the game without a player: an analyzer picks the guesses, and the
//! feedback comes from the answer.

use vstd::prelude::*;
use vstd::string::StringExecFns;
use vstd::string::StrSliceExecFns;
use crate::analyze::analyzer::Analyzer;
use vstd::seq_lib::group_to_multiset_ensures;
use crate::analyze::analyzer::lemma_lex_trichotomy;
use crate::analyze::analyzer::outcome;
use crate::analyze::analyzer::ranks_before;
use crate::analyze::analyzer::sort_ranked;
use crate::analyze::suite::Strategy;
use crate::word_list::WordFreq;
use crate::word_list::WordList;
use crate::word_list::possible;
use crate::guess::guesses::GuessGrid;
use crate::guess::known_word_constraints::KnowledgeView;
use crate::guess::known_word_constraints::KnownWordConstraints;
use crate::guess::known_word_constraints::lemma_blank_rows_add_nothing;
use crate::guess::known_word_constraints::lemma_empty_admits_all;
use crate::word_list::lemma_possible_all;
use crate::analyze::pattern::feedback;
use crate::analyze::pattern::feedback_for;
use crate::analyze::util::is_letter;
use crate::analyze::util::to_chars;
use crate::analyze::util::to_upper;
use crate::analyze::util::upper;
use crate::guess::guesses::GuessChar;
use crate::guess::guesses::GuessStr;
use crate::guess::known_word_constraints::CharKnowledge;
use crate::word_list::upper_word;

verus! {

/// What stands in cell `i` of a row after `guess` is entered into it with the
/// feedback that `answer` gives: the letter of the guess, in upper case, with
/// its feedback; a character that is no letter leaves the cell empty. Guess
/// and answer are compared without regard to case.
pub open spec fn entry_cell(guess: Seq<char>, answer: Seq<char>, i: int) -> (
    Option<char>,
    CharKnowledge,
) {
    if is_letter(guess[i]) {
        (Some(upper(guess[i])), feedback(upper_word(guess), upper_word(answer))[i])
    } else {
        (None, CharKnowledge::Unknown)
    }
}

/// Whether `row` is what entering `guess` with the feedback of `answer` gives.
pub open spec fn is_entry(row: Seq<GuessChar>, guess: Seq<char>, answer: Seq<char>) -> bool {
    &&& row.len() == guess.len()
    &&& forall|i: int|
        0 <= i < row.len() ==> (#[trigger] row[i]).spec_ch() == entry_cell(guess, answer, i).0
            && row[i].spec_knowledge() == entry_cell(guess, answer, i).1
}

/// The characters of `word`, each folded to upper case.
pub fn upper_chars(word: &str) -> (r: Vec<char>)
    ensures
        r@ == upper_word(word@),
{
    let chars = to_chars(word);
    let mut r: Vec<char> = Vec::new();
    let mut i: usize = 0;
    while i < chars.len()
        invariant
            i <= chars@.len(),
            chars@ == word@,
            r@ == upper_word(word@.take(i as int)),
        decreases chars@.len() - i,
    {
        r.push(to_upper(chars[i]));
        assert(r@ =~= upper_word(word@.take(i + 1)));
        i += 1;
    }
    assert(word@.take(i as int) =~= word@);
    r
}

/// Writes `guess` into the row `output`, with the feedback that it gets when
/// `answer` is the hidden word. What the row held before is overwritten.
pub fn enter_guess<const N: usize>(guess: &str, output: &mut GuessStr<N>, answer: &str)
    requires
        guess@.len() == N,
        answer@.len() == N,
    ensures
        is_entry(final(output)@, guess@, answer@),
{
    let guess_chars = upper_chars(guess);
    let answer_chars = upper_chars(answer);
    let marks = feedback_for(&guess_chars, &answer_chars);
    let width = output.guesses().len();
    let mut idx: usize = 0;
    while idx < N
        invariant
            idx <= N,
            width == N,
            guess@.len() == N,
            answer@.len() == N,
            output@.len() == N,
            guess_chars@ == upper_word(guess@),
            marks@ == feedback(upper_word(guess@), upper_word(answer@)),
            forall|i: int|
                0 <= i < idx ==> (#[trigger] output@[i]).spec_ch() == entry_cell(guess@, answer@, i).0
                    && output@[i].spec_knowledge() == entry_cell(guess@, answer@, i).1,
        decreases N - idx,
    {
        let guess_ch = output.guess_mut(idx);
        guess_ch.unset_ch();
        if guess_ch.set_ch(guess_chars[idx]) {
            guess_ch.set_knowledge(marks[idx]);
        }
        idx += 1;
    }
}

/// Whether entry `i` of `out` ranks first: no entry ranks before it.
pub open spec fn ranks_first(out: Seq<(Seq<char>, int)>, i: int) -> bool {
    &&& 0 <= i < out.len()
    &&& forall|j: int|
        0 <= j < out.len() ==> !ranks_before((#[trigger] out[j]).1, out[j].0, out[i].1, out[i].0)
}

/// Whether `guess` is a word that `analyzer` ranks first among `words`.
pub open spec fn picks<const N: usize>(
    analyzer: Strategy<N>,
    words: Seq<WordFreq>,
    guess: Seq<char>,
) -> bool {
    exists|out: Seq<(Seq<char>, int)>, i: int|
        analyzer.yields(words, out) && #[trigger] ranks_first(out, i) && out[i].0 == guess
}

/// Whether `analyzer` has no word to offer among `words`.
pub open spec fn passes<const N: usize>(analyzer: Strategy<N>, words: Seq<WordFreq>) -> bool {
    analyzer.yields(words, Seq::empty())
}

/// The word that `analyzer` ranks first among the words of `words`, if it
/// scores any.
pub fn best_guess<'a, const N: usize>(analyzer: &Strategy<N>, words: &'a WordList<N>) -> (r: Option<
    &'a str,
>)
    ensures
        r is None ==> passes(*analyzer, words@),
        r matches Some(guess) ==> picks(*analyzer, words@, guess@) && guess@.len() == N,
{
    broadcast use group_to_multiset_ensures;

    let mut scores = analyzer.analyze(words);
    let ghost unsorted = scores@;
    let ghost out = outcome(unsorted);
    if scores.len() == 0 {
        assert(out =~= Seq::empty());
        return None;
    }
    sort_ranked(&mut scores);
    let best = scores[0];
    proof {
        let sorted = scores@;
        assert(sorted.contains(best)) by {
            assert(sorted[0] == best);
        }
        assert(unsorted.to_multiset().count(best) > 0);
        assert(unsorted.contains(best));
        let i = choose|i: int| 0 <= i < unsorted.len() && unsorted[i] == best;
        assert forall|j: int| 0 <= j < out.len() implies !ranks_before(
            (#[trigger] out[j]).1,
            out[j].0,
            out[i].1,
            out[i].0,
        ) by {
            let other = unsorted[j];
            assert(unsorted.contains(other));
            assert(sorted.to_multiset().count(other) > 0);
            assert(sorted.contains(other));
            let m = choose|m: int| 0 <= m < sorted.len() && sorted[m] == other;
            if m == 0 {
                lemma_lex_trichotomy(best.word@, best.word@);
            } else {
                assert(!sorted[m].before(&sorted[0]));
            }
        }
        assert(ranks_first(out, i));
        assert(out[i].0 == best.word@);
    }
    Some(best.word)
}

/// How a game ended.
#[derive(Clone, Copy, PartialEq, Eq, Structural, Debug)]
pub enum GuessResult {
    /// The answer was guessed.
    Success,
    /// The rows ran out, or no word was left to guess.
    Failure,
}

impl GuessResult {
    /// The result in a word.
    pub open spec fn text(&self) -> Seq<char> {
        match self {
            GuessResult::Success => "Success"@,
            GuessResult::Failure => "Failure"@,
        }
    }

    /// The result in a word, for display.
    pub fn to_text(&self) -> (r: String)
        ensures
            r@ == self.text(),
    {
        match self {
            GuessResult::Success => String::from_str("Success"),
            GuessResult::Failure => String::from_str("Failure"),
        }
    }
}

/// The words that are left for guess number `g` (counting from zero) of a
/// game that starts with the catalog `words` and whose earlier guesses stand,
/// with their feedback, in `rows`: before each guess the words that were left
/// before are filtered by what the rows so far say.
pub open spec fn narrowed(words: Seq<WordFreq>, rows: Seq<Seq<GuessChar>>, g: int, n: nat) -> Seq<
    WordFreq,
>
    decreases g,
{
    if g <= 0 {
        possible(words, KnowledgeView::of_rows(rows.take(0), n))
    } else {
        possible(narrowed(words, rows, g - 1, n), KnowledgeView::of_rows(rows.take(g), n))
    }
}

/// Whether row `g` of `rows` is a turn of the game that `analyzer` plays
/// against `answer` from the catalog `words`: the row holds a word that the
/// analyzer ranks first among the words that are left, with the feedback that
/// the answer gives to it; and `hit` says whether that word is the answer.
pub open spec fn turn<const N: usize>(
    analyzer: Strategy<N>,
    words: Seq<WordFreq>,
    answer: Seq<char>,
    rows: Seq<Seq<GuessChar>>,
    g: int,
    hit: bool,
) -> bool {
    exists|guess: Seq<char>| #[trigger]
        picks(analyzer, narrowed(words, rows, g, N as nat), guess) && is_entry(
            rows[g],
            guess,
            answer,
        ) && hit == (guess == upper_word(answer))
}

/// Whether `rows` and `result` are a game that `analyzer` plays against
/// `answer` from the catalog `words` with at most `limit` guesses.
///
/// Every row is a turn. No turn but the last hits the answer, and the game is
/// a success exactly if the last one does. A game that fails on fewer rows
/// than the limit has stopped because the analyzer had no word to offer.
pub open spec fn game<const N: usize>(
    analyzer: Strategy<N>,
    words: Seq<WordFreq>,
    answer: Seq<char>,
    limit: nat,
    rows: Seq<Seq<GuessChar>>,
    result: GuessResult,
) -> bool {
    &&& rows.len() <= limit
    &&& forall|g: int| 0 <= g < rows.len() - 1 ==> #[trigger] turn(analyzer, words, answer, rows, g, false)
    &&& rows.len() > 0 ==> turn(
        analyzer,
        words,
        answer,
        rows,
        rows.len() - 1,
        result == GuessResult::Success,
    )
    &&& result == GuessResult::Success ==> rows.len() > 0
    &&& result == GuessResult::Failure && rows.len() < limit ==> passes(
        analyzer,
        narrowed(words, rows, rows.len() as int, N as nat),
    )
}

/// The rows of `rows`, each as its cells.
pub open spec fn cells_of<const N: usize>(rows: Seq<GuessStr<N>>) -> Seq<Seq<GuessChar>> {
    Seq::new(rows.len(), |k: int| rows[k]@)
}

/// What one analyzer made of one answer.
pub struct AnalyzerGuessResult<const N: usize> {
    pub name: String,
    pub result: GuessResult,
    pub guesses: Vec<GuessStr<N>>,
}

/// What each analyzer made of one answer.
pub struct ResultsByWord<const N: usize> {
    pub answer: String,
    pub analyzer_results: Vec<AnalyzerGuessResult<N>>,
}

/// A set of games to play: each analyzer against each answer, with words of
/// `N` letters and at most `R` guesses.
pub struct AutoGuesser<const N: usize, const R: usize> {
    pub answer_words: Vec<String>,
    pub words_list: WordList<N>,
    pub analyzers: Vec<Strategy<N>>,
}

/// Whether `a` and `b` hold the same characters.
fn same_text(a: &Vec<char>, b: &Vec<char>) -> (r: bool)
    ensures
        r == (a@ == b@),
{
    if a.len() != b.len() {
        return false;
    }
    let mut i: usize = 0;
    while i < a.len()
        invariant
            i <= a@.len(),
            a@.len() == b@.len(),
            forall|j: int| 0 <= j < i ==> a@[j] == b@[j],
        decreases a@.len() - i,
    {
        if a[i] != b[i] {
            return false;
        }
        i += 1;
    }
    assert(a@ =~= b@);
    true
}

/// The narrowing of the catalog depends on the rows before the guess only.
proof fn lemma_narrowed_prefix(
    words: Seq<WordFreq>,
    rows: Seq<Seq<GuessChar>>,
    more: Seq<Seq<GuessChar>>,
    g: int,
    n: nat,
)
    requires
        0 <= g <= rows.len(),
        rows.len() <= more.len(),
        forall|k: int| 0 <= k < g ==> rows[k] == more[k],
    ensures
        narrowed(words, rows, g, n) == narrowed(words, more, g, n),
    decreases g,
{
    assert(rows.take(g) =~= more.take(g));
    if g > 0 {
        lemma_narrowed_prefix(words, rows, more, g - 1, n);
    } else {
        assert(rows.take(0) =~= more.take(0));
    }
}

impl<const N: usize, const R: usize> AutoGuesser<N, R> {
    /// Plays one game: `analyzer` against `answer`, starting from the words of
    /// `words_list`. Returns how the game ended and the rows that were
    /// played.
    pub fn guess_one(words_list: &WordList<N>, answer: &str, analyzer: &Strategy<N>) -> (r: (
        GuessResult,
        Vec<GuessStr<N>>,
    ))
        requires
            answer@.len() == N,
        ensures
            game(*analyzer, words_list@, answer@, R as nat, cells_of(r.1@), r.0),
    {
        let mut grid = GuessGrid::<N, R>::new();
        let mut possible_words = words_list.filter_preview(&KnownWordConstraints::empty());
        let answer_upper = upper_chars(answer);
        let ghost words = words_list@;
        proof {
            assert forall|i: int| 0 <= i < words.len() implies KnowledgeView::empty(N as nat).admits(
                (#[trigger] words[i]).word@,
            ) by {
                lemma_empty_admits_all(N as nat, words[i].word@);
            }
            lemma_possible_all(words, KnowledgeView::empty(N as nat));
        }
        let mut guess_num: usize = 0;
        while guess_num < R
            invariant
                guess_num <= R,
                answer@.len() == N,
                answer_upper@ == upper_word(answer@),
                words == words_list@,
                grid@.len() == R,
                forall|k: int, i: int|
                    guess_num <= k < R && 0 <= i < grid@[k].len() ==> (#[trigger] grid@[k][i]).spec_knowledge()
                        == CharKnowledge::Unknown,
                possible_words@ == if guess_num == 0 {
                    words
                } else {
                    narrowed(words, grid@, guess_num - 1, N as nat)
                },
                forall|g: int|
                    0 <= g < guess_num ==> #[trigger] turn(*analyzer, words, answer@, grid@, g, false),
            decreases R - guess_num,
        {
            let ghost before = grid@;
            let known = KnownWordConstraints::from_grid(&grid);
            possible_words.filter(&known);
            proof {
                let rows = before.take(guess_num as int);
                let blanks = before.skip(guess_num as int);
                assert(rows + blanks =~= before);
                assert forall|k: int, i: int| 0 <= k < blanks.len() && 0 <= i < blanks[k].len() implies (
                #[trigger] blanks[k][i]).spec_knowledge() == CharKnowledge::Unknown by {
                    assert(blanks[k] == before[guess_num + k]);
                }
                lemma_blank_rows_add_nothing(rows, blanks, N as nat);
                assert(possible_words@ == narrowed(words, before, guess_num as int, N as nat));
            }
            let best_guess = match best_guess(analyzer, &possible_words) {
                Some(best_guess) => best_guess,
                None => {
                    let mut rows = grid.into_rows();
                    rows.truncate(guess_num);
                    proof {
                        let played = cells_of(rows@);
                        assert(played =~= before.take(guess_num as int));
                        lemma_narrowed_prefix(words, played, before, guess_num as int, N as nat);
                        assert forall|g: int| 0 <= g < played.len() implies #[trigger] turn(
                            *analyzer,
                            words,
                            answer@,
                            played,
                            g,
                            false,
                        ) by {
                            lemma_turn_prefix(*analyzer, words, answer@, played, before, g, false);
                        }
                        if played.len() > 0 {
                            assert(turn(*analyzer, words, answer@, played, played.len() - 1, false));
                        }
                    }
                    return (GuessResult::Failure, rows);
                },
            };
            let row = grid.guess_mut(guess_num);
            enter_guess(best_guess, row, answer);
            let hit = same_text(&to_chars(best_guess), &answer_upper);
            proof {
                let after = grid@;
                assert(after =~= before.update(guess_num as int, after[guess_num as int]));
                lemma_narrowed_prefix(words, before, after, guess_num as int, N as nat);
                assert(picks(*analyzer, narrowed(words, after, guess_num as int, N as nat), best_guess@));
                assert(turn(*analyzer, words, answer@, after, guess_num as int, hit));
                assert forall|g: int| 0 <= g < guess_num implies #[trigger] turn(
                    *analyzer,
                    words,
                    answer@,
                    after,
                    g,
                    false,
                ) by {
                    lemma_turn_update(*analyzer, words, answer@, before, after, g, false);
                }
            }
            if hit {
                let mut rows = grid.into_rows();
                rows.truncate(guess_num + 1);
                proof {
                    let after = grid@;
                    let played = cells_of(rows@);
                    assert(played =~= after.take(guess_num + 1));
                    assert forall|g: int| 0 <= g < played.len() - 1 implies #[trigger] turn(
                        *analyzer,
                        words,
                        answer@,
                        played,
                        g,
                        false,
                    ) by {
                        lemma_turn_prefix(*analyzer, words, answer@, played, after, g, false);
                    }
                    lemma_turn_prefix(*analyzer, words, answer@, played, after, guess_num as int, true);
                }
                return (GuessResult::Success, rows);
            }
            guess_num += 1;
        }
        let rows = grid.into_rows();
        proof {
            let played = cells_of(rows@);
            assert(played =~= grid@);
        }
        (GuessResult::Failure, rows)
    }
}

/// The answers of `answers` that have `n` characters, in order.
pub open spec fn playable(answers: Seq<String>, n: nat) -> Seq<String>
    decreases answers.len(),
{
    if answers.len() == 0 {
        Seq::empty()
    } else if answers.last()@.len() == n {
        playable(answers.drop_last(), n).push(answers.last())
    } else {
        playable(answers.drop_last(), n)
    }
}

/// Whether `results` is what the analyzers `analyzers` made of `answer`,
/// starting from the catalog `words`, with at most `limit` guesses: one
/// result for each analyzer, in order, under its name, each a game that the
/// analyzer played against the answer.
pub open spec fn played_all<const N: usize>(
    analyzers: Seq<Strategy<N>>,
    words: Seq<WordFreq>,
    answer: Seq<char>,
    limit: nat,
    results: Seq<AnalyzerGuessResult<N>>,
) -> bool {
    &&& results.len() == analyzers.len()
    &&& forall|a: int|
        0 <= a < results.len() ==> (#[trigger] results[a]).name@ == analyzers[a].label() && game(
            analyzers[a],
            words,
            answer,
            limit,
            cells_of(results[a].guesses@),
            results[a].result,
        )
}

impl<const N: usize, const R: usize> AutoGuesser<N, R> {
    /// Plays every analyzer against every answer that has `N` letters. The
    /// results come answer by answer, in the order of the answers, and
    /// analyzer by analyzer within each.
    pub fn guess_all(self) -> (r: Vec<ResultsByWord<N>>)
        ensures
            r@.len() == playable(self.answer_words@, N as nat).len(),
            forall|j: int|
                0 <= j < r@.len() ==> (#[trigger] r@[j]).answer == playable(
                    self.answer_words@,
                    N as nat,
                )[j] && played_all(
                    self.analyzers@,
                    self.words_list@,
                    r@[j].answer@,
                    R as nat,
                    r@[j].analyzer_results@,
                ),
    {
        let mut all_results: Vec<ResultsByWord<N>> = Vec::new();
        let mut i: usize = 0;
        while i < self.answer_words.len()
            invariant
                i <= self.answer_words@.len(),
                all_results@.len() == playable(self.answer_words@.take(i as int), N as nat).len(),
                forall|j: int|
                    0 <= j < all_results@.len() ==> (#[trigger] all_results@[j]).answer == playable(
                        self.answer_words@.take(i as int),
                        N as nat,
                    )[j] && played_all(
                        self.analyzers@,
                        self.words_list@,
                        all_results@[j].answer@,
                        R as nat,
                        all_results@[j].analyzer_results@,
                    ),
            decreases self.answer_words@.len() - i,
        {
            let answer = self.answer_words[i].clone();
            proof {
                let longer = self.answer_words@.take(i + 1);
                assert(longer.drop_last() =~= self.answer_words@.take(i as int));
                assert(longer.last() == self.answer_words@[i as int]);
            }
            if answer.as_str().unicode_len() == N {
                let mut results_by_analyzer: Vec<AnalyzerGuessResult<N>> = Vec::new();
                let mut a: usize = 0;
                while a < self.analyzers.len()
                    invariant
                        a <= self.analyzers@.len(),
                        answer@.len() == N,
                        results_by_analyzer@.len() == a,
                        forall|b: int|
                            0 <= b < a ==> (#[trigger] results_by_analyzer@[b]).name@
                                == self.analyzers@[b].label() && game(
                                self.analyzers@[b],
                                self.words_list@,
                                answer@,
                                R as nat,
                                cells_of(results_by_analyzer@[b].guesses@),
                                results_by_analyzer@[b].result,
                            ),
                    decreases self.analyzers@.len() - a,
                {
                    let analyzer = &self.analyzers[a];
                    let (result, guesses) = Self::guess_one(
                        &self.words_list,
                        answer.as_str(),
                        analyzer,
                    );
                    results_by_analyzer.push(
                        AnalyzerGuessResult { name: analyzer.name(), result, guesses },
                    );
                    a += 1;
                }
                all_results.push(ResultsByWord { answer, analyzer_results: results_by_analyzer });
            }
            i += 1;
        }
        proof {
            assert(self.answer_words@.take(i as int) =~= self.answer_words@);
        }
        all_results
    }
}

/// A turn depends on the rows up to and including its own only.
proof fn lemma_turn_prefix<const N: usize>(
    analyzer: Strategy<N>,
    words: Seq<WordFreq>,
    answer: Seq<char>,
    rows: Seq<Seq<GuessChar>>,
    more: Seq<Seq<GuessChar>>,
    g: int,
    hit: bool,
)
    requires
        0 <= g < rows.len(),
        rows.len() <= more.len(),
        forall|k: int| 0 <= k < rows.len() ==> rows[k] == more[k],
        turn(analyzer, words, answer, more, g, hit),
    ensures
        turn(analyzer, words, answer, rows, g, hit),
{
    lemma_narrowed_prefix(words, rows, more, g, N as nat);
    let guess = choose|guess: Seq<char>| #[trigger]
        picks(analyzer, narrowed(words, more, g, N as nat), guess) && is_entry(
            more[g],
            guess,
            answer,
        ) && hit == (guess == upper_word(answer));
    assert(picks(analyzer, narrowed(words, rows, g, N as nat), guess));
}

/// A turn stays a turn when rows after it change.
proof fn lemma_turn_update<const N: usize>(
    analyzer: Strategy<N>,
    words: Seq<WordFreq>,
    answer: Seq<char>,
    rows: Seq<Seq<GuessChar>>,
    changed: Seq<Seq<GuessChar>>,
    g: int,
    hit: bool,
)
    requires
        0 <= g < rows.len(),
        rows.len() == changed.len(),
        forall|k: int| 0 <= k <= g ==> rows[k] == changed[k],
        turn(analyzer, words, answer, rows, g, hit),
    ensures
        turn(analyzer, words, answer, changed, g, hit),
{
    lemma_narrowed_prefix(words, rows, changed, g, N as nat);
    let guess = choose|guess: Seq<char>| #[trigger]
        picks(analyzer, narrowed(words, rows, g, N as nat), guess) && is_entry(
            rows[g],
            guess,
            answer,
        ) && hit == (guess == upper_word(answer));
    assert(picks(analyzer, narrowed(words, changed, g, N as nat), guess));
}

} // verus!
