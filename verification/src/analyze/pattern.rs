//! The feedback that a guess would get for a given answer, and the scoring of
//! guesses by the number of different feedbacks they can get.

use vstd::prelude::*;
use vstd::string::StringExecFns;
use crate::analyze::util::NUM_CHARS;
use crate::analyze::util::count_letters;
use crate::analyze::util::is_ascii_letter;
use crate::analyze::util::is_letter;
use crate::analyze::util::lemma_counts_of_len;
use crate::analyze::util::lemma_counts_of_occurrences;
use crate::analyze::util::occurrences;
use crate::analyze::util::slot;
use crate::analyze::analyzer::Analyzer;
use crate::analyze::analyzer::ScoredWord;
use crate::analyze::util::decimal;
use crate::analyze::util::decimal_string;
use crate::analyze::util::to_chars;
use crate::word_list::MAX_WORDS;
use crate::word_list::WordList;
use crate::word_list::all_length;
use crate::bits::Bits;
use crate::guess::known_word_constraints::CharKnowledge;
use crate::word_list::WordFreq;

verus! {

/// Whether position `j` of the answer holds the letter of slot `k` and the
/// guess holds something else there.
pub open spec fn answer_open_at(guess: Seq<char>, answer: Seq<char>, k: int, j: int) -> bool {
    is_letter(answer[j]) && slot(answer[j]) == k && guess[j] != answer[j]
}

/// Whether position `j` of the guess holds the letter of slot `k` and the
/// answer holds something else there.
pub open spec fn guess_open_at(guess: Seq<char>, answer: Seq<char>, k: int, j: int) -> bool {
    is_letter(guess[j]) && slot(guess[j]) == k && guess[j] != answer[j]
}

/// Among the first `upto` positions: how many hold the letter of slot `k` in
/// the answer without the guess matching there.
pub open spec fn answer_open(guess: Seq<char>, answer: Seq<char>, k: int, upto: int) -> nat
    decreases upto,
{
    if upto <= 0 {
        0
    } else {
        answer_open(guess, answer, k, upto - 1) + if answer_open_at(guess, answer, k, upto - 1) {
            1nat
        } else {
            0nat
        }
    }
}

/// Among the first `upto` positions: how many hold the letter of slot `k` in
/// the guess without matching the answer there.
pub open spec fn guess_open(guess: Seq<char>, answer: Seq<char>, k: int, upto: int) -> nat
    decreases upto,
{
    if upto <= 0 {
        0
    } else {
        guess_open(guess, answer, k, upto - 1) + if guess_open_at(guess, answer, k, upto - 1) {
            1nat
        } else {
            0nat
        }
    }
}

/// The feedback on position `i` of `guess` when `answer` is the hidden word.
///
/// A letter that matches the answer at its position is `Correct`. Any other
/// letter is in the `WrongPosition` as long as the answer has an occurrence of
/// it left that no match and no earlier such letter of the guess has used up;
/// otherwise it is `Missing`. Letters count without regard to case, and a
/// character that is no letter is never in the wrong position.
pub open spec fn feedback_at(guess: Seq<char>, answer: Seq<char>, i: int) -> CharKnowledge {
    if guess[i] == answer[i] {
        CharKnowledge::Correct
    } else if is_letter(guess[i]) && guess_open(guess, answer, slot(guess[i]), i) < answer_open(
        guess,
        answer,
        slot(guess[i]),
        answer.len() as int,
    ) {
        CharKnowledge::WrongPosition
    } else {
        CharKnowledge::Missing
    }
}

/// The feedback on every position of `guess` when `answer` is the hidden
/// word.
pub open spec fn feedback(guess: Seq<char>, answer: Seq<char>) -> Seq<CharKnowledge> {
    Seq::new(guess.len(), |i: int| feedback_at(guess, answer, i))
}

/// A guess that is the answer gets `Correct` at every position.
pub proof fn lemma_feedback_of_answer(word: Seq<char>)
    ensures
        feedback(word, word).len() == word.len(),
        forall|i: int|
            0 <= i < word.len() ==> #[trigger] feedback(word, word)[i] == CharKnowledge::Correct,
{
}

/// Among the first `upto` positions: how many hold the letter of slot `k` in
/// the answer with the guess matching there.
pub open spec fn matched(guess: Seq<char>, answer: Seq<char>, k: int, upto: int) -> nat
    decreases upto,
{
    if upto <= 0 {
        0
    } else {
        matched(guess, answer, k, upto - 1) + if is_letter(answer[upto - 1]) && slot(
            answer[upto - 1],
        ) == k && guess[upto - 1] == answer[upto - 1] {
            1nat
        } else {
            0nat
        }
    }
}

/// Looking at more positions never finds fewer matches.
proof fn lemma_matched_grows(guess: Seq<char>, answer: Seq<char>, k: int, lo: int, hi: int)
    requires
        lo <= hi,
    ensures
        matched(guess, answer, k, lo) <= matched(guess, answer, k, hi),
    decreases hi - lo,
{
    if lo < hi {
        lemma_matched_grows(guess, answer, k, lo, hi - 1);
    }
}

/// Each occurrence of a letter in the answer is either matched by the guess or
/// left open.
proof fn lemma_occurrences_split(guess: Seq<char>, answer: Seq<char>, k: int, upto: int)
    requires
        0 <= upto <= answer.len(),
    ensures
        occurrences(answer.take(upto), k) == matched(guess, answer, k, upto) + answer_open(
            guess,
            answer,
            k,
            upto,
        ),
    decreases upto,
{
    if upto > 0 {
        lemma_occurrences_split(guess, answer, k, upto - 1);
        assert(answer.take(upto).drop_last() =~= answer.take(upto - 1));
        assert(answer.take(upto).last() == answer[upto - 1]);
    }
}

/// The feedback that `guess` gets when `answer` is the hidden word.
///
/// The work is done in two passes: the first marks the matches and takes each
/// of them off the count of letters that the answer has left; the second gives
/// each remaining letter of the guess one of the occurrences that are left,
/// while there are any.
pub fn feedback_for(guess: &Vec<char>, answer: &Vec<char>) -> (r: Vec<CharKnowledge>)
    requires
        guess@.len() == answer@.len(),
    ensures
        r@ == feedback(guess@, answer@),
{
    let n = guess.len();
    let mut left = count_letters(answer);
    let mut result: Vec<CharKnowledge> = Vec::new();
    proof {
        lemma_counts_of_len(answer@);
        assert forall|k: int| 0 <= k < NUM_CHARS implies left@[k] == occurrences(answer@, k) by {
            lemma_counts_of_occurrences(answer@, k);
        }
    }
    // First, all the ones in the right position.
    let mut i: usize = 0;
    while i < n
        invariant
            i <= n,
            n == guess@.len(),
            n == answer@.len(),
            result@.len() == i,
            left@.len() == NUM_CHARS,
            forall|j: int|
                0 <= j < i ==> #[trigger] result@[j] == if guess@[j] == answer@[j] {
                    CharKnowledge::Correct
                } else {
                    CharKnowledge::Missing
                },
            forall|k: int|
                0 <= k < NUM_CHARS ==> (#[trigger] left@[k]) + matched(guess@, answer@, k, i as int)
                    == occurrences(answer@, k),
        decreases n - i,
    {
        let guess_ch = guess[i];
        if guess_ch == answer[i] {
            proof {
                if is_letter(guess_ch) {
                    let k = slot(guess_ch);
                    lemma_occurrences_split(guess@, answer@, k, n as int);
                    assert(answer@.take(n as int) =~= answer@);
                    lemma_matched_grows(guess@, answer@, k, i + 1, n as int);
                }
            }
            result.push(CharKnowledge::Correct);
            left.decrement(guess_ch);
        } else {
            result.push(CharKnowledge::Missing);
        }
        i += 1;
    }
    proof {
        assert forall|k: int| 0 <= k < NUM_CHARS implies #[trigger] left@[k] == answer_open(
            guess@,
            answer@,
            k,
            n as int,
        ) by {
            lemma_occurrences_split(guess@, answer@, k, n as int);
            assert(answer@.take(n as int) =~= answer@);
        }
    }
    // Now all the ones in the wrong position.
    let mut i: usize = 0;
    while i < n
        invariant
            i <= n,
            n == guess@.len(),
            n == answer@.len(),
            result@.len() == n,
            left@.len() == NUM_CHARS,
            forall|j: int| 0 <= j < i ==> #[trigger] result@[j] == feedback_at(guess@, answer@, j),
            forall|j: int|
                i <= j < n ==> #[trigger] result@[j] == if guess@[j] == answer@[j] {
                    CharKnowledge::Correct
                } else {
                    CharKnowledge::Missing
                },
            forall|k: int|
                0 <= k < NUM_CHARS ==> #[trigger] left@[k] == if guess_open(
                    guess@,
                    answer@,
                    k,
                    i as int,
                ) <= answer_open(guess@, answer@, k, n as int) {
                    answer_open(guess@, answer@, k, n as int) - guess_open(
                        guess@,
                        answer@,
                        k,
                        i as int,
                    )
                } else {
                    0
                },
        decreases n - i,
    {
        let guess_ch = guess[i];
        if guess_ch != answer[i] && is_ascii_letter(guess_ch) {
            if left.get(guess_ch) > 0 {
                result[i] = CharKnowledge::WrongPosition;
                left.decrement(guess_ch);
            }
        }
        i += 1;
    }
    result
}

/// The feedback on every letter of one guess.
pub struct Pattern<const N: usize> {
    knowledge: Vec<CharKnowledge>,
}

impl<const N: usize> Pattern<N> {
    /// The feedback, position by position.
    pub closed spec fn view(&self) -> Seq<CharKnowledge> {
        self.knowledge@
    }

    /// The feedback, position by position.
    pub fn knowledge(&self) -> (r: &Vec<CharKnowledge>)
        ensures
            r@ == self@,
    {
        &self.knowledge
    }
}

/// Four to the power of `n`.
pub open spec fn pow4(n: nat) -> nat
    decreases n,
{
    if n == 0 {
        1
    } else {
        4 * pow4((n - 1) as nat)
    }
}

/// A pattern read as a number in base four, the first position being the
/// lowest digit and each feedback class standing for its place in the cycle
/// Unknown, WrongPosition, Correct, Missing.
pub open spec fn pattern_code(p: Seq<CharKnowledge>) -> nat
    decreases p.len(),
{
    if p.len() == 0 {
        0
    } else {
        pattern_code(p.drop_last()) + (p.last().spec_repr() as nat) * pow4((p.len() - 1) as nat)
    }
}

/// The code of a pattern of `n` positions is below four to the power of `n`.
pub proof fn lemma_code_bound(p: Seq<CharKnowledge>)
    ensures
        pattern_code(p) < pow4(p.len()),
    decreases p.len(),
{
    if p.len() > 0 {
        lemma_code_bound(p.drop_last());
        let b = pow4((p.len() - 1) as nat);
        let d = p.last().spec_repr() as nat;
        assert(d <= 3);
        assert(d * b <= 3 * b) by (nonlinear_arith)
            requires
                d <= 3,
        ;
    }
}

/// Powers of four grow with the exponent.
pub proof fn lemma_pow4_grows(a: nat, b: nat)
    requires
        a <= b,
    ensures
        1 <= pow4(a) <= pow4(b),
    decreases b,
{
    if a < b {
        lemma_pow4_grows(a, (b - 1) as nat);
    } else if a > 0 {
        lemma_pow4_grows((a - 1) as nat, (a - 1) as nat);
    }
}

/// Patterns of the same length with the same code are the same pattern.
pub proof fn lemma_code_injective(p: Seq<CharKnowledge>, q: Seq<CharKnowledge>)
    requires
        p.len() == q.len(),
        pattern_code(p) == pattern_code(q),
    ensures
        p == q,
    decreases p.len(),
{
    if p.len() == 0 {
        assert(p =~= q);
    } else {
        let b = pow4((p.len() - 1) as nat) as int;
        let dp = p.last().spec_repr();
        let dq = q.last().spec_repr();
        let cp = pattern_code(p.drop_last()) as int;
        let cq = pattern_code(q.drop_last()) as int;
        lemma_code_bound(p.drop_last());
        lemma_code_bound(q.drop_last());
        assert(dp == dq && cp == cq) by (nonlinear_arith)
            requires
                cp + dp * b == cq + dq * b,
                0 <= cp < b,
                0 <= cq < b,
                0 <= dp,
                0 <= dq,
        ;
        lemma_code_injective(p.drop_last(), q.drop_last());
        assert(p.last() == q.last());
        assert(p =~= p.drop_last().push(p.last()));
        assert(q =~= q.drop_last().push(q.last()));
    }
}

/// The patterns that `guess` gets for the first `upto` of `answers` as the
/// hidden word.
pub open spec fn patterns_seen(guess: Seq<char>, answers: Seq<WordFreq>, upto: int) -> Set<
    Seq<CharKnowledge>,
>
    decreases upto,
{
    if upto <= 0 {
        Set::empty()
    } else {
        patterns_seen(guess, answers, upto - 1).insert(feedback(guess, answers[upto - 1].word@))
    }
}

/// There are no more patterns than answers, and all have the length of the
/// guess.
pub proof fn lemma_patterns_seen(guess: Seq<char>, answers: Seq<WordFreq>, upto: int)
    requires
        0 <= upto,
    ensures
        patterns_seen(guess, answers, upto).finite(),
        patterns_seen(guess, answers, upto).len() <= upto,
        upto > 0 ==> patterns_seen(guess, answers, upto).len() >= 1,
        forall|p: Seq<CharKnowledge>| #[trigger]
            patterns_seen(guess, answers, upto).contains(p) ==> p.len() == guess.len(),
    decreases upto,
{
    if upto > 0 {
        lemma_patterns_seen(guess, answers, upto - 1);
    }
}

/// The number of different patterns that `guess` gets over all of `answers`
/// as the hidden word.
pub open spec fn pattern_count(guess: Seq<char>, answers: Seq<WordFreq>) -> nat {
    patterns_seen(guess, answers, answers.len() as int).len()
}

/// A set of patterns of `N` positions.
pub trait PatternSet<const N: usize>: Sized {
    /// Whether the set is in order.
    spec fn well_formed(&self) -> bool;

    /// The patterns in the set.
    spec fn seen(&self) -> Set<Seq<CharKnowledge>>;

    /// Whether sets of this kind can hold patterns of `N` positions.
    spec fn fits() -> bool;

    /// The empty set.
    fn new() -> (r: Self)
        requires
            Self::fits(),
        ensures
            r.well_formed(),
            r.seen() == Set::<Seq<CharKnowledge>>::empty(),
    ;

    /// Puts `pattern` into the set.
    fn add(&mut self, pattern: &Pattern<N>)
        requires
            old(self).well_formed(),
            pattern@.len() == N,
        ensures
            final(self).well_formed(),
            final(self).seen() == old(self).seen().insert(pattern@),
    ;

    /// The number of patterns in the set.
    fn size(&self) -> (r: usize)
        requires
            self.well_formed(),
        ensures
            self.seen().finite(),
            r == self.seen().len(),
    ;
}

/// The longest word whose patterns are kept in a bit vector: one bit for each
/// of the patterns that are possible at all.
pub const MAX_WORD_LEN_FOR_BITVEC: usize = 5;

/// A set of patterns that takes each pattern as a number and keeps one bit
/// per number.
///
/// A pattern has one of four feedback classes at each of its `N` positions,
/// so it is a number of `N` digits in base four: for `N = 5` there are 1024
/// of them.
pub struct BitBasedPatternSet<const N: usize> {
    patterns: Bits,
    count: usize,
}

impl<const N: usize> BitBasedPatternSet<N> {
    /// The number that stands for `pattern`.
    fn pattern_to_usize(pattern: &Pattern<N>) -> (r: usize)
        requires
            pattern@.len() == N,
            N <= MAX_WORD_LEN_FOR_BITVEC,
        ensures
            r == pattern_code(pattern@),
            r < pow4(N as nat),
    {
        let mut result: usize = 0;
        let mut position_factor: usize = 1;
        let mut position: usize = 0;
        proof {
            assert(pattern@.take(0) =~= Seq::<CharKnowledge>::empty());
        }
        while position < N
            invariant
                position <= N,
                N <= MAX_WORD_LEN_FOR_BITVEC,
                pattern@.len() == N,
                position_factor == pow4(position as nat),
                result == pattern_code(pattern@.take(position as int)),
                result < position_factor,
                position_factor <= 1024,
            decreases N - position,
        {
            let digit = pattern.knowledge[position].repr();
            proof {
                assert(pattern@.take(position + 1).drop_last() =~= pattern@.take(position as int));
                assert(pattern@.take(position + 1).last() == pattern@[position as int]);
                lemma_pow4_grows((position + 1) as nat, 5);
                reveal_with_fuel(pow4, 6);
                assert(pow4(5) == 1024);
                assert(digit * position_factor <= 3 * position_factor) by (nonlinear_arith)
                    requires
                        digit <= 3,
                ;
            }
            result += digit * position_factor;
            position_factor *= 4;
            position += 1;
        }
        proof {
            assert(pattern@.take(N as int) =~= pattern@);
        }
        result
    }

    /// Four to the power of `N`.
    fn capacity() -> (r: usize)
        requires
            N <= MAX_WORD_LEN_FOR_BITVEC,
        ensures
            r == pow4(N as nat),
            r <= 1024,
    {
        let mut r: usize = 1;
        let mut i: usize = 0;
        while i < N
            invariant
                i <= N,
                N <= MAX_WORD_LEN_FOR_BITVEC,
                r == pow4(i as nat),
                r <= 1024,
            decreases N - i,
        {
            proof {
                lemma_pow4_grows((i + 1) as nat, 5);
                reveal_with_fuel(pow4, 6);
                assert(pow4(5) == 1024);
            }
            r *= 4;
            i += 1;
        }
        r
    }
}

impl<const N: usize> PatternSet<N> for BitBasedPatternSet<N> {
    closed spec fn well_formed(&self) -> bool {
        &&& N <= MAX_WORD_LEN_FOR_BITVEC
        &&& self.patterns@.len() == pow4(N as nat)
        &&& self.seen().finite()
        &&& self.count == self.seen().len()
    }

    closed spec fn seen(&self) -> Set<Seq<CharKnowledge>> {
        Set::new(|p: Seq<CharKnowledge>| p.len() == N && self.patterns@[pattern_code(p) as int])
    }

    open spec fn fits() -> bool {
        N <= MAX_WORD_LEN_FOR_BITVEC
    }

    fn new() -> (r: Self) {
        let size = Self::capacity();
        let r = BitBasedPatternSet { patterns: crate::bits::repeat(false, size), count: 0 };
        proof {
            assert forall|p: Seq<CharKnowledge>| !r.seen().contains(p) by {
                if p.len() == N {
                    lemma_code_bound(p);
                }
            }
            assert(r.seen() =~= Set::<Seq<CharKnowledge>>::empty());
        }
        r
    }

    fn add(&mut self, pattern: &Pattern<N>) {
        let pattern_as_usize = Self::pattern_to_usize(pattern);
        let ghost before = self.seen();
        let ghost bits = self.patterns@;
        let was = crate::bits::replace(&mut self.patterns, pattern_as_usize, true);
        proof {
            assert forall|p: Seq<CharKnowledge>| self.seen().contains(p) <==> before.insert(
                pattern@,
            ).contains(p) by {
                if p.len() == N {
                    lemma_code_bound(p);
                    if pattern_code(p) == pattern_code(pattern@) {
                        lemma_code_injective(p, pattern@);
                    }
                }
            }
            assert(self.seen() =~= before.insert(pattern@));
            assert(was == before.contains(pattern@));
        }
        if !was {
            proof {
                let after = before.insert(pattern@);
                assert forall|p: Seq<CharKnowledge>| after.contains(p) implies p.len() == N by {
                    assert(self.seen().contains(p));
                }
                lemma_seen_bound(after, N as nat);
                lemma_pow4_grows(N as nat, 5);
                reveal_with_fuel(pow4, 6);
                assert(pow4(5) == 1024);
            }
            self.count += 1;
        }
    }

    fn size(&self) -> (r: usize) {
        self.count
    }
}

/// A set of patterns that keeps a list of the patterns it holds, each once.
/// It takes patterns of any length.
pub struct ListPatternSet<const N: usize> {
    patterns: Vec<Vec<CharKnowledge>>,
}

impl<const N: usize> ListPatternSet<N> {
    /// The patterns of the list, in the order in which they came.
    pub closed spec fn listed(&self) -> Seq<Seq<CharKnowledge>> {
        Seq::new(self.patterns@.len(), |i: int| self.patterns@[i]@)
    }

    /// Whether `a` and `b` are the same pattern.
    fn same(a: &Vec<CharKnowledge>, b: &Vec<CharKnowledge>) -> (r: bool)
        ensures
            r == (a@ == b@),
    {
        if a.len() != b.len() {
            return false;
        }
        let mut i: usize = 0;
        while i < a.len()
            invariant
                i <= a@.len(),
                a@.len() == b@.len(),
                forall|j: int| 0 <= j < i ==> a@[j] == b@[j],
            decreases a@.len() - i,
        {
            if a[i] != b[i] {
                return false;
            }
            i += 1;
        }
        assert(a@ =~= b@);
        true
    }

    /// A pattern of its own with the feedback of `a`.
    fn copy(a: &Vec<CharKnowledge>) -> (r: Vec<CharKnowledge>)
        ensures
            r@ == a@,
    {
        let mut r: Vec<CharKnowledge> = Vec::new();
        let mut i: usize = 0;
        while i < a.len()
            invariant
                i <= a@.len(),
                r@ == a@.take(i as int),
            decreases a@.len() - i,
        {
            r.push(a[i]);
            assert(r@ =~= a@.take(i + 1));
            i += 1;
        }
        assert(a@.take(i as int) =~= a@);
        r
    }
}

impl<const N: usize> PatternSet<N> for ListPatternSet<N> {
    closed spec fn well_formed(&self) -> bool {
        self.listed().no_duplicates()
    }

    closed spec fn seen(&self) -> Set<Seq<CharKnowledge>> {
        self.listed().to_set()
    }

    open spec fn fits() -> bool {
        true
    }

    fn new() -> (r: Self) {
        let r = ListPatternSet { patterns: Vec::new() };
        assert(r.seen() =~= Set::<Seq<CharKnowledge>>::empty());
        r
    }

    fn add(&mut self, pattern: &Pattern<N>) {
        let ghost before = self.listed();
        let mut i: usize = 0;
        while i < self.patterns.len()
            invariant
                i <= self.patterns@.len(),
                self.listed() == before,
                before.no_duplicates(),
                forall|j: int| 0 <= j < i ==> before[j] != pattern@,
            decreases self.patterns@.len() - i,
        {
            if Self::same(&self.patterns[i], &pattern.knowledge) {
                proof {
                    assert(before[i as int] == pattern@);
                    assert(before.to_set().insert(pattern@) =~= before.to_set());
                }
                return ;
            }
            i += 1;
        }
        self.patterns.push(Self::copy(&pattern.knowledge));
        proof {
            assert(self.listed() =~= before.push(pattern@));
            assert(before.push(pattern@).to_set() =~= before.to_set().insert(pattern@)) by {
                assert forall|p: Seq<CharKnowledge>| before.push(pattern@).to_set().contains(p)
                    <==> before.to_set().insert(pattern@).contains(p) by {
                    if before.push(pattern@).contains(p) {
                        let k = choose|k: int| 0 <= k < before.len() + 1 && before.push(pattern@)[k] == p;
                        if k < before.len() {
                            assert(before[k] == p);
                        }
                    }
                    if before.contains(p) {
                        let k = choose|k: int| 0 <= k < before.len() && before[k] == p;
                        assert(before.push(pattern@)[k] == p);
                    }
                    if p == pattern@ {
                        assert(before.push(pattern@)[before.len() as int] == p);
                    }
                }
            }
        }
    }

    fn size(&self) -> (r: usize) {
        proof {
            self.listed().unique_seq_to_set();
        }
        self.patterns.len()
    }
}

/// Scores a word as a guess by the number of different patterns of feedback
/// that it can get: the more patterns, the more the feedback will tell. The
/// frequency of the word counts too, but less.
pub struct PatternBasedAnalyzer<const N: usize> {
    /// How many words of the catalog get a score: the first `limit` of them.
    pub limit: usize,
}

impl<const N: usize> PatternBasedAnalyzer<N> {
    /// The feedback that `guess` gets when `answer` is the hidden word.
    pub fn pattern(guess: &str, answer: &str) -> (r: Pattern<N>)
        requires
            guess@.len() == N,
            answer@.len() == N,
        ensures
            r@ == feedback(guess@, answer@),
    {
        let guess_chars = to_chars(guess);
        let answer_chars = to_chars(answer);
        Pattern { knowledge: feedback_for(&guess_chars, &answer_chars) }
    }

    /// The number of different patterns that `word` gets over the words of
    /// `all_words` as the hidden word.
    pub fn score_word(word: &str, all_words: &WordList<N>) -> (r: usize)
        requires
            word@.len() == N,
        ensures
            r == pattern_count(word@, all_words@),
    {
        let answers = all_words.entries();
        let chars = to_chars(word);
        Self::score_word_in(&chars, &answers, Ghost(all_words@))
    }

    /// The number of different patterns that `word` gets over `answers`, counted
    /// with the kind of set that fits the length of the words.
    fn score_word_in(word: &Vec<char>, answers: &Vec<&WordFreq>, Ghost(words): Ghost<Seq<WordFreq>>) -> (r:
        usize)
        requires
            word@.len() == N,
            answers@.len() == words.len(),
            forall|i: int| 0 <= i < answers@.len() ==> *(#[trigger] answers@[i]) == words[i],
            all_length(words, N as nat),
        ensures
            r == pattern_count(word@, words),
    {
        if N <= MAX_WORD_LEN_FOR_BITVEC {
            Self::score_word_0::<BitBasedPatternSet<N>>(word, answers, Ghost(words))
        } else {
            Self::score_word_0::<ListPatternSet<N>>(word, answers, Ghost(words))
        }
    }

    /// The number of different patterns that `word` gets over `answers`, counted
    /// with a set of kind `P`.
    fn score_word_0<P: PatternSet<N>>(
        word: &Vec<char>,
        answers: &Vec<&WordFreq>,
        Ghost(words): Ghost<Seq<WordFreq>>,
    ) -> (r: usize)
        requires
            P::fits(),
            word@.len() == N,
            answers@.len() == words.len(),
            forall|i: int| 0 <= i < answers@.len() ==> *(#[trigger] answers@[i]) == words[i],
            all_length(words, N as nat),
        ensures
            r == pattern_count(word@, words),
    {
        let mut patterns = P::new();
        let mut i: usize = 0;
        while i < answers.len()
            invariant
                i <= answers@.len(),
                word@.len() == N,
                answers@.len() == words.len(),
                forall|k: int| 0 <= k < answers@.len() ==> *(#[trigger] answers@[k]) == words[k],
                all_length(words, N as nat),
                patterns.well_formed(),
                patterns.seen() == patterns_seen(word@, words, i as int),
            decreases answers@.len() - i,
        {
            let if_answer = to_chars(answers[i].word.as_str());
            proof {
                assert(words[i as int].word@.len() == N);
            }
            let pattern = Pattern::<N> { knowledge: feedback_for(word, &if_answer) };
            patterns.add(&pattern);
            i += 1;
        }
        patterns.size()
    }
}

/// The highest frequency among the first `upto` of `words`; zero when there
/// are none.
pub open spec fn top_freq(words: Seq<WordFreq>, upto: int) -> int
    decreases upto,
{
    if upto <= 0 {
        0
    } else if words[upto - 1].freq > top_freq(words, upto - 1) {
        words[upto - 1].freq as int
    } else {
        top_freq(words, upto - 1)
    }
}

/// The highest number of patterns that one of the first `upto` of `words`
/// gets as a guess; zero when there are none.
pub open spec fn top_count(words: Seq<WordFreq>, upto: int) -> int
    decreases upto,
{
    if upto <= 0 {
        0
    } else if pattern_count(words[upto - 1].word@, words) > top_count(words, upto - 1) {
        pattern_count(words[upto - 1].word@, words) as int
    } else {
        top_count(words, upto - 1)
    }
}

/// The score of the `i`-th word among the first `take` of `words`.
///
/// The number of patterns of the word and its frequency are each taken as a
/// share of the highest among the words that are scored, and the score is ten
/// times the first share plus the second. It is given as a multiple of one
/// over the product of the two highest values, which is the same for all the
/// words, so that it stays a whole number. Where every frequency is zero the
/// second share counts as zero.
pub open spec fn blended_score(words: Seq<WordFreq>, i: int, take: int) -> int {
    let weight = if top_freq(words, take) > 0 {
        top_freq(words, take)
    } else {
        1
    };
    10 * pattern_count(words[i].word@, words) * weight + words[i].freq * top_count(words, take)
}

/// How many words the analyzer scores: all of them, up to its limit.
pub open spec fn taken(limit: usize, words: Seq<WordFreq>) -> int {
    if limit <= words.len() {
        limit as int
    } else {
        words.len() as int
    }
}

impl<const N: usize> Analyzer<N> for PatternBasedAnalyzer<N> {
    open spec fn label(&self) -> Seq<char> {
        "Pattern ("@ + decimal(self.limit as nat) + ")"@
    }

    open spec fn yields(&self, words: Seq<WordFreq>, out: Seq<(Seq<char>, int)>) -> bool {
        &&& out.len() == taken(self.limit, words)
        &&& forall|i: int|
            0 <= i < out.len() ==> #[trigger] out[i] == (
                words[i].word@,
                blended_score(words, i, taken(self.limit, words)),
            )
    }

    fn name(&self) -> (r: String) {
        let mut r = String::from_str("Pattern (");
        let digits = decimal_string(self.limit);
        r.append(digits.as_str());
        r.append(")");
        r
    }

    fn analyze<'a>(&self, words_list: &'a WordList<N>) -> (r: Vec<ScoredWord<'a>>) {
        let entries = words_list.entries();
        let take = if self.limit <= entries.len() {
            self.limit
        } else {
            entries.len()
        };
        let ghost words = words_list@;
        let mut counts: Vec<usize> = Vec::new();
        let mut max_freq: u64 = 0;
        let mut max_count: usize = 0;
        let mut i: usize = 0;
        while i < take
            invariant
                i <= take,
                take <= entries@.len(),
                entries@.len() == words.len(),
                words.len() <= MAX_WORDS,
                forall|k: int| 0 <= k < entries@.len() ==> *(#[trigger] entries@[k]) == words[k],
                all_length(words, N as nat),
                counts@.len() == i,
                forall|k: int| 0 <= k < i ==> #[trigger] counts@[k] == pattern_count(words[k].word@, words),
                max_freq == top_freq(words, i as int),
                max_count == top_count(words, i as int),
                max_count <= words.len(),
            decreases take - i,
        {
            let entry: &'a WordFreq = entries[i];
            let chars = to_chars(entry.word.as_str());
            proof {
                assert(words[i as int].word@.len() == N);
                lemma_patterns_seen(words[i as int].word@, words, words.len() as int);
            }
            let count = Self::score_word_in(&chars, &entries, Ghost(words));
            if entry.freq > max_freq {
                max_freq = entry.freq;
            }
            if count > max_count {
                max_count = count;
            }
            counts.push(count);
            i += 1;
        }
        let weight: i128 = if max_freq > 0 {
            max_freq as i128
        } else {
            1
        };
        let mut out: Vec<ScoredWord<'a>> = Vec::new();
        let mut i: usize = 0;
        while i < take
            invariant
                i <= take,
                take == taken(self.limit, words),
                take <= entries@.len(),
                entries@.len() == words.len(),
                words.len() <= MAX_WORDS,
                forall|k: int| 0 <= k < entries@.len() ==> *(#[trigger] entries@[k]) == words[k],
                counts@.len() == take,
                forall|k: int|
                    0 <= k < take ==> #[trigger] counts@[k] == pattern_count(words[k].word@, words),
                max_freq == top_freq(words, take as int),
                max_count == top_count(words, take as int),
                max_count <= words.len(),
                weight == if top_freq(words, take as int) > 0 {
                    top_freq(words, take as int)
                } else {
                    1
                },
                out@.len() == i,
                forall|k: int|
                    0 <= k < i ==> (#[trigger] out@[k]).word@ == words[k].word@ && out@[k].score
                        == blended_score(words, k, take as int),
            decreases take - i,
        {
            let entry: &'a WordFreq = entries[i];
            let count = counts[i] as i128;
            let freq = entry.freq as i128;
            let most = max_count as i128;
            proof {
                lemma_patterns_seen(words[i as int].word@, words, words.len() as int);
                assert(0 <= count <= MAX_WORDS);
                assert(10 * count * weight <= 10 * MAX_WORDS * u64::MAX) by (nonlinear_arith)
                    requires
                        0 <= count <= MAX_WORDS,
                        1 <= weight <= u64::MAX,
                ;
                assert(0 <= 10 * count * weight) by (nonlinear_arith)
                    requires
                        0 <= count,
                        1 <= weight,
                ;
                assert(freq * most <= u64::MAX * MAX_WORDS) by (nonlinear_arith)
                    requires
                        0 <= freq <= u64::MAX,
                        0 <= most <= MAX_WORDS,
                ;
                assert(0 <= freq * most) by (nonlinear_arith)
                    requires
                        0 <= freq,
                        0 <= most,
                ;
            }
            let score = 10 * count * weight + freq * most;
            out.push(ScoredWord { word: entry.word.as_str(), score });
            i += 1;
        }
        out
    }
}

/// A finite set of patterns of `n` positions has no more members than there
/// are such patterns.
proof fn lemma_seen_bound(seen: Set<Seq<CharKnowledge>>, n: nat)
    requires
        seen.finite(),
        forall|p: Seq<CharKnowledge>| seen.contains(p) ==> p.len() == n,
    ensures
        seen.len() <= pow4(n),
{
    let codes = seen.map(|p: Seq<CharKnowledge>| pattern_code(p) as int);
    let all = Set::new(|c: int| 0 <= c < pow4(n) as int);
    assert forall|p: Seq<CharKnowledge>, q: Seq<CharKnowledge>|
        seen.contains(p) && seen.contains(q) && pattern_code(p) as int == pattern_code(q) as int implies p
        == q by {
        lemma_code_injective(p, q);
    }
    vstd::set_lib::lemma_map_size(seen, codes, |p: Seq<CharKnowledge>| pattern_code(p) as int);
    vstd::set_lib::lemma_int_range(0, pow4(n) as int);
    assert(all =~= vstd::set_lib::set_int_range(0, pow4(n) as int));
    assert forall|c: int| codes.contains(c) implies all.contains(c) by {
        let p = choose|p: Seq<CharKnowledge>| seen.contains(p) && pattern_code(p) as int == c;
        lemma_code_bound(p);
    }
    vstd::set_lib::lemma_len_subset(codes, all);
}

} // verus!
