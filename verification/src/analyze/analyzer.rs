//! Scored words, the order in which they rank, and the analyzers that score
//! the words of a catalog.

use vstd::prelude::*;
use vstd::string::StrSliceExecFns;
use core::cmp::Ordering;
use vstd::std_specs::cmp::PartialEqSpecImpl;
use vstd::std_specs::cmp::PartialOrdSpecImpl;
use vstd::seq_lib::lemma_multiset_commutative;
use vstd::seq_lib::group_to_multiset_ensures;
use crate::word_list::WordFreq;
use crate::word_list::WordList;

verus! {

/// Whether `a` stands before `b` in dictionary order: character by character,
/// by code point, a proper prefix before its extensions.
pub open spec fn lex_less(a: Seq<char>, b: Seq<char>) -> bool
    decreases a.len(),
{
    if b.len() == 0 {
        false
    } else if a.len() == 0 {
        true
    } else if a[0] != b[0] {
        a[0] < b[0]
    } else {
        lex_less(a.drop_first(), b.drop_first())
    }
}

/// Of two words, one stands before the other in dictionary order or they are
/// the same, and only one of the three.
pub proof fn lemma_lex_trichotomy(a: Seq<char>, b: Seq<char>)
    ensures
        lex_less(a, b) || lex_less(b, a) || a == b,
        !(lex_less(a, b) && lex_less(b, a)),
        !(lex_less(a, b) && a == b),
    decreases a.len(),
{
    if a.len() == 0 || b.len() == 0 {
        if a.len() == 0 && b.len() == 0 {
            assert(a =~= b);
        }
    } else if a[0] == b[0] {
        lemma_lex_trichotomy(a.drop_first(), b.drop_first());
        if a.drop_first() == b.drop_first() {
            assert(a =~= seq![a[0]] + a.drop_first());
            assert(b =~= seq![b[0]] + b.drop_first());
        }
    }
}

/// Dictionary order is transitive.
pub proof fn lemma_lex_transitive(a: Seq<char>, b: Seq<char>, c: Seq<char>)
    requires
        lex_less(a, b),
        lex_less(b, c),
    ensures
        lex_less(a, c),
    decreases a.len(),
{
    if a.len() > 0 && a[0] == b[0] && b[0] == c[0] {
        lemma_lex_transitive(a.drop_first(), b.drop_first(), c.drop_first());
    }
}

/// A word with the score that an analyzer gave it.
#[derive(Clone, Copy, Debug)]
pub struct ScoredWord<'a> {
    pub word: &'a str,
    pub score: i128,
}

/// Whether a word of score `a_score` and text `a_word` ranks before one of
/// score `b_score` and text `b_word`: the higher score first, and among equal
/// scores the word that stands first in dictionary order.
pub open spec fn ranks_before(
    a_score: int,
    a_word: Seq<char>,
    b_score: int,
    b_word: Seq<char>,
) -> bool {
    a_score > b_score || (a_score == b_score && lex_less(a_word, b_word))
}

impl<'a> ScoredWord<'a> {
    /// Whether this word ranks before `other`.
    pub open spec fn before(&self, other: &ScoredWord<'a>) -> bool {
        ranks_before(self.score as int, self.word@, other.score as int, other.word@)
    }

    /// Whether this word and `other` have the same score and the same text.
    pub open spec fn same(&self, other: &ScoredWord<'a>) -> bool {
        self.score == other.score && self.word@ == other.word@
    }

    /// How this word ranks against `other`: `Less` when it ranks before it,
    /// `Greater` when it ranks after it, `Equal` when score and text agree.
    pub open spec fn ranking(&self, other: &ScoredWord<'a>) -> Ordering {
        if self.before(other) {
            Ordering::Less
        } else if other.before(self) {
            Ordering::Greater
        } else {
            Ordering::Equal
        }
    }

    /// How this word ranks against `other`: `Less` when it ranks before it,
    /// `Greater` when it ranks after it, `Equal` when score and text agree.
    pub fn rank(&self, other: &ScoredWord<'a>) -> (r: Ordering)
        ensures
            r == self.ranking(other),
            r == Ordering::Equal <==> self.same(other),
    {
        proof {
            lemma_lex_trichotomy(self.word@, other.word@);
        }
        if self.score > other.score {
            Ordering::Less
        } else if self.score < other.score {
            Ordering::Greater
        } else {
            let sign = dictionary_sign(self.word, other.word);
            if sign < 0 {
                Ordering::Less
            } else if sign > 0 {
                Ordering::Greater
            } else {
                Ordering::Equal
            }
        }
    }

    /// Whether this word ranks before `other`.
    pub fn goes_before(&self, other: &ScoredWord<'a>) -> (r: bool)
        ensures
            r == self.before(other),
    {
        if self.score > other.score {
            true
        } else if self.score < other.score {
            false
        } else {
            dictionary_sign(self.word, other.word) < 0
        }
    }
}

/// Where `a` stands against `b` in dictionary order: -1 when it stands
/// before it, 1 when it stands after it, 0 when the two are the same.
pub fn dictionary_sign(a: &str, b: &str) -> (r: i8)
    ensures
        r == -1 || r == 0 || r == 1,
        r == -1 <==> lex_less(a@, b@),
        r == 1 <==> lex_less(b@, a@),
        r == 0 <==> a@ == b@,
{
    let a_len = a.unicode_len();
    let b_len = b.unicode_len();
    let mut i: usize = 0;
    proof {
        lemma_lex_trichotomy(a@, b@);
        assert(a@.skip(0) =~= a@);
        assert(b@.skip(0) =~= b@);
    }
    while i < a_len && i < b_len
        invariant
            i <= a_len,
            i <= b_len,
            a_len == a@.len(),
            b_len == b@.len(),
            lex_less(a@, b@) == lex_less(a@.skip(i as int), b@.skip(i as int)),
            lex_less(b@, a@) == lex_less(b@.skip(i as int), a@.skip(i as int)),
        decreases a_len - i,
    {
        let x = a.get_char(i);
        let y = b.get_char(i);
        proof {
            assert(a@.skip(i as int)[0] == x);
            assert(b@.skip(i as int)[0] == y);
            assert(a@.skip(i as int).drop_first() =~= a@.skip(i + 1));
            assert(b@.skip(i as int).drop_first() =~= b@.skip(i + 1));
        }
        if x < y {
            return -1;
        }
        if y < x {
            return 1;
        }
        i += 1;
    }
    if i < b_len {
        -1
    } else if i < a_len {
        1
    } else {
        0
    }
}

impl<'a> PartialEq for ScoredWord<'a> {
    fn eq(&self, other: &Self) -> (r: bool) {
        match self.rank(other) {
            Ordering::Equal => true,
            _ => false,
        }
    }
}

impl<'a> PartialEqSpecImpl for ScoredWord<'a> {
    open spec fn obeys_eq_spec() -> bool {
        true
    }

    open spec fn eq_spec(&self, other: &Self) -> bool {
        self.same(other)
    }
}

impl<'a> Eq for ScoredWord<'a> {

}

impl<'a> PartialOrd for ScoredWord<'a> {
    fn partial_cmp(&self, other: &Self) -> (r: Option<Ordering>) {
        Some(self.rank(other))
    }
}

impl<'a> PartialOrdSpecImpl for ScoredWord<'a> {
    open spec fn obeys_partial_cmp_spec() -> bool {
        true
    }

    open spec fn partial_cmp_spec(&self, other: &Self) -> Option<Ordering> {
        Some(self.ranking(other))
    }
}

/// How scored words rank: a higher score ranks first whatever the words are,
/// and with equal scores the word that is first in dictionary order ranks
/// first.
pub proof fn lemma_ranking(a: ScoredWord, b: ScoredWord)
    ensures
        a.score > b.score ==> a.before(&b) && !b.before(&a),
        a.score == b.score ==> (a.before(&b) <==> lex_less(a.word@, b.word@)),
{
    lemma_lex_trichotomy(a.word@, b.word@);
}

/// Ranking is a strict total order on score and text: two words never rank
/// before each other, words that rank neither way agree in score and text,
/// and ranking is transitive.
pub proof fn lemma_ranking_total(a: ScoredWord, b: ScoredWord, c: ScoredWord)
    ensures
        !(a.before(&b) && b.before(&a)),
        !a.before(&b) && !b.before(&a) ==> a.same(&b),
        a.before(&b) && b.before(&c) ==> a.before(&c),
        !b.before(&a) && !c.before(&b) ==> !c.before(&a),
{
    lemma_lex_trichotomy(a.word@, b.word@);
    lemma_lex_trichotomy(b.word@, c.word@);
    lemma_lex_trichotomy(a.word@, c.word@);
    if lex_less(a.word@, b.word@) && lex_less(b.word@, c.word@) {
        lemma_lex_transitive(a.word@, b.word@, c.word@);
    }
    if lex_less(c.word@, a.word@) && lex_less(a.word@, b.word@) {
        lemma_lex_transitive(c.word@, a.word@, b.word@);
    }
    if lex_less(b.word@, c.word@) && lex_less(c.word@, a.word@) {
        lemma_lex_transitive(b.word@, c.word@, a.word@);
    }
}

/// Whether the words of `words` stand in ranking order: none ranks before one
/// that stands earlier.
pub open spec fn ranked(words: Seq<ScoredWord>) -> bool {
    forall|i: int, j: int|
        #![trigger words[i], words[j]]
        0 <= i < j < words.len() ==> !words[j].before(&words[i])
}

/// The sorted list that holds the words of two sorted lists.
fn merge<'a>(left: &Vec<ScoredWord<'a>>, right: &Vec<ScoredWord<'a>>) -> (r: Vec<ScoredWord<'a>>)
    requires
        ranked(left@),
        ranked(right@),
        left@.len() + right@.len() <= usize::MAX,
    ensures
        ranked(r@),
        r@.to_multiset() == left@.to_multiset().add(right@.to_multiset()),
        r@.len() == left@.len() + right@.len(),
{
    broadcast use group_to_multiset_ensures;
    broadcast use vstd::multiset::group_multiset_axioms;

    let mut out: Vec<ScoredWord<'a>> = Vec::new();
    let mut i: usize = 0;
    let mut j: usize = 0;
    proof {
        assert(left@.take(0) =~= Seq::<ScoredWord>::empty());
        assert(right@.take(0) =~= Seq::<ScoredWord>::empty());
        assert(out@.to_multiset() =~= left@.take(0).to_multiset().add(right@.take(0).to_multiset()));
    }
    while i < left.len() || j < right.len()
        invariant
            i <= left@.len(),
            j <= right@.len(),
            left@.len() + right@.len() <= usize::MAX,
            ranked(left@),
            ranked(right@),
            ranked(out@),
            out@.len() == i + j,
            out@.to_multiset() == left@.take(i as int).to_multiset().add(
                right@.take(j as int).to_multiset(),
            ),
            out@.len() > 0 && i < left@.len() ==> !left@[i as int].before(&out@.last()),
            out@.len() > 0 && j < right@.len() ==> !right@[j as int].before(&out@.last()),
        decreases left@.len() - i + right@.len() - j,
    {
        let take_left = if i >= left.len() {
            false
        } else if j >= right.len() {
            true
        } else {
            !right[j].goes_before(&left[i])
        };
        let ghost before = out@;
        if take_left {
            let x = left[i];
            proof {
                assert(left@.take(i + 1) =~= left@.take(i as int).push(x));
                assert forall|a: int, b: int|
                    #![trigger before.push(x)[a], before.push(x)[b]]
                    0 <= a < b < before.len() + 1 implies !before.push(x)[b].before(
                    &before.push(x)[a],
                ) by {
                    if b == before.len() {
                        lemma_ranking_total(before[a], before.last(), x);
                    }
                }
                if i + 1 < left@.len() {
                    assert(!left@[i + 1].before(&left@[i as int]));
                }
                if j < right@.len() && i < left@.len() && j < right@.len() {
                    lemma_ranking_total(x, right@[j as int], x);
                }
            }
            out.push(x);
            proof {
                let l = left@.take(i as int).to_multiset();
                let r = right@.take(j as int).to_multiset();
                assert(out@ =~= before.push(x));
                vstd::seq_lib::to_multiset_build(before, x);
                vstd::seq_lib::to_multiset_build(left@.take(i as int), x);
                assert(left@.take(i + 1) =~= left@.take(i as int).push(x));
                assert(out@.to_multiset() =~= l.add(r).insert(x));
                assert(left@.take(i + 1).to_multiset() =~= l.insert(x));
                assert(l.insert(x).add(r) =~= l.add(r).insert(x));
            }
            i += 1;
        } else {
            let x = right[j];
            proof {
                assert(right@.take(j + 1) =~= right@.take(j as int).push(x));
                assert forall|a: int, b: int|
                    #![trigger before.push(x)[a], before.push(x)[b]]
                    0 <= a < b < before.len() + 1 implies !before.push(x)[b].before(
                    &before.push(x)[a],
                ) by {
                    if b == before.len() {
                        lemma_ranking_total(before[a], before.last(), x);
                    }
                }
                if j + 1 < right@.len() {
                    assert(!right@[j + 1].before(&right@[j as int]));
                }
                if i < left@.len() {
                    lemma_ranking_total(x, left@[i as int], x);
                }
            }
            out.push(x);
            proof {
                let l = left@.take(i as int).to_multiset();
                let r = right@.take(j as int).to_multiset();
                assert(out@ =~= before.push(x));
                vstd::seq_lib::to_multiset_build(before, x);
                vstd::seq_lib::to_multiset_build(right@.take(j as int), x);
                assert(right@.take(j + 1) =~= right@.take(j as int).push(x));
                assert(out@.to_multiset() =~= l.add(r).insert(x));
                assert(right@.take(j + 1).to_multiset() =~= r.insert(x));
                assert(l.add(r.insert(x)) =~= l.add(r).insert(x));
            }
            j += 1;
        }
    }
    proof {
        assert(left@.take(i as int) =~= left@);
        assert(right@.take(j as int) =~= right@);
    }
    out
}

/// The words of `words` from `lo` up to `hi`, in ranking order.
fn sorted_range<'a>(words: &Vec<ScoredWord<'a>>, lo: usize, hi: usize) -> (r: Vec<ScoredWord<'a>>)
    requires
        lo <= hi <= words@.len(),
    ensures
        ranked(r@),
        r@.to_multiset() == words@.subrange(lo as int, hi as int).to_multiset(),
        r@.len() == hi - lo,
    decreases hi - lo,
{
    broadcast use group_to_multiset_ensures;

    if hi - lo <= 1 {
        let mut r: Vec<ScoredWord<'a>> = Vec::new();
        if lo < hi {
            r.push(words[lo]);
        }
        assert(r@ =~= words@.subrange(lo as int, hi as int));
        r
    } else {
        let mid = lo + (hi - lo) / 2;
        let left = sorted_range(words, lo, mid);
        let right = sorted_range(words, mid, hi);
        proof {
            let a = words@.subrange(lo as int, mid as int);
            let b = words@.subrange(mid as int, hi as int);
            assert(a + b =~= words@.subrange(lo as int, hi as int));
            lemma_multiset_commutative(a, b);
        }
        merge(&left, &right)
    }
}

/// Lists that hold the same items, in whatever order, still hold the same
/// items after each item is replaced by what `f` makes of it.
pub proof fn lemma_map_multiset<A, B>(s: Seq<A>, t: Seq<A>, f: spec_fn(A) -> B)
    requires
        s.to_multiset() == t.to_multiset(),
    ensures
        s.map_values(f).to_multiset() == t.map_values(f).to_multiset(),
    decreases s.len(),
{
    broadcast use group_to_multiset_ensures;
    broadcast use vstd::multiset::group_multiset_axioms;

    s.to_multiset_ensures();
    t.to_multiset_ensures();
    if s.len() == 0 {
        assert(t.len() == 0);
        assert(s.map_values(f) =~= t.map_values(f));
    } else {
        let x = s.last();
        let front = s.drop_last();
        assert(s =~= front.push(x));
        vstd::seq_lib::to_multiset_build(front, x);
        assert(s.to_multiset().count(x) > 0);
        assert(t.contains(x));
        let k = choose|k: int| 0 <= k < t.len() && t[k] == x;
        let rest = t.remove(k);
        vstd::seq_lib::to_multiset_remove(t, k);
        assert(front.to_multiset() =~= s.to_multiset().remove(x));
        assert(front.to_multiset() =~= rest.to_multiset());
        lemma_map_multiset(front, rest, f);
        let ms = s.map_values(f);
        let mt = t.map_values(f);
        assert(ms =~= front.map_values(f).push(f(x)));
        vstd::seq_lib::to_multiset_build(front.map_values(f), f(x));
        assert(mt.remove(k) =~= rest.map_values(f));
        vstd::seq_lib::to_multiset_remove(mt, k);
        assert(mt[k] == f(x));
        assert(mt.to_multiset().count(f(x)) > 0) by {
            assert(mt.contains(f(x)));
        }
        assert(mt.to_multiset() =~= mt.to_multiset().remove(f(x)).insert(f(x)));
    }
}

/// Puts `words` into ranking order: the highest score first, and words of
/// equal score in dictionary order. The list holds the same words as before.
pub fn sort_ranked<'a>(words: &mut Vec<ScoredWord<'a>>)
    ensures
        ranked(final(words)@),
        final(words)@.to_multiset() == old(words)@.to_multiset(),
        final(words)@.len() == old(words)@.len(),
{
    let sorted = sorted_range(words, 0, words.len());
    assert(words@.subrange(0, words@.len() as int) =~= words@);
    *words = sorted;
}

/// The lowest score among `words`; zero when there are none.
pub open spec fn lowest_score(words: Seq<ScoredWord>) -> int
    decreases words.len(),
{
    if words.len() == 0 {
        0
    } else if words.len() == 1 {
        words[0].score as int
    } else {
        let rest = lowest_score(words.drop_last());
        if words.last().score < rest {
            words.last().score as int
        } else {
            rest
        }
    }
}

/// The highest score among `words`; zero when there are none.
pub open spec fn highest_score(words: Seq<ScoredWord>) -> int
    decreases words.len(),
{
    if words.len() == 0 {
        0
    } else if words.len() == 1 {
        words[0].score as int
    } else {
        let rest = highest_score(words.drop_last());
        if words.last().score > rest {
            words.last().score as int
        } else {
            rest
        }
    }
}

/// The lowest and the highest score bound every score, and each of the two is
/// the score of some word.
pub proof fn lemma_score_range(words: Seq<ScoredWord>)
    requires
        words.len() > 0,
    ensures
        forall|i: int|
            0 <= i < words.len() ==> lowest_score(words) <= (#[trigger] words[i]).score
                <= highest_score(words),
        exists|i: int| 0 <= i < words.len() && (#[trigger] words[i]).score == lowest_score(words),
        exists|i: int| 0 <= i < words.len() && (#[trigger] words[i]).score == highest_score(words),
    decreases words.len(),
{
    if words.len() > 1 {
        let front = words.drop_last();
        lemma_score_range(front);
        let lo = choose|i: int| 0 <= i < front.len() && (#[trigger] front[i]).score == lowest_score(front);
        let hi = choose|i: int| 0 <= i < front.len() && (#[trigger] front[i]).score == highest_score(front);
        assert(words[lo] == front[lo]);
        assert(words[hi] == front[hi]);
        let last = words.len() - 1;
        assert(words[last] == words.last());
        assert forall|i: int| 0 <= i < words.len() implies lowest_score(words) <= (
        #[trigger] words[i]).score <= highest_score(words) by {
            if i < front.len() {
                assert(words[i] == front[i]);
            }
        }
    } else {
        assert(words[0].score == lowest_score(words));
    }
}

/// The scale of the normalized scores of `words`: the distance between the
/// lowest and the highest score, or one where all scores are the same.
pub open spec fn normal_scale(words: Seq<ScoredWord>) -> int {
    if highest_score(words) == lowest_score(words) {
        1
    } else {
        highest_score(words) - lowest_score(words)
    }
}

/// The normalized score of a word of score `score` among `words`, as a
/// multiple of one over `normal_scale(words)`: a hundred times the distance of
/// the score from the lowest one, or a hundred where all scores are the same.
pub open spec fn normal_score(words: Seq<ScoredWord>, score: int) -> int {
    if highest_score(words) == lowest_score(words) {
        100
    } else {
        100 * (score - lowest_score(words))
    }
}

/// A normalized score, divided by the scale, lies between 0 and 100: the
/// lowest score becomes 0 and the highest 100, unless all scores are the same,
/// in which case each becomes 100.
pub proof fn lemma_normal_range(words: Seq<ScoredWord>, i: int)
    requires
        0 <= i < words.len(),
    ensures
        normal_scale(words) > 0,
        0 <= normal_score(words, words[i].score as int) <= 100 * normal_scale(words),
        words[i].score == highest_score(words) ==> normal_score(words, words[i].score as int)
            == 100 * normal_scale(words),
        words[i].score == lowest_score(words) && lowest_score(words) < highest_score(words)
            ==> normal_score(words, words[i].score as int) == 0,
{
    lemma_score_range(words);
}

impl<'a> ScoredWord<'a> {
    /// Rescales the scores of `words` linearly so that, divided by the scale that
    /// is returned, they run from 0 for the lowest score to 100 for the highest.
    /// Where all scores are the same (or there is one word only) each becomes
    /// 100 and the scale is 1.
    ///
    /// The scores stay whole numbers: each becomes a hundred times its distance
    /// from the lowest score, and the scale is the distance between the lowest
    /// and the highest. Where a hundred times that distance is more than an
    /// `i128` holds, nothing is changed and `None` is returned.
    pub fn normalize_scores(words: &mut Vec<ScoredWord<'a>>) -> (scale: Option<i128>)
        ensures
            final(words)@.len() == old(words)@.len(),
            scale.is_some() <==> 100 * (highest_score(old(words)@) - lowest_score(old(words)@))
                <= i128::MAX,
            scale matches Some(by) ==> by == normal_scale(old(words)@) && forall|i: int|
                0 <= i < old(words)@.len() ==> (#[trigger] final(words)@[i]).word == old(words)@[i].word
                    && final(words)@[i].score == normal_score(
                    old(words)@,
                    old(words)@[i].score as int,
                ),
            scale.is_none() ==> final(words)@ == old(words)@,
    {
        let n = words.len();
        if n == 0 {
            return Some(1);
        }
        let mut min_score: i128 = words[0].score;
        let mut max_score: i128 = words[0].score;
        let mut i: usize = 1;
        proof {
            assert(words@.take(1).len() == 1);
        }
        while i < n
            invariant
                1 <= i <= n,
                n == words@.len(),
                min_score == lowest_score(words@.take(i as int)),
                max_score == highest_score(words@.take(i as int)),
            decreases n - i,
        {
            let score = words[i].score;
            proof {
                assert(words@.take(i + 1).drop_last() =~= words@.take(i as int));
                assert(words@.take(i + 1).last() == words@[i as int]);
            }
            if score < min_score {
                min_score = score;
            }
            if score > max_score {
                max_score = score;
            }
            i += 1;
        }
        proof {
            assert(words@.take(n as int) =~= words@);
            lemma_score_range(words@);
        }
        if min_score == max_score {
            let mut i: usize = 0;
            while i < n
                invariant
                    i <= n,
                    n == words@.len(),
                    n == old(words)@.len(),
                    forall|j: int|
                        0 <= j < i ==> (#[trigger] words@[j]).word == old(words)@[j].word
                            && words@[j].score == 100,
                    forall|j: int| i <= j < n ==> #[trigger] words@[j] == old(words)@[j],
                decreases n - i,
            {
                let word = words[i].word;
                words[i] = ScoredWord { word, score: 100 };
                i += 1;
            }
            return Some(1);
        }
        let span = match max_score.checked_sub(min_score) {
            Some(span) => span,
            None => {
                return None;
            },
        };
        let top = match span.checked_mul(100) {
            Some(top) => top,
            None => {
                return None;
            },
        };
        let mut i: usize = 0;
        while i < n
            invariant
                i <= n,
                n == words@.len(),
                n == old(words)@.len(),
                span == max_score - min_score,
                span > 0,
                100 * span <= i128::MAX,
                forall|j: int| 0 <= j < n ==> min_score <= (#[trigger] old(words)@[j]).score <= max_score,
                forall|j: int|
                    0 <= j < i ==> (#[trigger] words@[j]).word == old(words)@[j].word && words@[j].score
                        == 100 * (old(words)@[j].score - min_score),
                forall|j: int| i <= j < n ==> #[trigger] words@[j] == old(words)@[j],
            decreases n - i,
        {
            let word = words[i].word;
            let score = words[i].score;
            proof {
                assert(old(words)@[i as int].score == score);
                assert(0 <= score - min_score <= span);
                assert(100 * (score - min_score) <= 100 * span) by (nonlinear_arith)
                    requires
                        score - min_score <= span,
                ;
            }
            words[i] = ScoredWord { word, score: (score - min_score) * 100 };
            i += 1;
        }
        Some(span)
    }
}

/// The word and the score of each entry of `scored`, as plain values.
pub open spec fn outcome(scored: Seq<ScoredWord>) -> Seq<(Seq<char>, int)> {
    Seq::new(scored.len(), |i: int| (scored[i].word@, scored[i].score as int))
}

/// A strategy that gives the words of a catalog a score each. A higher score
/// recommends the word more as the next guess.
pub trait Analyzer<const N: usize> {
    /// The name of the strategy.
    spec fn label(&self) -> Seq<char>;

    /// Whether `out` is what the strategy makes of the catalog `words`: which
    /// words it scores, in which order it lists them, and the score of each.
    spec fn yields(&self, words: Seq<WordFreq>, out: Seq<(Seq<char>, int)>) -> bool;

    /// The name of the strategy, for display.
    fn name(&self) -> (r: String)
        ensures
            r@ == self.label(),
    ;

    /// Scores the words of `words_list`. The catalog is left as it is.
    fn analyze<'a>(&self, words_list: &'a WordList<N>) -> (r: Vec<ScoredWord<'a>>)
        ensures
            self.yields(words_list@, outcome(r@)),
            r@.len() <= words_list@.len(),
            forall|i: int| 0 <= i < r@.len() ==> (#[trigger] r@[i]).word@.len() == N,
    ;
}

} // verus!
