//! Making one catalog of several: the words of all of them, each with its
//! frequencies added up, the most frequent first.

use vstd::prelude::*;
use vstd::seq_lib::group_to_multiset_ensures;
use crate::analyze::analyzer::ScoredWord;
use crate::analyze::analyzer::dictionary_sign;
use crate::analyze::analyzer::lemma_lex_transitive;
use crate::analyze::analyzer::lemma_lex_trichotomy;
use crate::analyze::analyzer::lemma_map_multiset;
use crate::analyze::analyzer::lex_less;
use crate::analyze::analyzer::ranked;
use crate::analyze::analyzer::ranks_before;
use crate::analyze::analyzer::sort_ranked;
use crate::word_list::MAX_WORDS;
use crate::word_list::WordFreq;
use crate::word_list::WordList;
use crate::word_list::all_length;

verus! {

/// The entries of all of `lists`, one list after the other.
pub open spec fn pooled(lists: Seq<Seq<WordFreq>>) -> Seq<WordFreq>
    decreases lists.len(),
{
    if lists.len() == 0 {
        Seq::empty()
    } else {
        pooled(lists.drop_last()) + lists.last()
    }
}

/// The sum of the frequencies of the entries of `pool` whose word is `word`.
pub open spec fn total_of(pool: Seq<WordFreq>, word: Seq<char>) -> nat
    decreases pool.len(),
{
    if pool.len() == 0 {
        0
    } else {
        total_of(pool.drop_last(), word) + if pool.last().word@ == word {
            pool.last().freq as nat
        } else {
            0nat
        }
    }
}

/// `n`, or the highest frequency there is if `n` is above it.
pub open spec fn capped(n: nat) -> u64 {
    if n <= u64::MAX {
        n as u64
    } else {
        u64::MAX
    }
}

/// Whether some entry of `pool` has the word `word`.
pub open spec fn holds(pool: Seq<WordFreq>, word: Seq<char>) -> bool {
    exists|k: int| 0 <= k < pool.len() && (#[trigger] pool[k]).word@ == word
}

/// Whether `out` is the catalog that `pool` combines to under the limit
/// `cap`.
///
/// Each word of the pool stands in it once at most, with the sum of its
/// frequencies in the pool (or the highest frequency there is, if the sum is
/// above it). The entries stand in ranking order: the highest frequency
/// first, and among equal frequencies in dictionary order. And the catalog
/// holds the first `cap` words of that ranking: a word of the pool is left out
/// only if the catalog is full and the word ranks after all that are in.
pub open spec fn combined(pool: Seq<WordFreq>, cap: nat, out: Seq<WordFreq>) -> bool {
    &&& out.len() <= cap
    &&& forall|i: int|
        0 <= i < out.len() ==> holds(pool, (#[trigger] out[i]).word@) && out[i].freq == capped(
            total_of(pool, out[i].word@),
        )
    &&& forall|i: int, j: int|
        #![trigger out[i], out[j]]
        0 <= i < j < out.len() ==> ranks_before(
            out[i].freq as int,
            out[i].word@,
            out[j].freq as int,
            out[j].word@,
        )
    &&& forall|k: int|
        0 <= k < pool.len() && !holds(out, (#[trigger] pool[k]).word@) ==> out.len() == cap
            && forall|i: int|
            0 <= i < out.len() ==> ranks_before(
                (#[trigger] out[i]).freq as int,
                out[i].word@,
                capped(total_of(pool, pool[k].word@)) as int,
                pool[k].word@,
            )
}

/// Whether some entry of `words` has the word `word`.
pub open spec fn listed(words: Seq<ScoredWord>, word: Seq<char>) -> bool {
    exists|m: int| 0 <= m < words.len() && (#[trigger] words[m]).word@ == word
}

/// Whether the words of `words` stand in dictionary order, each once.
pub open spec fn ascending(words: Seq<ScoredWord>) -> bool {
    forall|i: int, j: int|
        #![trigger words[i], words[j]]
        0 <= i < j < words.len() ==> lex_less(words[i].word@, words[j].word@)
}

/// The place of the word `word` among `words`, which stand in dictionary
/// order and hold the word.
fn find<'a>(words: &Vec<ScoredWord<'a>>, word: &str) -> (r: usize)
    requires
        ascending(words@),
        listed(words@, word@),
    ensures
        r < words@.len(),
        words@[r as int].word@ == word@,
{
    let ghost at = choose|k: int| 0 <= k < words@.len() && (#[trigger] words@[k]).word@ == word@;
    assert(0 <= at < words@.len());
    let mut lo: usize = 0;
    let mut hi: usize = words.len();
    while lo + 1 < hi
        invariant
            lo <= at < hi <= words@.len(),
            ascending(words@),
            words@[at].word@ == word@,
        decreases hi - lo,
    {
        let mid = lo + (hi - lo) / 2;
        let sign = dictionary_sign(word, words[mid].word);
        proof {
            lemma_lex_trichotomy(word@, words@[mid as int].word@);
            if at < mid {
                assert(lex_less(words@[at].word@, words@[mid as int].word@));
            }
            if at > mid {
                assert(lex_less(words@[mid as int].word@, words@[at].word@));
            }
        }
        if sign < 0 {
            hi = mid;
        } else {
            lo = mid;
        }
    }
    lo
}

/// Taking one more entry into account adds its frequency to the sum of its
/// word and leaves the other sums.
proof fn lemma_total_step(pool: Seq<WordFreq>, upto: int, word: Seq<char>)
    requires
        0 <= upto < pool.len(),
    ensures
        total_of(pool.take(upto + 1), word) == total_of(pool.take(upto), word) + if pool[upto].word@
            == word {
            pool[upto].freq as nat
        } else {
            0nat
        },
{
    assert(pool.take(upto + 1).drop_last() =~= pool.take(upto));
    assert(pool.take(upto + 1).last() == pool[upto]);
}

impl<const N: usize> WordList<N> {
    /// One catalog of the words of all of `items`: each word once, with its
    /// frequencies added up, the most frequent words first, and no more than
    /// the first `limit` of them (nor more than `MAX_WORDS`).
    pub fn combine(items: &Vec<WordList<N>>, limit: usize) -> (r: Self)
        ensures
            combined(
                pooled(Seq::new(items@.len(), |i: int| items@[i]@)),
                if limit <= MAX_WORDS {
                    limit as nat
                } else {
                    MAX_WORDS as nat
                },
                r@,
            ),
    {
        broadcast use group_to_multiset_ensures;

        let ghost lists = Seq::new(items@.len(), |i: int| items@[i]@);
        let ghost pool = pooled(lists);
        let cap = if limit <= MAX_WORDS {
            limit
        } else {
            MAX_WORDS
        };
        // The entries of all the catalogs.
        let mut all: Vec<&WordFreq> = Vec::new();
        let mut i: usize = 0;
        proof {
            assert(lists.take(0) =~= Seq::<Seq<WordFreq>>::empty());
        }
        while i < items.len()
            invariant
                i <= items@.len(),
                lists == Seq::new(items@.len(), |k: int| items@[k]@),
                all@.len() == pooled(lists.take(i as int)).len(),
                forall|k: int|
                    0 <= k < all@.len() ==> *(#[trigger] all@[k]) == pooled(lists.take(i as int))[k],
                forall|k: int| 0 <= k < all@.len() ==> (#[trigger] all@[k]).word@.len() == N,
            decreases items@.len() - i,
        {
            let entries = items[i].entries();
            let ghost before = pooled(lists.take(i as int));
            proof {
                assert(lists.take(i + 1).drop_last() =~= lists.take(i as int));
                assert(lists.take(i + 1).last() == items@[i as int]@);
            }
            let mut j: usize = 0;
            while j < entries.len()
                invariant
                    j <= entries@.len(),
                    i < items@.len(),
                    entries@.len() == items@[i as int]@.len(),
                    forall|k: int|
                        0 <= k < entries@.len() ==> *(#[trigger] entries@[k]) == items@[i as int]@[k],
                    all_length(items@[i as int]@, N as nat),
                    all@.len() == before.len() + j,
                    forall|k: int| 0 <= k < before.len() ==> *(#[trigger] all@[k]) == before[k],
                    forall|k: int|
                        before.len() <= k < all@.len() ==> *(#[trigger] all@[k]) == items@[i as int]@[k
                            - before.len()],
                    forall|k: int| 0 <= k < all@.len() ==> (#[trigger] all@[k]).word@.len() == N,
                decreases entries@.len() - j,
            {
                all.push(entries[j]);
                j += 1;
            }
            proof {
                let after = pooled(lists.take(i + 1));
                assert(after == before + items@[i as int]@);
                assert forall|k: int| 0 <= k < all@.len() implies *(#[trigger] all@[k]) == after[k] by {
                    if k < before.len() {
                        assert(after[k] == before[k]);
                    } else {
                        assert(after[k] == items@[i as int]@[k - before.len()]);
                    }
                }
            }
            i += 1;
        }
        proof {
            assert(lists.take(i as int) =~= lists);
        }
        let n = all.len();
        // The words, in dictionary order.
        let mut words: Vec<ScoredWord> = Vec::new();
        let mut i: usize = 0;
        while i < n
            invariant
                i <= n,
                n == all@.len(),
                n == pool.len(),
                forall|k: int| 0 <= k < n ==> *(#[trigger] all@[k]) == pool[k],
                words@.len() == i,
                forall|k: int|
                    0 <= k < i ==> (#[trigger] words@[k]).word@ == pool[k].word@ && words@[k].score == 0,
            decreases n - i,
        {
            words.push(ScoredWord { word: all[i].word.as_str(), score: 0 });
            i += 1;
        }
        let ghost unsorted = words@;
        sort_ranked(&mut words);
        let ghost sorted = words@;
        proof {
            assert forall|k: int| 0 <= k < n implies (#[trigger] sorted[k]).score == 0 && holds(
                pool,
                sorted[k].word@,
            ) by {
                assert(sorted.contains(sorted[k]));
                assert(unsorted.to_multiset().count(sorted[k]) > 0);
                assert(unsorted.contains(sorted[k]));
                let m = choose|m: int| 0 <= m < unsorted.len() && unsorted[m] == sorted[k];
                assert(pool[m].word@ == sorted[k].word@);
            }
            assert forall|k: int| 0 <= k < n implies listed(sorted, (#[trigger] pool[k]).word@) by {
                assert(unsorted.contains(unsorted[k]));
                assert(sorted.to_multiset().count(unsorted[k]) > 0);
                assert(sorted.contains(unsorted[k]));
                let m = choose|m: int| 0 <= m < sorted.len() && sorted[m] == unsorted[k];
                assert(sorted[m].word@ == pool[k].word@);
            }
        }
        // Each word once.
        let mut distinct: Vec<ScoredWord> = Vec::new();
        let mut i: usize = 0;
        while i < n
            invariant
                i <= n,
                n == sorted.len(),
                words@ == sorted,
                ranked(sorted),
                forall|k: int| 0 <= k < n ==> (#[trigger] sorted[k]).score == 0,
                forall|k: int| 0 <= k < n ==> holds(pool, (#[trigger] sorted[k]).word@),
                ascending(distinct@),
                distinct@.len() <= i,
                i > 0 ==> distinct@.len() > 0 && distinct@.last().word@ == sorted[i - 1].word@,
                forall|k: int| 0 <= k < distinct@.len() ==> holds(pool, (#[trigger] distinct@[k]).word@),
                forall|k: int| 0 <= k < i ==> listed(distinct@, (#[trigger] sorted[k]).word@),
            decreases n - i,
        {
            let word = words[i];
            let fresh = if i == 0 {
                true
            } else {
                dictionary_sign(words[i - 1].word, word.word) != 0
            };
            let ghost before = distinct@;
            if fresh {
                proof {
                    if i > 0 {
                        let last = sorted[i - 1];
                        assert(!word.before(&last));
                        lemma_lex_trichotomy(last.word@, word.word@);
                        assert(lex_less(last.word@, word.word@));
                        assert forall|a: int, b: int|
                            #![trigger before.push(word)[a], before.push(word)[b]]
                            0 <= a < b < before.len() + 1 implies lex_less(
                            before.push(word)[a].word@,
                            before.push(word)[b].word@,
                        ) by {
                            if b == before.len() && a < before.len() - 1 {
                                assert(lex_less(before[a].word@, before[before.len() - 1].word@));
                                lemma_lex_transitive(before[a].word@, last.word@, word.word@);
                            }
                        }
                    }
                }
                distinct.push(word);
                proof {
                    assert forall|k: int| 0 <= k < i + 1 implies listed(
                        distinct@,
                        (#[trigger] sorted[k]).word@,
                    ) by {
                        if k < i {
                            let m = choose|m: int|
                                0 <= m < before.len() && (#[trigger] before[m]).word@ == sorted[k].word@;
                            assert(distinct@[m].word@ == sorted[k].word@);
                        } else {
                            assert(distinct@[before.len() as int].word@ == sorted[k].word@);
                        }
                    }
                }
            } else {
                proof {
                    assert forall|k: int| 0 <= k < i + 1 implies listed(
                        distinct@,
                        (#[trigger] sorted[k]).word@,
                    ) by {
                        if k < i {
                            let m = choose|m: int|
                                0 <= m < before.len() && (#[trigger] before[m]).word@ == sorted[k].word@;
                            assert(distinct@[m].word@ == sorted[k].word@);
                        } else {
                            assert(distinct@[before.len() - 1].word@ == sorted[k].word@);
                        }
                    }
                }
            }
            i += 1;
        }
        let d = distinct.len();
        proof {
            assert forall|k: int| 0 <= k < n implies listed(distinct@, (#[trigger] pool[k]).word@) by {
                assert(listed(sorted, pool[k].word@));
                let s = choose|s: int| 0 <= s < n && (#[trigger] sorted[s]).word@ == pool[k].word@;
                assert(listed(distinct@, sorted[s].word@));
                let m = choose|m: int|
                    0 <= m < distinct@.len() && (#[trigger] distinct@[m]).word@ == sorted[s].word@;
                assert(distinct@[m].word@ == pool[k].word@);
            }
        }
        // The sum of the frequencies of each word.
        let mut totals: Vec<u64> = Vec::new();
        let mut i: usize = 0;
        while i < d
            invariant
                i <= d,
                totals@.len() == i,
                forall|k: int| 0 <= k < i ==> #[trigger] totals@[k] == 0,
            decreases d - i,
        {
            totals.push(0);
            i += 1;
        }
        let mut i: usize = 0;
        proof {
            assert(pool.take(0) =~= Seq::<WordFreq>::empty());
        }
        while i < n
            invariant
                i <= n,
                n == all@.len(),
                n == pool.len(),
                d == distinct@.len(),
                forall|k: int| 0 <= k < n ==> *(#[trigger] all@[k]) == pool[k],
                ascending(distinct@),
                forall|k: int| 0 <= k < n ==> listed(distinct@, (#[trigger] pool[k]).word@),
                totals@.len() == d,
                forall|m: int|
                    0 <= m < d ==> #[trigger] totals@[m] == capped(
                        total_of(pool.take(i as int), distinct@[m].word@),
                    ),
            decreases n - i,
        {
            let entry = all[i];
            proof {
                assert(listed(distinct@, pool[i as int].word@));
            }
            let at = find(&distinct, entry.word.as_str());
            let sum = totals[at].saturating_add(entry.freq);
            proof {
                assert forall|m: int| 0 <= m < d implies #[trigger] totals@.update(at as int, sum)[m]
                    == capped(total_of(pool.take(i + 1), distinct@[m].word@)) by {
                    lemma_total_step(pool, i as int, distinct@[m].word@);
                    if m != at {
                        if m < at {
                            assert(lex_less(distinct@[m].word@, distinct@[at as int].word@));
                        } else {
                            assert(lex_less(distinct@[at as int].word@, distinct@[m].word@));
                        }
                        lemma_lex_trichotomy(distinct@[m].word@, distinct@[at as int].word@);
                    }
                }
            }
            totals[at] = sum;
            i += 1;
        }
        proof {
            assert(pool.take(n as int) =~= pool);
        }
        // The words with their sums, in ranking order.
        let mut scored: Vec<ScoredWord> = Vec::new();
        let mut i: usize = 0;
        while i < d
            invariant
                i <= d,
                d == distinct@.len(),
                totals@.len() == d,
                scored@.len() == i,
                forall|m: int|
                    0 <= m < i ==> (#[trigger] scored@[m]).word@ == distinct@[m].word@
                        && scored@[m].score == totals@[m],
            decreases d - i,
        {
            scored.push(ScoredWord { word: distinct[i].word, score: totals[i] as i128 });
            i += 1;
        }
        let ghost unranked = scored@;
        sort_ranked(&mut scored);
        let ghost sorted_all = scored@;
        let ghost text = |w: ScoredWord| w.word@;
        proof {
            // Each entry of the ranking is one of the words with its sum.
            assert forall|k: int| 0 <= k < d implies holds(pool, (#[trigger] sorted_all[k]).word@)
                && sorted_all[k].score == capped(total_of(pool, sorted_all[k].word@))
                && sorted_all[k].word@.len() == N by {
                assert(sorted_all.contains(sorted_all[k]));
                assert(unranked.to_multiset().count(sorted_all[k]) > 0);
                assert(unranked.contains(sorted_all[k]));
                let m = choose|m: int| 0 <= m < unranked.len() && unranked[m] == sorted_all[k];
                assert(unranked[m].word@ == distinct@[m].word@);
                let p = choose|p: int| 0 <= p < pool.len() && (#[trigger] pool[p]).word@ == distinct@[m].word@;
                assert(all@[p].word@.len() == N);
            }
            // No word stands in the ranking twice.
            lemma_map_multiset(sorted_all, unranked, text);
            let texts = unranked.map_values(text);
            assert(texts.no_duplicates()) by {
                assert forall|a: int, b: int| 0 <= a < texts.len() && 0 <= b < texts.len() && a
                    != b implies texts[a] != texts[b] by {
                    if a < b {
                        assert(lex_less(distinct@[a].word@, distinct@[b].word@));
                    } else {
                        assert(lex_less(distinct@[b].word@, distinct@[a].word@));
                    }
                    lemma_lex_trichotomy(distinct@[a].word@, distinct@[b].word@);
                }
            }
            texts.lemma_multiset_has_no_duplicates();
            sorted_all.map_values(text).lemma_multiset_has_no_duplicates_conv();
            assert forall|a: int, b: int|
                #![trigger sorted_all[a], sorted_all[b]]
                0 <= a < b < d implies sorted_all[a].before(&sorted_all[b]) by {
                assert(!sorted_all[b].before(&sorted_all[a]));
                assert(sorted_all.map_values(text)[a] != sorted_all.map_values(text)[b]);
                lemma_lex_trichotomy(sorted_all[a].word@, sorted_all[b].word@);
            }
            // Each word of the pool stands in the ranking.
            assert forall|k: int| 0 <= k < n implies listed(sorted_all, (#[trigger] pool[k]).word@) by {
                assert(listed(distinct@, pool[k].word@));
                let j = choose|j: int| 0 <= j < d && (#[trigger] distinct@[j]).word@ == pool[k].word@;
                assert(unranked.contains(unranked[j]));
                assert(sorted_all.to_multiset().count(unranked[j]) > 0);
                assert(sorted_all.contains(unranked[j]));
                let m = choose|m: int| 0 <= m < sorted_all.len() && sorted_all[m] == unranked[j];
                assert(sorted_all[m].word@ == pool[k].word@);
            }
        }
        // The first of them.
        let take = if cap <= d {
            cap
        } else {
            d
        };
        let mut out: Vec<WordFreq> = Vec::new();
        let mut i: usize = 0;
        while i < take
            invariant
                i <= take,
                take <= d,
                take <= MAX_WORDS,
                d == sorted_all.len(),
                scored@ == sorted_all,
                forall|k: int|
                    0 <= k < d ==> 0 <= (#[trigger] sorted_all[k]).score <= u64::MAX
                        && sorted_all[k].word@.len() == N,
                out@.len() == i,
                forall|k: int|
                    0 <= k < i ==> (#[trigger] out@[k]).word@ == sorted_all[k].word@ && out@[k].freq
                        == sorted_all[k].score,
            decreases take - i,
        {
            let entry = scored[i];
            let mut word = String::new();
            vstd::string::StringExecFns::append(&mut word, entry.word);
            proof {
                assert(word@ =~= entry.word@);
            }
            out.push(WordFreq { word, freq: entry.score as u64 });
            i += 1;
        }
        proof {
            assert forall|k: int|
                0 <= k < pool.len() && !holds(out@, (#[trigger] pool[k]).word@) implies out@.len()
                == cap && forall|i: int|
                0 <= i < out@.len() ==> ranks_before(
                    (#[trigger] out@[i]).freq as int,
                    out@[i].word@,
                    capped(total_of(pool, pool[k].word@)) as int,
                    pool[k].word@,
                ) by {
                assert(listed(sorted_all, pool[k].word@));
                let m = choose|m: int| 0 <= m < d && (#[trigger] sorted_all[m]).word@ == pool[k].word@;
                if m < take {
                    assert(out@[m].word@ == pool[k].word@);
                }
                assert forall|i: int| 0 <= i < out@.len() implies ranks_before(
                    (#[trigger] out@[i]).freq as int,
                    out@[i].word@,
                    capped(total_of(pool, pool[k].word@)) as int,
                    pool[k].word@,
                ) by {
                    assert(sorted_all[i].before(&sorted_all[m]));
                }
            }
            assert forall|i: int, j: int|
                #![trigger out@[i], out@[j]]
                0 <= i < j < out@.len() implies ranks_before(
                out@[i].freq as int,
                out@[i].word@,
                out@[j].freq as int,
                out@[j].word@,
            ) by {
                assert(sorted_all[i].before(&sorted_all[j]));
            }
        }
        WordList::of_words(out)
    }
}

} // verus!
