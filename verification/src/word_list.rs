//! The catalog of words that are still possible, each with its frequency.

use vstd::prelude::*;
use std::rc::Rc;
use crate::analyze::util::to_chars;
use crate::analyze::util::to_upper;
use crate::analyze::util::upper;
use crate::bits::Bits;
use crate::bits::ones;
use crate::guess::known_word_constraints::KnowledgeView;
use crate::guess::known_word_constraints::KnownWordConstraints;

verus! {

/// `Rc::clone`: another handle on the same value.
#[verifier::external_body]
fn share(words: &Rc<Vec<WordFreq>>) -> (r: Rc<Vec<WordFreq>>)
    ensures
        r == *words,
{
    Rc::clone(words)
}

/// A word with its frequency in the corpus it came from. The frequency is a
/// weight by which words are ranked: a larger weight means a more common word.
pub struct WordFreq {
    pub word: String,
    pub freq: u64,
}

impl Clone for WordFreq {
    fn clone(&self) -> (r: Self)
        ensures
            r == *self,
    {
        WordFreq { word: self.word.clone(), freq: self.freq }
    }
}

/// The entries of `words` whose bit in `mask` is set, in order.
pub open spec fn select(words: Seq<WordFreq>, mask: Seq<bool>) -> Seq<WordFreq>
    decreases words.len(),
{
    if words.len() == 0 {
        Seq::empty()
    } else if mask.last() {
        select(words.drop_last(), mask.drop_last()).push(words.last())
    } else {
        select(words.drop_last(), mask.drop_last())
    }
}

/// The entries of `words` whose word agrees with `knowledge`, in order.
pub open spec fn possible(words: Seq<WordFreq>, knowledge: KnowledgeView) -> Seq<WordFreq>
    decreases words.len(),
{
    if words.len() == 0 {
        Seq::empty()
    } else if knowledge.admits(words.last().word@) {
        possible(words.drop_last(), knowledge).push(words.last())
    } else {
        possible(words.drop_last(), knowledge)
    }
}

/// Every entry that `possible` keeps agrees with the knowledge and stood in
/// `words`, and `possible` keeps no more entries than there were.
pub proof fn lemma_possible_members(words: Seq<WordFreq>, knowledge: KnowledgeView)
    ensures
        possible(words, knowledge).len() <= words.len(),
        forall|i: int|
            0 <= i < possible(words, knowledge).len() ==> knowledge.admits(
                (#[trigger] possible(words, knowledge)[i]).word@,
            ) && words.contains(possible(words, knowledge)[i]),
        forall|i: int|
            0 <= i < words.len() && knowledge.admits((#[trigger] words[i]).word@) ==> possible(
                words,
                knowledge,
            ).contains(words[i]),
    decreases words.len(),
{
    if words.len() > 0 {
        let front = words.drop_last();
        let kept = possible(front, knowledge);
        let all = possible(words, knowledge);
        lemma_possible_members(front, knowledge);
        assert forall|i: int| 0 <= i < all.len() implies knowledge.admits((#[trigger] all[i]).word@)
            && words.contains(all[i]) by {
            if i < kept.len() {
                assert(all[i] == kept[i]);
                let j = choose|j: int| 0 <= j < front.len() && front[j] == kept[i];
                assert(words[j] == kept[i]);
            } else {
                assert(all[i] == words[words.len() - 1]);
            }
        }
        assert forall|i: int|
            0 <= i < words.len() && knowledge.admits((#[trigger] words[i]).word@) implies all.contains(
            words[i],
        ) by {
            if i < front.len() {
                assert(front[i] == words[i]);
                let j = choose|j: int| 0 <= j < kept.len() && kept[j] == front[i];
                assert(all[j] == words[i]);
            } else {
                assert(all[all.len() - 1] == words[i]);
            }
        }
    }
}

/// Where every entry agrees with the knowledge, `possible` keeps them all.
pub proof fn lemma_possible_all(words: Seq<WordFreq>, knowledge: KnowledgeView)
    requires
        forall|i: int| 0 <= i < words.len() ==> knowledge.admits((#[trigger] words[i]).word@),
    ensures
        possible(words, knowledge) == words,
    decreases words.len(),
{
    if words.len() > 0 {
        let front = words.drop_last();
        assert forall|i: int| 0 <= i < front.len() implies knowledge.admits(
            (#[trigger] front[i]).word@,
        ) by {
            assert(front[i] == words[i]);
        }
        lemma_possible_all(front, knowledge);
        assert(words.last() == words[words.len() - 1]);
        assert(front.push(words.last()) =~= words);
    } else {
        assert(words =~= Seq::empty());
    }
}

/// Filtering is idempotent: filtering what a filter kept, by the same
/// knowledge, keeps all of it.
pub proof fn lemma_filter_idempotent(words: Seq<WordFreq>, knowledge: KnowledgeView)
    ensures
        possible(possible(words, knowledge), knowledge) == possible(words, knowledge),
{
    lemma_possible_members(words, knowledge);
    lemma_possible_all(possible(words, knowledge), knowledge);
}

/// Filtering only ever shrinks: what survives a filter stood in the catalog
/// before, and nothing is added.
pub proof fn lemma_filter_monotonic(words: Seq<WordFreq>, knowledge: KnowledgeView)
    ensures
        possible(words, knowledge).len() <= words.len(),
        forall|i: int|
            0 <= i < possible(words, knowledge).len() ==> words.contains(
                #[trigger] possible(words, knowledge)[i],
            ),
{
    lemma_possible_members(words, knowledge);
}

/// With every bit set, `select` keeps every entry.
pub proof fn lemma_select_all(words: Seq<WordFreq>, mask: Seq<bool>)
    requires
        mask.len() == words.len(),
        forall|i: int| 0 <= i < mask.len() ==> #[trigger] mask[i],
    ensures
        select(words, mask) == words,
        ones(mask).len() == words.len(),
    decreases words.len(),
{
    if words.len() > 0 {
        lemma_select_all(words.drop_last(), mask.drop_last());
        assert(mask.last() == mask[mask.len() - 1]);
        assert(words.drop_last().push(words.last()) =~= words);
    } else {
        assert(words =~= Seq::empty());
    }
}

/// `select` keeps one entry per set bit.
pub proof fn lemma_select_len(words: Seq<WordFreq>, mask: Seq<bool>)
    requires
        mask.len() == words.len(),
    ensures
        select(words, mask).len() == ones(mask).len(),
        ones(mask).len() <= mask.len(),
    decreases words.len(),
{
    if words.len() > 0 {
        lemma_select_len(words.drop_last(), mask.drop_last());
    }
}

/// `select` lists the entries at the positions that `ones` lists, in order.
pub proof fn lemma_select_ones(words: Seq<WordFreq>, mask: Seq<bool>)
    requires
        mask.len() == words.len(),
    ensures
        select(words, mask).len() == ones(mask).len(),
        forall|k: int|
            0 <= k < ones(mask).len() ==> 0 <= (#[trigger] ones(mask)[k]) < words.len() && mask[ones(
                mask,
            )[k]] && select(words, mask)[k] == words[ones(mask)[k]],
        forall|j: int, k: int| 0 <= j < k < ones(mask).len() ==> ones(mask)[j] < ones(mask)[k],
        forall|i: int|
            0 <= i < mask.len() && #[trigger] mask[i] ==> exists|k: int|
                0 <= k < ones(mask).len() && ones(mask)[k] == i,
    decreases words.len(),
{
    if words.len() > 0 {
        let w = words.drop_last();
        let m = mask.drop_last();
        lemma_select_ones(w, m);
        let o = ones(mask);
        let om = ones(m);
        assert forall|k: int| 0 <= k < o.len() implies 0 <= (#[trigger] o[k]) < words.len()
            && mask[o[k]] && select(words, mask)[k] == words[o[k]] by {
            if k < om.len() {
                assert(o[k] == om[k]);
                assert(m[om[k]] == mask[om[k]]);
                assert(select(words, mask)[k] == select(w, m)[k]);
                assert(w[om[k]] == words[om[k]]);
            }
        }
        assert forall|j: int, k: int| 0 <= j < k < o.len() implies o[j] < o[k] by {
            assert(o[j] == om[j]);
            if k < om.len() {
                assert(o[k] == om[k]);
            }
        }
        assert forall|i: int| 0 <= i < mask.len() && #[trigger] mask[i] implies exists|k: int|
            0 <= k < o.len() && o[k] == i by {
            if i < m.len() {
                assert(m[i]);
                let k = choose|k: int| 0 <= k < om.len() && om[k] == i;
                assert(o[k] == i);
            } else {
                assert(o[o.len() - 1] == i);
            }
        }
    }
}

/// Clearing the bits of the entries that disagree with the knowledge leaves
/// exactly the entries that `possible` keeps.
pub proof fn lemma_select_possible(
    words: Seq<WordFreq>,
    mask: Seq<bool>,
    cleared: Seq<bool>,
    knowledge: KnowledgeView,
)
    requires
        mask.len() == words.len(),
        cleared.len() == words.len(),
        forall|i: int|
            0 <= i < words.len() ==> #[trigger] cleared[i] == (mask[i] && knowledge.admits(
                words[i].word@,
            )),
    ensures
        select(words, cleared) == possible(select(words, mask), knowledge),
    decreases words.len(),
{
    if words.len() > 0 {
        let w = words.drop_last();
        let m = mask.drop_last();
        let c = cleared.drop_last();
        assert forall|i: int| 0 <= i < w.len() implies #[trigger] c[i] == (m[i] && knowledge.admits(
            w[i].word@,
        )) by {
            assert(c[i] == cleared[i]);
        }
        lemma_select_possible(w, m, c, knowledge);
        assert(cleared.last() == cleared[words.len() - 1]);
        if mask.last() {
            assert(select(words, mask).drop_last() =~= select(w, m));
        }
    }
}

/// Whether every word of `words` has exactly `n` characters.
pub open spec fn all_length(words: Seq<WordFreq>, n: nat) -> bool {
    forall|i: int| 0 <= i < words.len() ==> (#[trigger] words[i]).word@.len() == n
}

/// `word` with every ASCII lower-case letter folded to upper case.
pub open spec fn upper_word(word: Seq<char>) -> Seq<char> {
    Seq::new(word.len(), |i: int| upper(word[i]))
}

/// The entries as plain values: each word's characters with its frequency.
pub open spec fn sketch(words: Seq<WordFreq>) -> Seq<(Seq<char>, u64)> {
    Seq::new(words.len(), |i: int| (words[i].word@, words[i].freq))
}

/// What a catalog of `n`-letter words takes in from `source`: the entries
/// whose word has `n` characters, folded to upper case, in order, and no more
/// than the first `cap` of them.
pub open spec fn ingested(source: Seq<(Seq<char>, u64)>, n: nat, cap: nat) -> Seq<(Seq<char>, u64)>
    decreases source.len(),
{
    if source.len() == 0 {
        Seq::empty()
    } else {
        let before = ingested(source.drop_last(), n, cap);
        if before.len() < cap && source.last().0.len() == n {
            before.push((upper_word(source.last().0), source.last().1))
        } else {
            before
        }
    }
}

/// The largest number of entries that a catalog holds.
pub const MAX_WORDS: usize = 0x1fff_ffff;

enum Storage {
    Empty,
    Reified { words: Rc<Vec<WordFreq>> },
    Filtered { words: Rc<Vec<WordFreq>>, allowed: Bits, count: usize },
}

/// The words of `N` letters that are still possible, in the order of the
/// corpus they came from.
///
/// A catalog either owns its list of entries or shares the list of the catalog
/// it was derived from and marks the entries that survive in a bit vector, so
/// that filtering copies no words.
pub struct WordList<const N: usize> {
    store: Storage,
}

impl<const N: usize> WordList<N> {
    #[verifier::type_invariant]
    spec fn inv(&self) -> bool {
        match self.store {
            Storage::Empty => true,
            Storage::Reified { words } => words@.len() <= MAX_WORDS && all_length(words@, N as nat),
            Storage::Filtered { words, allowed, count } => {
                &&& allowed@.len() == words@.len()
                &&& words@.len() <= MAX_WORDS
                &&& count == ones(allowed@).len()
                &&& all_length(words@, N as nat)
            },
        }
    }

    /// The surviving entries, in order.
    pub closed spec fn view(&self) -> Seq<WordFreq> {
        match self.store {
            Storage::Empty => Seq::empty(),
            Storage::Reified { words } => words@,
            Storage::Filtered { words, allowed, count } => select(words@, allowed@),
        }
    }

    /// A catalog without words.
    pub fn empty() -> (r: Self)
        ensures
            r@ == Seq::<WordFreq>::empty(),
    {
        WordList { store: Storage::Empty }
    }

    /// A catalog of the entries of `words`, as they are.
    pub(crate) fn of_words(words: Vec<WordFreq>) -> (r: Self)
        requires
            words@.len() <= MAX_WORDS,
            all_length(words@, N as nat),
        ensures
            r@ == words@,
    {
        WordList { store: Storage::Reified { words: Rc::new(words) } }
    }

    /// A catalog of the entries of `entries` whose word has `N` characters,
    /// folded to upper case, in the order given, and no more than the first
    /// `limit` of them (nor more than `MAX_WORDS`).
    pub fn from_entries(entries: &Vec<WordFreq>, limit: usize) -> (r: Self)
        ensures
            sketch(r@) == ingested(
                sketch(entries@),
                N as nat,
                if limit <= MAX_WORDS {
                    limit as nat
                } else {
                    MAX_WORDS as nat
                },
            ),
            all_length(r@, N as nat),
            r@.len() <= MAX_WORDS,
    {
        let cap = if limit <= MAX_WORDS {
            limit
        } else {
            MAX_WORDS
        };
        let mut words: Vec<WordFreq> = Vec::new();
        let mut i: usize = 0;
        while i < entries.len()
            invariant
                i <= entries.len(),
                cap <= MAX_WORDS,
                words@.len() <= cap,
                all_length(words@, N as nat),
                sketch(words@) == ingested(sketch(entries@).take(i as int), N as nat, cap as nat),
            decreases entries.len() - i,
        {
            let entry = &entries[i];
            let chars = to_chars(entry.word.as_str());
            proof {
                let longer = sketch(entries@).take(i + 1);
                assert(longer.drop_last() =~= sketch(entries@).take(i as int));
                assert(longer.last() == (entry.word@, entry.freq));
            }
            if words.len() < cap && chars.len() == N {
                let word = upper_string(&chars);
                let ghost before = words@;
                words.push(WordFreq { word, freq: entry.freq });
                proof {
                    assert(sketch(words@) =~= sketch(before).push(
                        (upper_word(entry.word@), entry.freq),
                    ));
                }
            }
            i += 1;
        }
        assert(sketch(entries@).take(i as int) =~= sketch(entries@));
        WordList { store: Storage::Reified { words: Rc::new(words) } }
    }

    /// The number of surviving entries.
    pub fn len(&self) -> (r: usize)
        ensures
            r == self@.len(),
    {
        proof {
            use_type_invariant(self);
        }
        match &self.store {
            Storage::Empty => 0,
            Storage::Reified { words } => words.len(),
            Storage::Filtered { words, allowed, count } => {
                proof {
                    lemma_select_len(words@, allowed@);
                }
                *count
            },
        }
    }

    /// Drops every entry whose word disagrees with `knowledge`. The entries
    /// that stay keep their order.
    pub fn filter(&mut self, knowledge: &KnownWordConstraints<N>)
        ensures
            final(self)@ == possible(old(self)@, knowledge@),
    {
        proof {
            use_type_invariant(&*self);
        }
        let mut store = Storage::Empty;
        core::mem::swap(&mut self.store, &mut store);
        match store {
            Storage::Empty => {},
            Storage::Reified { words } => {
                let mut kept: Vec<WordFreq> = Vec::new();
                let mut i: usize = 0;
                while i < words.len()
                    invariant
                        i <= words@.len(),
                        words@.len() <= MAX_WORDS,
                        all_length(words@, N as nat),
                        all_length(kept@, N as nat),
                        kept@.len() <= i,
                        kept@ == possible(words@.take(i as int), knowledge@),
                    decreases words@.len() - i,
                {
                    let entry = &words[i];
                    let chars = to_chars(entry.word.as_str());
                    proof {
                        assert(words@.take(i + 1).drop_last() =~= words@.take(i as int));
                        assert(words@.take(i + 1).last() == words@[i as int]);
                    }
                    if knowledge.allows(&chars) {
                        kept.push(entry.clone());
                    }
                    i += 1;
                }
                assert(words@.take(i as int) =~= words@);
                self.store = Storage::Reified { words: Rc::new(kept) };
            },
            Storage::Filtered { words, allowed, count } => {
                let mut allowed = allowed;
                let mut count = count;
                let ghost mask = allowed@;
                let picks = crate::bits::iter_ones(&allowed);
                proof {
                    lemma_select_ones(words@, mask);
                }
                let mut j: usize = 0;
                while j < picks.len()
                    invariant
                        j <= picks@.len(),
                        picks@.len() == ones(mask).len(),
                        forall|k: int| 0 <= k < picks@.len() ==> #[trigger] picks@[k] as int == ones(mask)[k],
                        forall|k: int|
                            0 <= k < ones(mask).len() ==> 0 <= (#[trigger] ones(mask)[k]) < words@.len()
                                && mask[ones(mask)[k]],
                        forall|a: int, b: int| 0 <= a < b < ones(mask).len() ==> ones(mask)[a] < ones(mask)[b],
                        forall|i: int|
                            0 <= i < mask.len() && #[trigger] mask[i] ==> exists|k: int|
                                0 <= k < ones(mask).len() && ones(mask)[k] == i,
                        mask.len() == words@.len(),
                        words@.len() <= MAX_WORDS,
                        all_length(words@, N as nat),
                        allowed@.len() == mask.len(),
                        count == ones(allowed@).len(),
                        forall|i: int|
                            0 <= i < mask.len() ==> #[trigger] allowed@[i] == (mask[i] && (i < bound(
                                ones(mask),
                                j as int,
                                mask.len() as int,
                            ) ==> knowledge@.admits(words@[i].word@))),
                    decreases picks@.len() - j,
                {
                    let idx = picks[j];
                    let entry = &words[idx];
                    let chars = to_chars(entry.word.as_str());
                    let ghost before = allowed@;
                    proof {
                        assert(picks@[j as int] as int == ones(mask)[j as int]);
                        assert(mask[idx as int]);
                    }
                    if !knowledge.allows(&chars) {
                        proof {
                            lemma_ones_clear(before, idx as int);
                        }
                        crate::bits::set(&mut allowed, idx, false);
                        count = count - 1;
                    }
                    proof {
                        let o = ones(mask);
                        let lo = bound(o, j as int, mask.len() as int);
                        let hi = bound(o, j + 1, mask.len() as int);
                        assert(lo == idx);
                        assert(lo < hi);
                        assert forall|i: int| 0 <= i < mask.len() implies #[trigger] allowed@[i] == (
                        mask[i] && (i < hi ==> knowledge@.admits(words@[i].word@))) by {
                            if lo < i && i < hi && mask[i] {
                                let k = choose|k: int| 0 <= k < o.len() && o[k] == i;
                                if k <= j {
                                    if k < j {
                                        assert(o[k] < o[j as int]);
                                    }
                                } else {
                                    if j + 1 < k {
                                        assert(o[j + 1] < o[k]);
                                    }
                                }
                            }
                        }
                    }
                    j += 1;
                }
                proof {
                    assert forall|i: int| 0 <= i < words@.len() implies #[trigger] allowed@[i] == (
                    mask[i] && knowledge@.admits(words@[i].word@)) by {}
                    lemma_select_possible(words@, mask, allowed@, knowledge@);
                }
                self.store = Storage::Filtered { words, allowed, count };
            },
        }
    }

    /// A catalog of its own with the entries of this one that agree with
    /// `knowledge`. It shares the list of words with this catalog, which stays
    /// as it is.
    pub fn filter_preview(&self, knowledge: &KnownWordConstraints<N>) -> (r: Self)
        ensures
            r@ == possible(self@, knowledge@),
    {
        proof {
            use_type_invariant(self);
        }
        let mut new = match &self.store {
            Storage::Empty => WordList { store: Storage::Empty },
            Storage::Reified { words } => {
                let allowed = crate::bits::repeat(true, words.len());
                proof {
                    lemma_select_all(words@, allowed@);
                }
                WordList {
                    store: Storage::Filtered { words: share(words), allowed, count: words.len() },
                }
            },
            Storage::Filtered { words, allowed, count } => WordList {
                store: Storage::Filtered {
                    words: share(words),
                    allowed: crate::bits::copy(allowed),
                    count: *count,
                },
            },
        };
        new.filter(knowledge);
        new
    }
}

impl<const N: usize> Clone for WordList<N> {
    /// A catalog of its own with the same entries. It shares the list of
    /// words with this catalog.
    fn clone(&self) -> (r: Self)
        ensures
            r@ == self@,
    {
        proof {
            use_type_invariant(self);
        }
        match &self.store {
            Storage::Empty => WordList { store: Storage::Empty },
            Storage::Reified { words } => WordList { store: Storage::Reified { words: share(words) } },
            Storage::Filtered { words, allowed, count } => WordList {
                store: Storage::Filtered {
                    words: share(words),
                    allowed: crate::bits::copy(allowed),
                    count: *count,
                },
            },
        }
    }
}

impl<const N: usize> WordList<N> {
    /// A cursor over the surviving entries, in order. Every call starts a new
    /// cursor at the first entry.
    pub fn words(&self) -> (r: Iter<'_>)
        ensures
            r@ == self@,
            r.total() == self@.len(),
            all_length(self@, N as nat),
            self@.len() <= MAX_WORDS,
    {
        proof {
            use_type_invariant(self);
        }
        match &self.store {
            Storage::Empty => {
                let r = Iter { list: None, picks: None, at: 0, total_length: 0 };
                r
            },
            Storage::Reified { words } => {
                let r = Iter { list: Some(&**words), picks: None, at: 0, total_length: words.len() };
                assert(r@ =~= words@);
                r
            },
            Storage::Filtered { words, allowed, count } => {
                let picks = crate::bits::iter_ones(allowed);
                proof {
                    lemma_select_ones(words@, allowed@);
                    lemma_select_len(words@, allowed@);
                    lemma_select_members(words@, allowed@);
                }
                let r = Iter { list: Some(&**words), picks: Some(picks), at: 0, total_length: *count };
                assert(r@ =~= select(words@, allowed@));
                r
            },
        }
    }

    /// The surviving entries, in order.
    pub fn entries(&self) -> (r: Vec<&WordFreq>)
        ensures
            r@.len() == self@.len(),
            forall|i: int| 0 <= i < r@.len() ==> *(#[trigger] r@[i]) == self@[i],
            all_length(self@, N as nat),
            self@.len() <= MAX_WORDS,
    {
        let mut it = self.words();
        let mut r: Vec<&WordFreq> = Vec::new();
        loop
            invariant
                r@.len() + it@.len() == self@.len(),
                forall|i: int| 0 <= i < r@.len() ==> *(#[trigger] r@[i]) == self@[i],
                forall|k: int| 0 <= k < it@.len() ==> (#[trigger] it@[k]) == self@[r@.len() + k],
            ensures
                r@.len() == self@.len(),
            decreases it@.len(),
        {
            match it.next() {
                Some(entry) => {
                    r.push(entry);
                },
                None => {
                    break ;
                },
            }
        }
        r
    }

    /// The characters of all surviving words, one word after the other.
    pub fn all_chars(&self) -> (r: Vec<char>)
        ensures
            r@ == glued(self@),
    {
        let entries = self.entries();
        let mut r: Vec<char> = Vec::new();
        let mut i: usize = 0;
        while i < entries.len()
            invariant
                i <= entries@.len(),
                entries@.len() == self@.len(),
                forall|k: int| 0 <= k < entries@.len() ==> *(#[trigger] entries@[k]) == self@[k],
                r@ == glued(self@.take(i as int)),
            decreases entries@.len() - i,
        {
            let chars = to_chars(entries[i].word.as_str());
            let ghost before = r@;
            let mut j: usize = 0;
            while j < chars.len()
                invariant
                    j <= chars@.len(),
                    r@ == before + chars@.take(j as int),
                decreases chars@.len() - j,
            {
                r.push(chars[j]);
                assert(before + chars@.take(j + 1) =~= (before + chars@.take(j as int)).push(
                    chars@[j as int],
                ));
                j += 1;
            }
            proof {
                assert(chars@.take(j as int) =~= chars@);
                assert(self@.take(i + 1).drop_last() =~= self@.take(i as int));
                assert(self@.take(i + 1).last() == self@[i as int]);
            }
            i += 1;
        }
        assert(self@.take(i as int) =~= self@);
        r
    }
}

/// The characters of all words of `words`, one word after the other.
pub open spec fn glued(words: Seq<WordFreq>) -> Seq<char>
    decreases words.len(),
{
    if words.len() == 0 {
        Seq::empty()
    } else {
        glued(words.drop_last()) + words.last().word@
    }
}

/// Every entry that `select` keeps stood in `words`: a selection of words of
/// one length has words of that length.
pub proof fn lemma_select_members(words: Seq<WordFreq>, mask: Seq<bool>)
    requires
        mask.len() == words.len(),
    ensures
        forall|n: nat| all_length(words, n) ==> all_length(select(words, mask), n),
        select(words, mask).len() <= words.len(),
{
    lemma_select_ones(words, mask);
    lemma_select_len(words, mask);
    let kept = select(words, mask);
    assert forall|n: nat| all_length(words, n) implies all_length(kept, n) by {
        assert forall|i: int| 0 <= i < kept.len() implies (#[trigger] kept[i]).word@.len() == n by {
            assert(kept[i] == words[ones(mask)[i]]);
        }
    }
}

/// A cursor over the entries of a catalog.
pub struct Iter<'a> {
    list: Option<&'a Vec<WordFreq>>,
    picks: Option<Vec<usize>>,
    at: usize,
    total_length: usize,
}

impl<'a> Iter<'a> {
    #[verifier::type_invariant]
    spec fn inv(&self) -> bool {
        match (self.list, self.picks) {
            (None, _) => true,
            (Some(list), None) => self.at <= list@.len(),
            (Some(list), Some(picks)) => self.at <= picks@.len() && forall|k: int|
                0 <= k < picks@.len() ==> (#[trigger] picks@[k]) < list@.len(),
        }
    }

    /// The entries that are still to come, in order.
    pub closed spec fn view(&self) -> Seq<WordFreq> {
        match (self.list, self.picks) {
            (None, _) => Seq::empty(),
            (Some(list), None) => list@.skip(self.at as int),
            (Some(list), Some(picks)) => Seq::new(
                (picks@.len() - self.at) as nat,
                |k: int| list@[picks@[self.at + k] as int],
            ),
        }
    }

    /// The number of entries that the cursor had to hand out when it was made.
    pub closed spec fn total(&self) -> nat {
        self.total_length as nat
    }

    /// The next entry, or `None` when every entry has been handed out.
    pub fn next(&mut self) -> (r: Option<&'a WordFreq>)
        ensures
            old(self)@.len() == 0 ==> r.is_none() && final(self)@ == old(self)@,
            old(self)@.len() > 0 ==> r.is_some() && *r.unwrap() == old(self)@[0] && final(self)@
                == old(self)@.drop_first(),
            final(self).total() == old(self).total(),
    {
        proof {
            use_type_invariant(&*self);
        }
        let list = match self.list {
            Some(list) => list,
            None => {
                return None;
            },
        };
        let idx = match &self.picks {
            None => {
                if self.at >= list.len() {
                    return None;
                }
                self.at
            },
            Some(picks) => {
                if self.at >= picks.len() {
                    return None;
                }
                picks[self.at]
            },
        };
        let ghost before = self@;
        self.at = self.at + 1;
        assert(self@ =~= before.drop_first());
        Some(&list[idx])
    }

    /// The number of entries that the cursor had to hand out when it was made.
    pub fn total_length(&self) -> (r: usize)
        ensures
            r == self.total(),
    {
        self.total_length
    }
}

/// The position that the `j`-th entry of `picks` names, or `end` when `picks`
/// has no `j`-th entry.
pub open spec fn bound(picks: Seq<int>, j: int, end: int) -> int {
    if 0 <= j < picks.len() {
        picks[j]
    } else {
        end
    }
}

/// Clearing a set bit leaves one set bit fewer.
pub proof fn lemma_ones_clear(mask: Seq<bool>, i: int)
    requires
        0 <= i < mask.len(),
        mask[i],
    ensures
        ones(mask.update(i, false)).len() == ones(mask).len() - 1,
    decreases mask.len(),
{
    let cleared = mask.update(i, false);
    if i == mask.len() - 1 {
        assert(cleared.drop_last() =~= mask.drop_last());
    } else {
        assert(cleared.drop_last() =~= mask.drop_last().update(i, false));
        lemma_ones_clear(mask.drop_last(), i);
    }
}

/// A string of the characters of `chars`, each folded to upper case.
fn upper_string(chars: &Vec<char>) -> (r: String)
    ensures
        r@ == upper_word(chars@),
{
    let mut r = String::new();
    let mut i: usize = 0;
    while i < chars.len()
        invariant
            i <= chars@.len(),
            r@ == upper_word(chars@.take(i as int)),
        decreases chars@.len() - i,
    {
        r.push(to_upper(chars[i]));
        assert(r@ =~= upper_word(chars@.take(i + 1)));
        i += 1;
    }
    assert(chars@.take(i as int) =~= chars@);
    r
}

} // verus!
