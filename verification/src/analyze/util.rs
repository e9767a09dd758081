//! Counting and membership over the 26 letters, without hashing.

use vstd::prelude::*;
use vstd::std_specs::iter::IteratorSpec;

verus! {

/// `String::push` appends one character to the end of the string.
pub assume_specification[ String::push ](s: &mut String, ch: char)
    ensures
        final(s)@ == old(s)@.push(ch),
;

/// The distinct letters of `word`, case folded.
pub fn uniq_chars(word: &str) -> (r: CharsSet)
    ensures
        r@ == counts_of(word@),
{
    CharsSet { counts: chars_count(word) }
}

/// Counts the letters of `chars`, case folded; other characters are skipped.
pub fn chars_count(chars: &str) -> (r: CharsCount)
    ensures
        r@ == counts_of(chars@),
{
    let text = to_chars(chars);
    count_letters(&text)
}

/// Counts the letters of `chars`, case folded; other characters are skipped.
pub fn count_letters(chars: &Vec<char>) -> (r: CharsCount)
    ensures
        r@ == counts_of(chars@),
{
    let mut r = CharsCount::new();
    let mut i: usize = 0;
    while i < chars.len()
        invariant
            i <= chars.len(),
            r@ == counts_of(chars@.take(i as int)),
        decreases chars.len() - i,
    {
        assert(chars@.take(i + 1).drop_last() =~= chars@.take(i as int));
        r.increment(chars[i]);
        i += 1;
    }
    assert(chars@.take(i as int) =~= chars@);
    r
}

/// The characters of `s`, one by one.
pub fn to_chars(s: &str) -> (r: Vec<char>)
    ensures
        r@ == s@,
{
    let mut r: Vec<char> = Vec::new();
    for c in it: s.chars()
        invariant
            it.seq() == s@,
            r@ == s@.take(it.index()),
    {
        assert(s@.take(it.index() + 1) =~= s@.take(it.index()).push(c));
        r.push(c);
    }
    assert(s@.take(s@.len() as int) =~= s@);
    r
}

/// Number of letters that the counters cover.
pub const NUM_CHARS: usize = 26;

/// Whether `ch` is one of the ASCII letters, in either case.
pub open spec fn is_letter(ch: char) -> bool {
    ('A' <= ch && ch <= 'Z') || ('a' <= ch && ch <= 'z')
}

/// `ch` with ASCII lower case folded to upper case; other characters unchanged.
pub open spec fn upper(ch: char) -> char {
    if 'a' <= ch && ch <= 'z' {
        ((ch as int) - 32) as char
    } else {
        ch
    }
}

/// The counter slot of a letter: 0 for `A`/`a` up to 25 for `Z`/`z`.
pub open spec fn slot(ch: char) -> int
    recommends
        is_letter(ch),
{
    upper(ch) as int - 65
}

/// The upper-case letter that slot `k` stands for.
pub open spec fn letter_at(k: int) -> char
    recommends
        0 <= k < NUM_CHARS,
{
    (k + 65) as char
}

/// A counter value after one more occurrence; it stays at `usize::MAX` once there.
pub open spec fn bump(c: usize) -> usize {
    if c < usize::MAX {
        (c + 1) as usize
    } else {
        c
    }
}

/// A counter value after one occurrence is taken away; it stays at zero once there.
pub open spec fn drop_one(c: usize) -> usize {
    if c > 0 {
        (c - 1) as usize
    } else {
        c
    }
}

/// The counters after every character of `s` has been counted, starting from all zero.
pub open spec fn counts_of(s: Seq<char>) -> Seq<usize>
    decreases s.len(),
{
    if s.len() == 0 {
        Seq::new(NUM_CHARS as nat, |k: int| 0usize)
    } else {
        let before = counts_of(s.drop_last());
        if is_letter(s.last()) {
            before.update(slot(s.last()), bump(before[slot(s.last())]))
        } else {
            before
        }
    }
}

/// How many characters of `s` are the letter of slot `k`, in either case.
pub open spec fn occurrences(s: Seq<char>, k: int) -> nat
    decreases s.len(),
{
    if s.len() == 0 {
        0
    } else {
        occurrences(s.drop_last(), k) + if is_letter(s.last()) && slot(s.last()) == k {
            1nat
        } else {
            0nat
        }
    }
}

/// The letters with a nonzero counter from slot `from` on, in ascending order.
pub open spec fn present_from(counts: Seq<usize>, from: int) -> Seq<char>
    decreases NUM_CHARS - from,
{
    if from < 0 || from >= NUM_CHARS {
        Seq::empty()
    } else if counts[from] > 0 {
        seq![letter_at(from)] + present_from(counts, from + 1)
    } else {
        present_from(counts, from + 1)
    }
}

/// What `present_from` lists: exactly the upper-case letters from slot `from`
/// on whose counter is not zero, each once, in ascending order.
pub proof fn lemma_present_from(counts: Seq<usize>, from: int)
    requires
        counts.len() == NUM_CHARS,
        0 <= from <= NUM_CHARS,
    ensures
        forall|c: char|
            present_from(counts, from).contains(c) <==> ('A' <= c && c <= 'Z' && slot(c) >= from
                && counts[slot(c)] > 0),
        forall|i: int, j: int|
            0 <= i < j < present_from(counts, from).len() ==> present_from(counts, from)[i]
                < present_from(counts, from)[j],
        forall|i: int|
            0 <= i < present_from(counts, from).len() ==> slot(
                #[trigger] present_from(counts, from)[i],
            ) >= from,
    decreases NUM_CHARS - from,
{
    if from < NUM_CHARS {
        lemma_present_from(counts, from + 1);
        let rest = present_from(counts, from + 1);
        let all = present_from(counts, from);
        if counts[from] > 0 {
            let head = letter_at(from);
            assert(all == seq![head] + rest);
            assert(all[0] == head);
            assert('A' <= head && head <= 'Z' && slot(head) == from);
            assert forall|c: char| all.contains(c) <==> ('A' <= c && c <= 'Z' && slot(c) >= from
                && counts[slot(c)] > 0) by {
                if all.contains(c) {
                    let i = choose|i: int| 0 <= i < all.len() && all[i] == c;
                    if i > 0 {
                        assert(rest[i - 1] == c);
                        assert(rest.contains(c));
                    }
                }
                if 'A' <= c && c <= 'Z' && slot(c) >= from && counts[slot(c)] > 0 {
                    if slot(c) == from {
                        assert(all[0] == c);
                    } else {
                        assert(rest.contains(c));
                        let i = choose|i: int| 0 <= i < rest.len() && rest[i] == c;
                        assert(all[i + 1] == c);
                    }
                }
            }
            assert forall|i: int, j: int| 0 <= i < j < all.len() implies all[i] < all[j] by {
                if i > 0 {
                    assert(all[i] == rest[i - 1]);
                }
                assert(all[j] == rest[j - 1]);
            }
            assert forall|i: int| 0 <= i < all.len() implies slot(#[trigger] all[i]) >= from by {
                if i > 0 {
                    assert(all[i] == rest[i - 1]);
                }
            }
        } else {
            assert(all == rest);
        }
    }
}

/// `counts_of` always yields one counter per letter.
pub proof fn lemma_counts_of_len(s: Seq<char>)
    ensures
        counts_of(s).len() == NUM_CHARS,
    decreases s.len(),
{
    if s.len() > 0 {
        lemma_counts_of_len(s.drop_last());
    }
}

/// Each counter of `counts_of` is the number of occurrences of its letter,
/// capped at `usize::MAX`.
pub proof fn lemma_counts_of_occurrences(s: Seq<char>, k: int)
    requires
        0 <= k < NUM_CHARS,
    ensures
        occurrences(s, k) <= s.len(),
        counts_of(s)[k] as nat == if occurrences(s, k) <= usize::MAX {
            occurrences(s, k)
        } else {
            usize::MAX as nat
        },
    decreases s.len(),
{
    if s.len() > 0 {
        lemma_counts_of_len(s.drop_last());
        lemma_counts_of_occurrences(s.drop_last(), k);
    }
}

/// Whether `ch` is an ASCII letter, in either case.
pub fn is_ascii_letter(ch: char) -> (r: bool)
    ensures
        r == is_letter(ch),
{
    (ch >= 'A' && ch <= 'Z') || (ch >= 'a' && ch <= 'z')
}

/// Folds an ASCII lower-case letter to upper case and leaves every other
/// character as it is.
pub fn to_upper(ch: char) -> (r: char)
    ensures
        r == upper(ch),
{
    if ch >= 'a' && ch <= 'z' {
        let code: u8 = ch as u8;
        (code - 32) as char
    } else {
        ch
    }
}

/// The counter slot of the letter `ch`.
pub fn slot_of(ch: char) -> (r: usize)
    requires
        is_letter(ch),
    ensures
        r == slot(ch),
        r < NUM_CHARS,
{
    let up = to_upper(ch);
    let code: u8 = up as u8;
    (code - 65) as usize
}

/// The upper-case letter of slot `k`.
pub fn letter_of(k: usize) -> (r: char)
    requires
        k < NUM_CHARS,
    ensures
        r == letter_at(k as int),
        is_letter(r),
        slot(r) == k,
        upper(r) == r,
{
    let code: u8 = (k as u8) + 65;
    code as char
}

/// The character of the decimal digit `d`.
pub open spec fn digit_char(d: nat) -> char
    recommends
        d < 10,
{
    (d + 48) as char
}

/// The decimal digits of `n`, the highest first, without leading zeros.
pub open spec fn decimal(n: nat) -> Seq<char>
    decreases n,
{
    if n < 10 {
        seq![digit_char(n)]
    } else {
        decimal(n / 10).push(digit_char(n % 10))
    }
}

/// `n` written in decimal digits.
pub fn decimal_string(n: usize) -> (r: String)
    ensures
        r@ == decimal(n as nat),
    decreases n,
{
    let digit: u8 = (n % 10) as u8;
    let ch = (digit + 48) as char;
    if n < 10 {
        let mut r = String::new();
        r.push(ch);
        assert(r@ =~= seq![digit_char(n as nat)]);
        r
    } else {
        let mut r = decimal_string(n / 10);
        r.push(ch);
        r
    }
}

/// Twenty-six counters, all zero.
fn zeroed() -> (r: [usize; 26])
    ensures
        forall|k: int| 0 <= k < 26 ==> #[trigger] r@[k] == 0,
{
    let r = [0usize; 26];
    proof {
        vstd::array::axiom_spec_array_fill_for_copy_type::<usize, 26>(0usize);
    }
    r
}

/// One counter for each of the 26 letters.
#[derive(Copy, Clone, PartialEq, Eq, Debug)]
pub struct CharsCount {
    counts: [usize; 26],
}

impl Default for CharsCount {
    /// Counters that are all zero.
    fn default() -> (r: Self)
        ensures
            r@ == counts_of(Seq::empty()),
    {
        CharsCount::new()
    }
}

impl CharsCount {
    /// The counter of slot `k`.
    pub closed spec fn count_at(&self, k: int) -> usize {
        self.counts@[k]
    }

    /// The 26 counters, slot by slot.
    pub open spec fn view(&self) -> Seq<usize> {
        Seq::new(NUM_CHARS as nat, |k: int| self.count_at(k))
    }

    /// The count recorded for `ch`: zero for anything that is not a letter.
    pub open spec fn spec_get(&self, ch: char) -> usize {
        if is_letter(ch) {
            self@[slot(ch)]
        } else {
            0
        }
    }

    /// Counters that are all zero.
    pub fn new() -> (r: Self)
        ensures
            r@ == counts_of(Seq::empty()),
    {
        let r = CharsCount { counts: zeroed() };
        assert(r@ =~= counts_of(Seq::empty()));
        r
    }

    /// The count recorded for `ch`: zero for anything that is not a letter.
    #[inline]
    pub fn get(&self, ch: char) -> (r: usize)
        ensures
            r == self.spec_get(ch),
    {
        if !is_ascii_letter(ch) {
            return 0;
        }
        self.counts[slot_of(ch)]
    }

    /// A handle on the counter of `ch`, or `None` when `ch` is not a letter.
    #[inline]
    pub fn get_mut(&mut self, ch: char) -> (r: Option<&mut usize>)
        ensures
            r.is_some() == is_letter(ch),
            !is_letter(ch) ==> final(self)@ == old(self)@,
            r matches Some(c) ==> (*c == old(self)@[slot(ch)] && final(self)@ == old(self)@.update(
                slot(ch),
                *final(c),
            )),
    {
        if !is_ascii_letter(ch) {
            return None;
        }
        let k = slot_of(ch);
        Some(&mut self.counts[k])
    }

    /// Counts one more occurrence of the letter `ch`; anything that is not a letter
    /// is passed over. A counter that has reached `usize::MAX` stays there.
    #[inline]
    pub fn increment(&mut self, ch: char)
        ensures
            is_letter(ch) ==> final(self)@ == old(self)@.update(
                slot(ch),
                bump(old(self)@[slot(ch)]),
            ),
            !is_letter(ch) ==> final(self)@ == old(self)@,
    {
        if is_ascii_letter(ch) {
            let k = slot_of(ch);
            let c = self.counts[k];
            if c < usize::MAX {
                self.counts[k] = c + 1;
            }
            assert(self@ =~= old(self)@.update(slot(ch), bump(old(self)@[slot(ch)])));
        } else {
            assert(self@ =~= old(self)@);
        }
    }

    /// Takes one occurrence of the letter `ch` away; anything that is not a letter
    /// is passed over. A counter that is zero stays zero.
    #[inline]
    pub fn decrement(&mut self, ch: char)
        ensures
            is_letter(ch) ==> final(self)@ == old(self)@.update(
                slot(ch),
                drop_one(old(self)@[slot(ch)]),
            ),
            !is_letter(ch) ==> final(self)@ == old(self)@,
    {
        if is_ascii_letter(ch) {
            let k = slot_of(ch);
            let c = self.counts[k];
            if c > 0 {
                self.counts[k] = c - 1;
            }
            assert(self@ =~= old(self)@.update(slot(ch), drop_one(old(self)@[slot(ch)])));
        } else {
            assert(self@ =~= old(self)@);
        }
    }

    /// Sets every counter back to zero.
    #[inline]
    pub fn reset_all(&mut self)
        ensures
            final(self)@ == counts_of(Seq::empty()),
    {
        self.counts = zeroed();
        assert(self@ =~= counts_of(Seq::empty()));
    }
}

/// A set of letters: the letters whose counter is not zero.
pub struct CharsSet {
    counts: CharsCount,
}

impl CharsSet {
    /// The counters behind the set.
    pub closed spec fn view(&self) -> Seq<usize> {
        self.counts@
    }

    /// Whether the letter `ch` is in the set; never true for a character that
    /// is not a letter.
    pub open spec fn spec_contains(&self, ch: char) -> bool {
        is_letter(ch) && self@[slot(ch)] > 0
    }

    /// The letters of the set in ascending order, upper case.
    pub open spec fn letters(&self) -> Seq<char> {
        present_from(self@, 0)
    }

    /// Whether the letter `ch` is in the set, in either case.
    pub fn contains(&self, ch: char) -> (r: bool)
        ensures
            r == self.spec_contains(ch),
    {
        self.counts.get(ch) > 0
    }

    /// A cursor over the letters of the set, in ascending order.
    pub fn into_iter(self) -> (r: CharsIter)
        ensures
            r@ == self.letters(),
    {
        CharsIter::new(self.counts)
    }
}

/// A cursor over the letters with a nonzero counter, in ascending order.
pub struct CharsIter {
    counts: CharsCount,
    next_idx: usize,
}

impl CharsIter {
    #[verifier::type_invariant]
    spec fn settled(&self) -> bool {
        self.next_idx <= NUM_CHARS && (self.next_idx < NUM_CHARS ==> self.counts.count_at(
            self.next_idx as int,
        ) > 0)
    }

    /// The letters that are still to come, in the order in which `next` hands
    /// them out.
    pub closed spec fn view(&self) -> Seq<char> {
        present_from(self.counts@, self.next_idx as int)
    }

    /// A cursor that stands before the first letter of `counts`.
    fn new(counts: CharsCount) -> (r: Self)
        ensures
            r@ == present_from(counts@, 0),
    {
        let k = find_next(&counts, 0);
        CharsIter { counts, next_idx: k }
    }

    /// The next letter, or `None` when every letter has been handed out.
    pub fn next(&mut self) -> (r: Option<char>)
        ensures
            old(self)@.len() == 0 ==> r.is_none() && final(self)@ == old(self)@,
            old(self)@.len() > 0 ==> r == Some(old(self)@[0]) && final(self)@ == old(self)@.drop_first(),
    {
        proof {
            use_type_invariant(&*self);
        }
        if self.next_idx >= NUM_CHARS {
            return None;
        }
        let result = letter_of(self.next_idx);
        let k = find_next(&self.counts, self.next_idx + 1);
        proof {
            let rest = present_from(self.counts@, self.next_idx + 1);
            assert((seq![result] + rest).drop_first() =~= rest);
        }
        self.next_idx = k;
        Some(result)
    }
}

/// The first slot from `from` on whose counter is not zero, or `NUM_CHARS`.
fn find_next(counts: &CharsCount, from: usize) -> (r: usize)
    requires
        from <= NUM_CHARS,
    ensures
        from <= r <= NUM_CHARS,
        r < NUM_CHARS ==> counts@[r as int] > 0,
        present_from(counts@, r as int) == present_from(counts@, from as int),
{
    let mut k = from;
    while k < NUM_CHARS && counts.counts[k] == 0
        invariant
            from <= k <= NUM_CHARS,
            present_from(counts@, k as int) == present_from(counts@, from as int),
        decreases NUM_CHARS - k,
    {
        k += 1;
    }
    k
}

} // verus!
