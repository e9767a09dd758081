//! The grid that holds the guesses made so far, with the feedback on each letter.

use vstd::prelude::*;
use crate::analyze::util::to_upper;
use crate::analyze::util::is_letter;
use crate::analyze::util::upper;
use crate::guess::known_word_constraints::CharKnowledge;

verus! {

/// One cell of a guess: a letter, if one was entered, and the feedback on it.
///
/// A cell without a letter has no feedback, and a letter is always held in
/// upper case.
#[derive(Copy, Clone, PartialEq, Eq, Debug)]
pub struct GuessChar {
    knowledge: CharKnowledge,
    ch: Option<char>,
}

impl Default for GuessChar {
    fn default() -> (r: Self)
        ensures
            r.spec_ch().is_none(),
            r.spec_knowledge() == CharKnowledge::Unknown,
    {
        GuessChar { knowledge: CharKnowledge::Unknown, ch: None }
    }
}

impl GuessChar {
    #[verifier::type_invariant]
    spec fn inv(&self) -> bool {
        self.well_formed()
    }

    /// What holds of every cell: no feedback without a letter, and the letter
    /// is an upper-case ASCII letter.
    pub open spec fn well_formed(&self) -> bool {
        &&& self.spec_ch() is None ==> self.spec_knowledge() == CharKnowledge::Unknown
        &&& self.spec_ch() matches Some(c) ==> ('A' <= c && c <= 'Z')
    }

    /// The letter of the cell.
    pub closed spec fn spec_ch(&self) -> Option<char> {
        self.ch
    }

    /// The feedback of the cell.
    pub closed spec fn spec_knowledge(&self) -> CharKnowledge {
        self.knowledge
    }

    /// Whether the cell has a letter and feedback on it.
    pub open spec fn filled(&self) -> bool {
        self.spec_ch() is Some && self.spec_knowledge() != CharKnowledge::Unknown
    }

    /// The letter of the cell, if it has one.
    #[verifier::when_used_as_spec(spec_ch)]
    pub fn ch(&self) -> (r: Option<char>)
        ensures
            r == self.spec_ch(),
            self.well_formed(),
    {
        proof {
            use_type_invariant(self);
        }
        self.ch
    }

    /// The feedback of the cell.
    #[verifier::when_used_as_spec(spec_knowledge)]
    pub fn knowledge(&self) -> (r: CharKnowledge)
        ensures
            r == self.spec_knowledge(),
            self.well_formed(),
    {
        proof {
            use_type_invariant(self);
        }
        self.knowledge
    }

    /// Sets the feedback of this cell, as long as it has a letter.
    pub fn set_knowledge(&mut self, knowledge: CharKnowledge)
        ensures
            final(self).spec_ch() == old(self).spec_ch(),
            final(self).spec_knowledge() == if old(self).spec_ch() is Some {
                knowledge
            } else {
                old(self).spec_knowledge()
            },
    {
        proof {
            use_type_invariant(&*self);
        }
        if let Some(_) = self.ch {
            self.knowledge = knowledge;
        }
    }

    /// Sets the letter, if `ch` is an ASCII letter, and says whether it was one.
    ///
    /// Letters are taken without regard to case and stored in upper case. A
    /// cell that holds the letter already stays as it is, feedback and all;
    /// any other cell gets the letter and its feedback goes back to `Unknown`.
    /// A character that is no letter changes nothing.
    pub fn set_ch(&mut self, ch: char) -> (r: bool)
        ensures
            r == is_letter(ch),
            !is_letter(ch) || old(self).spec_ch() == Some(upper(ch)) ==> *final(self) == *old(self),
            is_letter(ch) && old(self).spec_ch() != Some(upper(ch)) ==> final(self).spec_ch()
                == Some(upper(ch)) && final(self).spec_knowledge() == CharKnowledge::Unknown,
    {
        proof {
            use_type_invariant(&*self);
        }
        if !((ch >= 'A' && ch <= 'Z') || (ch >= 'a' && ch <= 'z')) {
            return false;
        }
        let letter = to_upper(ch);
        if let Some(held) = self.ch {
            if held == letter {
                return true;
            }
        }
        self.ch = Some(letter);
        self.knowledge = CharKnowledge::Unknown;
        true
    }

    /// Takes the letter out of the cell and returns it; the feedback goes back
    /// to `Unknown`.
    pub fn unset_ch(&mut self) -> (r: Option<char>)
        ensures
            r == old(self).spec_ch(),
            final(self).spec_ch().is_none(),
            final(self).spec_knowledge() == CharKnowledge::Unknown,
    {
        proof {
            use_type_invariant(&*self);
        }
        let old = self.ch;
        self.knowledge = CharKnowledge::Unknown;
        self.ch = None;
        old
    }
}

/// Whether every cell of `row` has a letter and feedback on it.
pub open spec fn fully_filled(row: Seq<GuessChar>) -> bool {
    forall|i: int| 0 <= i < row.len() ==> (#[trigger] row[i]).filled()
}

/// The number of rows at the start of `rows` that are fully filled.
pub open spec fn filled_prefix(rows: Seq<Seq<GuessChar>>) -> nat
    decreases rows.len(),
{
    if rows.len() == 0 || !fully_filled(rows[0]) {
        0
    } else {
        1 + filled_prefix(rows.drop_first())
    }
}

/// The letter of the last of `rows` that is marked `Correct` at position `i`.
pub open spec fn last_correct(rows: Seq<Seq<GuessChar>>, i: int) -> Option<char>
    decreases rows.len(),
{
    if rows.len() == 0 {
        None
    } else if rows.last()[i].spec_knowledge() == CharKnowledge::Correct {
        rows.last()[i].spec_ch()
    } else {
        last_correct(rows.drop_last(), i)
    }
}

/// `filled_prefix` is the index of the first row that is not fully filled.
pub proof fn lemma_filled_prefix(rows: Seq<Seq<GuessChar>>, k: int)
    requires
        0 <= k <= rows.len(),
        forall|j: int| 0 <= j < k ==> fully_filled(#[trigger] rows[j]),
        k < rows.len() ==> !fully_filled(rows[k]),
    ensures
        filled_prefix(rows) == k,
    decreases k,
{
    if k > 0 {
        let rest = rows.drop_first();
        assert forall|j: int| 0 <= j < k - 1 implies fully_filled(#[trigger] rest[j]) by {
            assert(rest[j] == rows[j + 1]);
        }
        if k < rows.len() {
            assert(rest[k - 1] == rows[k]);
        }
        lemma_filled_prefix(rest, k - 1);
    }
}

/// One guess: `N` cells.
#[derive(PartialEq, Eq, Debug)]
pub struct GuessStr<const N: usize> {
    guesses: Vec<GuessChar>,
}

impl<const N: usize> GuessStr<N> {
    #[verifier::type_invariant]
    spec fn inv(&self) -> bool {
        self.guesses@.len() == N
    }

    /// The cells of the row, left to right.
    pub closed spec fn view(&self) -> Seq<GuessChar> {
        self.guesses@
    }

    /// A row of `N` empty cells.
    pub fn new() -> (r: Self)
        ensures
            r@.len() == N,
            forall|i: int|
                0 <= i < N ==> (#[trigger] r@[i]).spec_ch().is_none() && r@[i].spec_knowledge()
                    == CharKnowledge::Unknown,
    {
        let mut guesses: Vec<GuessChar> = Vec::new();
        let mut i: usize = 0;
        while i < N
            invariant
                i <= N,
                guesses@.len() == i,
                forall|j: int|
                    0 <= j < i ==> (#[trigger] guesses@[j]).spec_ch().is_none()
                        && guesses@[j].spec_knowledge() == CharKnowledge::Unknown,
            decreases N - i,
        {
            guesses.push(GuessChar::default());
            i += 1;
        }
        GuessStr { guesses }
    }

    /// The cells of the row, left to right.
    pub fn guesses(&self) -> (r: &Vec<GuessChar>)
        ensures
            r@ == self@,
            r@.len() == N,
    {
        proof {
            use_type_invariant(self);
        }
        &self.guesses
    }

    /// The cell at `idx`, to be changed in place.
    pub fn guess_mut(&mut self, idx: usize) -> (r: &mut GuessChar)
        requires
            idx < N,
        ensures
            old(self)@.len() == N,
            *r == old(self)@[idx as int],
            final(self)@ == old(self)@.update(idx as int, *final(r)),
    {
        proof {
            use_type_invariant(&*self);
        }
        &mut self.guesses[idx]
    }

    /// Whether every cell has a letter and feedback on it.
    pub fn is_fully_filled(&self) -> (r: bool)
        ensures
            r == fully_filled(self@),
    {
        let mut i: usize = 0;
        while i < self.guesses.len()
            invariant
                i <= self.guesses@.len(),
                forall|j: int| 0 <= j < i ==> (#[trigger] self.guesses@[j]).filled(),
            decreases self.guesses@.len() - i,
        {
            let cell = &self.guesses[i];
            if cell.ch().is_none() || cell.knowledge().repr() == 0 {
                assert(!self@[i as int].filled());
                return false;
            }
            i += 1;
        }
        true
    }
}

impl<const N: usize> Default for GuessStr<N> {
    fn default() -> (r: Self)
        ensures
            r@.len() == N,
            forall|i: int|
                0 <= i < N ==> (#[trigger] r@[i]).spec_ch().is_none() && r@[i].spec_knowledge()
                    == CharKnowledge::Unknown,
    {
        GuessStr::new()
    }
}

/// The whole grid: `R` guesses of `N` cells each.
#[derive(PartialEq, Eq, Debug)]
pub struct GuessGrid<const N: usize, const R: usize> {
    guesses: Vec<GuessStr<N>>,
}

impl<const N: usize, const R: usize> GuessGrid<N, R> {
    #[verifier::type_invariant]
    spec fn inv(&self) -> bool {
        self.guesses@.len() == R
    }

    /// The rows of the grid, top to bottom, each as its cells.
    pub closed spec fn view(&self) -> Seq<Seq<GuessChar>> {
        Seq::new(self.guesses@.len(), |k: int| self.guesses@[k]@)
    }

    /// A grid of `R` empty rows.
    pub fn new() -> (r: Self)
        ensures
            r@.len() == R,
            forall|k: int, i: int|
                0 <= k < R && 0 <= i < N ==> (#[trigger] r@[k][i]).spec_ch().is_none()
                    && r@[k][i].spec_knowledge() == CharKnowledge::Unknown,
            forall|k: int| 0 <= k < R ==> (#[trigger] r@[k]).len() == N,
    {
        let mut guesses: Vec<GuessStr<N>> = Vec::new();
        let mut k: usize = 0;
        while k < R
            invariant
                k <= R,
                guesses@.len() == k,
                forall|j: int| 0 <= j < k ==> (#[trigger] guesses@[j])@.len() == N,
                forall|j: int, i: int|
                    0 <= j < k && 0 <= i < N ==> (#[trigger] guesses@[j]@[i]).spec_ch().is_none()
                        && guesses@[j]@[i].spec_knowledge() == CharKnowledge::Unknown,
            decreases R - k,
        {
            guesses.push(GuessStr::new());
            k += 1;
        }
        GuessGrid { guesses }
    }

    /// The rows of the grid, top to bottom.
    pub fn guesses(&self) -> (r: &Vec<GuessStr<N>>)
        ensures
            r@.len() == R,
            self@.len() == R,
            forall|k: int| 0 <= k < R ==> (#[trigger] r@[k])@ == self@[k],
    {
        proof {
            use_type_invariant(self);
        }
        &self.guesses
    }

    /// The row at `idx`, to be changed in place.
    pub fn guess_mut(&mut self, idx: usize) -> (r: &mut GuessStr<N>)
        requires
            idx < R,
        ensures
            r@ == old(self)@[idx as int],
            final(self)@ == old(self)@.update(idx as int, final(r)@),
    {
        proof {
            use_type_invariant(&*self);
        }
        &mut self.guesses[idx]
    }

    /// The rows of the grid, top to bottom, handed over.
    pub fn into_rows(self) -> (r: Vec<GuessStr<N>>)
        ensures
            r@.len() == R,
            self@.len() == R,
            forall|k: int| 0 <= k < R ==> (#[trigger] r@[k])@ == self@[k],
    {
        proof {
            use_type_invariant(&self);
        }
        self.guesses
    }

    /// The letters that are known by position: for each position, the letter
    /// of the last row that marks it `Correct`, among the rows before the first
    /// one that is not fully filled.
    pub fn known_chars(&self) -> (r: Vec<Option<char>>)
        ensures
            r@.len() == N,
            forall|i: int|
                0 <= i < N ==> #[trigger] r@[i] == last_correct(
                    self@.take(filled_prefix(self@) as int),
                    i,
                ),
    {
        proof {
            use_type_invariant(self);
        }
        let mut result: Vec<Option<char>> = Vec::new();
        let mut i: usize = 0;
        while i < N
            invariant
                i <= N,
                result@.len() == i,
                forall|j: int| 0 <= j < i ==> #[trigger] result@[j] == None::<char>,
            decreases N - i,
        {
            result.push(None);
            i += 1;
        }
        let mut k: usize = 0;
        let mut go = true;
        while go && k < R
            invariant
                k <= R,
                self.guesses@.len() == R,
                self@.len() == R,
                result@.len() == N,
                forall|j: int| 0 <= j < k ==> fully_filled(#[trigger] self@[j]),
                !go ==> k < R && !fully_filled(self@[k as int]),
                forall|i: int|
                    0 <= i < N ==> #[trigger] result@[i] == last_correct(self@.take(k as int), i),
            decreases R - k + if go { 1int } else { 0int },
        {
            let row = &self.guesses[k];
            if !row.is_fully_filled() {
                go = false;
            } else {
                let cells = row.guesses();
                let ghost before = result@;
                let mut i: usize = 0;
                while i < N
                    invariant
                        i <= N,
                        cells@.len() == N,
                        cells@ == self@[k as int],
                        k < R,
                        self@.len() == R,
                        result@.len() == N,
                        before.len() == N,
                        forall|j: int| i <= j < N ==> #[trigger] result@[j] == before[j],
                        forall|j: int|
                            0 <= j < i ==> #[trigger] result@[j] == if cells@[j].spec_knowledge()
                                == CharKnowledge::Correct {
                                cells@[j].spec_ch()
                            } else {
                                before[j]
                            },
                    decreases N - i,
                {
                    let cell = &cells[i];
                    if cell.knowledge().repr() == 2 {
                        result[i] = cell.ch();
                    }
                    i += 1;
                }
                proof {
                    let next = self@.take(k + 1);
                    assert(next.drop_last() =~= self@.take(k as int));
                    assert(next.last() == self@[k as int]);
                }
                k += 1;
            }
        }
        proof {
            lemma_filled_prefix(self@, k as int);
        }
        result
    }
}

} // verus!
