//! Editing the grid: where the cursor stands, what a key does to the grid,
//! and when a row is handed in.

use vstd::prelude::*;
use crate::guess::guesses::GuessChar;
use crate::guess::guesses::GuessGrid;
use crate::guess::guesses::filled_prefix;
use crate::guess::guesses::last_correct;
use crate::guess::known_word_constraints::CharKnowledge;
use crate::guess::known_word_constraints::KnowledgeView;
use crate::guess::known_word_constraints::KnownWordConstraints;
use crate::analyze::util::is_letter;
use crate::analyze::util::upper;
use crate::word_list::WordFreq;
use crate::word_list::WordList;
use crate::word_list::possible;

verus! {

/// Whether stepping over an end of the range goes round to the other end.
pub const WRAP: bool = true;

/// Whether stepping over an end of the range stops at that end.
pub const NO_WRAP: bool = false;

/// The index one step from `u` within `0..max_exclusive`: one up or one down.
/// A step that leaves the range goes round to the other end where `wrap`, and
/// stays at the end otherwise.
pub open spec fn stepped(u: int, max_exclusive: int, up: bool, wrap: bool) -> int {
    if up {
        if u >= usize::MAX {
            if wrap {
                max_exclusive - 1
            } else {
                0
            }
        } else if wrap {
            (u + 1) % max_exclusive
        } else if u + 1 < max_exclusive {
            u + 1
        } else {
            max_exclusive - 1
        }
    } else {
        if u <= 0 {
            if wrap {
                max_exclusive - 1
            } else {
                0
            }
        } else if wrap {
            (u - 1) % max_exclusive
        } else if u - 1 < max_exclusive {
            u - 1
        } else {
            max_exclusive - 1
        }
    }
}

/// The index one step from `u` within `0..max_exclusive`.
pub fn incr_usize(u: usize, max_exclusive: usize, up: bool, wrap: bool) -> (r: usize)
    requires
        max_exclusive > 0,
    ensures
        r == stepped(u as int, max_exclusive as int, up, wrap),
        r < max_exclusive,
{
    let moved = if up {
        u.checked_add(1)
    } else {
        u.checked_sub(1)
    };
    match moved {
        Some(incremented) => {
            if wrap {
                incremented % max_exclusive
            } else if incremented < max_exclusive {
                incremented
            } else {
                max_exclusive - 1
            }
        },
        None => {
            if wrap {
                max_exclusive - 1
            } else {
                0
            }
        },
    }
}

/// A key, as far as editing the grid goes.
#[derive(Clone, Copy, PartialEq, Eq, Structural, Debug)]
pub enum EditKey {
    /// Move on to the next feedback class.
    Up,
    /// Move back to the feedback class before.
    Down,
    /// Move the cursor one cell to the right.
    Right,
    /// Move the cursor one cell to the left.
    Left,
    /// Hand the row in.
    Enter,
    /// Take the letter out of the cell.
    Delete,
    /// Put a character into the cell.
    Character(char),
    /// Any other key.
    Other,
}

/// What a key did.
#[derive(Clone, Copy, PartialEq, Eq, Structural, Debug)]
pub enum EditOutcome {
    /// The key was taken; the grid is to be drawn again.
    Handled,
    /// The key was taken but could not be obeyed; the refusal is to be shown.
    Refused,
    /// The key is not for the grid.
    Passed,
}

/// The grid under edit, with the cursor and the words that are still
/// possible.
pub struct GuessEditor<const N: usize, const R: usize> {
    grid: GuessGrid<N, R>,
    active_row: usize,
    active_col: usize,
    has_new_knowledge: bool,
    possible_words: WordList<N>,
    current_row_inference: Vec<Option<char>>,
}

/// Whether every cell of `row` is marked `Correct`.
pub open spec fn all_correct(row: Seq<GuessChar>) -> bool {
    forall|i: int| 0 <= i < row.len() ==> (#[trigger] row[i]).spec_knowledge() == CharKnowledge::Correct
}

/// Whether some cell of `row` has no feedback.
pub open spec fn any_unknown(row: Seq<GuessChar>) -> bool {
    exists|i: int| 0 <= i < row.len() && (#[trigger] row[i]).spec_knowledge() == CharKnowledge::Unknown
}

/// The first position of `row` that is not marked `Correct`, from `from` on;
/// the length of the row if there is none.
pub open spec fn first_open(row: Seq<GuessChar>, from: int) -> int
    decreases row.len() - from,
{
    if from < 0 || from >= row.len() {
        row.len() as int
    } else if row[from].spec_knowledge() != CharKnowledge::Correct {
        from
    } else {
        first_open(row, from + 1)
    }
}

/// What stands in a cell after the letter `inferred`, if there is one, is
/// written into it as `Correct`, in upper case. A cell for which no letter is
/// known stays as it is.
pub open spec fn seeded_cell(cell: GuessChar, inferred: Option<char>) -> (
    Option<char>,
    CharKnowledge,
) {
    match inferred {
        None => (cell.spec_ch(), cell.spec_knowledge()),
        Some(ch) => {
            let letter = if is_letter(ch) {
                Some(upper(ch))
            } else {
                cell.spec_ch()
            };
            (
                letter,
                if letter is Some {
                    CharKnowledge::Correct
                } else {
                    cell.spec_knowledge()
                },
            )
        },
    }
}

/// Where to look for the first cell that is not `Correct`: a cell before
/// which all are `Correct`.
pub proof fn lemma_first_open(row: Seq<GuessChar>, at: int)
    requires
        0 <= at <= row.len(),
        forall|j: int| 0 <= j < at ==> (#[trigger] row[j]).spec_knowledge() == CharKnowledge::Correct,
        at < row.len() ==> row[at].spec_knowledge() != CharKnowledge::Correct,
    ensures
        first_open(row, 0) == at,
{
    lemma_first_open_from(row, 0, at);
}

/// The same, looking from `from` on.
proof fn lemma_first_open_from(row: Seq<GuessChar>, from: int, at: int)
    requires
        0 <= from <= at <= row.len(),
        forall|j: int| from <= j < at ==> (#[trigger] row[j]).spec_knowledge() == CharKnowledge::Correct,
        at < row.len() ==> row[at].spec_knowledge() != CharKnowledge::Correct,
    ensures
        first_open(row, from) == at,
    decreases at - from,
{
    if from < at {
        lemma_first_open_from(row, from + 1, at);
    }
}

impl<const N: usize, const R: usize> GuessEditor<N, R> {
    #[verifier::type_invariant]
    spec fn inv(&self) -> bool {
        &&& self.active_row < R
        &&& self.active_col < N
        &&& self.current_row_inference@.len() == N
    }

    /// The grid.
    pub closed spec fn rows(&self) -> Seq<Seq<GuessChar>> {
        self.grid@
    }

    /// The row that the cursor stands in.
    pub closed spec fn row(&self) -> int {
        self.active_row as int
    }

    /// The column that the cursor stands in.
    pub closed spec fn col(&self) -> int {
        self.active_col as int
    }

    /// Whether the grid has changed since the possible words were last asked
    /// for.
    pub closed spec fn fresh(&self) -> bool {
        self.has_new_knowledge
    }

    /// The words that agree with the rows that were handed in.
    pub closed spec fn words(&self) -> Seq<WordFreq> {
        self.possible_words@
    }

    /// The letters that the rows handed in so far fix, by position.
    pub closed spec fn inference(&self) -> Seq<Option<char>> {
        self.current_row_inference@
    }

    /// The cell under the cursor.
    pub open spec fn cell(&self) -> GuessChar {
        self.rows()[self.row()][self.col()]
    }

    /// What holds of every editor: the cursor stands within the grid.
    pub open spec fn well_formed(&self) -> bool {
        &&& self.rows().len() == R
        &&& 0 <= self.row() < R
        &&& 0 <= self.col() < N
        &&& self.rows()[self.row()].len() == N
        &&& self.inference().len() == N
    }

    /// Whether `after` is `before` with nothing changed but the cell under
    /// the cursor, the column of the cursor and the mark of a fresh change.
    pub open spec fn same_but_cell(before: &Self, after: &Self) -> bool {
        &&& before.well_formed()
        &&& after.well_formed()
        &&& after.row() == before.row()
        &&& after.words() == before.words()
        &&& after.inference() == before.inference()
        &&& after.rows() == before.rows().update(
            before.row(),
            before.rows()[before.row()].update(
                before.col(),
                after.rows()[before.row()][before.col()],
            ),
        )
    }

    /// Whether `after` is `before` with the cursor moved one cell to the
    /// right or to the left, going round at the ends of the row.
    pub open spec fn moved(before: &Self, after: &Self, right: bool) -> bool {
        &&& after.col() == stepped(before.col(), N as int, right, WRAP)
        &&& after.row() == before.row()
        &&& after.rows() == before.rows()
        &&& after.fresh() == before.fresh()
        &&& after.words() == before.words()
        &&& after.inference() == before.inference()
    }

    /// Whether `after` is `before` with the feedback of the cell under the
    /// cursor moved on in the cycle, or back, if the cell has a letter. The
    /// change is marked as fresh in either case.
    pub open spec fn cycled(before: &Self, after: &Self, up: bool) -> bool {
        &&& Self::same_but_cell(before, after)
        &&& after.fresh()
        &&& after.col() == before.col()
        &&& after.cell().spec_ch() == before.cell().spec_ch()
        &&& after.cell().spec_knowledge() == if before.cell().spec_ch() is Some {
            before.cell().spec_knowledge().spec_cycle(up)
        } else {
            before.cell().spec_knowledge()
        }
    }

    /// Whether `after` is `before` with the letter taken out of the cell
    /// under the cursor, or, where the cell has no letter, with the cursor
    /// moved one cell to the left.
    pub open spec fn deleted(before: &Self, after: &Self) -> bool {
        if before.cell().spec_ch() is Some {
            &&& Self::same_but_cell(before, after)
            &&& after.fresh()
            &&& after.col() == before.col()
            &&& after.cell().spec_ch().is_none()
            &&& after.cell().spec_knowledge() == CharKnowledge::Unknown
        } else {
            &&& before.well_formed()
            &&& Self::moved(before, after, false)
        }
    }

    /// Whether `after` is `before` with `ch` typed into the cell under the
    /// cursor: nothing changes unless `ch` is a letter; if it is, the letter
    /// stands in the cell, in upper case, and the cursor has moved one cell to
    /// the right.
    ///
    /// The cell loses its feedback, unless it held the letter already, in
    /// whichever case it is typed. A letter that the rows handed in so far fix
    /// at this position is marked `Correct` at once. The change is marked as
    /// fresh if the cell had feedback before.
    pub open spec fn typed(before: &Self, after: &Self, ch: char) -> bool {
        if is_letter(ch) {
            let was = before.cell();
            let now = after.rows()[before.row()][before.col()];
            let kept = was.spec_ch() == Some(upper(ch));
            &&& Self::same_but_cell(before, after)
            &&& after.col() == stepped(before.col(), N as int, true, WRAP)
            &&& after.fresh() == (before.fresh() || was.spec_knowledge() != CharKnowledge::Unknown)
            &&& now.spec_ch() == Some(upper(ch))
            &&& now.spec_knowledge() == if before.inference()[before.col()] == now.spec_ch() {
                CharKnowledge::Correct
            } else if kept {
                was.spec_knowledge()
            } else {
                CharKnowledge::Unknown
            }
        } else {
            &&& before.well_formed()
            &&& Self::unchanged(before, after)
        }
    }

    /// Whether `after` is `before`.
    pub open spec fn unchanged(before: &Self, after: &Self) -> bool {
        &&& after.rows() == before.rows()
        &&& after.row() == before.row()
        &&& after.col() == before.col()
        &&& after.fresh() == before.fresh()
        &&& after.words() == before.words()
        &&& after.inference() == before.inference()
    }

    /// Whether the row under the cursor cannot be handed in: a cell has no
    /// feedback yet, or there is no row left to move on to.
    pub open spec fn blocked(before: &Self) -> bool {
        ||| any_unknown(before.rows()[before.row()])
        ||| before.row() + 1 > N
        ||| before.row() + 1 >= R
    }

    /// The letters that the rows of `before` fix, by position.
    pub open spec fn known(before: &Self) -> Seq<Option<char>> {
        Seq::new(
            N as nat,
            |i: int| last_correct(before.rows().take(filled_prefix(before.rows()) as int), i),
        )
    }

    /// Whether `after` is `before` with the row under the cursor handed in
    /// and the cursor moved on to the next row.
    ///
    /// The possible words are filtered by what the grid says. The letters
    /// that the rows fix are written into the new row as `Correct`, and the
    /// cursor stands on the first cell of the new row that is not `Correct`,
    /// or on the first cell if all are.
    pub open spec fn advanced(before: &Self, after: &Self) -> bool {
        let next = before.row() + 1;
        let open = first_open(after.rows()[next], 0);
        &&& before.well_formed()
        &&& after.well_formed()
        &&& after.row() == next
        &&& after.fresh() == before.fresh()
        &&& after.words() == possible(
            before.words(),
            KnowledgeView::of_rows(before.rows(), N as nat),
        )
        &&& after.inference() == Self::known(before)
        &&& forall|k: int| 0 <= k < R && k != next ==> #[trigger] after.rows()[k] == before.rows()[k]
        &&& forall|i: int|
            0 <= i < N ==> (#[trigger] after.rows()[next][i]).spec_ch() == seeded_cell(
                before.rows()[next][i],
                Self::known(before)[i],
            ).0 && after.rows()[next][i].spec_knowledge() == seeded_cell(
                before.rows()[next][i],
                Self::known(before)[i],
            ).1
        &&& after.col() == if open < N {
            open
        } else {
            0
        }
    }

    /// Whether `after` and `outcome` are what handing in the row under the
    /// cursor of `before` gives: a refusal where the row cannot be handed in;
    /// nothing where all of the row is `Correct`, since the word is found;
    /// and the move to the next row otherwise.
    pub open spec fn entered(before: &Self, after: &Self, outcome: EditOutcome) -> bool {
        if Self::blocked(before) {
            outcome == EditOutcome::Refused && Self::unchanged(before, after)
        } else if all_correct(before.rows()[before.row()]) {
            outcome == EditOutcome::Handled && Self::unchanged(before, after)
        } else {
            outcome == EditOutcome::Handled && Self::advanced(before, after)
        }
    }

    /// Whether `after` and `outcome` are what the key `key` makes of
    /// `before`.
    pub open spec fn keyed(before: &Self, after: &Self, key: EditKey, outcome: EditOutcome) -> bool {
        match key {
            EditKey::Up => outcome == EditOutcome::Handled && Self::cycled(before, after, true),
            EditKey::Down => outcome == EditOutcome::Handled && Self::cycled(before, after, false),
            EditKey::Right => outcome == EditOutcome::Handled && Self::moved(before, after, true),
            EditKey::Left => outcome == EditOutcome::Handled && Self::moved(before, after, false),
            EditKey::Enter => Self::entered(before, after, outcome),
            EditKey::Delete => outcome == EditOutcome::Handled && Self::deleted(before, after),
            EditKey::Character(ch) => if is_letter(ch) {
                outcome == EditOutcome::Handled && Self::typed(before, after, ch)
            } else {
                outcome == EditOutcome::Passed && Self::unchanged(before, after)
            },
            EditKey::Other => outcome == EditOutcome::Passed && Self::unchanged(before, after),
        }
    }

    /// An editor with an empty grid, the cursor in its first cell, and
    /// `possible_words` as the words to choose from.
    pub fn new(possible_words: WordList<N>) -> (r: Self)
        requires
            N > 0,
            R > 0,
        ensures
            r.well_formed(),
            r.row() == 0,
            r.col() == 0,
            r.fresh(),
            r.words() == possible_words@,
            forall|k: int, i: int|
                0 <= k < R && 0 <= i < N ==> (#[trigger] r.rows()[k][i]).spec_ch().is_none()
                    && r.rows()[k][i].spec_knowledge() == CharKnowledge::Unknown,
            forall|i: int| 0 <= i < N ==> (#[trigger] r.inference()[i]) is None,
    {
        let mut current_row_inference: Vec<Option<char>> = Vec::new();
        let mut i: usize = 0;
        while i < N
            invariant
                i <= N,
                current_row_inference@.len() == i,
                forall|j: int| 0 <= j < i ==> (#[trigger] current_row_inference@[j]) is None,
            decreases N - i,
        {
            current_row_inference.push(None);
            i += 1;
        }
        GuessEditor {
            grid: GuessGrid::new(),
            active_row: 0,
            active_col: 0,
            has_new_knowledge: true,
            possible_words,
            current_row_inference,
        }
    }

    /// The grid.
    pub fn grid(&self) -> (r: &GuessGrid<N, R>)
        ensures
            r@ == self.rows(),
            self.well_formed(),
    {
        proof {
            use_type_invariant(self);
        }
        let rows = self.grid.guesses();
        let cells = rows[self.active_row].guesses();
        &self.grid
    }

    /// The row that the cursor stands in.
    pub fn active_row(&self) -> (r: usize)
        ensures
            r == self.row(),
            r < R,
    {
        proof {
            use_type_invariant(self);
        }
        self.active_row
    }

    /// The column that the cursor stands in.
    pub fn active_col(&self) -> (r: usize)
        ensures
            r == self.col(),
            r < N,
    {
        proof {
            use_type_invariant(self);
        }
        self.active_col
    }

    /// The words that agree with the rows that were handed in.
    pub fn possible_words(&self) -> (r: &WordList<N>)
        ensures
            r@ == self.words(),
    {
        &self.possible_words
    }

    /// The words that agree with the grid as it stands, if the grid has
    /// changed since they were last asked for; `None` if it has not.
    pub fn handle_new_knowledge(&mut self) -> (r: Option<WordList<N>>)
        ensures
            r.is_some() == old(self).fresh(),
            r matches Some(list) ==> list@ == possible(
                old(self).words(),
                KnowledgeView::of_rows(old(self).rows(), N as nat),
            ),
            !final(self).fresh(),
            final(self).rows() == old(self).rows(),
            final(self).row() == old(self).row(),
            final(self).col() == old(self).col(),
            final(self).words() == old(self).words(),
            final(self).inference() == old(self).inference(),
    {
        proof {
            use_type_invariant(&*self);
        }
        if self.has_new_knowledge {
            let constraints = KnownWordConstraints::from_grid(&self.grid);
            let possible_words = self.possible_words.filter_preview(&constraints);
            self.has_new_knowledge = false;
            Some(possible_words)
        } else {
            None
        }
    }

    /// Whether every cell of the row under the cursor is marked `Correct`.
    pub fn fully_guessed(&self) -> (r: bool)
        ensures
            self.well_formed(),
            r == all_correct(self.rows()[self.row()]),
    {
        proof {
            use_type_invariant(self);
        }
        let rows = self.grid.guesses();
        let cells = rows[self.active_row].guesses();
        let mut i: usize = 0;
        while i < N
            invariant
                i <= N,
                self.well_formed(),
                cells@ == self.rows()[self.row()],
                cells@.len() == N,
                forall|j: int|
                    0 <= j < i ==> (#[trigger] cells@[j]).spec_knowledge() == CharKnowledge::Correct,
            decreases N - i,
        {
            if cells[i].knowledge().repr() != 2 {
                return false;
            }
            i += 1;
        }
        true
    }

    /// Moves the cursor one cell to the right or to the left, going round at
    /// the ends of the row.
    pub fn move_active_ch(&mut self, right: bool)
        ensures
            Self::moved(old(self), final(self), right),
    {
        proof {
            use_type_invariant(&*self);
        }
        self.active_col = incr_usize(self.active_col, N, right, WRAP);
    }

    /// Gives the cell under the cursor the next feedback class of the cycle,
    /// or the one before, if the cell has a letter.
    pub fn cycle_guess_knowledge(&mut self, up: bool)
        ensures
            Self::cycled(old(self), final(self), up),
    {
        proof {
            use_type_invariant(&*self);
        }
        let width = self.grid.guesses()[self.active_row].guesses().len();
        let mut grid = GuessGrid::new();
        core::mem::swap(&mut self.grid, &mut grid);
        let guess_str = grid.guess_mut(self.active_row);
        let guess_ch = guess_str.guess_mut(self.active_col);
        let curr_knowledge = guess_ch.knowledge();
        guess_ch.set_knowledge(curr_knowledge.cycle(up));
        self.grid = grid;
        self.has_new_knowledge = true;
        proof {
            assert(self.rows() =~= old(self).rows().update(
                old(self).row(),
                old(self).rows()[old(self).row()].update(old(self).col(), self.cell()),
            ));
        }
    }

    /// Takes the letter out of the cell under the cursor. Where the cell has
    /// no letter, the cursor moves one cell to the left instead.
    pub fn unset_active_ch(&mut self)
        ensures
            Self::deleted(old(self), final(self)),
    {
        proof {
            use_type_invariant(&*self);
        }
        let width = self.grid.guesses()[self.active_row].guesses().len();
        let had = self.grid.guesses()[self.active_row].guesses()[self.active_col].ch();
        match had {
            Some(_) => {
                let mut grid = GuessGrid::new();
                core::mem::swap(&mut self.grid, &mut grid);
                let guess_str = grid.guess_mut(self.active_row);
                let guess_ch = guess_str.guess_mut(self.active_col);
                guess_ch.unset_ch();
                self.grid = grid;
                self.has_new_knowledge = true;
                proof {
                    assert(self.rows() =~= old(self).rows().update(
                        old(self).row(),
                        old(self).rows()[old(self).row()].update(old(self).col(), self.cell()),
                    ));
                }
            },
            None => {
                self.active_col = incr_usize(self.active_col, N, false, WRAP);
            },
        }
    }

    /// Puts the letter `ch` into the cell under the cursor and moves the
    /// cursor one cell to the right. Says whether `ch` was a letter; if it
    /// was not, nothing changes.
    ///
    /// The cell loses its feedback, unless it held the letter already, in
    /// whichever case it is typed. A letter that the rows handed in so far fix
    /// at this position is marked `Correct` at once.
    pub fn set_active_ch(&mut self, ch: char) -> (r: bool)
        ensures
            r == is_letter(ch),
            Self::typed(old(self), final(self), ch),
    {
        proof {
            use_type_invariant(&*self);
        }
        let width = self.grid.guesses()[self.active_row].guesses().len();
        let had_knowledge_before = self.grid.guesses()[self.active_row].guesses()[self.active_col].knowledge().repr()
            != 0;
        let inferred = self.current_row_inference[self.active_col];
        let mut grid = GuessGrid::new();
        core::mem::swap(&mut self.grid, &mut grid);
        let guess_str = grid.guess_mut(self.active_row);
        let guess_ch = guess_str.guess_mut(self.active_col);
        let valid = guess_ch.set_ch(ch);
        if valid {
            let now = guess_ch.ch();
            let matches = match (inferred, now) {
                (Some(a), Some(b)) => a == b,
                (None, None) => true,
                _ => false,
            };
            if matches {
                guess_ch.set_knowledge(CharKnowledge::Correct);
            }
        }
        self.grid = grid;
        proof {
            assert(self.rows() =~= old(self).rows().update(
                old(self).row(),
                old(self).rows()[old(self).row()].update(
                    old(self).col(),
                    self.rows()[old(self).row()][old(self).col()],
                ),
            ));
        }
        if valid {
            self.active_col = incr_usize(self.active_col, N, true, WRAP);
            if had_knowledge_before {
                // The cell has no feedback after a new letter, so if it had some, that is a change.
                self.has_new_knowledge = true;
            }
            true
        } else {
            proof {
                let r = old(self).row();
                let c = old(self).col();
                assert(self.rows()[r][c] == old(self).rows()[r][c]);
                assert(self.rows()[r] =~= old(self).rows()[r]);
                assert(self.rows() =~= old(self).rows());
            }
            false
        }
    }
}

impl<const N: usize, const R: usize> GuessEditor<N, R> {
    /// Hands in the row under the cursor.
    pub fn handle_newline(&mut self) -> (r: EditOutcome)
        ensures
            Self::entered(old(self), final(self), r),
    {
        proof {
            use_type_invariant(&*self);
        }
        let cells = self.grid.guesses()[self.active_row].guesses();
        let mut i: usize = 0;
        while i < N
            invariant
                i <= N,
                cells@ == self.rows()[self.row()],
                cells@.len() == N,
                *self == *old(self),
                forall|j: int|
                    0 <= j < i ==> (#[trigger] cells@[j]).spec_knowledge() != CharKnowledge::Unknown,
            decreases N - i,
        {
            if cells[i].knowledge().repr() == 0 {
                return EditOutcome::Refused;
            }
            i += 1;
        }
        if self.active_row + 1 > N || self.active_row + 1 >= R {
            return EditOutcome::Refused;
        }
        if self.fully_guessed() {
            return EditOutcome::Handled;
        }
        let constraints = KnownWordConstraints::from_grid(&self.grid);
        let inference = self.grid.known_chars();
        let next = self.active_row + 1;
        let mut possible_words = WordList::empty();
        core::mem::swap(&mut self.possible_words, &mut possible_words);
        possible_words.filter(&constraints);
        self.possible_words = possible_words;
        let mut grid = GuessGrid::new();
        core::mem::swap(&mut self.grid, &mut grid);
        let active_row = grid.guess_mut(next);
        let ghost before = active_row@;
        let width = active_row.guesses().len();
        let mut idx: usize = 0;
        while idx < N
            invariant
                idx <= N,
                width == N,
                active_row@.len() == N,
                before.len() == N,
                inference@.len() == N,
                forall|j: int| idx <= j < N ==> #[trigger] active_row@[j] == before[j],
                forall|j: int|
                    0 <= j < idx ==> (#[trigger] active_row@[j]).spec_ch() == seeded_cell(
                        before[j],
                        inference@[j],
                    ).0 && active_row@[j].spec_knowledge() == seeded_cell(before[j], inference@[j]).1,
            decreases N - idx,
        {
            if let Some(ch) = inference[idx] {
                let cell = active_row.guess_mut(idx);
                cell.set_ch(ch);
                cell.set_knowledge(CharKnowledge::Correct);
            }
            idx += 1;
        }
        // The cursor goes to the first cell of the row that is not known.
        let cells = active_row.guesses();
        let mut col: usize = 0;
        while col < N && cells[col].knowledge().repr() == 2
            invariant
                col <= N,
                cells@.len() == N,
                forall|j: int|
                    0 <= j < col ==> (#[trigger] cells@[j]).spec_knowledge() == CharKnowledge::Correct,
            decreases N - col,
        {
            col += 1;
        }
        proof {
            lemma_first_open(cells@, col as int);
        }
        if col >= N {
            col = 0;
        }
        self.grid = grid;
        self.active_row = next;
        self.active_col = col;
        self.current_row_inference = inference;
        proof {
            assert(self.inference() =~= Self::known(old(self)));
        }
        EditOutcome::Handled
    }

    /// What the key `key` does to the grid and the cursor.
    pub fn handle_input(&mut self, key: EditKey) -> (r: EditOutcome)
        ensures
            Self::keyed(old(self), final(self), key, r),
    {
        match key {
            EditKey::Up => {
                self.cycle_guess_knowledge(true);
                EditOutcome::Handled
            },
            EditKey::Down => {
                self.cycle_guess_knowledge(false);
                EditOutcome::Handled
            },
            EditKey::Right => {
                self.move_active_ch(true);
                EditOutcome::Handled
            },
            EditKey::Left => {
                self.move_active_ch(false);
                EditOutcome::Handled
            },
            EditKey::Enter => self.handle_newline(),
            EditKey::Delete => {
                self.unset_active_ch();
                EditOutcome::Handled
            },
            EditKey::Character(ch) => {
                if self.set_active_ch(ch) {
                    EditOutcome::Handled
                } else {
                    EditOutcome::Passed
                }
            },
            EditKey::Other => EditOutcome::Passed,
        }
    }
}

} // verus!
