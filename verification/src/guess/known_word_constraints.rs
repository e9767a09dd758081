//! What the feedback given so far says about the hidden word.

use vstd::prelude::*;
use crate::analyze::util::CharsCount;
use crate::analyze::util::NUM_CHARS;
use crate::analyze::util::letter_of;
use crate::analyze::util::slot_of;
use crate::analyze::util::slot;
use crate::analyze::util::letter_at;
use crate::analyze::util::present_from;
use crate::analyze::util::lemma_present_from;
use crate::analyze::util::to_chars;
use crate::guess::guesses::GuessChar;
use crate::guess::guesses::GuessStr;
use crate::guess::guesses::GuessGrid;

verus! {

/// The feedback on one letter of a guess.
#[derive(Copy, Clone, PartialEq, Eq, Structural, Debug)]
pub enum CharKnowledge {
    /// No feedback yet.
    Unknown,
    /// The letter is in the word, but not at this position.
    WrongPosition,
    /// The letter is in the word at this position.
    Correct,
    /// The letter does not occur in the word (beyond the occurrences that other
    /// cells of the same row already account for).
    Missing,
}

impl Default for CharKnowledge {
    fn default() -> (r: Self)
        ensures
            r == CharKnowledge::Unknown,
    {
        CharKnowledge::Unknown
    }
}

impl CharKnowledge {
    /// Number of feedback classes.
    pub const COUNT: usize = 4;

    /// The position of a class in the cycle Unknown, WrongPosition, Correct, Missing.
    pub open spec fn spec_repr(self) -> int {
        match self {
            CharKnowledge::Unknown => 0,
            CharKnowledge::WrongPosition => 1,
            CharKnowledge::Correct => 2,
            CharKnowledge::Missing => 3,
        }
    }

    /// The position of a class in the cycle Unknown, WrongPosition, Correct, Missing.
    pub fn repr(self) -> (r: usize)
        ensures
            r == self.spec_repr(),
            r < 4,
    {
        match self {
            CharKnowledge::Unknown => 0,
            CharKnowledge::WrongPosition => 1,
            CharKnowledge::Correct => 2,
            CharKnowledge::Missing => 3,
        }
    }

    /// The class at position `repr` of the cycle, if there is one.
    pub fn from_repr(repr: usize) -> (r: Option<Self>)
        ensures
            repr < 4 ==> (r matches Some(k) && k.spec_repr() == repr),
            repr >= 4 ==> r.is_none(),
    {
        match repr {
            0 => Some(CharKnowledge::Unknown),
            1 => Some(CharKnowledge::WrongPosition),
            2 => Some(CharKnowledge::Correct),
            3 => Some(CharKnowledge::Missing),
            _ => None,
        }
    }

    /// The neighbour of a class in the cycle: the next one when `up`, else the
    /// one before; the cycle wraps at both ends.
    pub open spec fn spec_cycle(self, up: bool) -> Self {
        match (self, up) {
            (CharKnowledge::Unknown, true) => CharKnowledge::WrongPosition,
            (CharKnowledge::WrongPosition, true) => CharKnowledge::Correct,
            (CharKnowledge::Correct, true) => CharKnowledge::Missing,
            (CharKnowledge::Missing, true) => CharKnowledge::Unknown,
            (CharKnowledge::Unknown, false) => CharKnowledge::Missing,
            (CharKnowledge::WrongPosition, false) => CharKnowledge::Unknown,
            (CharKnowledge::Correct, false) => CharKnowledge::WrongPosition,
            (CharKnowledge::Missing, false) => CharKnowledge::Correct,
        }
    }

    /// The neighbour of a class in the cycle: the next one when `up`, else the
    /// one before; the cycle wraps at both ends.
    pub fn cycle(self, up: bool) -> (r: Self)
        ensures
            r == self.spec_cycle(up),
            up ==> r.spec_repr() == (self.spec_repr() + 1) % 4,
            !up ==> r.spec_repr() == (self.spec_repr() + 3) % 4,
    {
        let k = self.repr();
        let next = if up {
            (k + 1) % 4
        } else {
            (k + 3) % 4
        };
        match Self::from_repr(next) {
            Some(r) => r,
            None => self,
        }
    }
}

/// Whether `ch` is an upper-case ASCII letter.
pub open spec fn is_upper_letter(ch: char) -> bool {
    'A' <= ch && ch <= 'Z'
}

/// Whether `ch` is an upper-case ASCII letter.
fn is_upper(ch: char) -> (r: bool)
    ensures
        r == is_upper_letter(ch),
{
    ch >= 'A' && ch <= 'Z'
}

/// A set of upper-case letters.
#[derive(Copy, Clone, PartialEq, Eq, Debug)]
pub struct LetterSet {
    marks: CharsCount,
}

impl LetterSet {
    /// Whether the letter of slot `k` is in the set.
    pub closed spec fn has_slot(&self, k: int) -> bool {
        self.marks@[k] > 0
    }

    /// The letters of the set.
    pub open spec fn view(&self) -> Set<char> {
        Set::new(|c: char| is_upper_letter(c) && self.has_slot(slot(c)))
    }

    /// The empty set.
    pub fn new() -> (r: Self)
        ensures
            r@ == Set::<char>::empty(),
    {
        let r = LetterSet { marks: CharsCount::new() };
        assert(r@ =~= Set::<char>::empty());
        r
    }

    /// Puts the upper-case letter `ch` into the set.
    pub fn insert(&mut self, ch: char)
        requires
            is_upper_letter(ch),
        ensures
            final(self)@ == old(self)@.insert(ch),
    {
        if self.marks.get(ch) == 0 {
            self.marks.increment(ch);
        }
        assert(self@ =~= old(self)@.insert(ch));
    }

    /// Whether `ch` is in the set; a character that is not an upper-case
    /// letter never is.
    pub fn contains(&self, ch: char) -> (r: bool)
        ensures
            r == self@.contains(ch),
    {
        is_upper(ch) && self.marks.get(ch) > 0
    }

    /// The letters of the set in ascending order.
    pub fn letters(&self) -> (r: Vec<char>)
        ensures
            forall|c: char| r@.contains(c) <==> self@.contains(c),
            forall|i: int, j: int| 0 <= i < j < r@.len() ==> r@[i] < r@[j],
    {
        let mut r: Vec<char> = Vec::new();
        let mut k: usize = 0;
        while k < NUM_CHARS
            invariant
                k <= NUM_CHARS,
                r@ + present_from(self.marks@, k as int) == present_from(self.marks@, 0),
            decreases NUM_CHARS - k,
        {
            let c = letter_of(k);
            if self.marks.get(c) > 0 {
                assert((r@.push(c)) + present_from(self.marks@, k + 1) =~= r@ + present_from(
                    self.marks@,
                    k as int,
                ));
                r.push(c);
            }
            k += 1;
        }
        proof {
            assert(r@ =~= present_from(self.marks@, 0));
            lemma_present_from(self.marks@, 0);
        }
        r
    }
}

/// How often a letter occurs in the hidden word, as far as known: at least
/// `at_least` times and, where `no_more_than` is known, at most that often.
///
/// A guess of `F O O B R` in which the first `O` is in the wrong position and
/// the second `O` is missing gives `O` the bounds 1 and `Some(1)`.
#[derive(Copy, Clone, PartialEq, Eq, Debug)]
pub struct LetterKnowledge {
    pub at_least: usize,
    pub no_more_than: Option<usize>,
}

impl Default for LetterKnowledge {
    fn default() -> (r: Self)
        ensures
            r == LetterKnowledge::unbounded(),
    {
        LetterKnowledge { at_least: 0, no_more_than: None }
    }
}

impl LetterKnowledge {
    /// The bounds that say nothing: at least zero, no upper bound.
    pub open spec fn unbounded() -> Self {
        LetterKnowledge { at_least: 0, no_more_than: None }
    }

    /// Whether a letter that occurs `count` times meets the bounds.
    pub open spec fn admits(self, count: nat) -> bool {
        &&& self.at_least <= count
        &&& self.no_more_than matches Some(ceil) ==> count <= ceil
    }

    /// The bounds after `other` is taken into account too: the larger lower
    /// bound and the smaller known upper bound. Where these contradict each
    /// other, `self` is kept as it is.
    pub open spec fn merged(self, other: Self) -> Self {
        let at_least = if self.at_least >= other.at_least {
            self.at_least
        } else {
            other.at_least
        };
        let ceil = match (self.no_more_than, other.no_more_than) {
            (Some(a), Some(b)) => Some(
                if a <= b {
                    a
                } else {
                    b
                },
            ),
            (Some(a), None) => Some(a),
            (None, Some(b)) => Some(b),
            (None, None) => None,
        };
        if ceil matches Some(c) && at_least > c {
            self
        } else {
            LetterKnowledge { at_least, no_more_than: ceil }
        }
    }

    /// Whether a letter that occurs `count` times meets the bounds.
    pub fn allows(&self, count: usize) -> (r: bool)
        ensures
            r == self.admits(count as nat),
    {
        if count < self.at_least {
            return false;
        }
        match self.no_more_than {
            Some(ceil) => count <= ceil,
            None => true,
        }
    }

    /// The bounds after `other` is taken into account too.
    pub fn combine(&self, other: &LetterKnowledge) -> (r: LetterKnowledge)
        ensures
            r == self.merged(*other),
    {
        let at_least = if self.at_least >= other.at_least {
            self.at_least
        } else {
            other.at_least
        };
        let ceil = match (self.no_more_than, other.no_more_than) {
            (Some(a), Some(b)) => Some(
                if a <= b {
                    a
                } else {
                    b
                },
            ),
            (Some(a), None) => Some(a),
            (None, Some(b)) => Some(b),
            (None, None) => None,
        };
        if let Some(c) = ceil {
            if at_least > c {
                return *self;
            }
        }
        LetterKnowledge { at_least, no_more_than: ceil }
    }
}

/// Whether `cell` holds the letter `c` with feedback that places it in the
/// word: `Correct` or `WrongPosition`.
pub open spec fn is_placed(cell: GuessChar, c: char) -> bool {
    cell.spec_ch() == Some(c) && (cell.spec_knowledge() == CharKnowledge::Correct
        || cell.spec_knowledge() == CharKnowledge::WrongPosition)
}

/// Whether `cell` holds the letter `c` with the feedback `Missing`.
pub open spec fn is_missing(cell: GuessChar, c: char) -> bool {
    cell.spec_ch() == Some(c) && cell.spec_knowledge() == CharKnowledge::Missing
}

/// The number of cells of `row` that place the letter `c` in the word.
pub open spec fn placed(row: Seq<GuessChar>, c: char) -> nat
    decreases row.len(),
{
    if row.len() == 0 {
        0
    } else {
        placed(row.drop_last(), c) + if is_placed(row.last(), c) {
            1nat
        } else {
            0nat
        }
    }
}

/// Whether some cell of `row` reports the letter `c` as missing.
pub open spec fn any_missing(row: Seq<GuessChar>, c: char) -> bool {
    exists|i: int| 0 <= i < row.len() && is_missing(#[trigger] row[i], c)
}

/// What one row says about the letter `c`, if anything: the letter occurs at
/// least as often as the row places it, and exactly that often if the row also
/// reports it missing.
pub open spec fn row_bound(row: Seq<GuessChar>, c: char) -> Option<LetterKnowledge> {
    if placed(row, c) > 0 || any_missing(row, c) {
        Some(
            LetterKnowledge {
                at_least: placed(row, c) as usize,
                no_more_than: if any_missing(row, c) {
                    Some(placed(row, c) as usize)
                } else {
                    None
                },
            },
        )
    } else {
        None
    }
}

/// The bounds that one row gives, letter by letter.
pub open spec fn row_bounds(row: Seq<GuessChar>) -> Map<char, LetterKnowledge> {
    Map::new(|c: char| row_bound(row, c) is Some, |c: char| row_bound(row, c)->0)
}

/// The bounds `mine` after those of `other` are taken into account: a letter
/// that only `mine` knows keeps its bounds; a letter that `other` knows gets
/// the merge of both, starting from no bounds where `mine` had none.
pub open spec fn merged_bounds(
    mine: Map<char, LetterKnowledge>,
    other: Map<char, LetterKnowledge>,
) -> Map<char, LetterKnowledge> {
    Map::new(
        |c: char| mine.dom().contains(c) || other.dom().contains(c),
        |c: char|
            if other.dom().contains(c) {
                (if mine.dom().contains(c) {
                    mine[c]
                } else {
                    LetterKnowledge::unbounded()
                }).merged(other[c])
            } else {
                mine[c]
            },
    )
}

/// A row places a letter at most once per cell.
pub proof fn lemma_placed_bound(row: Seq<GuessChar>, c: char)
    ensures
        placed(row, c) <= row.len(),
    decreases row.len(),
{
    if row.len() > 0 {
        lemma_placed_bound(row.drop_last(), c);
    }
}

/// A row in which no cell holds the letter `c` does not place it.
pub proof fn lemma_placed_absent(row: Seq<GuessChar>, c: char)
    requires
        forall|i: int| 0 <= i < row.len() ==> (#[trigger] row[i]).spec_ch() != Some(c),
    ensures
        placed(row, c) == 0,
    decreases row.len(),
{
    if row.len() > 0 {
        assert(row.last() == row[row.len() - 1]);
        assert forall|i: int| 0 <= i < row.drop_last().len() implies (#[trigger] row.drop_last()[i]).spec_ch()
            != Some(c) by {
            assert(row.drop_last()[i] == row[i]);
        }
        lemma_placed_absent(row.drop_last(), c);
    }
}

/// The bounds known per letter.
#[derive(Copy, Clone, PartialEq, Eq, Debug)]
pub struct KnowledgePerLetter {
    slots: [Option<LetterKnowledge>; 26],
}

impl KnowledgePerLetter {
    /// The bounds of the letter of slot `k`, if it has any.
    pub closed spec fn slot_at(&self, k: int) -> Option<LetterKnowledge> {
        self.slots@[k]
    }

    /// The bounds, by upper-case letter.
    pub open spec fn view(&self) -> Map<char, LetterKnowledge> {
        Map::new(
            |c: char| is_upper_letter(c) && self.slot_at(slot(c)) is Some,
            |c: char| self.slot_at(slot(c))->0,
        )
    }

    /// No bounds on any letter. `capacity` is a hint and changes nothing.
    pub fn new(capacity: usize) -> (r: Self)
        ensures
            r@ == Map::<char, LetterKnowledge>::empty(),
            forall|k: int| 0 <= k < NUM_CHARS ==> (#[trigger] r.slot_at(k)) is None,
    {
        let r = KnowledgePerLetter { slots: [None; 26] };
        proof {
            vstd::array::axiom_spec_array_fill_for_copy_type::<Option<LetterKnowledge>, 26>(None);
            assert(r@ =~= Map::<char, LetterKnowledge>::empty());
        }
        r
    }

    /// The bounds of `ch`, if it has any.
    pub fn get(&self, ch: char) -> (r: Option<LetterKnowledge>)
        ensures
            r == if self@.dom().contains(ch) {
                Some(self@[ch])
            } else {
                None
            },
    {
        if is_upper(ch) {
            self.slots[slot_of(ch)]
        } else {
            None
        }
    }

    /// Gives the upper-case letter `ch` the bounds `bounds`.
    pub fn set(&mut self, ch: char, bounds: LetterKnowledge)
        requires
            is_upper_letter(ch),
        ensures
            final(self)@ == old(self)@.insert(ch, bounds),
    {
        let k = slot_of(ch);
        self.slots[k] = Some(bounds);
        assert(self@ =~= old(self)@.insert(ch, bounds));
    }

    /// The letters that have bounds, in ascending order, each with its bounds.
    pub fn entries(&self) -> (r: Vec<(char, LetterKnowledge)>)
        ensures
            forall|i: int|
                0 <= i < r@.len() ==> self@.dom().contains((#[trigger] r@[i]).0) && self@[r@[i].0]
                    == r@[i].1,
            forall|c: char|
                self@.dom().contains(c) ==> exists|i: int|
                    0 <= i < r@.len() && (#[trigger] r@[i]).0 == c,
            forall|i: int, j: int| 0 <= i < j < r@.len() ==> r@[i].0 < r@[j].0,
    {
        let mut r: Vec<(char, LetterKnowledge)> = Vec::new();
        let mut k: usize = 0;
        while k < NUM_CHARS
            invariant
                k <= NUM_CHARS,
                forall|i: int|
                    0 <= i < r@.len() ==> self@.dom().contains((#[trigger] r@[i]).0)
                        && self@[r@[i].0] == r@[i].1 && slot(r@[i].0) < k,
                forall|c: char|
                    self@.dom().contains(c) && slot(c) < k ==> exists|i: int|
                        0 <= i < r@.len() && (#[trigger] r@[i]).0 == c,
                forall|i: int, j: int| 0 <= i < j < r@.len() ==> r@[i].0 < r@[j].0,
            decreases NUM_CHARS - k,
        {
            let c = letter_of(k);
            if let Some(bounds) = self.slots[k] {
                let ghost before = r@;
                r.push((c, bounds));
                proof {
                    assert forall|x: char| self@.dom().contains(x) && slot(x) < k + 1 implies exists|
                        i: int,
                    |
                        0 <= i < r@.len() && (#[trigger] r@[i]).0 == x by {
                        if slot(x) < k {
                            let i = choose|i: int| 0 <= i < before.len() && (#[trigger] before[i]).0 == x;
                            assert(r@[i].0 == x);
                        } else {
                            assert(r@[before.len() as int].0 == x);
                        }
                    }
                }
            }
            k += 1;
        }
        r
    }

    /// The bounds that one row of feedback gives.
    pub fn from<const N: usize>(string: &GuessStr<N>) -> (r: KnowledgePerLetter)
        ensures
            r@ == row_bounds(string@),
    {
        let cells = string.guesses();
        let ghost row = string@;
        let mut result = Self::new(N);
        proof {
            assert forall|k: int| 0 <= k < NUM_CHARS implies (#[trigger] result.slots@[k]) is None by {
                assert(result.slot_at(k) is None);
            }
        }
        let mut i: usize = 0;
        while i < N
            invariant
                i <= N,
                cells@ == row,
                row.len() == N,
                forall|j: int| 0 <= j < i ==> (#[trigger] row[j]).well_formed(),
                forall|k: int|
                    0 <= k < NUM_CHARS ==> #[trigger] result.slots@[k] == if placed(
                        row.take(i as int),
                        letter_at(k),
                    ) > 0 {
                        Some(
                            LetterKnowledge {
                                at_least: placed(row.take(i as int), letter_at(k)) as usize,
                                no_more_than: None,
                            },
                        )
                    } else {
                        None
                    },
            decreases N - i,
        {
            let cell = &cells[i];
            let ch = cell.ch();
            let class = cell.knowledge();
            proof {
                assert(row.take(i + 1).drop_last() =~= row.take(i as int));
                assert(row.take(i + 1).last() == row[i as int]);
                assert forall|k: int| 0 <= k < NUM_CHARS implies placed(
                    row.take(i as int),
                    letter_at(k),
                ) <= i by {
                    lemma_placed_bound(row.take(i as int), letter_at(k));
                }
            }
            if let Some(c) = ch {
                match class {
                    CharKnowledge::WrongPosition | CharKnowledge::Correct => {
                        let k = slot_of(c);
                        proof {
                            assert(letter_at(k as int) == c);
                            lemma_placed_bound(row.take(i as int), c);
                        }
                        let mut count = match result.slots[k] {
                            Some(known) => known,
                            None => LetterKnowledge::default(),
                        };
                        count.at_least = count.at_least + 1;
                        result.slots[k] = Some(count);
                    },
                    CharKnowledge::Missing => {},
                    CharKnowledge::Unknown => {},
                }
            }
            i += 1;
        }
        assert(row.take(N as int) =~= row);
        let mut i: usize = 0;
        while i < N
            invariant
                i <= N,
                cells@ == row,
                row.len() == N,
                forall|j: int| 0 <= j < N ==> (#[trigger] row[j]).well_formed(),
                forall|k: int|
                    0 <= k < NUM_CHARS ==> #[trigger] result.slots@[k] == if placed(
                        row,
                        letter_at(k),
                    ) > 0 || any_missing(row.take(i as int), letter_at(k)) {
                        Some(
                            LetterKnowledge {
                                at_least: placed(row, letter_at(k)) as usize,
                                no_more_than: if any_missing(row.take(i as int), letter_at(k)) {
                                    Some(placed(row, letter_at(k)) as usize)
                                } else {
                                    None
                                },
                            },
                        )
                    } else {
                        None
                    },
            decreases N - i,
        {
            let cell = &cells[i];
            let ch = cell.ch();
            let class = cell.knowledge();
            proof {
                let shorter = row.take(i as int);
                let longer = row.take(i + 1);
                assert forall|c: char| any_missing(longer, c) == (any_missing(shorter, c)
                    || is_missing(row[i as int], c)) by {
                    if any_missing(shorter, c) {
                        let j = choose|j: int| 0 <= j < shorter.len() && is_missing(#[trigger] shorter[j], c);
                        assert(is_missing(longer[j], c));
                    }
                    if is_missing(row[i as int], c) {
                        assert(is_missing(longer[i as int], c));
                    }
                    if any_missing(longer, c) {
                        let j = choose|j: int| 0 <= j < longer.len() && is_missing(#[trigger] longer[j], c);
                        if j < i {
                            assert(is_missing(shorter[j], c));
                        }
                    }
                }
            }
            if let Some(c) = ch {
                if class.repr() == 3 {
                    let k = slot_of(c);
                    proof {
                        assert(letter_at(k as int) == c);
                    }
                    let mut count = match result.slots[k] {
                        Some(known) => known,
                        None => LetterKnowledge::default(),
                    };
                    count.no_more_than = Some(count.at_least);
                    result.slots[k] = Some(count);
                }
            }
            i += 1;
        }
        proof {
            assert(row.take(N as int) =~= row);
            assert forall|c: char| #[trigger]
                row_bounds(row).dom().contains(c) == result@.dom().contains(c) && (row_bounds(
                    row,
                ).dom().contains(c) ==> row_bounds(row)[c] == result@[c]) by {
                if is_upper_letter(c) {
                    assert(letter_at(slot(c)) == c);
                    assert(result.slots@[slot(c)] == row_bound(row, c));
                } else {
                    lemma_placed_absent(row, c);
                    assert(!any_missing(row, c));
                }
            }
            assert(result@ =~= row_bounds(row));
        }
        result
    }

    /// Takes the bounds of `other` into account, letter by letter.
    pub fn add(&mut self, other: &KnowledgePerLetter)
        ensures
            final(self)@ == merged_bounds(old(self)@, other@),
    {
        let mut k: usize = 0;
        while k < NUM_CHARS
            invariant
                k <= NUM_CHARS,
                forall|j: int| k <= j < NUM_CHARS ==> #[trigger] self.slots@[j] == old(self).slots@[j],
                forall|j: int|
                    0 <= j < k ==> #[trigger] self.slots@[j] == match other.slots@[j] {
                        Some(theirs) => Some(
                            (match old(self).slots@[j] {
                                Some(mine) => mine,
                                None => LetterKnowledge::unbounded(),
                            }).merged(theirs),
                        ),
                        None => old(self).slots@[j],
                    },
            decreases NUM_CHARS - k,
        {
            if let Some(theirs) = other.slots[k] {
                let mine = match self.slots[k] {
                    Some(known) => known,
                    None => LetterKnowledge::default(),
                };
                self.slots[k] = Some(mine.combine(&theirs));
            }
            k += 1;
        }
        assert(self@ =~= merged_bounds(old(self)@, other@));
    }
}

/// The number of positions of `word` that hold exactly the character `c`.
pub open spec fn count_of(word: Seq<char>, c: char) -> nat
    decreases word.len(),
{
    if word.len() == 0 {
        0
    } else {
        count_of(word.drop_last(), c) + if word.last() == c {
            1nat
        } else {
            0nat
        }
    }
}

/// The letters that `row` reports as missing.
pub open spec fn row_missing(row: Seq<GuessChar>) -> Set<char> {
    Set::new(|c: char| any_missing(row, c))
}

/// What is known about the hidden word.
pub struct KnowledgeView {
    /// By position: the letter that stands there, where it is known.
    pub fixed: Seq<Option<char>>,
    /// By position: the letters that do not stand there.
    pub excluded: Seq<Set<char>>,
    /// The letters that some row reported as missing.
    pub missing: Set<char>,
    /// By letter: how often it occurs in the word.
    pub bounds: Map<char, LetterKnowledge>,
}

impl KnowledgeView {
    /// No knowledge about a word of `n` letters.
    pub open spec fn empty(n: nat) -> Self {
        KnowledgeView {
            fixed: Seq::new(n, |i: int| None::<char>),
            excluded: Seq::new(n, |i: int| Set::<char>::empty()),
            missing: Set::empty(),
            bounds: Map::empty(),
        }
    }

    /// The knowledge after the cells of `row` are taken into account position
    /// by position: a `Correct` letter is fixed at its position (replacing what
    /// was fixed there), a `WrongPosition` letter is excluded from its
    /// position, a `Missing` letter is noted as missing. The bounds stay.
    pub open spec fn with_positions(self, row: Seq<GuessChar>) -> Self {
        KnowledgeView {
            fixed: Seq::new(
                self.fixed.len(),
                |i: int|
                    if i < row.len() && row[i].spec_ch() is Some && row[i].spec_knowledge()
                        == CharKnowledge::Correct {
                        row[i].spec_ch()
                    } else {
                        self.fixed[i]
                    },
            ),
            excluded: Seq::new(
                self.excluded.len(),
                |i: int|
                    if i < row.len() && row[i].spec_ch() is Some && row[i].spec_knowledge()
                        == CharKnowledge::WrongPosition {
                        self.excluded[i].insert(row[i].spec_ch()->0)
                    } else {
                        self.excluded[i]
                    },
            ),
            missing: self.missing.union(row_missing(row)),
            bounds: self.bounds,
        }
    }

    /// The knowledge after `row` is taken into account in full: position by
    /// position, and with the bounds of the row merged into the bounds.
    pub open spec fn with_row(self, row: Seq<GuessChar>) -> Self {
        KnowledgeView {
            bounds: merged_bounds(self.bounds, row_bounds(row)),
            ..self.with_positions(row)
        }
    }

    /// The knowledge that the rows give, taken in order, about a word of `n`
    /// letters.
    pub open spec fn of_rows(rows: Seq<Seq<GuessChar>>, n: nat) -> Self
        decreases rows.len(),
    {
        if rows.len() == 0 {
            Self::empty(n)
        } else {
            Self::of_rows(rows.drop_last(), n).with_row(rows.last())
        }
    }

    /// Whether `word` agrees with the knowledge at position `i`: it has the
    /// fixed letter there, if one is fixed, and none of the excluded ones.
    pub open spec fn admits_at(self, word: Seq<char>, i: int) -> bool {
        &&& self.fixed[i] matches Some(c) ==> word[i] == c
        &&& !self.excluded[i].contains(word[i])
    }

    /// Whether `word` agrees with the knowledge: at every position, and in how
    /// often each letter with bounds occurs.
    pub open spec fn admits(self, word: Seq<char>) -> bool {
        &&& forall|i: int|
            0 <= i < word.len() && i < self.fixed.len() ==> #[trigger] self.admits_at(word, i)
        &&& forall|c: char| #[trigger]
            self.bounds.dom().contains(c) ==> self.bounds[c].admits(count_of(word, c))
    }
}

/// Without knowledge every word is possible.
pub proof fn lemma_empty_admits_all(n: nat, word: Seq<char>)
    ensures
        KnowledgeView::empty(n).admits(word),
{
}

/// A row without feedback gives no bounds.
pub proof fn lemma_blank_row_bounds(row: Seq<GuessChar>)
    requires
        forall|i: int|
            0 <= i < row.len() ==> (#[trigger] row[i]).spec_knowledge() == CharKnowledge::Unknown,
    ensures
        row_bounds(row) == Map::<char, LetterKnowledge>::empty(),
        row_missing(row) == Set::<char>::empty(),
{
    assert forall|c: char| row_bound(row, c) is None by {
        lemma_placed_unmarked(row, c);
    }
    assert(row_bounds(row) =~= Map::<char, LetterKnowledge>::empty());
    assert(row_missing(row) =~= Set::<char>::empty());
}

/// A row without feedback places no letter.
pub proof fn lemma_placed_unmarked(row: Seq<GuessChar>, c: char)
    requires
        forall|i: int|
            0 <= i < row.len() ==> (#[trigger] row[i]).spec_knowledge() == CharKnowledge::Unknown,
    ensures
        placed(row, c) == 0,
    decreases row.len(),
{
    if row.len() > 0 {
        assert(row.last() == row[row.len() - 1]);
        assert forall|i: int| 0 <= i < row.drop_last().len() implies (#[trigger] row.drop_last()[i]).spec_knowledge()
            == CharKnowledge::Unknown by {
            assert(row.drop_last()[i] == row[i]);
        }
        lemma_placed_unmarked(row.drop_last(), c);
    }
}

/// Rows without any feedback leave the knowledge empty: every word stays
/// possible.
pub proof fn lemma_blank_grid_admits_all(rows: Seq<Seq<GuessChar>>, n: nat, word: Seq<char>)
    requires
        forall|k: int, i: int|
            0 <= k < rows.len() && 0 <= i < rows[k].len() ==> (#[trigger] rows[k][i]).spec_knowledge()
                == CharKnowledge::Unknown,
    ensures
        KnowledgeView::of_rows(rows, n) == KnowledgeView::empty(n),
        KnowledgeView::of_rows(rows, n).admits(word),
    decreases rows.len(),
{
    if rows.len() > 0 {
        let before = rows.drop_last();
        assert forall|k: int, i: int| 0 <= k < before.len() && 0 <= i < before[k].len() implies (
        #[trigger] before[k][i]).spec_knowledge() == CharKnowledge::Unknown by {
            assert(before[k] == rows[k]);
        }
        lemma_blank_grid_admits_all(before, n, word);
        let row = rows.last();
        assert(row == rows[rows.len() - 1]);
        lemma_blank_row_bounds(row);
        let e = KnowledgeView::empty(n);
        let next = e.with_row(row);
        assert(next.fixed =~= e.fixed);
        assert(next.excluded =~= e.excluded);
        assert(next.missing =~= e.missing);
        assert(next.bounds =~= e.bounds);
    }
}

/// Rows without any feedback add nothing to what the rows before them say.
pub proof fn lemma_blank_rows_add_nothing(
    rows: Seq<Seq<GuessChar>>,
    blanks: Seq<Seq<GuessChar>>,
    n: nat,
)
    requires
        forall|k: int, i: int|
            0 <= k < blanks.len() && 0 <= i < blanks[k].len() ==> (#[trigger] blanks[k][i]).spec_knowledge()
                == CharKnowledge::Unknown,
    ensures
        KnowledgeView::of_rows(rows + blanks, n) == KnowledgeView::of_rows(rows, n),
    decreases blanks.len(),
{
    if blanks.len() == 0 {
        assert(rows + blanks =~= rows);
    } else {
        let fewer = blanks.drop_last();
        assert forall|k: int, i: int| 0 <= k < fewer.len() && 0 <= i < fewer[k].len() implies (
        #[trigger] fewer[k][i]).spec_knowledge() == CharKnowledge::Unknown by {
            assert(fewer[k] == blanks[k]);
        }
        lemma_blank_rows_add_nothing(rows, fewer, n);
        let row = blanks.last();
        assert(row == blanks[blanks.len() - 1]);
        assert((rows + blanks).drop_last() =~= rows + fewer);
        assert((rows + blanks).last() == row);
        lemma_blank_row_bounds(row);
        let known = KnowledgeView::of_rows(rows + fewer, n);
        let next = known.with_row(row);
        assert(next.fixed =~= known.fixed);
        assert(next.excluded =~= known.excluded);
        assert(next.missing =~= known.missing);
        assert(next.bounds =~= known.bounds);
    }
}

/// What the feedback says about a hidden word of `N` letters.
#[derive(PartialEq, Eq, Debug)]
pub struct KnownWordConstraints<const N: usize> {
    fully_known: Vec<Option<char>>,
    wrong_positions: Vec<LetterSet>,
    missing: LetterSet,
    letters_count: KnowledgePerLetter,
}

impl<const N: usize> KnownWordConstraints<N> {
    #[verifier::type_invariant]
    spec fn inv(&self) -> bool {
        self.fully_known@.len() == N && self.wrong_positions@.len() == N
    }

    /// What is known, as plain values.
    pub closed spec fn view(&self) -> KnowledgeView {
        KnowledgeView {
            fixed: self.fully_known@,
            excluded: Seq::new(self.wrong_positions@.len(), |i: int| self.wrong_positions@[i]@),
            missing: self.missing@,
            bounds: self.letters_count@,
        }
    }

    /// Whether `word` agrees with everything that is known.
    pub fn is_word_possible(&self, word: &str) -> (r: bool)
        requires
            word@.len() == N,
        ensures
            r == self@.admits(word@),
    {
        let chars = to_chars(word);
        self.allows(&chars)
    }

    /// Whether the word made of `word`'s characters agrees with everything that
    /// is known.
    pub fn allows(&self, word: &Vec<char>) -> (r: bool)
        requires
            word@.len() == N,
        ensures
            r == self@.admits(word@),
    {
        proof {
            use_type_invariant(self);
        }
        // First, the positions.
        let mut idx: usize = 0;
        while idx < N
            invariant
                idx <= N,
                word@.len() == N,
                self.fully_known@.len() == N,
                self.wrong_positions@.len() == N,
                forall|i: int| 0 <= i < idx ==> #[trigger] self@.admits_at(word@, i),
            decreases N - idx,
        {
            let word_ch = word[idx];
            if let Some(known_ch) = self.fully_known[idx] {
                if word_ch != known_ch {
                    assert(!self@.admits_at(word@, idx as int));
                    return false;
                }
            }
            if self.wrong_positions[idx].contains(word_ch) {
                assert(!self@.admits_at(word@, idx as int));
                return false;
            }
            idx += 1;
        }
        // Now the counts.
        let mut k: usize = 0;
        while k < NUM_CHARS
            invariant
                k <= NUM_CHARS,
                word@.len() == N,
                forall|c: char|
                    is_upper_letter(c) && slot(c) < k && #[trigger] self@.bounds.dom().contains(c)
                        ==> self@.bounds[c].admits(count_of(word@, c)),
            decreases NUM_CHARS - k,
        {
            let c = letter_of(k);
            if let Some(known) = self.letters_count.get(c) {
                let count = count_char(word, c);
                if !known.allows(count) {
                    assert(self@.bounds.dom().contains(c));
                    return false;
                }
            }
            k += 1;
        }
        true
    }

    /// No knowledge: every word is possible.
    pub fn empty() -> (r: Self)
        ensures
            r@ == KnowledgeView::empty(N as nat),
    {
        let mut fully_known: Vec<Option<char>> = Vec::new();
        let mut wrong_positions: Vec<LetterSet> = Vec::new();
        let mut i: usize = 0;
        while i < N
            invariant
                i <= N,
                fully_known@.len() == i,
                wrong_positions@.len() == i,
                forall|j: int| 0 <= j < i ==> (#[trigger] fully_known@[j]) is None,
                forall|j: int| 0 <= j < i ==> (#[trigger] wrong_positions@[j])@ == Set::<char>::empty(),
            decreases N - i,
        {
            fully_known.push(None);
            wrong_positions.push(LetterSet::new());
            i += 1;
        }
        let r = KnownWordConstraints {
            fully_known,
            wrong_positions,
            missing: LetterSet::new(),
            letters_count: KnowledgePerLetter::new(N),
        };
        proof {
            let e = KnowledgeView::empty(N as nat);
            assert(r@.fixed =~= e.fixed);
            assert(r@.excluded =~= e.excluded);
        }
        r
    }

    /// What the rows of `grid` say, taken top to bottom.
    pub fn from_grid<const R: usize>(grid: &GuessGrid<N, R>) -> (r: Self)
        ensures
            r@ == KnowledgeView::of_rows(grid@, N as nat),
    {
        let mut result = Self::empty();
        let rows = grid.guesses();
        let mut k: usize = 0;
        while k < R
            invariant
                k <= R,
                rows@.len() == R,
                grid@.len() == R,
                forall|j: int| 0 <= j < R ==> (#[trigger] rows@[j])@ == grid@[j],
                result@ == KnowledgeView::of_rows(grid@.take(k as int), N as nat),
            decreases R - k,
        {
            let row = &rows[k];
            result.add_row(row);
            let row_counts = KnowledgePerLetter::from(row);
            result.add_counts(&row_counts);
            proof {
                let next = grid@.take(k + 1);
                assert(next.drop_last() =~= grid@.take(k as int));
                assert(next.last() == grid@[k as int]);
            }
            k += 1;
        }
        assert(grid@.take(R as int) =~= grid@);
        result
    }

    /// Merges `counts` into the bounds.
    pub fn add_counts(&mut self, counts: &KnowledgePerLetter)
        ensures
            final(self)@ == (KnowledgeView {
                bounds: merged_bounds(old(self)@.bounds, counts@),
                ..old(self)@
            }),
    {
        proof {
            use_type_invariant(&*self);
        }
        let mut merged = self.letters_count;
        merged.add(counts);
        self.letters_count = merged;
    }

    /// Takes the cells of `str` into account, position by position; the bounds
    /// are left as they are.
    pub fn add_row(&mut self, str: &GuessStr<N>)
        ensures
            final(self)@ == old(self)@.with_positions(str@),
    {
        proof {
            use_type_invariant(&*self);
        }
        let cells = str.guesses();
        let ghost row = str@;
        let ghost before = self@;
        let mut idx: usize = 0;
        while idx < N
            invariant
                idx <= N,
                cells@ == row,
                row.len() == N,
                before == old(self)@,
                before.fixed.len() == N,
                before.excluded.len() == N,
                self.fully_known@.len() == N,
                self.wrong_positions@.len() == N,
                self.letters_count == old(self).letters_count,
                forall|i: int| idx <= i < N ==> #[trigger] self.fully_known@[i] == before.fixed[i],
                forall|i: int|
                    idx <= i < N ==> (#[trigger] self.wrong_positions@[i])@ == before.excluded[i],
                forall|i: int|
                    0 <= i < idx ==> #[trigger] self.fully_known@[i] == before.with_positions(
                        row,
                    ).fixed[i],
                forall|i: int|
                    0 <= i < idx ==> (#[trigger] self.wrong_positions@[i])@ == before.with_positions(
                        row,
                    ).excluded[i],
                self.missing@ == before.missing.union(row_missing(row.take(idx as int))),
            decreases N - idx,
        {
            let guess_ch = &cells[idx];
            proof {
                let shorter = row.take(idx as int);
                let longer = row.take(idx + 1);
                assert forall|c: char| any_missing(longer, c) == (any_missing(shorter, c)
                    || is_missing(row[idx as int], c)) by {
                    if any_missing(shorter, c) {
                        let j = choose|j: int| 0 <= j < shorter.len() && is_missing(#[trigger] shorter[j], c);
                        assert(is_missing(longer[j], c));
                    }
                    if is_missing(row[idx as int], c) {
                        assert(is_missing(longer[idx as int], c));
                    }
                    if any_missing(longer, c) {
                        let j = choose|j: int| 0 <= j < longer.len() && is_missing(#[trigger] longer[j], c);
                        if j < idx {
                            assert(is_missing(shorter[j], c));
                        }
                    }
                }
            }
            if let Some(ch) = guess_ch.ch() {
                match guess_ch.knowledge() {
                    CharKnowledge::Correct => {
                        self.fully_known[idx] = Some(ch);
                    },
                    CharKnowledge::WrongPosition => {
                        let mut set = self.wrong_positions[idx];
                        set.insert(ch);
                        self.wrong_positions[idx] = set;
                    },
                    CharKnowledge::Missing => {
                        let mut set = self.missing;
                        set.insert(ch);
                        self.missing = set;
                    },
                    CharKnowledge::Unknown => {},
                }
            }
            proof {
                assert(self.missing@ =~= before.missing.union(row_missing(row.take(idx + 1))));
            }
            idx += 1;
        }
        proof {
            assert(row.take(N as int) =~= row);
            let goal = before.with_positions(row);
            assert(self@.fixed =~= goal.fixed);
            assert(self@.excluded =~= goal.excluded);
        }
    }

    /// By position: the letter that stands there, where it is known.
    pub fn fully_known(&self) -> (r: &Vec<Option<char>>)
        ensures
            r@ == self@.fixed,
            r@.len() == N,
    {
        proof {
            use_type_invariant(self);
        }
        &self.fully_known
    }

    /// The letters that do not stand at position `idx`, in ascending order.
    pub fn wrong_positions(&self, idx: usize) -> (r: Vec<char>)
        requires
            idx < N,
        ensures
            idx < self@.excluded.len(),
            forall|c: char| r@.contains(c) <==> self@.excluded[idx as int].contains(c),
            forall|i: int, j: int| 0 <= i < j < r@.len() ==> r@[i] < r@[j],
    {
        proof {
            use_type_invariant(self);
        }
        self.wrong_positions[idx].letters()
    }

    /// The letters that some row reported as missing, in ascending order.
    pub fn missing(&self) -> (r: Vec<char>)
        ensures
            forall|c: char| r@.contains(c) <==> self@.missing.contains(c),
            forall|i: int, j: int| 0 <= i < j < r@.len() ==> r@[i] < r@[j],
    {
        self.missing.letters()
    }

    /// By letter: how often it occurs in the word.
    pub fn letters_count(&self) -> (r: &KnowledgePerLetter)
        ensures
            r@ == self@.bounds,
    {
        &self.letters_count
    }
}

/// Counts the positions of `word` that hold exactly `c`.
pub fn count_char(word: &Vec<char>, c: char) -> (r: usize)
    ensures
        r == count_of(word@, c),
{
    let mut r: usize = 0;
    let mut i: usize = 0;
    while i < word.len()
        invariant
            i <= word.len(),
            r == count_of(word@.take(i as int), c),
            r <= i,
        decreases word.len() - i,
    {
        assert(word@.take(i + 1).drop_last() =~= word@.take(i as int));
        if word[i] == c {
            r += 1;
        }
        i += 1;
    }
    assert(word@.take(i as int) =~= word@);
    r
}

} // verus!
