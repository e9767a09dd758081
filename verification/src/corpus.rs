//! Reading a corpus: lines of a word and its frequency.

use vstd::prelude::*;
use vstd::string::StringExecFns;
use crate::analyze::util::to_chars;
use crate::word_list::MAX_WORDS;
use crate::word_list::WordFreq;
use crate::word_list::WordList;
use crate::word_list::all_length;
use crate::word_list::ingested;
use crate::word_list::sketch;

verus! {

/// Whether `c` parts the word of a line from its frequency: a tab or a space.
pub open spec fn is_gap(c: char) -> bool {
    c == '\t' || c == ' '
}

/// The position of the first line feed of `text`, or its length if it has
/// none.
pub open spec fn first_newline(text: Seq<char>) -> nat
    decreases text.len(),
{
    if text.len() == 0 || text[0] == '\n' {
        0
    } else {
        1 + first_newline(text.drop_first())
    }
}

/// The position of the first tab or space of `line`, or its length if it has
/// none.
pub open spec fn first_gap(line: Seq<char>) -> nat
    decreases line.len(),
{
    if line.len() == 0 || is_gap(line[0]) {
        0
    } else {
        1 + first_gap(line.drop_first())
    }
}

/// The first line feed is where no earlier character is one.
pub proof fn lemma_first_newline(text: Seq<char>, at: int)
    requires
        0 <= at <= text.len(),
        forall|k: int| 0 <= k < at ==> text[k] != '\n',
        at < text.len() ==> text[at] == '\n',
    ensures
        first_newline(text) == at,
    decreases at,
{
    if at > 0 {
        let rest = text.drop_first();
        assert forall|k: int| 0 <= k < at - 1 implies rest[k] != '\n' by {
            assert(rest[k] == text[k + 1]);
        }
        lemma_first_newline(rest, at - 1);
    }
}

/// The first tab or space is where no earlier character is one.
pub proof fn lemma_first_gap(line: Seq<char>, at: int)
    requires
        0 <= at <= line.len(),
        forall|k: int| 0 <= k < at ==> !is_gap(line[k]),
        at < line.len() ==> is_gap(line[at]),
    ensures
        first_gap(line) == at,
    decreases at,
{
    if at > 0 {
        let rest = line.drop_first();
        assert forall|k: int| 0 <= k < at - 1 implies !is_gap(rest[k]) by {
            assert(rest[k] == line[k + 1]);
        }
        lemma_first_gap(rest, at - 1);
    }
}

/// The lines of `text`: what stands between its line feeds. A text without a
/// line feed is one line, and a text that ends in a line feed has an empty
/// last line.
pub open spec fn lines_of(text: Seq<char>) -> Seq<Seq<char>>
    decreases text.len(),
{
    let at = first_newline(text) as int;
    if at >= text.len() {
        seq![text]
    } else {
        seq![text.take(at)] + lines_of(text.skip(at + 1))
    }
}

/// The word and the frequency of a line, as they are written: what stands
/// before the first tab or space, and what stands after it. A line without a
/// tab or space has neither.
pub open spec fn split_line(line: Seq<char>) -> Option<(Seq<char>, Seq<char>)> {
    let at = first_gap(line) as int;
    if at >= line.len() {
        None
    } else {
        Some((line.take(at), line.skip(at + 1)))
    }
}

/// The word and the frequency of each of `lines` that has them, in order.
pub open spec fn pairs_of(lines: Seq<Seq<char>>) -> Seq<(Seq<char>, Seq<char>)>
    decreases lines.len(),
{
    if lines.len() == 0 {
        Seq::empty()
    } else {
        match split_line(lines.last()) {
            Some(pair) => pairs_of(lines.drop_last()).push(pair),
            None => pairs_of(lines.drop_last()),
        }
    }
}

/// The characters of each pair of strings.
pub open spec fn texts_of(pairs: Seq<(String, String)>) -> Seq<(Seq<char>, Seq<char>)> {
    Seq::new(pairs.len(), |i: int| (pairs[i].0@, pairs[i].1@))
}

/// A string of the characters of `chars` from `from` up to `to`.
fn slice_string(chars: &Vec<char>, from: usize, to: usize) -> (r: String)
    requires
        from <= to <= chars@.len(),
    ensures
        r@ == chars@.subrange(from as int, to as int),
{
    let mut r = String::new();
    let mut i: usize = from;
    while i < to
        invariant
            from <= i <= to,
            to <= chars@.len(),
            r@ == chars@.subrange(from as int, i as int),
        decreases to - i,
    {
        r.push(chars[i]);
        assert(r@ =~= chars@.subrange(from as int, i + 1));
        i += 1;
    }
    r
}

/// The word and the frequency, as written, of each line of `text` that has
/// both: a line is parted at its first tab or space, and a line without
/// either is skipped.
pub fn corpus_lines(text: &str) -> (r: Vec<(String, String)>)
    ensures
        texts_of(r@) == pairs_of(lines_of(text@)),
{
    let chars = to_chars(text);
    let n = chars.len();
    let mut out: Vec<(String, String)> = Vec::new();
    let ghost mut done: Seq<Seq<char>> = Seq::empty();
    let mut start: usize = 0;
    let mut more = true;
    proof {
        assert(chars@.skip(0) =~= chars@);
        assert(done + lines_of(chars@.skip(0)) =~= lines_of(chars@));
    }
    while more
        invariant
            start <= n,
            n == chars@.len(),
            chars@ == text@,
            more ==> lines_of(chars@) == done + lines_of(chars@.skip(start as int)),
            !more ==> lines_of(chars@) == done,
            texts_of(out@) == pairs_of(done),
        decreases n - start + if more { 1int } else { 0int },
    {
        let ghost rest = chars@.skip(start as int);
        let mut end: usize = start;
        while end < n && chars[end] != '\n'
            invariant
                start <= end <= n,
                n == chars@.len(),
                forall|k: int| start <= k < end ==> chars@[k] != '\n',
            decreases n - end,
        {
            end += 1;
        }
        let mut gap: usize = start;
        while gap < end && chars[gap] != '\t' && chars[gap] != ' '
            invariant
                start <= gap <= end,
                end <= n,
                n == chars@.len(),
                forall|k: int| start <= k < gap ==> !is_gap(chars@[k]),
            decreases end - gap,
        {
            gap += 1;
        }
        let ghost line = chars@.subrange(start as int, end as int);
        proof {
            assert forall|k: int| 0 <= k < end - start implies rest[k] != '\n' by {
                assert(rest[k] == chars@[start + k]);
            }
            lemma_first_newline(rest, end - start);
            assert(rest.take(end - start) =~= line);
            assert forall|k: int| 0 <= k < gap - start implies !is_gap(line[k]) by {
                assert(line[k] == chars@[start + k]);
            }
            lemma_first_gap(line, gap - start);
        }
        if gap < end {
            let word = slice_string(&chars, start, gap);
            let weight = slice_string(&chars, gap + 1, end);
            let ghost before = out@;
            out.push((word, weight));
            proof {
                assert(line.take(gap - start) =~= chars@.subrange(start as int, gap as int));
                assert(line.skip(gap - start + 1) =~= chars@.subrange(gap + 1, end as int));
                assert(texts_of(out@) =~= texts_of(before).push((word@, weight@)));
            }
        }
        proof {
            assert(done.push(line).drop_last() =~= done);
            assert(pairs_of(done.push(line)) == match split_line(line) {
                Some(pair) => pairs_of(done).push(pair),
                None => pairs_of(done),
            });
        }
        if end < n {
            proof {
                assert(rest.skip(end - start + 1) =~= chars@.skip(end + 1));
                assert(done + (seq![line] + lines_of(chars@.skip(end + 1))) =~= done.push(line)
                    + lines_of(chars@.skip(end + 1)));
                done = done.push(line);
            }
            start = end + 1;
        } else {
            proof {
                assert(done + seq![line] =~= done.push(line));
                done = done.push(line);
            }
            more = false;
        }
    }
    out
}

/// Whether `c` is a decimal digit.
pub open spec fn is_digit(c: char) -> bool {
    '0' <= c && c <= '9'
}

/// The number that the decimal digits of `digits` write.
pub open spec fn digits_value(digits: Seq<char>) -> nat
    decreases digits.len(),
{
    if digits.len() == 0 {
        0
    } else {
        10 * digits_value(digits.drop_last()) + (digits.last() as nat - 48) as nat
    }
}

/// The weight that `text` writes: `text` is one or more decimal digits and
/// nothing else, and the number fits 64 bits.
pub open spec fn weight_of(text: Seq<char>) -> Option<u64> {
    if text.len() > 0 && (forall|i: int| 0 <= i < text.len() ==> is_digit(#[trigger] text[i]))
        && digits_value(text) <= u64::MAX {
        Some(digits_value(text) as u64)
    } else {
        None
    }
}

/// More digits never write a smaller number.
pub proof fn lemma_digits_value_grows(digits: Seq<char>, upto: int)
    requires
        0 <= upto <= digits.len(),
    ensures
        digits_value(digits.take(upto)) <= digits_value(digits),
    decreases digits.len() - upto,
{
    if upto < digits.len() {
        lemma_digits_value_grows(digits, upto + 1);
        assert(digits.take(upto + 1).drop_last() =~= digits.take(upto));
    } else {
        assert(digits.take(upto) =~= digits);
    }
}

/// Reads a frequency: a whole number in decimal digits. Anything else, and
/// a number that does not fit 64 bits, gives `None`.
pub fn parse_weight(text: &str) -> (r: Option<u64>)
    ensures
        r == weight_of(text@),
{
    let chars = to_chars(text);
    if chars.len() == 0 {
        return None;
    }
    let mut value: u64 = 0;
    let mut i: usize = 0;
    while i < chars.len()
        invariant
            i <= chars@.len(),
            chars@ == text@,
            forall|k: int| 0 <= k < i ==> is_digit(#[trigger] chars@[k]),
            value == digits_value(chars@.take(i as int)),
        decreases chars@.len() - i,
    {
        let c = chars[i];
        if !(c >= '0' && c <= '9') {
            return None;
        }
        let digit = (c as u8 - 48) as u64;
        proof {
            assert(chars@.take(i + 1).drop_last() =~= chars@.take(i as int));
            assert(chars@.take(i + 1).last() == c);
        }
        let next = match value.checked_mul(10) {
            Some(tenfold) => tenfold.checked_add(digit),
            None => None,
        };
        match next {
            Some(next) => {
                value = next;
            },
            None => {
                proof {
                    lemma_digits_value_grows(chars@, i + 1);
                }
                return None;
            },
        }
        i += 1;
    }
    proof {
        assert(chars@.take(i as int) =~= chars@);
    }
    Some(value)
}

/// The entries that `pairs` gives: each pair whose second part writes a
/// weight, as the word with that weight, in order.
pub open spec fn weighted(pairs: Seq<(Seq<char>, Seq<char>)>) -> Seq<(Seq<char>, u64)>
    decreases pairs.len(),
{
    if pairs.len() == 0 {
        Seq::empty()
    } else {
        match weight_of(pairs.last().1) {
            Some(weight) => weighted(pairs.drop_last()).push((pairs.last().0, weight)),
            None => weighted(pairs.drop_last()),
        }
    }
}

/// The entries of a corpus: for each line of `text` that holds a word, a tab
/// or space and a whole number, the word with the number as its frequency.
/// Other lines are skipped.
pub fn corpus_entries(text: &str) -> (r: Vec<WordFreq>)
    ensures
        sketch(r@) == weighted(pairs_of(lines_of(text@))),
{
    let pairs = corpus_lines(text);
    let mut out: Vec<WordFreq> = Vec::new();
    let mut i: usize = 0;
    while i < pairs.len()
        invariant
            i <= pairs@.len(),
            sketch(out@) == weighted(texts_of(pairs@).take(i as int)),
        decreases pairs@.len() - i,
    {
        proof {
            let longer = texts_of(pairs@).take(i + 1);
            assert(longer.drop_last() =~= texts_of(pairs@).take(i as int));
            assert(longer.last() == (pairs@[i as int].0@, pairs@[i as int].1@));
        }
        match parse_weight(pairs[i].1.as_str()) {
            Some(freq) => {
                let ghost before = out@;
                let word = pairs[i].0.clone();
                out.push(WordFreq { word, freq });
                proof {
                    assert(sketch(out@) =~= sketch(before).push(
                        (pairs@[i as int].0@, freq),
                    ));
                }
            },
            None => {},
        }
        i += 1;
    }
    proof {
        assert(texts_of(pairs@).take(i as int) =~= texts_of(pairs@));
    }
    out
}

/// The catalog of `N`-letter words that the corpus `text` gives: the entries
/// of the corpus whose word has `N` characters, folded to upper case, in the
/// order of the corpus, and no more than the first `limit` of them (nor more
/// than `MAX_WORDS`).
pub fn catalog_of<const N: usize>(text: &str, limit: usize) -> (r: WordList<N>)
    ensures
        sketch(r@) == ingested(
            weighted(pairs_of(lines_of(text@))),
            N as nat,
            if limit <= MAX_WORDS {
                limit as nat
            } else {
                MAX_WORDS as nat
            },
        ),
        all_length(r@, N as nat),
{
    let entries = corpus_entries(text);
    WordList::from_entries(&entries, limit)
}

/// The corpora that the catalog of all words is made from.
#[derive(Clone, Copy, PartialEq, Eq, Structural, Debug)]
pub enum WordsFile {
    WGutenberg,
    Norvig,
    HermitDave,
}

impl WordsFile {
    /// Every corpus, in the order in which they are read.
    pub fn all() -> (r: Vec<WordsFile>)
        ensures
            r@ == seq![WordsFile::WGutenberg, WordsFile::Norvig, WordsFile::HermitDave],
    {
        let mut r: Vec<WordsFile> = Vec::new();
        r.push(WordsFile::WGutenberg);
        r.push(WordsFile::Norvig);
        r.push(WordsFile::HermitDave);
        assert(r@ =~= seq![WordsFile::WGutenberg, WordsFile::Norvig, WordsFile::HermitDave]);
        r
    }

    /// The name of the file that holds the corpus.
    pub open spec fn spec_file_name(&self) -> Seq<char> {
        match self {
            WordsFile::WGutenberg => "words-5chars-wiktionary-gutenberg.txt"@,
            WordsFile::Norvig => "words-5chars-norvig.txt"@,
            WordsFile::HermitDave => "words-5chars-hermitdave.txt"@,
        }
    }

    /// The name of the file that holds the corpus.
    pub fn file_name(&self) -> (r: String)
        ensures
            r@ == self.spec_file_name(),
    {
        match self {
            WordsFile::WGutenberg => String::from_str("words-5chars-wiktionary-gutenberg.txt"),
            WordsFile::Norvig => String::from_str("words-5chars-norvig.txt"),
            WordsFile::HermitDave => String::from_str("words-5chars-hermitdave.txt"),
        }
    }
}

} // verus!
