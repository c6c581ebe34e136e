//! The text format of a transaction database.
//!
//! The first line of a text is a header. Each further line holds one
//! record: three numbers separated by white space, the left parent, the
//! right parent and the timestamp. Lines end at a line feed; the last
//! line needs none.

use vstd::prelude::*;

use crate::record::TransactionNode;

verus! {

/// Why a line is no record.
#[derive(Clone, Copy, Debug, PartialEq, Eq, Structural)]
pub enum FormatErrorKind {
    /// Some field of the line is not a number that fits the machine word.
    InvalidNumber,
    /// All fields are numbers, but there are not three of them.
    FieldCount,
}

/// The first line of a text that is no record.
#[derive(Clone, Copy, Debug, PartialEq, Eq, Structural)]
pub struct FormatError {
    /// Number of the line within the text; the header is line 1.
    pub line: usize,
    pub kind: FormatErrorKind,
}

/// The characters that separate fields: those with the Unicode property
/// White_Space.
pub open spec fn white_space(c: char) -> bool {
    ||| '\u{9}' <= c <= '\u{d}'
    ||| c == ' '
    ||| c == '\u{85}'
    ||| c == '\u{a0}'
    ||| c == '\u{1680}'
    ||| '\u{2000}' <= c <= '\u{200a}'
    ||| c == '\u{2028}'
    ||| c == '\u{2029}'
    ||| c == '\u{202f}'
    ||| c == '\u{205f}'
    ||| c == '\u{3000}'
}

/// The kinds of character that the format tells apart.
#[derive(Clone, Copy, Debug, PartialEq, Eq, Structural)]
pub enum CharClass {
    /// White space, which separates fields.
    Blank,
    /// Anything but white space: what fields are made of.
    Solid,
    /// The line feed, which ends a line.
    LineFeed,
}

impl CharClass {
    /// `c` is of this kind.
    pub open spec fn accepts(self, c: char) -> bool {
        match self {
            CharClass::Blank => white_space(c),
            CharClass::Solid => !white_space(c),
            CharClass::LineFeed => c == '\n',
        }
    }

    /// Tells whether `c` is of this kind.
    pub fn holds(self, c: char) -> (held: bool)
        ensures
            held == self.accepts(c),
    {
        match self {
            CharClass::Blank => is_white_space(c),
            CharClass::Solid => !is_white_space(c),
            CharClass::LineFeed => c == '\n',
        }
    }
}

/// Tells whether `c` separates fields.
pub fn is_white_space(c: char) -> (space: bool)
    ensures
        space == white_space(c),
{
    ('\u{9}' <= c && c <= '\u{d}') || c == ' ' || c == '\u{85}' || c == '\u{a0}' || c == '\u{1680}' || (
    '\u{2000}' <= c && c <= '\u{200a}') || c == '\u{2028}' || c == '\u{2029}' || c == '\u{202f}' || c
        == '\u{205f}' || c == '\u{3000}'
}

/// Position of the first character of kind `class` at or after `from`;
/// the length of `s` where there is none.
pub open spec fn first_at(s: Seq<char>, class: CharClass, from: int) -> int
    decreases s.len() - from,
{
    if from < 0 || from >= s.len() {
        s.len() as int
    } else if class.accepts(s[from]) {
        from
    } else {
        first_at(s, class, from + 1)
    }
}

/// What `first_at` returns lies between `from` and the end, is of the
/// kind asked for unless it is the end, and nothing before it is.
pub proof fn lemma_first_at(s: Seq<char>, class: CharClass, from: int)
    requires
        0 <= from <= s.len(),
    ensures
        from <= first_at(s, class, from) <= s.len(),
        first_at(s, class, from) < s.len() ==> class.accepts(s[first_at(s, class, from)]),
        forall|i: int| from <= i < first_at(s, class, from) ==> !class.accepts(#[trigger] s[i]),
    decreases s.len() - from,
{
    if from < s.len() && !class.accepts(s[from]) {
        lemma_first_at(s, class, from + 1);
    }
}

/// A position with the properties of `first_at` is what it returns.
pub proof fn lemma_first_at_is(s: Seq<char>, class: CharClass, from: int, at: int)
    requires
        0 <= from <= at <= s.len(),
        at < s.len() ==> class.accepts(s[at]),
        forall|i: int| from <= i < at ==> !class.accepts(#[trigger] s[i]),
    ensures
        first_at(s, class, from) == at,
    decreases at - from,
{
    if from < at {
        lemma_first_at_is(s, class, from + 1, at);
    }
}

/// The fields of `line` that begin at or after `from`: the maximal runs
/// of characters that are no white space.
pub open spec fn tokens_from(line: Seq<char>, from: int) -> Seq<Seq<char>>
    decreases line.len() - from,
{
    let start = first_at(line, CharClass::Solid, from);
    if from < 0 || start >= line.len() {
        Seq::empty()
    } else {
        let end = first_at(line, CharClass::Blank, start);
        proof {
            lemma_first_at(line, CharClass::Solid, from);
            lemma_first_at(line, CharClass::Blank, start);
        }
        seq![line.subrange(start, end)] + tokens_from(line, end)
    }
}

/// The fields of `line`.
pub open spec fn tokens(line: Seq<char>) -> Seq<Seq<char>> {
    tokens_from(line, 0)
}

/// `c` is a decimal digit.
pub open spec fn is_digit(c: char) -> bool {
    '0' <= c <= '9'
}

/// The number that a sequence of decimal digits denotes.
pub open spec fn decimal_value(digits: Seq<char>) -> nat
    decreases digits.len(),
{
    if digits.len() == 0 {
        0
    } else {
        (decimal_value(digits.drop_last()) * 10 + (digits.last() as u32 - '0' as u32)) as nat
    }
}

/// The digits of a field: the field without its sign, where it has one.
pub open spec fn digits_of(token: Seq<char>) -> Seq<char> {
    if token.len() > 0 && token[0] == '+' {
        token.skip(1)
    } else {
        token
    }
}

/// Every character of `digits` is a decimal digit.
pub open spec fn all_digits(digits: Seq<char>) -> bool {
    forall|i: int| 0 <= i < digits.len() ==> is_digit(#[trigger] digits[i])
}

/// The number that a field denotes: an optional `+`, then at least one
/// decimal digit. A field of another form, or one whose number does not
/// fit the machine word, denotes none.
pub open spec fn number_of(token: Seq<char>) -> Option<usize> {
    let digits = digits_of(token);
    if digits.len() > 0 && all_digits(digits) && decimal_value(digits) <= usize::MAX {
        Some(decimal_value(digits) as usize)
    } else {
        None
    }
}

/// The record that `line` holds. A field that denotes no number makes
/// the line invalid whatever the number of fields.
pub open spec fn record_of(line: Seq<char>) -> Result<TransactionNode, FormatErrorKind> {
    let fields = tokens(line);
    if exists|k: int| 0 <= k < fields.len() && number_of(#[trigger] fields[k]) is None {
        Err(FormatErrorKind::InvalidNumber)
    } else if fields.len() != 3 {
        Err(FormatErrorKind::FieldCount)
    } else {
        Ok(
            TransactionNode {
                left: number_of(fields[0])->0,
                right: number_of(fields[1])->0,
                timestamp: number_of(fields[2])->0,
            },
        )
    }
}

/// The lines of `text` that begin at or after `from`.
pub open spec fn lines_from(text: Seq<char>, from: int) -> Seq<Seq<char>>
    decreases text.len() + 1 - from,
{
    if from < 0 || from >= text.len() {
        Seq::empty()
    } else {
        let end = first_at(text, CharClass::LineFeed, from);
        proof {
            lemma_first_at(text, CharClass::LineFeed, from);
        }
        seq![text.subrange(from, end)] + lines_from(text, end + 1)
    }
}

/// The lines of `text`, each without its line feed. A line feed at the
/// very end of the text begins no further line.
pub open spec fn lines(text: Seq<char>) -> Seq<Seq<char>> {
    lines_from(text, 0)
}

/// The lines of `text` after the header.
pub open spec fn data_lines(text: Seq<char>) -> Seq<Seq<char>> {
    let all = lines(text);
    if all.len() > 0 {
        all.skip(1)
    } else {
        all
    }
}

/// `outcome` is what parsing `text` gives: the records of all lines
/// after the header, in their order, where each of these lines holds a
/// record; and otherwise the first line that holds none, with the reason.
pub open spec fn is_outcome(
    text: Seq<char>,
    outcome: Result<Seq<TransactionNode>, FormatError>,
) -> bool {
    let data = data_lines(text);
    match outcome {
        Ok(records) => {
            &&& records.len() == data.len()
            &&& forall|k: int| 0 <= k < data.len() ==> record_of(#[trigger] data[k]) == Ok::<
                TransactionNode,
                FormatErrorKind,
            >(records[k])
        },
        Err(error) => {
            &&& 2 <= error.line < data.len() + 2
            &&& record_of(data[error.line - 2]) == Err::<TransactionNode, FormatErrorKind>(error.kind)
            &&& forall|k: int| 0 <= k < error.line - 2 ==> record_of(#[trigger] data[k]) is Ok
        },
    }
}

/// A text has one outcome.
pub proof fn lemma_outcome_unique(
    text: Seq<char>,
    first: Result<Seq<TransactionNode>, FormatError>,
    second: Result<Seq<TransactionNode>, FormatError>,
)
    requires
        is_outcome(text, first),
        is_outcome(text, second),
    ensures
        first == second,
{
    let data = data_lines(text);
    match (first, second) {
        (Ok(a), Ok(b)) => {
            assert forall|k: int| 0 <= k < a.len() implies a[k] == b[k] by {
                assert(record_of(data[k]) == Ok::<TransactionNode, FormatErrorKind>(a[k]));
                assert(record_of(data[k]) == Ok::<TransactionNode, FormatErrorKind>(b[k]));
            }
            assert(a =~= b);
        },
        (Ok(a), Err(e)) => {
            assert(record_of(data[e.line - 2]) is Ok);
        },
        (Err(e), Ok(b)) => {
            assert(record_of(data[e.line - 2]) is Ok);
        },
        (Err(d), Err(e)) => {
            if d.line < e.line {
                assert(record_of(data[d.line - 2]) is Ok);
            }
            if e.line < d.line {
                assert(record_of(data[e.line - 2]) is Ok);
            }
        },
    }
}

} // verus!
