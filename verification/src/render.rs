//! The canonical text of a record sequence, and the law that parsing
//! gives the records back.

use vstd::prelude::*;

use crate::format::{
    all_digits, data_lines, decimal_value, first_at, is_digit, is_outcome, lemma_first_at,
    lemma_first_at_is, lines, lines_from, number_of, record_of, tokens, tokens_from, white_space,
    CharClass, FormatErrorKind,
};
use crate::record::TransactionNode;

verus! {

/// The character of the decimal digit `digit`.
pub open spec fn digit_char(digit: nat) -> char {
    seq!['0', '1', '2', '3', '4', '5', '6', '7', '8', '9'][digit as int]
}

/// The decimal digits of `number`, the most significant first, without
/// leading zeros.
pub open spec fn decimal_digits(number: nat) -> Seq<char>
    decreases number,
{
    if number < 10 {
        seq![digit_char(number)]
    } else {
        decimal_digits(number / 10).push(digit_char(number % 10))
    }
}

/// The line of a record: its three fields in decimal, separated by one
/// space.
pub open spec fn render_record(record: TransactionNode) -> Seq<char> {
    decimal_digits(record.left as nat) + seq![' '] + decimal_digits(record.right as nat) + seq![' ']
        + decimal_digits(record.timestamp as nat)
}

/// The text of a record sequence under the header line `header`: every
/// line, the header too, ends with a line feed.
pub open spec fn render(header: Seq<char>, records: Seq<TransactionNode>) -> Seq<char>
    decreases records.len(),
{
    if records.len() == 0 {
        header + seq!['\n']
    } else {
        render(header, records.drop_last()) + render_record(records.last()) + seq!['\n']
    }
}

/// A character sequence that can stand as one field: it is not empty and
/// holds no white space.
pub open spec fn is_word(word: Seq<char>) -> bool {
    &&& word.len() > 0
    &&& forall|i: int| 0 <= i < word.len() ==> !white_space(#[trigger] word[i])
}

proof fn lemma_digit_char(digit: nat)
    requires
        digit < 10,
    ensures
        is_digit(digit_char(digit)),
        digit_char(digit) as u32 - '0' as u32 == digit,
{
}

/// The decimal digits of a number are digits, and they denote it.
pub proof fn lemma_decimal_digits(number: nat)
    ensures
        is_word(decimal_digits(number)),
        all_digits(decimal_digits(number)),
        decimal_value(decimal_digits(number)) == number,
    decreases number,
{
    let digits = decimal_digits(number);
    if number < 10 {
        lemma_digit_char(number);
        assert(digits.drop_last() =~= Seq::empty());
        assert(decimal_value(digits.drop_last()) == 0);
    } else {
        lemma_decimal_digits(number / 10);
        lemma_digit_char(number % 10);
        assert(digits.drop_last() =~= decimal_digits(number / 10));
    }
    assert forall|i: int| 0 <= i < digits.len() implies !white_space(#[trigger] digits[i]) by {
        assert(is_digit(digits[i]));
    }
}

/// A number that fits the machine word is read back from its digits.
pub proof fn lemma_number_round_trip(number: usize)
    ensures
        number_of(decimal_digits(number as nat)) == Some(number),
{
    lemma_decimal_digits(number as nat);
    let digits = decimal_digits(number as nat);
    assert(is_digit(digits[0]));
}

/// Three words separated by single spaces are the three fields of their
/// line.
proof fn lemma_three_fields(a: Seq<char>, b: Seq<char>, c: Seq<char>)
    requires
        is_word(a),
        is_word(b),
        is_word(c),
    ensures
        tokens(a + seq![' '] + b + seq![' '] + c) == seq![a, b, c],
{
    let line = a + seq![' '] + b + seq![' '] + c;
    let a_end: int = a.len() as int;
    let b_start: int = a_end + 1;
    let b_end: int = b_start + b.len();
    let c_start: int = b_end + 1;
    let end: int = line.len() as int;
    assert(end == c_start + c.len());
    assert forall|i: int| 0 <= i < a.len() implies line[i] == a[i] by {}
    assert(line[a_end] == ' ');
    assert forall|i: int| b_start <= i < b_end implies line[i] == b[i - b_start] by {}
    assert(line[b_end] == ' ');
    assert forall|i: int| c_start <= i < end implies line[i] == c[i - c_start] by {}
    assert(!white_space(line[0])) by {
        assert(line[0] == a[0]);
    }
    assert(!white_space(line[b_start])) by {
        assert(line[b_start] == b[0]);
    }
    assert(!white_space(line[c_start])) by {
        assert(line[c_start] == c[0]);
    }
    lemma_first_at_is(line, CharClass::Solid, 0, 0);
    assert(first_at(line, CharClass::Blank, 0) == a.len()) by {
        assert forall|i: int| 0 <= i < a.len() implies !CharClass::Blank.accepts(#[trigger] line[i]) by {
            assert(line[i] == a[i]);
        }
        lemma_first_at_is(line, CharClass::Blank, 0, a_end);
    }
    assert(first_at(line, CharClass::Solid, a_end) == b_start) by {
        lemma_first_at_is(line, CharClass::Solid, a_end, b_start);
    }
    assert(first_at(line, CharClass::Blank, b_start) == b_end) by {
        assert forall|i: int| b_start <= i < b_end implies !CharClass::Blank.accepts(
            #[trigger] line[i],
        ) by {
            assert(line[i] == b[i - b_start]);
        }
        lemma_first_at_is(line, CharClass::Blank, b_start, b_end);
    }
    assert(first_at(line, CharClass::Solid, b_end) == c_start) by {
        lemma_first_at_is(line, CharClass::Solid, b_end, c_start);
    }
    assert(first_at(line, CharClass::Blank, c_start) == end) by {
        assert forall|i: int| c_start <= i < end implies !CharClass::Blank.accepts(
            #[trigger] line[i],
        ) by {
            assert(line[i] == c[i - c_start]);
        }
        lemma_first_at_is(line, CharClass::Blank, c_start, end);
    }
    assert(line.subrange(0, a_end) =~= a);
    assert(line.subrange(b_start, b_end) =~= b);
    assert(line.subrange(c_start, end) =~= c);
    assert(tokens_from(line, end) =~= Seq::empty());
    assert(tokens_from(line, b_end) =~= seq![c]);
    assert(tokens_from(line, a_end) =~= seq![b, c]);
    assert(tokens_from(line, 0) =~= seq![a, b, c]);
}

/// The line of a record holds that record, and no line feed.
pub proof fn lemma_record_round_trip(record: TransactionNode)
    ensures
        record_of(render_record(record)) == Ok::<TransactionNode, FormatErrorKind>(record),
        forall|i: int|
            0 <= i < render_record(record).len() ==> (#[trigger] render_record(record)[i]) != '\n',
{
    let a = decimal_digits(record.left as nat);
    let b = decimal_digits(record.right as nat);
    let c = decimal_digits(record.timestamp as nat);
    let line = render_record(record);
    lemma_decimal_digits(record.left as nat);
    lemma_decimal_digits(record.right as nat);
    lemma_decimal_digits(record.timestamp as nat);
    lemma_number_round_trip(record.left);
    lemma_number_round_trip(record.right);
    lemma_number_round_trip(record.timestamp);
    lemma_three_fields(a, b, c);
    let fields = tokens(line);
    assert(fields[0] == a && fields[1] == b && fields[2] == c);
    assert forall|i: int| 0 <= i < line.len() implies (#[trigger] line[i]) != '\n' by {
        if i < a.len() {
            assert(line[i] == a[i]);
        } else if i == a.len() {
        } else if i < a.len() + 1 + b.len() {
            assert(line[i] == b[i - a.len() - 1]);
        } else if i == a.len() + 1 + b.len() {
        } else {
            assert(line[i] == c[i - a.len() - b.len() - 2]);
        }
    }
}

/// A further line at the end of a text that ends with a line feed is a
/// further line of the text.
proof fn lemma_lines_of_longer(text: Seq<char>, line: Seq<char>, from: int)
    requires
        text.len() > 0,
        text.last() == '\n',
        forall|i: int| 0 <= i < line.len() ==> (#[trigger] line[i]) != '\n',
        0 <= from <= text.len(),
    ensures
        lines_from(text + line + seq!['\n'], from) == lines_from(text, from).push(line),
    decreases text.len() - from,
{
    let longer = text + line + seq!['\n'];
    if from == text.len() {
        let end: int = (text.len() + line.len()) as int;
        assert forall|i: int| from <= i < end implies !CharClass::LineFeed.accepts(
            #[trigger] longer[i],
        ) by {
            assert(longer[i] == line[i - from]);
        }
        assert(longer[end] == '\n');
        lemma_first_at_is(longer, CharClass::LineFeed, from, end);
        assert(longer.subrange(from, end) =~= line);
        assert(lines_from(longer, end + 1) =~= Seq::empty());
        assert(lines_from(text, from) =~= Seq::empty());
        assert(lines_from(longer, from) =~= Seq::<Seq<char>>::empty().push(line));
    } else {
        let end: int = first_at(text, CharClass::LineFeed, from);
        lemma_first_at(text, CharClass::LineFeed, from);
        if end == text.len() {
            assert(text[text.len() - 1] == '\n');
            assert(false);
        }
        assert forall|i: int| from <= i < end implies !CharClass::LineFeed.accepts(
            #[trigger] longer[i],
        ) by {
            assert(longer[i] == text[i]);
        }
        assert(longer[end] == text[end]);
        lemma_first_at_is(longer, CharClass::LineFeed, from, end);
        assert(longer.subrange(from, end) =~= text.subrange(from, end));
        lemma_lines_of_longer(text, line, end + 1);
        assert(lines_from(longer, from) =~= lines_from(text, from).push(line));
    }
}

/// The lines of the text of a record sequence are the header and the
/// lines of the records.
pub proof fn lemma_lines_of_render(header: Seq<char>, records: Seq<TransactionNode>)
    requires
        forall|i: int| 0 <= i < header.len() ==> (#[trigger] header[i]) != '\n',
    ensures
        render(header, records).len() > 0,
        render(header, records).last() == '\n',
        lines(render(header, records)).len() == records.len() + 1,
        lines(render(header, records))[0] == header,
        forall|k: int|
            0 <= k < records.len() ==> #[trigger] lines(render(header, records))[k + 1]
                == render_record(records[k]),
    decreases records.len(),
{
    let text = render(header, records);
    if records.len() == 0 {
        let end: int = header.len() as int;
        assert forall|i: int| 0 <= i < end implies !CharClass::LineFeed.accepts(#[trigger] text[i]) by {
            assert(text[i] == header[i]);
        }
        assert(text[end] == '\n');
        lemma_first_at_is(text, CharClass::LineFeed, 0, end);
        assert(text.subrange(0, end) =~= header);
        assert(lines_from(text, end + 1) =~= Seq::empty());
        assert(lines(text) =~= seq![header]);
    } else {
        let front = records.drop_last();
        let before = render(header, front);
        lemma_lines_of_render(header, front);
        lemma_record_round_trip(records.last());
        lemma_lines_of_longer(before, render_record(records.last()), 0);
        assert forall|k: int| 0 <= k < records.len() implies #[trigger] lines(text)[k + 1]
            == render_record(records[k]) by {
            if k < front.len() {
                assert(lines(before)[k + 1] == render_record(front[k]));
            }
        }
    }
}

/// Parsing the text of a record sequence gives the records back, in
/// their order, whatever the header line holds.
pub proof fn lemma_round_trip(header: Seq<char>, records: Seq<TransactionNode>)
    requires
        forall|i: int| 0 <= i < header.len() ==> (#[trigger] header[i]) != '\n',
    ensures
        is_outcome(render(header, records), Ok(records)),
{
    let text = render(header, records);
    let data = data_lines(text);
    lemma_lines_of_render(header, records);
    assert forall|k: int| 0 <= k < data.len() implies record_of(#[trigger] data[k]) == Ok::<
        TransactionNode,
        FormatErrorKind,
    >(records[k]) by {
        assert(data[k] == lines(text)[k + 1]);
        lemma_record_round_trip(records[k]);
    }
}

} // verus!
