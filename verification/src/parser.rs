//! The parser of the text format.

use vstd::prelude::*;
use vstd::slice::slice_subrange;

use crate::format::{
    all_digits, data_lines, decimal_value, digits_of, first_at, is_digit, is_outcome, lemma_first_at,
    lemma_first_at_is, lines, lines_from, number_of, record_of, tokens, tokens_from, CharClass,
    FormatError, FormatErrorKind,
};
use crate::record::TransactionNode;

verus! {

/// Finds the first character of kind `class` at or after `from`; gives
/// the length of `chars` where there is none.
pub fn find_first(chars: &[char], class: CharClass, from: usize) -> (at: usize)
    ensures
        at == first_at(chars@, class, from as int),
        at <= chars.len(),
        from <= chars.len() ==> from <= at,
{
    if from >= chars.len() {
        return chars.len();
    }
    let mut at = from;
    while at < chars.len() && !class.holds(chars[at])
        invariant
            from <= at <= chars.len(),
            forall|i: int| from <= i < at ==> !class.accepts(#[trigger] chars@[i]),
        decreases chars.len() - at,
    {
        at = at + 1;
    }
    proof {
        lemma_first_at_is(chars@, class, from as int, at as int);
    }
    at
}

/// Further digits never make the number smaller.
proof fn lemma_decimal_value_grows(digits: Seq<char>, len: int)
    requires
        0 <= len <= digits.len(),
        all_digits(digits),
    ensures
        decimal_value(digits.take(len)) <= decimal_value(digits),
    decreases digits.len() - len,
{
    if len < digits.len() {
        lemma_decimal_value_grows(digits, len + 1);
        assert(digits.take(len + 1).drop_last() =~= digits.take(len));
    } else {
        assert(digits.take(len) =~= digits);
    }
}

/// Reads a field as a number.
pub fn parse_number(token: &[char]) -> (number: Option<usize>)
    ensures
        number == number_of(token@),
{
    let start: usize = if token.len() > 0 && token[0] == '+' {
        1
    } else {
        0
    };
    let ghost digits = digits_of(token@);
    if start == token.len() {
        return None;
    }
    let mut value: usize = 0;
    let mut i: usize = start;
    proof {
        assert(digits.take(0) =~= Seq::empty());
    }
    while i < token.len()
        invariant
            start <= i <= token.len(),
            digits == digits_of(token@),
            digits.len() == token.len() - start,
            forall|k: int| 0 <= k < digits.len() ==> digits[k] == token@[k + start],
            all_digits(digits.take(i - start)),
            value == decimal_value(digits.take(i - start)),
        decreases token.len() - i,
    {
        let c = token[i];
        if !('0' <= c && c <= '9') {
            proof {
                assert(!is_digit(digits[i - start]));
            }
            return None;
        }
        let digit = (c as u32 - '0' as u32) as usize;
        proof {
            let longer = digits.take(i - start + 1);
            assert(longer.drop_last() =~= digits.take(i - start));
            assert(longer.last() == c);
            assert(all_digits(longer)) by {
                assert forall|k: int| 0 <= k < longer.len() implies is_digit(#[trigger] longer[k]) by {
                    if k < i - start {
                        assert(digits.take(i - start)[k] == longer[k]);
                    }
                }
            }
            if all_digits(digits) {
                lemma_decimal_value_grows(digits, i - start + 1);
            }
        }
        let scaled = match value.checked_mul(10) {
            Some(scaled) => scaled,
            None => {
                return None;
            },
        };
        value = match scaled.checked_add(digit) {
            Some(sum) => sum,
            None => {
                return None;
            },
        };
        i = i + 1;
    }
    proof {
        assert(digits.take(i - start) =~= digits);
    }
    Some(value)
}

/// Reads a line as a record.
pub fn parse_line(line: &[char]) -> (record: Result<TransactionNode, FormatErrorKind>)
    ensures
        record == record_of(line@),
{
    let mut fields: Vec<usize> = Vec::new();
    let ghost mut done: Seq<Seq<char>> = Seq::empty();
    let mut pos: usize = 0;
    loop
        invariant
            pos <= line.len(),
            tokens(line@) == done + tokens_from(line@, pos as int),
            fields@.len() == done.len(),
            forall|k: int| 0 <= k < done.len() ==> number_of(#[trigger] done[k]) == Some(fields@[k]),
        ensures
            tokens(line@) == done,
            fields@.len() == done.len(),
            forall|k: int| 0 <= k < done.len() ==> number_of(#[trigger] done[k]) == Some(fields@[k]),
        decreases line.len() - pos,
    {
        let start = find_first(line, CharClass::Solid, pos);
        if start >= line.len() {
            proof {
                assert(done + tokens_from(line@, pos as int) =~= done);
            }
            break ;
        }
        let end = find_first(line, CharClass::Blank, start);
        let token = slice_subrange(line, start, end);
        proof {
            lemma_first_at(line@, CharClass::Blank, start as int);
            assert(done + tokens_from(line@, pos as int) =~= done.push(token@) + tokens_from(
                line@,
                end as int,
            ));
        }
        match parse_number(token) {
            Some(number) => {
                fields.push(number);
            },
            None => {
                proof {
                    assert(tokens(line@)[done.len() as int] == token@);
                }
                return Err(FormatErrorKind::InvalidNumber);
            },
        }
        proof {
            done = done.push(token@);
        }
        pos = end;
    }
    if fields.len() != 3 {
        Err(FormatErrorKind::FieldCount)
    } else {
        Ok(TransactionNode { left: fields[0], right: fields[1], timestamp: fields[2] })
    }
}

/// The characters of `text`, one by one.
fn chars_of(text: &str) -> (chars: Vec<char>)
    ensures
        chars@ == text@,
{
    let mut chars: Vec<char> = Vec::new();
    for c in it: text.chars()
        invariant
            it.seq() == text@,
            chars@ == it.seq().take(it.index() as int),
    {
        chars.push(c);
    }
    chars
}

/// Parses the text of a transaction database: the header line is
/// skipped, and every further line has to hold one record. Parsing stops
/// at the first line that holds none.
pub fn parse_database(text: &str) -> (result: Result<Vec<TransactionNode>, FormatError>)
    ensures
        match result {
            Ok(nodes) => is_outcome(text@, Ok(nodes@)),
            Err(error) => is_outcome(text@, Err(error)),
        },
{
    let chars = chars_of(text);
    let mut nodes: Vec<TransactionNode> = Vec::new();
    let ghost mut done: Seq<Seq<char>> = Seq::empty();
    let mut line_index: usize = 0;
    let mut pos: usize = 0;
    while pos < chars.len()
        invariant
            chars@ == text@,
            pos <= chars.len(),
            line_index <= pos,
            lines(text@) == done + lines_from(text@, pos as int),
            done.len() == line_index,
            line_index == 0 ==> nodes@.len() == 0,
            line_index > 0 ==> nodes@.len() == line_index - 1,
            forall|k: int|
                1 <= k < line_index ==> record_of(#[trigger] done[k]) == Ok::<
                    TransactionNode,
                    FormatErrorKind,
                >(nodes@[k - 1]),
        decreases chars.len() - pos,
    {
        let end = find_first(chars.as_slice(), CharClass::LineFeed, pos);
        let line = slice_subrange(chars.as_slice(), pos, end);
        let ghost rest = if end < chars.len() {
            end + 1
        } else {
            end as int
        };
        proof {
            assert(lines_from(text@, end + 1) =~= lines_from(text@, rest));
            assert(done + lines_from(text@, pos as int) =~= done.push(line@) + lines_from(text@, rest));
        }
        if line_index > 0 {
            match parse_line(line) {
                Ok(node) => {
                    nodes.push(node);
                },
                Err(kind) => {
                    proof {
                        let data = data_lines(text@);
                        assert(lines(text@)[line_index as int] == line@);
                        assert(data[line_index - 1] == line@);
                        assert forall|k: int| 0 <= k < line_index - 1 implies record_of(
                            #[trigger] data[k],
                        ) is Ok by {
                            assert(data[k] == done[k + 1]);
                        }
                    }
                    return Err(FormatError { line: line_index + 1, kind });
                },
            }
        }
        proof {
            done = done.push(line@);
        }
        line_index = line_index + 1;
        pos = if end < chars.len() {
            end + 1
        } else {
            end
        };
    }
    proof {
        let data = data_lines(text@);
        assert(done + lines_from(text@, pos as int) =~= done);
        assert forall|k: int| 0 <= k < data.len() implies record_of(#[trigger] data[k]) == Ok::<
            TransactionNode,
            FormatErrorKind,
        >(nodes@[k]) by {
            assert(data[k] == done[k + 1]);
        }
    }
    Ok(nodes)
}

} // verus!
