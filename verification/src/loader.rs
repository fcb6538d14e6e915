//! Reading records from lines of comma-separated text.
//!
//! A line holds the class of a record in its first field and one attribute
//! in each of the fields after it: `republican,n,y,?,...`. A class that is
//! not known makes the line unfit; an attribute that is neither `y` nor `n`
//! is taken as unknown.

use vstd::prelude::*;
use crate::error::{agrees, Error};
use crate::records::{Choice, Class, Record, Row};

verus! {

/// Where the field that starts at `start` ends: at the first comma at or
/// after `start`, or at the end of the line where there is none.
pub open spec fn field_end(line: Seq<char>, start: int) -> int
    decreases line.len() - start,
{
    if start >= line.len() {
        line.len() as int
    } else if line[start] == ',' {
        start
    } else {
        field_end(line, start + 1)
    }
}

/// Where field number `index` starts: field 0 at the start of the line,
/// every other field after the comma that ends the field before it. A field
/// that the line does not have starts beyond the end of the line.
pub open spec fn field_start(line: Seq<char>, index: nat) -> int
    decreases index,
{
    if index == 0 {
        0
    } else {
        field_end(line, field_start(line, (index - 1) as nat)) + 1
    }
}

/// Whether the line has a field number `index`.
pub open spec fn has_field(line: Seq<char>, index: nat) -> bool {
    field_start(line, index) <= line.len()
}

/// Field number `index` of the line.
pub open spec fn field(line: Seq<char>, index: nat) -> Seq<char> {
    line.subrange(field_start(line, index), field_end(line, field_start(line, index)))
}

/// The choice that an attribute field stands for.
pub open spec fn choice_of(token: Seq<char>) -> Choice {
    if token == seq!['y'] {
        Choice::Yes
    } else if token == seq!['n'] {
        Choice::No
    } else {
        Choice::Unknown
    }
}

/// The class that a class field stands for, if any.
pub open spec fn class_of(token: Seq<char>) -> Option<Class> {
    if token == "republican"@ {
        Some(Class::Republican)
    } else if token == "democrat"@ {
        Some(Class::Democrat)
    } else {
        None
    }
}

/// The record that a line stands for, where it is to have `attributes`
/// attributes: field 0 is its class, the fields 1 to `attributes` are its
/// attributes, and further fields are ignored.
pub open spec fn parsed(line: Seq<char>, attributes: nat) -> Result<Record, Error> {
    match class_of(field(line, 0)) {
        None => Err(Error::UnknownClass),
        Some(class) => if has_field(line, attributes) {
            Ok(
                Record {
                    class,
                    attributes: Seq::new(attributes, |i: int| choice_of(field(line, (i + 1) as nat))),
                },
            )
        } else {
            Err(Error::MissingAttributes)
        },
    }
}

/// The records that the first `count` lines stand for, or the error of the
/// first line that stands for none.
pub open spec fn parsed_lines(lines: Seq<Seq<char>>, attributes: nat, count: nat) -> Result<
    Seq<Record>,
    Error,
>
    decreases count,
{
    if count == 0 {
        Ok(Seq::empty())
    } else {
        match parsed_lines(lines, attributes, (count - 1) as nat) {
            Ok(records) => match parsed(lines[count - 1], attributes) {
                Ok(record) => Ok(records.push(record)),
                Err(error) => Err(error),
            },
            Err(error) => Err(error),
        }
    }
}

/// A line that lacks a field lacks every field after it.
pub proof fn lemma_fields_run_out(line: Seq<char>, missing: nat, index: nat)
    requires
        !has_field(line, missing),
        missing <= index,
    ensures
        !has_field(line, index),
    decreases index,
{
    if missing < index {
        lemma_fields_run_out(line, missing, (index - 1) as nat);
    }
}

/// Once a line has been turned down, the lines after it are not looked at.
pub proof fn lemma_parsing_stops_at_error(
    lines: Seq<Seq<char>>,
    attributes: nat,
    failed: nat,
    count: nat,
)
    requires
        parsed_lines(lines, attributes, failed) is Err,
        failed <= count,
    ensures
        parsed_lines(lines, attributes, count) == parsed_lines(lines, attributes, failed),
    decreases count,
{
    if failed < count {
        lemma_parsing_stops_at_error(lines, attributes, failed, (count - 1) as nat);
    }
}

/// The choice that the attribute token `c` stands for: `y` is yes, `n` is
/// no, and anything else is unknown.
pub fn choice_str_to_enum(c: &str) -> (choice: Choice)
    ensures
        choice == choice_of(c@),
{
    let chars = characters(c);
    assert(chars@.subrange(0, chars.len() as int) =~= c@);
    choice_between(&chars, 0, chars.len())
}

/// The characters of `text`.
fn characters(text: &str) -> (chars: Vec<char>)
    ensures
        chars@ == text@,
{
    let mut chars: Vec<char> = Vec::new();
    for c in it: text.chars()
        invariant
            chars@ == it.seq().take(it.index()),
            it.seq() == text@,
    {
        chars.push(c);
    }
    chars
}

/// Where the field that starts at `start` ends.
fn find_field_end(line: &Vec<char>, start: usize) -> (end: usize)
    requires
        start <= line.len(),
    ensures
        end == field_end(line@, start as int),
        start <= end <= line.len(),
{
    let mut end = start;
    while end < line.len() && line[end] != ','
        invariant
            start <= end <= line.len(),
            field_end(line@, end as int) == field_end(line@, start as int),
        decreases line.len() - end,
    {
        end += 1;
    }
    end
}

/// Whether the characters of `line` from `from` to `to` spell `word`.
fn spells(line: &Vec<char>, from: usize, to: usize, word: &str) -> (yes: bool)
    requires
        from <= to <= line.len(),
    ensures
        yes == (line@.subrange(from as int, to as int) == word@),
{
    let ghost token = line@.subrange(from as int, to as int);
    let len = word.unicode_len();
    if to - from != len {
        return false;
    }
    let mut i: usize = 0;
    while i < len
        invariant
            i <= len,
            len == word@.len(),
            from + len == to,
            to <= line.len(),
            token == line@.subrange(from as int, to as int),
            forall|j: int| 0 <= j < i ==> token[j] == word@[j],
        decreases len - i,
    {
        if line[from + i] != word.get_char(i) {
            assert(token[i as int] != word@[i as int]);
            return false;
        }
        i += 1;
    }
    assert(token =~= word@);
    true
}

/// The choice that the characters of `line` from `from` to `to` stand for.
fn choice_between(line: &Vec<char>, from: usize, to: usize) -> (choice: Choice)
    requires
        from <= to <= line.len(),
    ensures
        choice == choice_of(line@.subrange(from as int, to as int)),
{
    let ghost token = line@.subrange(from as int, to as int);
    if to - from != 1 {
        assert(token.len() != seq!['y'].len() && token.len() != seq!['n'].len());
        return Choice::Unknown;
    }
    let letter = line[from];
    assert(token =~= seq![letter]);
    if letter == 'y' {
        Choice::Yes
    } else if letter == 'n' {
        assert(seq!['n'][0] != seq!['y'][0]);
        Choice::No
    } else {
        assert(seq![letter][0] != seq!['y'][0]);
        assert(seq![letter][0] != seq!['n'][0]);
        Choice::Unknown
    }
}

/// Reads one record with `attributes` attributes from a line of text.
///
/// The first field must be `republican` or `democrat`. Of the fields after
/// it, `y` is yes, `n` is no and anything else, an empty field too, is
/// unknown. The line must have at least `attributes` fields after the
/// first; what comes after those is ignored.
pub fn parse_row(line: &str, attributes: usize) -> (outcome: Result<Row, Error>)
    ensures
        agrees(outcome, parsed(line@, attributes as nat)),
{
    let chars = characters(line);
    let len = chars.len();
    let mut start: usize = 0;
    let mut end = find_field_end(&chars, 0);
    let class = if spells(&chars, 0, end, "republican") {
        Class::Republican
    } else if spells(&chars, 0, end, "democrat") {
        Class::Democrat
    } else {
        return Err(Error::UnknownClass);
    };
    assert(class_of(field(line@, 0)) == Some(class));
    let mut choices: Vec<Choice> = Vec::new();
    let mut index: usize = 0;
    while index < attributes
        invariant
            index <= attributes,
            chars@ == line@,
            len == chars.len(),
            class_of(field(line@, 0)) == Some(class),
            start == field_start(line@, index as nat),
            end == field_end(line@, start as int),
            start <= end <= len,
            choices.len() == index,
            forall|i: int|
                0 <= i < index ==> #[trigger] choices[i] == choice_of(field(line@, (i + 1) as nat)),
        decreases attributes - index,
    {
        if end >= len {
            proof {
                assert(!has_field(line@, (index + 1) as nat));
                lemma_fields_run_out(line@, (index + 1) as nat, attributes as nat);
            }
            return Err(Error::MissingAttributes);
        }
        start = end + 1;
        end = find_field_end(&chars, start);
        let choice = choice_between(&chars, start, end);
        choices.push(choice);
        index += 1;
    }
    assert(choices@ =~= Seq::new(
        attributes as nat,
        |i: int| choice_of(field(line@, (i + 1) as nat)),
    ));
    Ok(Row { class, attributes: choices })
}

/// Reads one record with `attributes` attributes from every line, in
/// order, and stops at the first line that stands for none.
pub fn parse_rows(lines: &Vec<String>, attributes: usize) -> (outcome: Result<Vec<Row>, Error>)
    ensures
        match outcome {
            Ok(rows) => parsed_lines(lines.deep_view(), attributes as nat, lines.len() as nat)
                == Ok::<Seq<Record>, Error>(rows.deep_view()),
            Err(error) => parsed_lines(lines.deep_view(), attributes as nat, lines.len() as nat)
                == Err::<Seq<Record>, Error>(error),
        },
{
    let ghost texts = lines.deep_view();
    let mut rows: Vec<Row> = Vec::new();
    let mut k: usize = 0;
    assert(rows.deep_view() =~= Seq::<Record>::empty());
    while k < lines.len()
        invariant
            k <= lines.len(),
            texts == lines.deep_view(),
            parsed_lines(texts, attributes as nat, k as nat) == Ok::<Seq<Record>, Error>(
                rows.deep_view(),
            ),
        decreases lines.len() - k,
    {
        let ghost before = rows.deep_view();
        assert(texts[k as int] == lines@[k as int]@);
        match parse_row(lines[k].as_str(), attributes) {
            Ok(row) => {
                rows.push(row);
                assert(rows.deep_view() =~= before.push(row@));
            },
            Err(error) => {
                proof {
                    lemma_parsing_stops_at_error(
                        texts,
                        attributes as nat,
                        (k + 1) as nat,
                        lines.len() as nat,
                    );
                }
                return Err(error);
            },
        }
        k += 1;
    }
    Ok(rows)
}

} // verus!
