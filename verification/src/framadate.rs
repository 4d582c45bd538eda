//! # Framadate import
//! This module can load data exported from [Framadate](https://framadate.org/).

use crate::data::{poll_wf, InvalidResponse, PollData, PollFormat};
use crate::records::{
    build_columns, column_answers, fields_of, parse_rows, rows_read, suffixed, table_of,
    with_suffix,
};
use vstd::prelude::*;

verus! {

/// Why an export of Framadate cannot be read.
#[derive(Debug)]
pub enum ReadError {
    /// A field of the header that holds no date.
    Date(String),
    /// A field of a row that holds no response.
    Response(InvalidResponse),
}

/// The pattern of a date in the header: a year, which is passed over, a
/// month and a day, with hyphens between them.
pub open spec fn date_pattern() -> Seq<char> {
    "{*d}-{d}-{d}"@
}

/// What `scan_fmt` takes out of `input` by the pattern `format`: the texts
/// that it found for the places of the pattern, in their order.
pub uninterp spec fn scanned(input: Seq<char>, format: Seq<char>) -> Seq<Seq<char>>;

/// `scan_fmt::parse::scan` on `input` and the pattern `format`, with what
/// it yields gathered in a vector: the texts that `scanned` names, a
/// function of the two texts alone. Only the pattern of a date is given to
/// it.
#[verifier::external_body]
fn scan(input: &str, format: &str) -> (tokens: Vec<String>)
    requires
        format@ == date_pattern(),
    ensures
        fields_of(tokens@) == scanned(input@, format@),
{
    scan_fmt::parse::scan(input, format).collect()
}

/// Whether `c` is one of the digits from 0 to 9.
pub open spec fn is_digit(c: char) -> bool {
    48 <= c as int <= 57
}

/// The number that a text of digits stands for.
pub open spec fn digits_value(s: Seq<char>) -> nat
    decreases s.len(),
{
    if s.len() == 0 {
        0
    } else {
        (digits_value(s.drop_last()) * 10 + (s.last() as int - 48)) as nat
    }
}

/// The number that a text stands for: a text of one digit or more, with or
/// without a plus or minus sign before them, whose number fits in 32 bits
/// with a sign.
pub open spec fn number_of(s: Seq<char>) -> Option<int> {
    let negative = s.len() > 0 && s[0] == '-';
    let digits = if s.len() > 0 && (s[0] == '-' || s[0] == '+') {
        s.skip(1)
    } else {
        s
    };
    let value = if negative {
        -(digits_value(digits) as int)
    } else {
        digits_value(digits) as int
    };
    if digits.len() > 0 && (forall|i: int| 0 <= i < digits.len() ==> is_digit(#[trigger] digits[i]))
        && i32::MIN <= value <= i32::MAX {
        Some(value)
    } else {
        None
    }
}

/// `str::parse` to a number of 32 bits with a sign: the number that the
/// text stands for, or nothing where it stands for none.
#[verifier::external_body]
fn parse_number(text: &str) -> (number: Option<i32>)
    ensures
        match number_of(text@) {
            Some(value) => number == Some(value as i32),
            None => number is None,
        },
{
    text.parse::<i32>().ok()
}

/// The digits of a number.
pub open spec fn decimal(n: nat) -> Seq<char>
    decreases n,
{
    if n < 10 {
        seq![(48 + n) as char]
    } else {
        decimal(n / 10).push((48 + n % 10) as char)
    }
}

/// A number written two characters wide at least: with a zero before a
/// single digit, and with a minus sign before the digits of a negative
/// number.
pub open spec fn two_wide(value: int) -> Seq<char> {
    if value < 0 {
        seq!['-'] + decimal((-value) as nat)
    } else if value < 10 {
        seq!['0'] + decimal(value as nat)
    } else {
        decimal(value as nat)
    }
}

/// The label of a day: the day and the month, each two wide and with a
/// full stop behind it.
pub open spec fn day_label_of(day: int, month: int) -> Seq<char> {
    two_wide(day) + seq!['.'] + two_wide(month) + seq!['.']
}

/// `format!` of the day and the month, each padded with zeros to a width
/// of two and with a full stop behind it.
#[verifier::external_body]
fn day_label(day: i32, month: i32) -> (label: String)
    ensures
        label@ == day_label_of(day as int, month as int),
{
    format!("{:02}.{:02}.", day, month)
}

/// The label of the day that the texts taken out of a date stand for: the
/// first is the month and the second the day. There is none where one
/// of the two is missing or is no number.
pub open spec fn date_label_of(tokens: Seq<Seq<char>>) -> Option<Seq<char>> {
    if tokens.len() >= 2 && number_of(tokens[0]) is Some && number_of(tokens[1]) is Some {
        Some(day_label_of(number_of(tokens[1])->Some_0, number_of(tokens[0])->Some_0))
    } else {
        None
    }
}

/// The label of the day that the texts taken out of a date stand for.
pub fn date_label(tokens: &Vec<String>) -> (label: Option<String>)
    ensures
        match date_label_of(fields_of(tokens@)) {
            Some(text) => label is Some && label->Some_0@ == text,
            None => label is None,
        },
{
    if tokens.len() < 2 {
        return None;
    }
    assert(fields_of(tokens@)[0] == tokens@[0]@);
    assert(fields_of(tokens@)[1] == tokens@[1]@);
    let month = parse_number(tokens[0].as_str());
    let day = parse_number(tokens[1].as_str());
    match (month, day) {
        (Some(month), Some(day)) => Some(day_label(day, month)),
        _ => None,
    }
}

/// The label of the day that a field of the header holds as a date.
pub fn header_label(time: &str) -> (label: Option<String>)
    ensures
        match date_label_of(scanned(time@, date_pattern())) {
            Some(text) => label is Some && label->Some_0@ == text,
            None => label is None,
        },
{
    let tokens = scan(time, "{*d}-{d}-{d}");
    date_label(&tokens)
}

/// The labels of the days among the first `k` fields of the header: one
/// for each field that is not empty, or the first such field that holds no
/// date.
pub open spec fn days_read(header: Seq<Seq<char>>, k: int) -> Result<Seq<Seq<char>>, Seq<char>>
    decreases k,
{
    if k <= 0 {
        Ok(Seq::empty())
    } else {
        match days_read(header, k - 1) {
            Err(text) => Err(text),
            Ok(days) => if header[k - 1].len() == 0 {
                Ok(days)
            } else {
                match date_label_of(scanned(header[k - 1], date_pattern())) {
                    Some(day) => Ok(days.push(day)),
                    None => Err(header[k - 1]),
                }
            },
        }
    }
}

/// Once a field holds no date, the reading of more fields fails with the
/// same text.
pub proof fn lemma_day_error_stays(header: Seq<Seq<char>>, k: int, end: int)
    requires
        k <= end,
        days_read(header, k) is Err,
    ensures
        days_read(header, end) == days_read(header, k),
    decreases end - k,
{
    if k < end {
        lemma_day_error_stays(header, k, end - 1);
    }
}

/// Whether `result` is the reading of an export whose slots have the
/// labels `days` and whose rows read as `rows`.
pub open spec fn reads_as(
    result: Result<PollData, ReadError>,
    days: Seq<Seq<char>>,
    table: Seq<Seq<Seq<char>>>,
    rows: Result<Seq<(Seq<char>, Seq<crate::data::Response>)>, Seq<char>>,
) -> bool {
    match rows {
        Err(text) => result is Err && result->Err_0 is Response
            && result->Err_0->Response_0.format == PollFormat::Framadate
            && result->Err_0->Response_0.text@ == text,
        Ok(rows) => {
            &&& result is Ok
            &&& result->Ok_0@.len() == days.len()
            &&& poll_wf(result->Ok_0@)
            &&& forall|k: int|
                0 <= k < days.len() ==> (#[trigger] result->Ok_0@[k]).time@ == suffixed(
                    days[k],
                    table,
                    0,
                    k,
                ) && result->Ok_0@[k].answers() == column_answers(rows, k, rows.len() as int)
        },
    }
}

/// Reads data formatted like that from Framadate.
///
/// `headers` holds the fields of the first line of the export: each field
/// that is not empty is the date of a slot. The first record holds the time
/// of each slot behind its first field. Each later record holds a name and
/// that person's responses, of which as many are read as there are slots.
pub fn read_data(headers: &Vec<String>, records: &[Vec<String>]) -> (result: Result<
    PollData,
    ReadError,
>)
    ensures
        match days_read(fields_of(headers@), headers@.len() as int) {
            Err(text) => result is Err && result->Err_0 is Date && result->Err_0->Date_0@ == text,
            Ok(days) => reads_as(
                result,
                days,
                table_of(records@),
                rows_read(
                    PollFormat::Framadate,
                    table_of(records@),
                    1,
                    records@.len() as int,
                    days.len() as int,
                ),
            ),
        },
{
    let ghost header = fields_of(headers@);
    let ghost table = table_of(records@);
    let mut times: Vec<String> = Vec::new();
    let ghost mut days: Seq<Seq<char>> = Seq::empty();
    let mut i: usize = 0;
    while i < headers.len()
        invariant
            i <= headers@.len(),
            header == fields_of(headers@),
            table == table_of(records@),
            days_read(header, i as int) == Ok::<Seq<Seq<char>>, Seq<char>>(days),
            times@.len() == days.len(),
            times@.len() <= i,
            forall|k: int|
                0 <= k < times@.len() ==> (#[trigger] times@[k])@ == suffixed(
                    days[k],
                    table,
                    0,
                    k,
                ),
        decreases headers@.len() - i,
    {
        assert(header[i as int] == headers@[i as int]@);
        let time = headers[i].as_str();
        if !time.is_empty() {
            match header_label(time) {
                None => {
                    proof {
                        lemma_day_error_stays(header, i as int + 1, headers@.len() as int);
                    }
                    return Err(ReadError::Date(headers[i].clone()));
                },
                Some(day) => {
                    proof {
                        days = days.push(day@);
                    }
                    let slot = times.len();
                    times.push(with_suffix(day, records, 0, slot));
                },
            }
        }
        i += 1;
    }
    match parse_rows(PollFormat::Framadate, records, 1, times.len()) {
        Err(e) => Err(ReadError::Response(e)),
        Ok(rows) => Ok(build_columns(&times, &rows)),
    }
}

} // verus!
