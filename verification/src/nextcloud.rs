//! # Nextcloud import
//! This module can load data exported from [Nextcloud](https://nextcloud.org/).

use crate::data::{poll_wf, InvalidResponse, PollData, PollFormat};
use crate::records::{build_columns, column_answers, parse_rows, rows_read, table_of};
use vstd::prelude::*;

verus! {

/// What `chrono` makes of `text`: the date and time that `text` holds when
/// read by the pattern `from`, written by the pattern `to`, or nothing
/// where `text` does not hold a date and time in that pattern.
pub uninterp spec fn reformatted(text: Seq<char>, from: Seq<char>, to: Seq<char>) -> Option<
    Seq<char>,
>;

/// The pattern in which Nextcloud writes the beginning of a slot.
pub open spec fn long_pattern() -> Seq<char> {
    "%a, %b %e, %Y %l:%M %p"@
}

/// The pattern of a slot's label: year, month and day.
pub open spec fn short_pattern() -> Seq<char> {
    "%Y-%m-%d"@
}

/// `chrono::NaiveDateTime::parse_from_str` on `text` and the pattern
/// `from`, then `NaiveDateTime::format` with the pattern `to` on what was
/// parsed: the result is the text `reformatted` names, a function of the
/// three texts alone. Only the pattern of year, month and day is given to
/// `format`, which fails on a pattern that it does not know.
#[verifier::external_body]
fn reformat(text: &str, from: &str, to: &str) -> (date: Option<String>)
    requires
        to@ == short_pattern(),
    ensures
        match reformatted(text@, from@, to@) {
            Some(short) => date is Some && date->Some_0@ == short,
            None => date is None,
        },
{
    match chrono::NaiveDateTime::parse_from_str(text, from) {
        Ok(parsed) => Some(parsed.format(to).to_string()),
        Err(_) => None,
    }
}

/// The label of a slot, given what became of its text as a date: the date
/// where there is one, else the text as it is.
pub open spec fn label_of(date: Option<Seq<char>>, text: Seq<char>) -> Seq<char> {
    match date {
        Some(short) => short,
        None => text,
    }
}

/// The label of a slot, given what became of its text as a date.
pub fn label_from(date: Option<String>, text: &str) -> (label: String)
    ensures
        label@ == label_of(
            match date {
                Some(short) => Some(short@),
                None => None,
            },
            text@,
        ),
{
    match date {
        Some(short) => short,
        None => text.to_owned(),
    }
}

/// The label of the slot that Nextcloud writes as `text`.
pub open spec fn slot_label_of(text: Seq<char>) -> Seq<char> {
    label_of(reformatted(text, long_pattern(), short_pattern()), text)
}

/// The label of the slot that Nextcloud writes as `text`: its date, or
/// `text` itself where it holds none.
pub fn slot_label(text: &str) -> (label: String)
    ensures
        label@ == slot_label_of(text@),
{
    let date = reformat(text, "%a, %b %e, %Y %l:%M %p", "%Y-%m-%d");
    label_from(date, text)
}

/// The number of slots of an export: the fields of its second record but
/// the first.
pub open spec fn slots_of(table: Seq<Seq<Seq<char>>>) -> int {
    if table.len() >= 2 && table[1].len() >= 1 {
        table[1].len() - 1
    } else {
        0
    }
}

/// Reads data formatted like that from nextcloud.
///
/// `records` holds the records of the export behind its title line. The
/// first holds the description and the third the end of each slot: both
/// are passed over. The second holds the beginning of each slot behind its
/// first field. Each later record holds a name and that person's
/// responses, of which as many are read as there are slots.
pub fn read_data(records: &[Vec<String>]) -> (result: Result<PollData, InvalidResponse>)
    ensures
        match rows_read(
            PollFormat::Nextcloud,
            table_of(records@),
            3,
            records@.len() as int,
            slots_of(table_of(records@)),
        ) {
            Err(text) => result is Err && result->Err_0.format == PollFormat::Nextcloud
                && result->Err_0.text@ == text,
            Ok(rows) => {
                &&& result is Ok
                &&& result->Ok_0@.len() == slots_of(table_of(records@))
                &&& poll_wf(result->Ok_0@)
                &&& forall|k: int|
                    0 <= k < slots_of(table_of(records@)) ==> (#[trigger] result->Ok_0@[k]).time@
                        == slot_label_of(table_of(records@)[1][k + 1])
                        && result->Ok_0@[k].answers() == column_answers(rows, k, rows.len() as int)
            },
        },
{
    let ghost table = table_of(records@);
    let mut times: Vec<String> = Vec::new();
    if records.len() >= 2 {
        let from = &records[1];
        assert(table[1].len() == from@.len());
        let mut i: usize = 1;
        while i < from.len()
            invariant
                1 <= i,
                i <= from@.len() || (from@.len() == 0 && i == 1),
                times@.len() == i - 1,
                records@.len() >= 2,
                table[1].len() == from@.len(),
                *from == records@[1],
                table == table_of(records@),
                forall|k: int|
                    0 <= k < i - 1 ==> (#[trigger] times@[k])@ == slot_label_of(table[1][k + 1]),
            decreases from@.len() - i,
        {
            assert(table[1][i as int] == from@[i as int]@);
            times.push(slot_label(from[i].as_str()));
            i += 1;
        }
    }
    assert(times@.len() == slots_of(table));
    match parse_rows(PollFormat::Nextcloud, records, 3, times.len()) {
        Err(e) => Err(e),
        Ok(rows) => Ok(build_columns(&times, &rows)),
    }
}

} // verus!
