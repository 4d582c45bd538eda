//! # Doodle import
//! This module can load data exported from [Doodle](https://doodle.com/).

use crate::data::{poll_wf, InvalidResponse, PollData, PollFormat};
use crate::records::{
    build_columns, column_answers, fields_of, lemma_row_error_stays, parse_row, parse_rows,
    rows_read, suffixed, table_of, with_suffix,
};
use vstd::prelude::*;

verus! {

/// The number of slots of an export: the fields of its header but the
/// first.
pub open spec fn slots_of(header: Seq<Seq<char>>) -> int {
    if header.len() >= 1 {
        header.len() - 1
    } else {
        0
    }
}

/// Whether an export has the shape that can be read. The first slot has a
/// month. Neither of the first two records, which hold days and times, has
/// more fields than the header. And no row that is reached, and whose
/// responses up to one beyond the slots can all be read, has more fields
/// than the header: there is no slot for what such a row holds.
pub open spec fn well_shaped(header: Seq<Seq<char>>, table: Seq<Seq<Seq<char>>>) -> bool {
    &&& header.len() >= 2 ==> header[1].len() > 0
    &&& forall|r: int|
        0 <= r < table.len() && r < 2 ==> (#[trigger] table[r]).len() <= slots_of(header) + 1
    &&& forall|r: int|
        2 <= r < table.len() && #[trigger] read_through(header, table, r) ==> table[r].len()
            <= slots_of(header) + 1
}

/// Whether the rows up to and with record `r` can be read, each up to one
/// response beyond the slots.
pub open spec fn read_through(header: Seq<Seq<char>>, table: Seq<Seq<Seq<char>>>, r: int) -> bool {
    rows_read(PollFormat::Doodle, table, 2, r + 1, slots_of(header) + 1) is Ok
}

/// The month of slot `k`: the header names a month above its first slot
/// only, and leaves the field above its other slots empty.
pub open spec fn month_of(header: Seq<Seq<char>>, k: int) -> Seq<char>
    decreases k,
{
    if k <= 0 {
        header[1]
    } else if header[k + 1].len() == 0 {
        month_of(header, k - 1)
    } else {
        header[k + 1]
    }
}

/// The label of slot `k`: its month, then its day and its time, which the
/// first two records hold.
pub open spec fn slot_label_of(header: Seq<Seq<char>>, table: Seq<Seq<Seq<char>>>, k: int) -> Seq<
    char,
> {
    suffixed(suffixed(month_of(header, k), table, 0, k), table, 1, k)
}

/// Whether an export has the shape that `read_data` asks for.
pub fn is_well_shaped(headers: &Vec<String>, records: &[Vec<String>]) -> (ok: bool)
    ensures
        ok == well_shaped(fields_of(headers@), table_of(records@)),
{
    let ghost header = fields_of(headers@);
    let ghost table = table_of(records@);
    if headers.len() >= 2 {
        assert(header[1] == headers@[1]@);
        if headers[1].as_str().is_empty() {
            return false;
        }
    }
    let most = if headers.len() >= 1 {
        headers.len()
    } else {
        1
    };
    let mut r: usize = 0;
    while r < records.len()
        invariant
            r <= records@.len(),
            most == slots_of(header) + 1,
            header == fields_of(headers@),
            header.len() >= 2 ==> header[1].len() > 0,
            table == table_of(records@),
            forall|q: int| 0 <= q < r ==> (#[trigger] table[q]).len() <= most,
            rows_read(PollFormat::Doodle, table, 2, r as int, most as int) is Ok,
        decreases records@.len() - r,
    {
        assert(table[r as int] == fields_of(records@[r as int]@));
        if r >= 2 {
            match parse_row(PollFormat::Doodle, &records[r], most) {
                Err(_) => {
                    proof {
                        assert forall|q: int| r <= q < table.len() implies !#[trigger] read_through(
                            header,
                            table,
                            q,
                        ) by {
                            lemma_row_error_stays(
                                PollFormat::Doodle,
                                table,
                                2,
                                r as int + 1,
                                q + 1,
                                most as int,
                            );
                        }
                    }
                    return true;
                },
                Ok(_) => {},
            }
        }
        if records[r].len() > most {
            assert(!(table[r as int].len() <= slots_of(header) + 1));
            assert(r >= 2 ==> read_through(header, table, r as int));
            return false;
        }
        r += 1;
    }
    true
}

/// Reads data formatted like that from Doodle.
///
/// `headers` holds the fields of the first line of the export: behind the
/// first, the month of each slot, or nothing where the month is that of
/// the slot before. The first two records hold the day and the time of
/// each slot. Each later record holds a name and that person's responses.
pub fn read_data(headers: &Vec<String>, records: &[Vec<String>]) -> (result: Result<
    PollData,
    InvalidResponse,
>)
    requires
        well_shaped(fields_of(headers@), table_of(records@)),
    ensures
        match rows_read(
            PollFormat::Doodle,
            table_of(records@),
            2,
            records@.len() as int,
            slots_of(fields_of(headers@)) + 1,
        ) {
            Err(text) => result is Err && result->Err_0.format == PollFormat::Doodle
                && result->Err_0.text@ == text,
            Ok(rows) => {
                &&& result is Ok
                &&& result->Ok_0@.len() == slots_of(fields_of(headers@))
                &&& poll_wf(result->Ok_0@)
                &&& forall|k: int|
                    0 <= k < slots_of(fields_of(headers@)) ==> (#[trigger] result->Ok_0@[k]).time@
                        == slot_label_of(fields_of(headers@), table_of(records@), k)
                        && result->Ok_0@[k].answers() == column_answers(rows, k, rows.len() as int)
            },
        },
{
    let ghost header = fields_of(headers@);
    let ghost table = table_of(records@);
    let mut times: Vec<String> = Vec::new();
    let mut month = String::new();
    let mut i: usize = 1;
    while i < headers.len()
        invariant
            1 <= i,
            i <= headers@.len() || (headers@.len() == 0 && i == 1),
            times@.len() == i - 1,
            header == fields_of(headers@),
            header.len() == headers@.len(),
            table == table_of(records@),
            headers@.len() >= 2 ==> header[1].len() > 0,
            i >= 2 ==> month@ == month_of(header, i - 2),
            forall|k: int|
                0 <= k < i - 1 ==> (#[trigger] times@[k])@ == slot_label_of(header, table, k),
        decreases headers@.len() - i,
    {
        assert(header[i as int] == headers@[i as int]@);
        // Only new months are included in the csv...
        if !headers[i].as_str().is_empty() {
            month = headers[i].clone();
        }
        assert(month@ == month_of(header, i - 1));
        let label = with_suffix(with_suffix(month.clone(), records, 0, i - 1), records, 1, i - 1);
        times.push(label);
        i += 1;
    }
    assert(times@.len() == slots_of(header));
    // a response beyond the slots is read, to see that it is one
    match parse_rows(PollFormat::Doodle, records, 2, times.len() + 1) {
        Err(e) => Err(e),
        Ok(rows) => Ok(build_columns(&times, &rows)),
    }
}

} // verus!
