//! What the poll exports share: a table of text fields, of which each row
//! behind the first few holds a respondent's name and then one response
//! per slot.

use crate::data::{
    poll_wf, put, response_in, Answers, InvalidResponse, Name, PollColumn, PollData, PollFormat,
    Response,
};
use vstd::prelude::*;
use vstd::string::StringExecFns;

verus! {

/// The fields of a record as plain values.
pub open spec fn fields_of(record: Seq<String>) -> Seq<Seq<char>> {
    Seq::new(record.len(), |i: int| record[i]@)
}

/// The records of a table as plain values.
pub open spec fn table_of(records: Seq<Vec<String>>) -> Seq<Seq<Seq<char>>> {
    Seq::new(records.len(), |r: int| fields_of(records[r]@))
}

/// A respondent with the responses of one row, in slot order.
#[derive(Debug)]
pub struct Row {
    pub name: Name,
    pub responses: Vec<Response>,
}

impl View for Row {
    type V = (Seq<char>, Seq<Response>);

    open spec fn view(&self) -> (Seq<char>, Seq<Response>) {
        (self.name@, self.responses@)
    }
}

/// The rows as plain values.
pub open spec fn rows_of(rows: Seq<Row>) -> Seq<(Seq<char>, Seq<Response>)> {
    Seq::new(rows.len(), |i: int| rows[i]@)
}

/// The name of a row: its first field, or the empty text where it has no
/// field.
pub open spec fn name_of(fields: Seq<Seq<char>>) -> Seq<char> {
    if fields.len() == 0 {
        Seq::empty()
    } else {
        fields[0]
    }
}

/// The number of the field behind the last response that is read of a row:
/// the responses are the fields behind the name, at most `width` of them.
pub open spec fn cells_end(fields: Seq<Seq<char>>, width: int) -> int {
    if fields.len() <= 1 {
        1
    } else if fields.len() - 1 <= width {
        fields.len() as int
    } else {
        width + 1
    }
}

/// The reading of the fields from the second up to field `k`, as
/// responses: the responses, or the first text that is none.
pub open spec fn responses_read(format: PollFormat, fields: Seq<Seq<char>>, k: int) -> Result<
    Seq<Response>,
    Seq<char>,
>
    decreases k,
{
    if k <= 1 {
        Ok(Seq::empty())
    } else {
        match responses_read(format, fields, k - 1) {
            Err(text) => Err(text),
            Ok(responses) => match response_in(format, fields[k - 1]) {
                Some(response) => Ok(responses.push(response)),
                None => Err(fields[k - 1]),
            },
        }
    }
}

/// The reading of a row: the name with the responses, or the first text
/// that is no response.
pub open spec fn row_read(format: PollFormat, fields: Seq<Seq<char>>, width: int) -> Result<
    (Seq<char>, Seq<Response>),
    Seq<char>,
> {
    match responses_read(format, fields, cells_end(fields, width)) {
        Ok(responses) => Ok((name_of(fields), responses)),
        Err(text) => Err(text),
    }
}

/// The reading of the rows from `from` up to row `k`: the rows, or the
/// first text that is no response, by rows and within a row by fields.
pub open spec fn rows_read(
    format: PollFormat,
    table: Seq<Seq<Seq<char>>>,
    from: int,
    k: int,
    width: int,
) -> Result<Seq<(Seq<char>, Seq<Response>)>, Seq<char>>
    decreases k - from,
{
    if k <= from {
        Ok(Seq::empty())
    } else {
        match rows_read(format, table, from, k - 1, width) {
            Err(text) => Err(text),
            Ok(rows) => match row_read(format, table[k - 1], width) {
                Ok(row) => Ok(rows.push(row)),
                Err(text) => Err(text),
            },
        }
    }
}

/// The answers of slot `k` after the first `m` rows: each row's name with
/// its response for the slot, a later row of the same name in place of the
/// earlier. A row that is too short for the slot adds nothing.
pub open spec fn column_answers(rows: Seq<(Seq<char>, Seq<Response>)>, k: int, m: int) -> Answers
    decreases m,
{
    if m <= 0 {
        Seq::empty()
    } else if k < rows[m - 1].1.len() {
        put(column_answers(rows, k, m - 1), rows[m - 1].0, rows[m - 1].1[k])
    } else {
        column_answers(rows, k, m - 1)
    }
}

/// Reads one row: its name and, of the fields behind it, at most `width`
/// as responses.
pub fn parse_row(format: PollFormat, record: &Vec<String>, width: usize) -> (result: Result<
    Row,
    InvalidResponse,
>)
    ensures
        match row_read(format, fields_of(record@), width as int) {
            Ok(row) => result is Ok && result->Ok_0@ == row,
            Err(text) => result is Err && result->Err_0.format == format && result->Err_0.text@
                == text,
        },
{
    let ghost fields = fields_of(record@);
    let n = record.len();
    let name = if n == 0 {
        String::new()
    } else {
        record[0].clone()
    };
    let end = if n <= 1 {
        1
    } else if n - 1 <= width {
        n
    } else {
        width + 1
    };
    let mut responses: Vec<Response> = Vec::new();
    let mut i: usize = 1;
    while i < end
        invariant
            1 <= i <= end,
            end == cells_end(fields, width as int),
            end <= n || n <= 1,
            n == record@.len(),
            fields == fields_of(record@),
            responses_read(format, fields, i as int) == Ok::<Seq<Response>, Seq<char>>(
                responses@,
            ),
        decreases end - i,
    {
        assert(fields[i as int] == record@[i as int]@);
        match Response::from_format_str(format, record[i].as_str()) {
            Ok(response) => {
                responses.push(response);
            },
            Err(e) => {
                assert(responses_read(format, fields, i as int + 1) == Err::<
                    Seq<Response>,
                    Seq<char>,
                >(fields[i as int]));
                proof {
                    lemma_error_stays(format, fields, i as int + 1, end as int);
                }
                return Err(e);
            },
        }
        i += 1;
    }
    Ok(Row { name, responses })
}

/// Once a text is no response, the reading of more fields fails with the
/// same text.
pub proof fn lemma_error_stays(format: PollFormat, fields: Seq<Seq<char>>, k: int, end: int)
    requires
        k <= end,
        responses_read(format, fields, k) is Err,
    ensures
        responses_read(format, fields, end) == responses_read(format, fields, k),
    decreases end - k,
{
    if k < end {
        lemma_error_stays(format, fields, k, end - 1);
    }
}

/// Reads the rows from `from` on, each with at most `width` responses.
pub fn parse_rows(
    format: PollFormat,
    records: &[Vec<String>],
    from: usize,
    width: usize,
) -> (result: Result<Vec<Row>, InvalidResponse>)
    ensures
        match rows_read(
            format,
            table_of(records@),
            from as int,
            records@.len() as int,
            width as int,
        ) {
            Ok(rows) => result is Ok && rows_of(result->Ok_0@) == rows,
            Err(text) => result is Err && result->Err_0.format == format && result->Err_0.text@
                == text,
        },
{
    let ghost table = table_of(records@);
    let n = records.len();
    let mut rows: Vec<Row> = Vec::new();
    let mut r: usize = from;
    assert(rows_of(rows@) =~= Seq::empty());
    while r < n
        invariant
            from <= r,
            r > n ==> r == from,
            n == records@.len(),
            table == table_of(records@),
            rows_read(format, table, from as int, r as int, width as int) == Ok::<
                Seq<(Seq<char>, Seq<Response>)>,
                Seq<char>,
            >(rows_of(rows@)),
        decreases n - r,
    {
        assert(table[r as int] == fields_of(records@[r as int]@));
        let ghost before = rows_of(rows@);
        match parse_row(format, &records[r], width) {
            Ok(row) => {
                rows.push(row);
                assert(rows_of(rows@) =~= before.push(row@));
            },
            Err(e) => {
                proof {
                    lemma_row_error_stays(
                        format,
                        table,
                        from as int,
                        r as int + 1,
                        n as int,
                        width as int,
                    );
                }
                return Err(e);
            },
        }
        r += 1;
    }
    Ok(rows)
}

/// Once a row fails, the reading of more rows fails with the same text.
pub proof fn lemma_row_error_stays(
    format: PollFormat,
    table: Seq<Seq<Seq<char>>>,
    from: int,
    k: int,
    end: int,
    width: int,
)
    requires
        k <= end,
        rows_read(format, table, from, k, width) is Err,
    ensures
        rows_read(format, table, from, end, width) == rows_read(format, table, from, k, width),
    decreases end - k,
{
    if k < end {
        lemma_row_error_stays(format, table, from, k, end - 1, width);
    }
}

/// The poll with one column per label, filled from the rows.
pub fn build_columns(times: &Vec<String>, rows: &Vec<Row>) -> (data: PollData)
    ensures
        data@.len() == times@.len(),
        poll_wf(data@),
        forall|k: int|
            0 <= k < times@.len() ==> (#[trigger] data@[k]).time@ == times@[k]@
                && data@[k].answers() == column_answers(rows_of(rows@), k, rows@.len() as int),
{
    let mut data: Vec<PollColumn> = Vec::new();
    let mut k: usize = 0;
    while k < times.len()
        invariant
            k <= times@.len(),
            data@.len() == k,
            poll_wf(data@),
            forall|c: int|
                0 <= c < k ==> (#[trigger] data@[c]).time@ == times@[c]@ && data@[c].answers()
                    == column_answers(rows_of(rows@), c, rows@.len() as int),
        decreases times@.len() - k,
    {
        let mut column = PollColumn::new(times[k].as_str());
        let mut m: usize = 0;
        while m < rows.len()
            invariant
                m <= rows@.len(),
                k < times@.len(),
                column.wf(),
                column.time@ == times@[k as int]@,
                column.answers() == column_answers(rows_of(rows@), k as int, m as int),
            decreases rows@.len() - m,
        {
            assert(rows_of(rows@)[m as int] == rows@[m as int]@);
            if k < rows[m].responses.len() {
                column.insert(rows[m].name.clone(), rows[m].responses[k]);
            }
            m += 1;
        }
        data.push(column);
        k += 1;
    }
    data
}

/// `label` with what record `r` holds for slot `k` behind it, after a
/// space, where there is such a record and field.
pub open spec fn suffixed(label: Seq<char>, table: Seq<Seq<Seq<char>>>, r: int, k: int) -> Seq<
    char,
> {
    if r < table.len() && k + 1 < table[r].len() {
        label + " "@ + table[r][k + 1]
    } else {
        label
    }
}

/// `label` with field `k + 1` of record `r` behind it, where there is one.
pub fn with_suffix(label: String, records: &[Vec<String>], r: usize, k: usize) -> (out: String)
    requires
        k < usize::MAX,
    ensures
        out@ == suffixed(label@, table_of(records@), r as int, k as int),
{
    if r < records.len() && k + 1 < records[r].len() {
        assert(table_of(records@)[r as int][k + 1] == records@[r as int]@[k + 1]@);
        label.concat(" ").concat(records[r][k + 1].as_str())
    } else {
        label
    }
}

} // verus!
