use framaschedule::data::Response::{IfNeedBe, No, Yes};
use framaschedule::data::{PollColumn, PollFormat, Response};
use framaschedule::framadate::ReadError;
use framaschedule::records::{build_columns, parse_row, parse_rows, with_suffix, Row};
use framaschedule::scheduling::{compute_all_schedules, SchedulingOptions};
use framaschedule::tracker::BestSchedules;
use framaschedule::{doodle, framadate, nextcloud};

fn record(fields: &[&str]) -> Vec<String> {
    fields.iter().map(|f| f.to_string()).collect()
}

fn answers(column: &PollColumn) -> Vec<(&str, Response)> {
    column
        .responses
        .iter()
        .map(|(name, response)| (name.as_str(), *response))
        .collect()
}

#[test]
fn row_with_name_and_responses() {
    let row = parse_row(PollFormat::Doodle, &record(&["Anna", "OK", "", "(OK)"]), 3).unwrap();
    assert_eq!(row.name, "Anna");
    assert_eq!(row.responses, vec![Yes, No, IfNeedBe]);
    // no more responses are read than the width allows
    let row = parse_row(PollFormat::Doodle, &record(&["Anna", "OK", "", "what?"]), 2).unwrap();
    assert_eq!(row.responses, vec![Yes, No]);
    let error = parse_row(PollFormat::Doodle, &record(&["Anna", "OK", "x", "y"]), 3).unwrap_err();
    assert_eq!(error.text, "x");
    let row = parse_row(PollFormat::Doodle, &record(&[]), 3).unwrap();
    assert_eq!(row.name, "");
    assert!(row.responses.is_empty());
    let row = parse_row(PollFormat::Doodle, &record(&["Anna", "OK"]), 0).unwrap();
    assert!(row.responses.is_empty());
}

#[test]
fn rows_behind_the_first() {
    let records = vec![
        record(&["", "not", "a", "row"]),
        record(&["Anna", "Yes", "No"]),
        record(&["Bert", "Ja"]),
    ];
    let rows = parse_rows(PollFormat::Framadate, &records, 1, 2).unwrap();
    assert_eq!(rows.len(), 2);
    assert_eq!(rows[0].name, "Anna");
    assert_eq!(rows[0].responses, vec![Yes, No]);
    assert_eq!(rows[1].responses, vec![Yes]);
    let error = parse_rows(PollFormat::Framadate, &records, 0, 2).unwrap_err();
    assert_eq!(error.text, "not");
    assert!(parse_rows(PollFormat::Framadate, &records, 5, 2).unwrap().is_empty());
}

#[test]
fn columns_from_rows() {
    let rows = vec![
        Row { name: "Anna".to_string(), responses: vec![Yes, No] },
        Row { name: "Bert".to_string(), responses: vec![IfNeedBe] },
        Row { name: "Anna".to_string(), responses: vec![No, Yes] },
    ];
    let data = build_columns(&record(&["S1", "S2"]), &rows);
    assert_eq!(data.len(), 2);
    assert_eq!(data[0].time, "S1");
    assert_eq!(answers(&data[0]), vec![("Anna", No), ("Bert", IfNeedBe)]);
    assert_eq!(answers(&data[1]), vec![("Anna", Yes)]);
}

#[test]
fn label_with_suffix() {
    let records = vec![record(&["", "18:00", "19:00"])];
    assert_eq!(with_suffix("01.03.".to_string(), &records, 0, 1), "01.03. 19:00");
    assert_eq!(with_suffix("01.03.".to_string(), &records, 0, 2), "01.03.");
    assert_eq!(with_suffix("01.03.".to_string(), &records, 1, 0), "01.03.");
}

#[test]
fn framadate_export() {
    let headers = record(&["", "2019-03-01", "2019-03-02", "2019-11-30", ""]);
    let records = vec![
        record(&["", "18:00", "19:00", "20:00", ""]),
        record(&["Anna", "Yes", "No", "Ifneedbe", ""]),
        record(&["Bert", "Nein", "Ja", "Wenn notwendig", ""]),
    ];
    let data = framadate::read_data(&headers, &records).unwrap();
    assert_eq!(data.len(), 3);
    assert_eq!(data[0].time, "01.03. 18:00");
    assert_eq!(data[1].time, "02.03. 19:00");
    assert_eq!(data[2].time, "30.11. 20:00");
    assert_eq!(answers(&data[0]), vec![("Anna", Yes), ("Bert", No)]);
    assert_eq!(answers(&data[1]), vec![("Anna", No), ("Bert", Yes)]);
    assert_eq!(answers(&data[2]), vec![("Anna", IfNeedBe), ("Bert", IfNeedBe)]);
    let best = compute_all_schedules(&data, &SchedulingOptions::default());
    assert!(!matches!(best, BestSchedules::NoneFound));
}

#[test]
fn framadate_dates() {
    assert_eq!(framadate::header_label("2019-03-01").unwrap(), "01.03.");
    assert_eq!(framadate::header_label("2019-12-24").unwrap(), "24.12.");
    assert_eq!(framadate::header_label("2019-123-7").unwrap(), "07.123.");
    assert!(framadate::header_label("March").is_none());
    assert!(framadate::header_label("2019-03").is_none());
    assert_eq!(framadate::date_label(&record(&["3", "1"])).unwrap(), "01.03.");
    assert_eq!(framadate::date_label(&record(&["-3", "+1"])).unwrap(), "01.-3.");
    assert!(framadate::date_label(&record(&["3"])).is_none());
    assert!(framadate::date_label(&record(&["3", ""])).is_none());
    assert!(framadate::date_label(&record(&["3", "1x"])).is_none());
    assert!(framadate::date_label(&record(&["99999999999", "1"])).is_none());
}

#[test]
fn framadate_errors() {
    let headers = record(&["", "2019-03-01", "soon"]);
    let records = vec![record(&["", "18:00", "19:00"]), record(&["Anna", "maybe", "No"])];
    match framadate::read_data(&headers, &records) {
        Err(ReadError::Date(text)) => assert_eq!(text, "soon"),
        _ => panic!("expected a date that cannot be read"),
    }
    let headers = record(&["", "2019-03-01", "2019-03-02"]);
    match framadate::read_data(&headers, &records) {
        Err(ReadError::Response(error)) => {
            assert_eq!(error.text, "maybe");
            assert_eq!(error.format, PollFormat::Framadate);
        }
        _ => panic!("expected a response that cannot be read"),
    }
}

#[test]
fn doodle_export() {
    let headers = record(&["", "March 2019", "", "April 2019"]);
    let records = vec![
        record(&["", "Fri 29", "Sat 30", "Mon 1"]),
        record(&["", "18:00", "18:30", "19:00"]),
        record(&["Anna", "OK", "", "(OK)"]),
        record(&["Bert", "", "OK"]),
    ];
    assert!(doodle::is_well_shaped(&headers, &records));
    let data = doodle::read_data(&headers, &records).unwrap();
    assert_eq!(data.len(), 3);
    assert_eq!(data[0].time, "March 2019 Fri 29 18:00");
    assert_eq!(data[1].time, "March 2019 Sat 30 18:30");
    assert_eq!(data[2].time, "April 2019 Mon 1 19:00");
    assert_eq!(answers(&data[0]), vec![("Anna", Yes), ("Bert", No)]);
    assert_eq!(answers(&data[1]), vec![("Anna", No), ("Bert", Yes)]);
    assert_eq!(answers(&data[2]), vec![("Anna", IfNeedBe)]);
}

#[test]
fn doodle_shapes() {
    let records = vec![record(&["", "Fri 29"])];
    assert!(!doodle::is_well_shaped(&record(&["", ""]), &records));
    assert!(!doodle::is_well_shaped(&record(&[""]), &records));
    assert!(doodle::is_well_shaped(&record(&["", "March"]), &records));
    assert!(doodle::is_well_shaped(&record(&[]), &[]));
    let error = doodle::read_data(
        &record(&["", "March"]),
        &[record(&["", "1"]), record(&["", "18:00"]), record(&["Anna", "Yes"])],
    )
    .unwrap_err();
    assert_eq!(error.text, "Yes");
    assert_eq!(error.format, PollFormat::Doodle);
}

#[test]
fn doodle_rows_longer_than_the_header() {
    let headers = record(&["", "March"]);
    let times = [record(&["", "1"]), record(&["", "18:00"])];
    let with_row = |row: &[&str]| vec![times[0].clone(), times[1].clone(), record(row)];
    // a response beyond the slots has no column to go to
    assert!(!doodle::is_well_shaped(&headers, &with_row(&["Anna", "OK", "OK"])));
    assert!(!doodle::is_well_shaped(&headers, &with_row(&["Anna", "OK", "", "x"])));
    // a text beyond the slots that is no response is reported
    let records = with_row(&["Anna", "OK", "bad", "x"]);
    assert!(doodle::is_well_shaped(&headers, &records));
    assert_eq!(doodle::read_data(&headers, &records).unwrap_err().text, "bad");
    // and so is one before it, whatever follows
    let mut records = with_row(&["Anna", "no"]);
    records.push(record(&["Bert", "OK", "OK", "OK"]));
    assert!(doodle::is_well_shaped(&headers, &records));
    assert_eq!(doodle::read_data(&headers, &records).unwrap_err().text, "no");
    // the records of days and times may not be longer either
    let records = vec![record(&["", "1", "2"])];
    assert!(!doodle::is_well_shaped(&headers, &records));
}

#[test]
fn nextcloud_export() {
    let records = vec![
        record(&["a poll", "", ""]),
        record(&["From", "Mon, May 6, 2019 6:00 PM", "some day"]),
        record(&["To", "Mon, May 6, 2019 8:00 PM", ""]),
        record(&["alice", "✔", "❌", "beyond the slots"]),
        record(&["bob", "❔", ""]),
    ];
    let data = nextcloud::read_data(&records).unwrap();
    assert_eq!(data.len(), 2);
    assert_eq!(data[0].time, "2019-05-06");
    assert_eq!(data[1].time, "some day");
    assert_eq!(answers(&data[0]), vec![("alice", Yes), ("bob", IfNeedBe)]);
    assert_eq!(answers(&data[1]), vec![("alice", No), ("bob", No)]);
}

#[test]
fn nextcloud_labels() {
    assert_eq!(nextcloud::slot_label("Tue, Dec 31, 2019 11:15 AM"), "2019-12-31");
    assert_eq!(nextcloud::slot_label("Mon, May 6, 2019 6:00 PM"), "2019-05-06");
    // a weekday that does not fit the date is no date
    assert_eq!(
        nextcloud::slot_label("Sun, May 6, 2019 6:00 PM"),
        "Sun, May 6, 2019 6:00 PM"
    );
    assert_eq!(nextcloud::slot_label("2019-05-06"), "2019-05-06");
    assert_eq!(nextcloud::label_from(Some("a".to_string()), "b"), "a");
    assert_eq!(nextcloud::label_from(None, "b"), "b");
}

#[test]
fn nextcloud_errors() {
    let records = vec![
        record(&["a poll"]),
        record(&["From", "some day"]),
        record(&["To", ""]),
        record(&["alice", "yes"]),
    ];
    let error = nextcloud::read_data(&records).unwrap_err();
    assert_eq!(error.text, "yes");
    assert_eq!(error.format, PollFormat::Nextcloud);
    assert!(nextcloud::read_data(&[]).unwrap().is_empty());
    assert!(nextcloud::read_data(&[record(&["a poll", "x"])]).unwrap().is_empty());
}
