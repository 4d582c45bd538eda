use framaschedule::data::Response::{IfNeedBe, No, Yes};
use framaschedule::data::{is_poll_wf, InvalidResponse, PollColumn, PollFormat, Response};
use framaschedule::service::hello;

#[test]
fn new_column_is_empty() {
    let column = PollColumn::new("01.03. 18:00");
    assert_eq!(column.time, "01.03. 18:00");
    assert!(column.responses.is_empty());
    assert!(column.is_wf());
}

#[test]
fn insert_records_in_order() {
    let mut column = PollColumn::new("S1");
    column.insert("Anna".to_string(), Yes);
    column.insert("Bert".to_string(), No);
    column.insert("Cleo".to_string(), IfNeedBe);
    assert_eq!(
        column.responses,
        vec![
            ("Anna".to_string(), Yes),
            ("Bert".to_string(), No),
            ("Cleo".to_string(), IfNeedBe)
        ]
    );
    assert_eq!(column.get("Anna"), Some(Yes));
    assert_eq!(column.get("Bert"), Some(No));
    assert_eq!(column.get("Cleo"), Some(IfNeedBe));
    assert_eq!(column.get("Dirk"), None);
    assert_eq!(column.position("Bert"), Some(1));
    assert_eq!(column.position("bert"), None);
}

#[test]
fn insert_replaces_an_earlier_response() {
    let mut column = PollColumn::new("S1");
    column.insert("Anna".to_string(), Yes);
    column.insert("Bert".to_string(), No);
    column.insert("Anna".to_string(), IfNeedBe);
    assert_eq!(
        column.responses,
        vec![("Anna".to_string(), IfNeedBe), ("Bert".to_string(), No)]
    );
    assert!(column.is_wf());
}

#[test]
fn column_with_a_name_twice_is_not_well_formed() {
    let mut column = PollColumn::new("S1");
    column.responses.push(("Anna".to_string(), Yes));
    column.responses.push(("Bert".to_string(), Yes));
    assert!(column.is_wf());
    column.responses.push(("Anna".to_string(), No));
    assert!(!column.is_wf());
    assert!(!is_poll_wf(&[PollColumn::new("S0"), column]));
    assert!(is_poll_wf(&[PollColumn::new("S0")]));
    assert!(is_poll_wf(&[]));
}

#[test]
fn framadate_responses() {
    for text in ["Yes", "Ja"] {
        assert_eq!(Response::from_framadate_str(text).unwrap(), Yes);
    }
    for text in ["No", "Nein"] {
        assert_eq!(Response::from_framadate_str(text).unwrap(), No);
    }
    for text in ["Ifneedbe", "IfNeedBe", "Wenn notwendig"] {
        assert_eq!(Response::from_framadate_str(text).unwrap(), IfNeedBe);
    }
    let parsed: Result<Response, InvalidResponse> = "Ja".parse();
    assert_eq!(parsed.unwrap(), Yes);
    let error = Response::from_framadate_str("yes").unwrap_err();
    assert_eq!(error.format, PollFormat::Framadate);
    assert_eq!(error.text, "yes");
    assert_eq!(error.message(), "Invalid framadate response string: yes");
    let error = "".parse::<Response>().unwrap_err();
    assert_eq!(error.message(), "Invalid framadate response string: ");
}

#[test]
fn doodle_responses() {
    assert_eq!(Response::from_doodle_str("OK").unwrap(), Yes);
    assert_eq!(Response::from_doodle_str("(OK)").unwrap(), IfNeedBe);
    assert_eq!(Response::from_doodle_str("").unwrap(), No);
    let error = Response::from_doodle_str("Yes").unwrap_err();
    assert_eq!(error.format, PollFormat::Doodle);
    assert_eq!(error.message(), "Invalid doodle response string: Yes");
}

#[test]
fn nextcloud_responses() {
    assert_eq!(Response::from_nextcloud_str("✔").unwrap(), Yes);
    assert_eq!(Response::from_nextcloud_str("❔").unwrap(), IfNeedBe);
    assert_eq!(Response::from_nextcloud_str("❌").unwrap(), No);
    assert_eq!(Response::from_nextcloud_str("").unwrap(), No);
    let error = Response::from_nextcloud_str("OK").unwrap_err();
    assert_eq!(error.format, PollFormat::Nextcloud);
    assert_eq!(error.message(), "Invalid nextcloud response string: 'OK'");
}

#[test]
fn responses_by_format() {
    assert_eq!(Response::from_format_str(PollFormat::Doodle, "OK").unwrap(), Yes);
    assert!(Response::from_format_str(PollFormat::Framadate, "OK").is_err());
    assert_eq!(Response::from_format_str(PollFormat::Framadate, "Nein").unwrap(), No);
    assert_eq!(Response::from_format_str(PollFormat::Nextcloud, "❔").unwrap(), IfNeedBe);
}

#[test]
fn greeting_of_the_service() {
    assert_eq!(hello(), "Hello World!");
}
