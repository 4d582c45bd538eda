use framaschedule::cost::{Cost, UNIT};
use framaschedule::data::PollColumn;
use framaschedule::scheduling;
use framaschedule::scheduling::{BestSchedules, SchedulingOptions};
use framaschedule::{framadate, nextcloud};

fn fields(line: &str) -> Vec<String> {
    line.split(',').map(|field| field.to_string()).collect()
}

fn as_float(cost: Cost) -> f32 {
    (cost.units as f64 / UNIT as f64) as f32
}

fn framadate_poll(lines: &[&str]) -> Vec<PollColumn> {
    let records: Vec<Vec<String>> = lines[1..].iter().map(|line| fields(line)).collect();
    framadate::read_data(&fields(lines[0]), &records).unwrap()
}

/// Four slots and four respondents: the first two slots can go to either of
/// two people, the last two to one person each.
fn test_poll() -> Vec<PollColumn> {
    framadate_poll(&[
        ",2019-03-01,2019-03-02,2019-03-03,2019-03-04,",
        ",18:00,18:00,18:00,18:00,",
        "Anna,Yes,Yes,No,No,",
        "Bert,Yes,Yes,No,No,",
        "Cleo,No,No,Yes,Ifneedbe,",
        "Dirk,No,Ifneedbe,No,Yes,",
    ])
}

/// The second slot is one that everybody answered with a no.
fn impossible_poll() -> Vec<PollColumn> {
    framadate_poll(&[
        ",2019-03-01,2019-03-02,2019-03-03,",
        ",18:00,18:00,18:00,",
        "Anna,Yes,No,No,",
        "Bert,Yes,No,Yes,",
    ])
}

fn nextcloud_poll() -> Vec<PollColumn> {
    let records = vec![
        vec!["Who cooks?".to_string(), String::new(), String::new(), String::new()],
        vec![
            "From".to_string(),
            "Mon, May 6, 2019 6:00 PM".to_string(),
            "Tue, May 7, 2019 6:00 PM".to_string(),
            "Wed, May 8, 2019 6:00 PM".to_string(),
        ],
        vec![
            "To".to_string(),
            "Mon, May 6, 2019 8:00 PM".to_string(),
            "Tue, May 7, 2019 8:00 PM".to_string(),
            "Wed, May 8, 2019 8:00 PM".to_string(),
        ],
        fields("alice,✔,❌,❔"),
        fields("bob,❌,✔,"),
        fields("carol,❔,❌,✔"),
    ];
    nextcloud::read_data(&records).unwrap()
}

#[test]
fn known_schedule_cost() {
    let data = test_poll();
    if let BestSchedules::Two(r1, r2) =
        scheduling::compute_all_schedules(&data, &SchedulingOptions::default())
    {
        assert_eq!(4.0, as_float(r1.cost));
        assert_eq!(4.0, as_float(r2.cost));
    } else {
        panic!("Expected two solutions");
    }
}

#[test]
fn test_nextcloud() {
    let data = nextcloud_poll();
    assert_eq!(data[2].time, "2019-05-08");
    if let BestSchedules::NoneFound =
        scheduling::compute_all_schedules(&data, &SchedulingOptions::default())
    {
        panic!("Expected a solution to exist")
    }
}

#[test]
fn impossible_schedule() {
    let data = impossible_poll();
    match scheduling::compute_all_schedules(&data, &SchedulingOptions::default()) {
        BestSchedules::NoneFound => (),
        _ => panic!("Expected no solution to exist"),
    }
}

#[test]
fn impossible_schedule_forced() {
    let data = impossible_poll();
    let opts = SchedulingOptions {
        ignore_empty_slots: true,
    };
    if let BestSchedules::NoneFound = scheduling::compute_all_schedules(&data, &opts) {
        panic!("Expected a solution to exist")
    }
}
