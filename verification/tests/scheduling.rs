use framaschedule::cost::{evaluate, EvaluatedSchedule, MAX_SLOTS, UNIT};
use framaschedule::data::Response::{IfNeedBe, No, Yes};
use framaschedule::data::{PollColumn, Response};
use framaschedule::schedule::ScheduleEntry;
use framaschedule::scheduling::{
    compute_all_schedules, compute_schedules_from, has_willing, max_occur, starting_names,
    try_compute_all_schedules, valid_start, SchedulingOptions,
};
use framaschedule::tracker::{merge_all, BestSchedules};

fn slot(time: &str, answers: &[(&str, Response)]) -> PollColumn {
    let mut column = PollColumn::new(time);
    for (name, response) in answers {
        column.insert(name.to_string(), *response);
    }
    column
}

fn forced() -> SchedulingOptions {
    SchedulingOptions {
        ignore_empty_slots: true,
    }
}

fn names(r: &EvaluatedSchedule) -> Vec<String> {
    r.entries.iter().map(|e| e.name.clone()).collect()
}

fn found(best: &BestSchedules) -> Vec<(Vec<String>, u128)> {
    match best {
        BestSchedules::NoneFound => vec![],
        BestSchedules::One(r1) => vec![(names(r1), r1.cost.units)],
        BestSchedules::Two(r1, r2) => {
            vec![(names(r1), r1.cost.units), (names(r2), r2.cost.units)]
        }
    }
}

fn strings(names: &[&str]) -> Vec<String> {
    names.iter().map(|n| n.to_string()).collect()
}

/// Four slots, each with one person who said yes, and nobody else willing.
fn even_poll() -> Vec<PollColumn> {
    vec![
        slot("S1", &[("Anna", Yes), ("Bert", No), ("Cleo", No), ("Dirk", No)]),
        slot("S2", &[("Anna", No), ("Bert", Yes), ("Cleo", No), ("Dirk", No)]),
        slot("S3", &[("Anna", No), ("Bert", No), ("Cleo", Yes), ("Dirk", No)]),
        slot("S4", &[("Anna", No), ("Bert", No), ("Cleo", No), ("Dirk", Yes)]),
    ]
}

#[test]
fn options_start_without_placeholders() {
    assert!(!SchedulingOptions::default().ignore_empty_slots);
}

#[test]
fn only_schedule_is_found_alone() {
    let best = compute_all_schedules(&even_poll(), &SchedulingOptions::default());
    assert_eq!(
        found(&best),
        vec![(strings(&["Anna", "Bert", "Cleo", "Dirk"]), 4 * UNIT)]
    );
    if let BestSchedules::One(r) = best {
        let times: Vec<&str> = r.entries.iter().map(|e| e.time.as_str()).collect();
        assert_eq!(times, vec!["S1", "S2", "S3", "S4"]);
        assert!(r.entries.iter().all(|e| !e.ifneedbe));
        assert_eq!(r.name_counts.len(), 4);
    } else {
        panic!("expected one schedule");
    }
}

#[test]
fn even_and_well_spaced_schedules_win() {
    let data = vec![
        slot("S1", &[("Anna", Yes), ("Bert", Yes), ("Cleo", No), ("Dirk", No)]),
        slot("S2", &[("Anna", Yes), ("Bert", Yes), ("Cleo", No), ("Dirk", IfNeedBe)]),
        slot("S3", &[("Anna", IfNeedBe), ("Bert", No), ("Cleo", Yes), ("Dirk", No)]),
        slot("S4", &[("Anna", No), ("Bert", No), ("Cleo", IfNeedBe), ("Dirk", Yes)]),
    ];
    let best = compute_all_schedules(&data, &SchedulingOptions::default());
    // which of two schedules of equal cost comes first is left open
    let mut both = found(&best);
    both.sort();
    assert_eq!(
        both,
        vec![
            (strings(&["Anna", "Bert", "Cleo", "Dirk"]), 4 * UNIT),
            (strings(&["Bert", "Anna", "Cleo", "Dirk"]), 4 * UNIT),
        ]
    );
}

#[test]
fn runner_up_is_the_second_cheapest() {
    let data = vec![
        slot("S1", &[("Anna", Yes), ("Bert", IfNeedBe)]),
        slot("S2", &[("Anna", Yes), ("Bert", Yes)]),
    ];
    // Anna, Bert: 2; Bert, Anna: 2.25; Anna, Anna: 5; Bert, Bert: 5.25
    let best = compute_all_schedules(&data, &SchedulingOptions::default());
    assert_eq!(
        found(&best),
        vec![
            (strings(&["Anna", "Bert"]), 2 * UNIT),
            (strings(&["Bert", "Anna"]), 2 * UNIT + UNIT / 4),
        ]
    );
    if let BestSchedules::Two(_, second) = best {
        assert!(second.entries[0].ifneedbe);
        assert!(!second.entries[1].ifneedbe);
    }
}

#[test]
fn bound_on_slots_per_person() {
    assert_eq!(max_occur(&even_poll()), Some(2));
    let three_for_one = vec![
        slot("S1", &[("Anna", Yes)]),
        slot("S2", &[("Anna", Yes)]),
        slot("S3", &[("Anna", Yes)]),
    ];
    assert_eq!(max_occur(&three_for_one), Some(4));
    let nobody = vec![slot("S1", &[]), slot("S2", &[("Anna", Yes)])];
    assert_eq!(max_occur(&nobody), None);
}

#[test]
fn bound_can_leave_no_schedule() {
    // Anna is the only one willing, and may take two slots of four.
    let data = vec![
        slot("S1", &[("Anna", Yes), ("Bert", No), ("Cleo", No)]),
        slot("S2", &[("Anna", Yes)]),
        slot("S3", &[("Anna", Yes)]),
        slot("S4", &[("Anna", Yes)]),
    ];
    let best = compute_all_schedules(&data, &SchedulingOptions::default());
    assert!(matches!(best, BestSchedules::NoneFound));
    // with placeholders the slots beyond the bound are left open, though
    // Anna in all four slots would cost less: 16 + 1
    let best = compute_all_schedules(&data, &forced());
    assert_eq!(
        found(&best),
        vec![(strings(&["Anna", "Anna", "??", "??"]), 20 * UNIT)]
    );
    let all_anna: Vec<ScheduleEntry> =
        data.iter().map(|d| ScheduleEntry::new(&d.time, "Anna")).collect();
    assert_eq!(evaluate(all_anna, &data).cost.units, 17 * UNIT);
}

#[test]
fn slot_without_willing_respondent() {
    let data = vec![
        slot("S1", &[("Anna", Yes), ("Bert", Yes)]),
        slot("S2", &[("Anna", No), ("Bert", No)]),
        slot("S3", &[("Anna", Yes), ("Bert", No)]),
    ];
    assert!(has_willing(&data[0]));
    assert!(!has_willing(&data[1]));
    let best = compute_all_schedules(&data, &SchedulingOptions::default());
    assert!(matches!(best, BestSchedules::NoneFound));
    let best = compute_all_schedules(&data, &forced());
    // Bert, ??, Anna: fairness 3, placeholder 5; Anna, ??, Anna: 4 + 1 + 1 / 4 + 5
    assert_eq!(
        found(&best),
        vec![
            (strings(&["Bert", "??", "Anna"]), 8 * UNIT),
            (strings(&["Anna", "??", "Anna"]), 10 * UNIT + UNIT / 4),
        ]
    );
    // the same poll with the second slot staffed costs five less at least
    let mut staffed = data;
    staffed[1] = slot("S2", &[("Anna", No), ("Bert", No), ("Cleo", Yes)]);
    let staffed_best = compute_all_schedules(&staffed, &SchedulingOptions::default());
    assert_eq!(found(&staffed_best)[0].1, 3 * UNIT);
}

#[test]
fn first_slot_without_respondents() {
    let data = vec![slot("S1", &[]), slot("S2", &[("Anna", Yes)])];
    let best = compute_all_schedules(&data, &SchedulingOptions::default());
    assert!(matches!(best, BestSchedules::NoneFound));
    let best = compute_all_schedules(&data, &forced());
    assert_eq!(found(&best), vec![(strings(&["??", "Anna"]), 7 * UNIT)]);
}

#[test]
fn every_slot_unfillable_with_placeholders() {
    let data = vec![slot("S1", &[("Anna", No)]), slot("S2", &[("Anna", No)])];
    let best = compute_all_schedules(&data, &forced());
    // one person, the placeholder, twice: 4 + 1 + 10
    assert_eq!(found(&best), vec![(strings(&["??", "??"]), 15 * UNIT)]);
}

#[test]
fn same_costs_on_every_run() {
    let data = vec![
        slot("S1", &[("Anna", Yes), ("Bert", IfNeedBe), ("Cleo", Yes)]),
        slot("S2", &[("Anna", Yes), ("Bert", Yes), ("Cleo", No)]),
        slot("S3", &[("Anna", IfNeedBe), ("Bert", Yes), ("Cleo", Yes)]),
    ];
    let first = compute_all_schedules(&data, &SchedulingOptions::default());
    let second = compute_all_schedules(&data, &SchedulingOptions::default());
    let costs = |best: &BestSchedules| -> Vec<u128> {
        found(best).into_iter().map(|(_, units)| units).collect()
    };
    assert_eq!(costs(&first), costs(&second));
    assert_eq!(costs(&first), vec![3 * UNIT, 3 * UNIT]);
}

#[test]
fn units_of_work() {
    let data = even_poll();
    assert_eq!(starting_names(&data, &SchedulingOptions::default()), vec!["Anna"]);
    let open = vec![slot("S1", &[("Anna", Yes), ("Bert", No), ("Cleo", IfNeedBe)])];
    assert_eq!(starting_names(&open, &forced()), vec!["Anna", "Cleo"]);
    let closed = vec![slot("S1", &[("Anna", No)])];
    assert!(starting_names(&closed, &SchedulingOptions::default()).is_empty());
    assert_eq!(starting_names(&closed, &forced()), vec!["??"]);
}

#[test]
fn where_the_search_starts() {
    let open = vec![slot("S1", &[("Anna", Yes), ("Bert", No), ("Cleo", IfNeedBe)])];
    assert!(valid_start(&open, &SchedulingOptions::default(), "Anna"));
    assert!(valid_start(&open, &SchedulingOptions::default(), "Cleo"));
    assert!(!valid_start(&open, &SchedulingOptions::default(), "Bert"));
    assert!(!valid_start(&open, &SchedulingOptions::default(), "Emil"));
    assert!(!valid_start(&open, &forced(), "??"));
    let closed = vec![slot("S1", &[("Anna", No)])];
    assert!(valid_start(&closed, &forced(), "??"));
    assert!(!valid_start(&closed, &SchedulingOptions::default(), "??"));
    assert!(!valid_start(&closed, &forced(), "Anna"));
}

#[test]
fn one_unit_of_work() {
    let data = vec![
        slot("S1", &[("Anna", Yes), ("Bert", IfNeedBe)]),
        slot("S2", &[("Anna", Yes), ("Bert", Yes)]),
    ];
    let opts = SchedulingOptions::default();
    let from_bert = compute_schedules_from(&data, &opts, "Bert");
    assert_eq!(
        found(&from_bert),
        vec![
            (strings(&["Bert", "Anna"]), 2 * UNIT + UNIT / 4),
            (strings(&["Bert", "Bert"]), 5 * UNIT + UNIT / 4),
        ]
    );
    let from_nobody = compute_schedules_from(&data, &opts, "Emil");
    assert!(matches!(from_nobody, BestSchedules::NoneFound));
    // the units merged are the whole search
    let from_anna = compute_schedules_from(&data, &opts, "Anna");
    let merged = merge_all(vec![from_anna, from_bert]);
    assert_eq!(found(&merged), found(&compute_all_schedules(&data, &opts)));
}

#[test]
fn polls_that_the_search_does_not_take() {
    let opts = SchedulingOptions::default();
    assert!(try_compute_all_schedules(&[], &opts).is_none());
    let long: Vec<PollColumn> = (0..MAX_SLOTS + 1)
        .map(|_| slot("S", &[("Anna", No)]))
        .collect();
    assert!(try_compute_all_schedules(&long, &opts).is_none());
    let mut twice = slot("S1", &[("Anna", Yes)]);
    twice.responses.push(("Anna".to_string(), No));
    assert!(try_compute_all_schedules(&[twice], &opts).is_none());
    let best = try_compute_all_schedules(&even_poll(), &opts);
    assert_eq!(
        found(&best.unwrap()),
        vec![(strings(&["Anna", "Bert", "Cleo", "Dirk"]), 4 * UNIT)]
    );
}

#[test]
fn most_slots_that_the_search_takes() {
    let data: Vec<PollColumn> = (0..MAX_SLOTS)
        .map(|i| {
            if i % 2 == 0 {
                slot("S", &[("Anna", Yes), ("Bert", No)])
            } else {
                slot("S", &[("Anna", No), ("Bert", Yes)])
            }
        })
        .collect();
    // the bound is 41 / 2 + 1 = 21: Anna takes 21 slots and Bert 20, each
    // every second slot
    let best = compute_all_schedules(&data, &SchedulingOptions::default());
    let expected = (21 * 21 + 20 * 20) * UNIT + 2 * (UNIT / 4);
    assert_eq!(found(&best).len(), 1);
    assert_eq!(found(&best)[0].1, expected);
}
