use framaschedule::cost::{Cost, EvaluatedSchedule};
use framaschedule::report::{count_lines, entry_line, sorted_counts};
use framaschedule::schedule::ScheduleEntry;

fn counted(items: &[(&str, usize)]) -> Vec<(String, usize)> {
    items.iter().map(|(n, c)| (n.to_string(), *c)).collect()
}

#[test]
fn counts_in_the_order_of_names() {
    let counts = counted(&[("Cleo", 1), ("anna", 4), ("Anna", 2), ("Bert", 3), ("An", 1)]);
    assert_eq!(
        sorted_counts(&counts),
        counted(&[("An", 1), ("Anna", 2), ("Bert", 3), ("Cleo", 1), ("anna", 4)])
    );
    assert!(sorted_counts(&Vec::new()).is_empty());
}

#[test]
fn counts_of_equal_names_in_the_order_of_counts() {
    let counts = counted(&[("Bert", 3), ("Anna", 5), ("Bert", 1), ("", 2), ("Anna", 5)]);
    assert_eq!(
        sorted_counts(&counts),
        counted(&[("", 2), ("Anna", 5), ("Anna", 5), ("Bert", 1), ("Bert", 3)])
    );
}

#[test]
fn counts_sorted_as_std_sorts_them() {
    let counts = counted(&[
        ("Zoë", 1),
        ("Zoe", 2),
        ("Émile", 1),
        ("Emil", 3),
        ("??", 1),
        ("zoe", 1),
        ("Zo", 7),
        ("李", 2),
        ("Ａnna", 1),
    ]);
    let mut expected = counts.clone();
    expected.sort();
    assert_eq!(sorted_counts(&counts), expected);
}

#[test]
fn lines_of_counts() {
    let counts = counted(&[("Anna", 2), ("Bert", 10), ("??", 0)]);
    assert_eq!(count_lines(&counts), vec!["Anna: 2", "Bert: 10", "??: 0"]);
}

#[test]
fn lines_of_entries() {
    let mut reluctant = ScheduleEntry::new("01.03. 18:00", "Anna");
    reluctant.ifneedbe = true;
    assert_eq!(entry_line(&reluctant), "01.03. 18:00:\tAnna?");
    let willing = ScheduleEntry::new("02.03. 18:00", "Bert");
    assert_eq!(entry_line(&willing), "02.03. 18:00:\tBert");
    let evaluated = EvaluatedSchedule::new(
        vec![reluctant, willing],
        Cost { units: 0 },
        vec![("Anna".to_string(), 1), ("Bert".to_string(), 1)],
    );
    assert_eq!(
        evaluated.entry_lines(),
        vec!["01.03. 18:00:\tAnna?", "02.03. 18:00:\tBert"]
    );
}
