//! The cost of a complete schedule.
//!
//! A cost is an exact number of `UNIT`s, where `UNIT` stands for a cost of
//! one. It is the sum of three terms: fairness, spacing and preference.

use crate::data::{answer_of, poll_answers, poll_wf, Answers, Name, PollColumn, Response};
use crate::schedule::{
    count_name, count_upto, lemma_count_bounded, names_of, occur, occur_before, placeholder,
    placeholder_name, times_of, Schedule, ScheduleEntry,
};
use crate::data::same_text;
use vstd::prelude::*;

verus! {

/// The largest number of slots for which a cost is computed: with more
/// slots the spacing term would no longer be a whole number of units.
pub const MAX_SLOTS: usize = 41;

/// The number of units that make a cost of one. It is four times the square
/// of the least common multiple of the numbers up to forty, so that a
/// quarter, and one over the square of any distance between two of up to
/// `MAX_SLOTS` slots, are whole numbers of units.
pub const UNIT: u128 = 114187666219501957540675176960000;

/// The cost of assigning someone who answered "if need be": a quarter.
pub const IFNEEDBE_COST: u128 = 28546916554875489385168794240000;

/// The cost of leaving a slot to the placeholder: five.
pub const PLACEHOLDER_COST: u128 = 570938331097509787703375884800000;

/// A cost, as a whole number of units.
#[derive(Debug, Clone, Copy, PartialEq, Eq, Structural)]
pub struct Cost {
    pub units: u128,
}

/// Whether slot `i` is the first to which its person is assigned.
pub open spec fn is_first(names: Seq<Seq<char>>, i: int) -> bool {
    count_upto(names, names[i], i) == 0
}

/// The last of the first `k` slots to which `name` is assigned, or -1.
pub open spec fn last_upto(names: Seq<Seq<char>>, name: Seq<char>, k: int) -> int
    decreases k,
{
    if k <= 0 {
        -1
    } else if names[k - 1] == name {
        k - 1
    } else {
        last_upto(names, name, k - 1)
    }
}

/// The last slot to which `name` is assigned, or -1.
pub open spec fn last_index(names: Seq<Seq<char>>, name: Seq<char>) -> int {
    last_upto(names, name, names.len() as int)
}

/// What the person first assigned at slot `i` adds to the fairness term:
/// the square of the number of their slots. Zero at a slot that is not the
/// person's first.
pub open spec fn fairness_at(names: Seq<Seq<char>>, i: int) -> nat {
    if is_first(names, i) {
        count_name(names, names[i]) * count_name(names, names[i])
    } else {
        0
    }
}

/// The fairness term over the persons first assigned among the first `k`
/// slots.
pub open spec fn fairness_upto(names: Seq<Seq<char>>, k: int) -> nat
    decreases k,
{
    if k <= 0 {
        0
    } else {
        fairness_upto(names, k - 1) + fairness_at(names, k - 1)
    }
}

/// What the person first assigned at slot `i` adds to the spacing term, in
/// units. The distances between one slot of theirs and the next add up to
/// the distance `d` from their first slot to their last, and there is one
/// distance fewer than they have slots, `g`. Their mean is `d / g`, and the
/// term is one over its square: `g * g / (d * d)`. A person with one slot
/// adds nothing.
pub open spec fn spacing_at(names: Seq<Seq<char>>, i: int) -> nat {
    let last = last_index(names, names[i]);
    if is_first(names, i) && last > i {
        let g = count_name(names, names[i]) - 1;
        let d = last - i;
        (g * g * (UNIT as int / (d * d))) as nat
    } else {
        0
    }
}

/// The spacing term over the persons first assigned among the first `k`
/// slots, in units.
pub open spec fn spacing_upto(names: Seq<Seq<char>>, k: int) -> nat
    decreases k,
{
    if k <= 0 {
        0
    } else {
        spacing_upto(names, k - 1) + spacing_at(names, k - 1)
    }
}

/// Whether the person assigned to slot `i` answered it with "if need be".
pub open spec fn reluctant_at(names: Seq<Seq<char>>, polls: Seq<Answers>, i: int) -> bool {
    answer_of(polls[i], names[i]) == Some(Response::IfNeedBe)
}

/// What slot `i` adds to the preference term, in units: a quarter where the
/// person answered "if need be", and five where the placeholder stands.
pub open spec fn preference_at(names: Seq<Seq<char>>, polls: Seq<Answers>, i: int) -> nat {
    (if reluctant_at(names, polls, i) {
        IFNEEDBE_COST as nat
    } else {
        0
    }) + (if names[i] == placeholder_name() {
        PLACEHOLDER_COST as nat
    } else {
        0
    })
}

/// The preference term over the first `k` slots, in units.
pub open spec fn preference_upto(names: Seq<Seq<char>>, polls: Seq<Answers>, k: int) -> nat
    decreases k,
{
    if k <= 0 {
        0
    } else {
        preference_upto(names, polls, k - 1) + preference_at(names, polls, k - 1)
    }
}

/// The cost of the complete schedule `names` against the poll, in units.
pub open spec fn cost_units(names: Seq<Seq<char>>, polls: Seq<Answers>) -> nat {
    UNIT as nat * fairness_upto(names, names.len() as int) + spacing_upto(
        names,
        names.len() as int,
    ) + preference_upto(names, polls, names.len() as int)
}

/// Each person among the first `k` slots with the number of their slots in
/// the whole schedule, in the order of their first slots.
pub open spec fn tally_upto(names: Seq<Seq<char>>, k: int) -> Seq<(Seq<char>, nat)>
    decreases k,
{
    if k <= 0 {
        Seq::empty()
    } else if is_first(names, k - 1) {
        tally_upto(names, k - 1).push((names[k - 1], count_name(names, names[k - 1])))
    } else {
        tally_upto(names, k - 1)
    }
}

/// Each person of the schedule with the number of their slots, in the order
/// of their first slots.
pub open spec fn tally(names: Seq<Seq<char>>) -> Seq<(Seq<char>, nat)> {
    tally_upto(names, names.len() as int)
}

/// The last slot of the person assigned to slot `i`.
fn last_occurrence(s: &[ScheduleEntry], i: usize) -> (last: usize)
    requires
        i < s@.len(),
    ensures
        last == last_index(names_of(s@), names_of(s@)[i as int]),
        i <= last < s@.len(),
{
    let n = s.len();
    let mut last: usize = i;
    let mut j: usize = i + 1;
    while j < n
        invariant
            n == s@.len(),
            i < j <= n,
            i <= last < j,
            last == last_upto(names_of(s@), names_of(s@)[i as int], j as int),
        decreases s@.len() - j,
    {
        if same_text(s[j].name.as_str(), s[i].name.as_str()) {
            last = j;
        }
        j += 1;
    }
    last
}

/// The spacing term of a schedule, in units: for each person with two
/// slots or more, one over the square of the mean distance between one slot
/// of theirs and the next.
pub fn calc_avg_distance_components(s: &[ScheduleEntry]) -> (units: u128)
    requires
        s@.len() <= MAX_SLOTS,
    ensures
        units == spacing_upto(names_of(s@), s@.len() as int),
        units <= s@.len() * 1600 * UNIT,
{
    let ghost names = names_of(s@);
    let mut units: u128 = 0;
    let mut i: usize = 0;
    while i < s.len()
        invariant
            i <= s@.len() <= MAX_SLOTS,
            names == names_of(s@),
            units == spacing_upto(names, i as int),
            units <= i * 1600 * UNIT,
        decreases s@.len() - i,
    {
        let name = s[i].name.as_str();
        if occur_before(s, i, name) == 0 {
            let last = last_occurrence(s, i);
            if last > i {
                let occ = occur(s, name);
                proof {
                    lemma_count_bounded(names, name@, names.len() as int);
                    lemma_count_reaches(names, i as int, names.len() as int);
                }
                let g: u128 = (occ - 1) as u128;
                let d: u128 = (last - i) as u128;
                assert(g * g <= 1600) by (nonlinear_arith)
                    requires
                        0 <= g <= 40,
                ;
                assert(1 <= d * d <= 1600) by (nonlinear_arith)
                    requires
                        1 <= d <= 40,
                ;
                let share: u128 = UNIT / (d * d);
                assert(g * g * share <= 1600 * UNIT) by (nonlinear_arith)
                    requires
                        0 <= g * g <= 1600,
                        0 <= share <= UNIT,
                ;
                units = units + g * g * share;
            }
        }
        i += 1;
    }
    units
}

/// The preference term of a schedule against the poll, in units: a quarter
/// for each slot whose person answered it with "if need be", and five for
/// each slot left to the placeholder. Each entry's flag is set to whether
/// its person answered with "if need be".
pub fn calc_ifneedbe_components(s: &mut Schedule, data: &[PollColumn]) -> (units: u128)
    requires
        old(s)@.len() == data@.len(),
        data@.len() <= MAX_SLOTS,
        poll_wf(data@),
    ensures
        units == preference_upto(names_of(old(s)@), poll_answers(data@), data@.len() as int),
        units <= data@.len() * 6 * UNIT,
        names_of(final(s)@) == names_of(old(s)@),
        times_of(final(s)@) == times_of(old(s)@),
        flags_set(final(s)@, poll_answers(data@), old(s)@),
{
    let ghost names = names_of(s@);
    let ghost times = times_of(s@);
    let ghost polls = poll_answers(data@);
    let n = data.len();
    let mut units: u128 = 0;
    let mut i: usize = 0;
    while i < n
        invariant
            i <= n,
            n == data@.len(),
            n == s@.len(),
            n == old(s)@.len(),
            n <= MAX_SLOTS,
            poll_wf(data@),
            names == names_of(s@),
            times == times_of(s@),
            names == names_of(old(s)@),
            polls == poll_answers(data@),
            units == preference_upto(names, polls, i as int),
            units <= i * 600000000000000000000000000000000,
            forall|k: int|
                0 <= k < i ==> (#[trigger] s@[k]).ifneedbe == (reluctant_at(names, polls, k)
                    || old(s)@[k].ifneedbe),
            forall|k: int| i <= k < n ==> (#[trigger] s@[k]).ifneedbe == old(s)@[k].ifneedbe,
        decreases n - i,
    {
        let ghost before = s@;
        assert(names[i as int] == s@[i as int].name@);
        assert(polls[i as int] == data@[i as int].answers());
        let answer = data[i].get(s[i].name.as_str());
        let reluctant = match answer {
            Some(Response::IfNeedBe) => true,
            _ => false,
        };
        if reluctant {
            units = units + IFNEEDBE_COST;
            let entry = ScheduleEntry {
                time: s[i].time.clone(),
                name: s[i].name.clone(),
                ifneedbe: true,
            };
            s.set(i, entry);
        }
        // Penalize using placeholders
        if same_text(s[i].name.as_str(), placeholder()) {
            units = units + PLACEHOLDER_COST;
        }
        proof {
            assert(names_of(s@) =~= names);
            assert(times_of(s@) =~= times);
        }
        i += 1;
    }
    units
}

/// Whether the flags of `after` are those of `before`, but set wherever the
/// person of the slot answered it with "if need be".
pub open spec fn flags_set(
    after: Seq<ScheduleEntry>,
    polls: Seq<Answers>,
    before: Seq<ScheduleEntry>,
) -> bool {
    &&& after.len() == before.len()
    &&& forall|k: int|
        0 <= k < after.len() ==> (#[trigger] after[k]).ifneedbe == (reluctant_at(
            names_of(before),
            polls,
            k,
        ) || before[k].ifneedbe)
}

/// A schedule with its cost and, for each person in it, the number of their
/// slots.
#[derive(Debug, Clone)]
pub struct EvaluatedSchedule {
    pub entries: Schedule,
    pub cost: Cost,
    pub name_counts: Vec<(Name, usize)>,
}

impl EvaluatedSchedule {
    /// The assigned names, in slot order.
    pub open spec fn names(&self) -> Seq<Seq<char>> {
        names_of(self.entries@)
    }

    /// The persons with the numbers of their slots, as plain values.
    pub open spec fn counts(&self) -> Seq<(Seq<char>, nat)> {
        Seq::new(
            self.name_counts@.len(),
            |i: int| (self.name_counts@[i].0@, self.name_counts@[i].1 as nat),
        )
    }

    /// Whether this is what evaluating its own schedule against the poll
    /// gives: the slots of the poll, the cost of the schedule, the flag of
    /// each entry set exactly where its person answered "if need be", and
    /// the tally of the persons.
    pub open spec fn evaluates(&self, data: Seq<PollColumn>) -> bool {
        &&& self.entries@.len() == data.len()
        &&& forall|i: int|
            0 <= i < data.len() ==> (#[trigger] self.entries@[i]).time@ == data[i].time@
        &&& forall|i: int|
            0 <= i < data.len() ==> (#[trigger] self.entries@[i]).ifneedbe == reluctant_at(
                self.names(),
                poll_answers(data),
                i,
            )
        &&& self.cost.units == cost_units(self.names(), poll_answers(data))
        &&& self.counts() == tally(self.names())
    }

    /// The schedule as records for an export: a header, then one record
    /// per entry with the slot, the name and the flag.
    pub open spec fn csv(&self) -> Seq<Seq<Seq<char>>> {
        Seq::new(
            self.entries@.len() + 1,
            |r: int|
                if r == 0 {
                    seq!["slot"@, "name"@, "ifneedbe"@]
                } else {
                    seq![
                        self.entries@[r - 1].time@,
                        self.entries@[r - 1].name@,
                        if self.entries@[r - 1].ifneedbe {
                            "true"@
                        } else {
                            "false"@
                        },
                    ]
                },
        )
    }

    /// The schedule as records for an export.
    pub fn csv_records(&self) -> (records: Vec<Vec<String>>)
        ensures
            crate::records::table_of(records@) == self.csv(),
    {
        let mut records: Vec<Vec<String>> = Vec::new();
        let mut header: Vec<String> = Vec::new();
        header.push("slot".to_owned());
        header.push("name".to_owned());
        header.push("ifneedbe".to_owned());
        records.push(header);
        let mut i: usize = 0;
        while i < self.entries.len()
            invariant
                i <= self.entries@.len(),
                records@.len() == i + 1,
                forall|r: int|
                    0 <= r < i + 1 ==> crate::records::fields_of((#[trigger] records@[r])@)
                        == self.csv()[r],
            decreases self.entries@.len() - i,
        {
            let entry = &self.entries[i];
            let mut record: Vec<String> = Vec::new();
            record.push(entry.time.clone());
            record.push(entry.name.clone());
            record.push(
                if entry.ifneedbe {
                    "true".to_owned()
                } else {
                    "false".to_owned()
                },
            );
            assert(crate::records::fields_of(record@) =~= self.csv()[i as int + 1]);
            records.push(record);
            i += 1;
        }
        assert(crate::records::table_of(records@) =~= self.csv());
        records
    }

    /// Puts a schedule, its cost and its tally together.
    pub fn new(entries: Schedule, cost: Cost, name_counts: Vec<(Name, usize)>) -> (r:
        EvaluatedSchedule)
        ensures
            r.entries == entries,
            r.cost == cost,
            r.name_counts == name_counts,
    {
        EvaluatedSchedule { entries, cost, name_counts }
    }
}

/// Evaluates a complete schedule against the poll: its cost is the sum of
/// the fairness term (for each person the square of the number of their
/// slots), the spacing term and the preference term. The entries come back
/// with their flags set, beside the tally of the persons.
pub fn evaluate(s: Schedule, data: &[PollColumn]) -> (r: EvaluatedSchedule)
    requires
        s@.len() == data@.len(),
        data@.len() <= MAX_SLOTS,
        poll_wf(data@),
    ensures
        r.names() == names_of(s@),
        times_of(r.entries@) == times_of(s@),
        flags_set(r.entries@, poll_answers(data@), s@),
        r.cost.units == cost_units(names_of(s@), poll_answers(data@)),
        r.counts() == tally(names_of(s@)),
{
    let mut s = s;
    let ghost names = names_of(s@);
    let n = s.len();
    let mut squares: u128 = 0;
    let mut occ_stats: Vec<(Name, usize)> = Vec::new();
    let mut i: usize = 0;
    while i < n
        invariant
            i <= n,
            n == s@.len(),
            n <= MAX_SLOTS,
            names == names_of(s@),
            squares == fairness_upto(names, i as int),
            squares <= i * 1681,
            Seq::new(occ_stats@.len(), |k: int| (occ_stats@[k].0@, occ_stats@[k].1 as nat))
                == tally_upto(names, i as int),
        decreases n - i,
    {
        let name = s[i].name.as_str();
        if occur_before(s.as_slice(), i, name) == 0 {
            let occ = occur(s.as_slice(), name);
            proof {
                lemma_count_bounded(names, name@, names.len() as int);
            }
            assert(occ * occ <= 1681) by (nonlinear_arith)
                requires
                    0 <= occ <= 41,
            ;
            squares = squares + (occ * occ) as u128;
            let ghost before = Seq::new(
                occ_stats@.len(),
                |k: int| (occ_stats@[k].0@, occ_stats@[k].1 as nat),
            );
            occ_stats.push((s[i].name.clone(), occ));
            assert(Seq::new(occ_stats@.len(), |k: int| (occ_stats@[k].0@, occ_stats@[k].1 as nat))
                =~= before.push((names[i as int], occ as nat)));
        }
        i += 1;
    }
    let mut cost: u128 = squares * UNIT;
    cost = cost + calc_avg_distance_components(s.as_slice());
    cost = cost + calc_ifneedbe_components(&mut s, data);
    EvaluatedSchedule::new(s, Cost { units: cost }, occ_stats)
}

/// A person assigned to slot `i` is counted once at least from there on.
pub proof fn lemma_count_reaches(names: Seq<Seq<char>>, i: int, k: int)
    requires
        0 <= i < k,
    ensures
        count_upto(names, names[i], k) >= 1,
    decreases k,
{
    if k > i + 1 {
        lemma_count_reaches(names, i, k - 1);
    }
}

/// The preference costs are a quarter of a unit and five units, and a unit
/// divided by the square of a distance of up to forty slots leaves no
/// remainder: the units of a cost are exact.
pub proof fn lemma_unit_is_exact(d: int)
    requires
        1 <= d <= 40,
    ensures
        4 * IFNEEDBE_COST == UNIT,
        PLACEHOLDER_COST == 5 * UNIT,
        UNIT as int % (d * d) == 0,
{
    let u = UNIT as int;
    assert(u % 1 == 0 && u % 4 == 0 && u % 9 == 0 && u % 16 == 0 && u % 25 == 0);
    assert(u % 36 == 0 && u % 49 == 0 && u % 64 == 0 && u % 81 == 0 && u % 100 == 0);
    assert(u % 121 == 0 && u % 144 == 0 && u % 169 == 0 && u % 196 == 0 && u % 225 == 0);
    assert(u % 256 == 0 && u % 289 == 0 && u % 324 == 0 && u % 361 == 0 && u % 400 == 0);
    assert(u % 441 == 0 && u % 484 == 0 && u % 529 == 0 && u % 576 == 0 && u % 625 == 0);
    assert(u % 676 == 0 && u % 729 == 0 && u % 784 == 0 && u % 841 == 0 && u % 900 == 0);
    assert(u % 961 == 0 && u % 1024 == 0 && u % 1089 == 0 && u % 1156 == 0 && u % 1225 == 0);
    assert(u % 1296 == 0 && u % 1369 == 0 && u % 1444 == 0 && u % 1521 == 0 && u % 1600 == 0);
    assert(d * d == 1 || d * d == 4 || d * d == 9 || d * d == 16 || d * d == 25 || d * d == 36
        || d * d == 49 || d * d == 64 || d * d == 81 || d * d == 100 || d * d == 121 || d * d
        == 144 || d * d == 169 || d * d == 196 || d * d == 225 || d * d == 256 || d * d == 289
        || d * d == 324 || d * d == 361 || d * d == 400 || d * d == 441 || d * d == 484 || d * d
        == 529 || d * d == 576 || d * d == 625 || d * d == 676 || d * d == 729 || d * d == 784
        || d * d == 841 || d * d == 900 || d * d == 961 || d * d == 1024 || d * d == 1089 || d
        * d == 1156 || d * d == 1225 || d * d == 1296 || d * d == 1369 || d * d == 1444 || d * d
        == 1521 || d * d == 1600) by {
        lemma_small_square(d);
    }
}

/// The square of a number from one to forty is one of forty numbers.
proof fn lemma_small_square(d: int)
    requires
        1 <= d <= 40,
    ensures
        d == 1 ==> d * d == 1,
        d == 2 ==> d * d == 4,
        d == 3 ==> d * d == 9,
        d == 4 ==> d * d == 16,
        d == 5 ==> d * d == 25,
        d == 6 ==> d * d == 36,
        d == 7 ==> d * d == 49,
        d == 8 ==> d * d == 64,
        d == 9 ==> d * d == 81,
        d == 10 ==> d * d == 100,
        d == 11 ==> d * d == 121,
        d == 12 ==> d * d == 144,
        d == 13 ==> d * d == 169,
        d == 14 ==> d * d == 196,
        d == 15 ==> d * d == 225,
        d == 16 ==> d * d == 256,
        d == 17 ==> d * d == 289,
        d == 18 ==> d * d == 324,
        d == 19 ==> d * d == 361,
        d == 20 ==> d * d == 400,
        d == 21 ==> d * d == 441,
        d == 22 ==> d * d == 484,
        d == 23 ==> d * d == 529,
        d == 24 ==> d * d == 576,
        d == 25 ==> d * d == 625,
        d == 26 ==> d * d == 676,
        d == 27 ==> d * d == 729,
        d == 28 ==> d * d == 784,
        d == 29 ==> d * d == 841,
        d == 30 ==> d * d == 900,
        d == 31 ==> d * d == 961,
        d == 32 ==> d * d == 1024,
        d == 33 ==> d * d == 1089,
        d == 34 ==> d * d == 1156,
        d == 35 ==> d * d == 1225,
        d == 36 ==> d * d == 1296,
        d == 37 ==> d * d == 1369,
        d == 38 ==> d * d == 1444,
        d == 39 ==> d * d == 1521,
        d == 40 ==> d * d == 1600,
{
}

/// The first of the first `k` slots to which `name` is assigned, or -1.
pub open spec fn first_upto(names: Seq<Seq<char>>, name: Seq<char>, k: int) -> int
    decreases k,
{
    if k <= 0 {
        -1
    } else if first_upto(names, name, k - 1) >= 0 {
        first_upto(names, name, k - 1)
    } else if names[k - 1] == name {
        k - 1
    } else {
        -1
    }
}

/// The sum of the distances between one slot of `name` and the next, among
/// the first `k` slots.
pub open spec fn gap_sum(names: Seq<Seq<char>>, name: Seq<char>, k: int) -> int
    decreases k,
{
    if k <= 0 {
        0
    } else if names[k - 1] == name && last_upto(names, name, k - 1) >= 0 {
        gap_sum(names, name, k - 1) + (k - 1 - last_upto(names, name, k - 1))
    } else {
        gap_sum(names, name, k - 1)
    }
}

/// The number of the distances between one slot of `name` and the next,
/// among the first `k` slots.
pub open spec fn gap_count(names: Seq<Seq<char>>, name: Seq<char>, k: int) -> int
    decreases k,
{
    if k <= 0 {
        0
    } else if names[k - 1] == name && last_upto(names, name, k - 1) >= 0 {
        gap_count(names, name, k - 1) + 1
    } else {
        gap_count(names, name, k - 1)
    }
}

/// The distances between one slot of a person and the next add up to the
/// distance from the first slot to the last, and there is one distance
/// fewer than slots.
pub proof fn lemma_gaps(names: Seq<Seq<char>>, name: Seq<char>, k: int)
    requires
        0 <= k,
    ensures
        count_upto(names, name, k) == 0 ==> first_upto(names, name, k) == -1 && last_upto(
            names,
            name,
            k,
        ) == -1 && gap_sum(names, name, k) == 0 && gap_count(names, name, k) == 0,
        count_upto(names, name, k) > 0 ==> 0 <= first_upto(names, name, k) <= last_upto(
            names,
            name,
            k,
        ) < k && gap_sum(names, name, k) == last_upto(names, name, k) - first_upto(names, name, k)
            && gap_count(names, name, k) == count_upto(names, name, k) - 1,
    decreases k,
{
    if k > 0 {
        lemma_gaps(names, name, k - 1);
    }
}

/// The first slot of a person is the one before which the person has
/// none.
pub proof fn lemma_first_slot(names: Seq<Seq<char>>, i: int, k: int)
    requires
        0 <= i < k,
        is_first(names, i),
    ensures
        first_upto(names, names[i], k) == i,
    decreases k,
{
    lemma_gaps(names, names[i], i);
    if k > i + 1 {
        lemma_first_slot(names, i, k - 1);
    }
}

/// The spacing term of a person is one over the square of the mean
/// distance between one slot of theirs and the next, in units: with `g`
/// distances that add up to `d`, the mean is `d / g`, and the term times
/// `d * d` is `g * g` units. A person with one slot has no distance and
/// adds nothing.
pub proof fn lemma_spacing_is_mean_gap(names: Seq<Seq<char>>, i: int)
    requires
        0 <= i < names.len() <= MAX_SLOTS,
        is_first(names, i),
    ensures
        gap_count(names, names[i], names.len() as int) == 0 ==> spacing_at(names, i) == 0,
        gap_count(names, names[i], names.len() as int) > 0 ==> gap_sum(
            names,
            names[i],
            names.len() as int,
        ) > 0 && spacing_at(names, i) * (gap_sum(names, names[i], names.len() as int) * gap_sum(
            names,
            names[i],
            names.len() as int,
        )) == gap_count(names, names[i], names.len() as int) * gap_count(
            names,
            names[i],
            names.len() as int,
        ) * UNIT,
{
    let n = names.len() as int;
    let name = names[i];
    lemma_gaps(names, name, n);
    lemma_first_slot(names, i, n);
    lemma_count_reaches(names, i, n);
    let g = gap_count(names, name, n);
    let d = gap_sum(names, name, n);
    lemma_gap_sum_bounds(names, name, n);
    if g > 0 {
        lemma_unit_is_exact(d);
        let share = UNIT as int / (d * d);
        assert(d * d > 0) by (nonlinear_arith)
            requires
                d > 0,
        ;
        assert(share * (d * d) == UNIT) by (nonlinear_arith)
            requires
                share == UNIT as int / (d * d),
                UNIT as int % (d * d) == 0,
                d * d > 0,
        ;
        assert(g * g * share >= 0) by (nonlinear_arith)
            requires
                share >= 0,
        ;
        assert(spacing_at(names, i) == g * g * share);
        assert((g * g * share) * (d * d) == g * g * UNIT) by (nonlinear_arith)
            requires
                share * (d * d) == UNIT,
        ;
    }
}

/// There are distances between the slots of a person only where their
/// first and their last slot differ.
pub proof fn lemma_gap_sum_bounds(names: Seq<Seq<char>>, name: Seq<char>, k: int)
    requires
        0 <= k,
    ensures
        gap_count(names, name, k) >= 0,
        gap_count(names, name, k) > 0 ==> gap_sum(names, name, k) >= gap_count(names, name, k),
        gap_count(names, name, k) == 0 ==> gap_sum(names, name, k) == 0,
    decreases k,
{
    if k > 0 {
        lemma_gap_sum_bounds(names, name, k - 1);
        lemma_gaps(names, name, k - 1);
    }
}

/// The cost of a schedule is not negative, and it depends on who is
/// assigned to which slot and on the answers alone: two schedules with the
/// same names, against polls with the same answers, cost the same, whatever
/// the labels of the slots are.
pub proof fn lemma_cost_ignores_labels(
    s1: Seq<ScheduleEntry>,
    data1: Seq<PollColumn>,
    s2: Seq<ScheduleEntry>,
    data2: Seq<PollColumn>,
)
    requires
        names_of(s1) == names_of(s2),
        poll_answers(data1) == poll_answers(data2),
    ensures
        cost_units(names_of(s1), poll_answers(data1)) >= 0,
        cost_units(names_of(s1), poll_answers(data1)) == cost_units(
            names_of(s2),
            poll_answers(data2),
        ),
{
}

} // verus!
