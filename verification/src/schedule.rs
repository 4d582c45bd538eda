//! Schedules: one entry per slot, in slot order, each naming who takes it.

use crate::data::{same_text, Name, Slot};
use vstd::prelude::*;

verus! {

/// One slot with the person assigned to it.
///
/// `ifneedbe` is set when a schedule is evaluated: it tells whether the
/// assigned person answered this slot with "if need be".
#[derive(Debug, Clone)]
pub struct ScheduleEntry {
    pub time: Slot,
    pub name: Name,
    pub ifneedbe: bool,
}

pub type Schedule = Vec<ScheduleEntry>;

/// The name that stands in a slot that nobody can take.
pub open spec fn placeholder_name() -> Seq<char> {
    "??"@
}

/// The name that stands in a slot that nobody can take.
pub fn placeholder() -> (name: &'static str)
    ensures
        name@ == placeholder_name(),
{
    "??"
}

/// The assigned names of a schedule, in slot order.
pub open spec fn names_of(s: Seq<ScheduleEntry>) -> Seq<Seq<char>> {
    Seq::new(s.len(), |i: int| s[i].name@)
}

/// The slot labels of a schedule, in slot order.
pub open spec fn times_of(s: Seq<ScheduleEntry>) -> Seq<Seq<char>> {
    Seq::new(s.len(), |i: int| s[i].time@)
}

/// How often `name` is assigned among the first `k` slots.
pub open spec fn count_upto(names: Seq<Seq<char>>, name: Seq<char>, k: int) -> nat
    decreases k,
{
    if k <= 0 {
        0
    } else {
        count_upto(names, name, k - 1) + if names[k - 1] == name {
            1nat
        } else {
            0nat
        }
    }
}

/// How often `name` is assigned in the whole schedule.
pub open spec fn count_name(names: Seq<Seq<char>>, name: Seq<char>) -> nat {
    count_upto(names, name, names.len() as int)
}

/// A name is assigned at most once per slot.
pub proof fn lemma_count_bounded(names: Seq<Seq<char>>, name: Seq<char>, k: int)
    requires
        0 <= k,
    ensures
        count_upto(names, name, k) <= k,
    decreases k,
{
    if k > 0 {
        lemma_count_bounded(names, name, k - 1);
    }
}

/// The count among the first `k` slots depends on those slots alone.
pub proof fn lemma_count_agrees(a: Seq<Seq<char>>, b: Seq<Seq<char>>, name: Seq<char>, k: int)
    requires
        0 <= k <= a.len(),
        k <= b.len(),
        forall|i: int| 0 <= i < k ==> a[i] == b[i],
    ensures
        count_upto(a, name, k) == count_upto(b, name, k),
    decreases k,
{
    if k > 0 {
        lemma_count_agrees(a, b, name, k - 1);
    }
}

impl ScheduleEntry {
    /// The entry that assigns `name` to the slot `time`.
    pub fn new(time: &str, name: &str) -> (entry: ScheduleEntry)
        ensures
            entry.time@ == time@,
            entry.name@ == name@,
            !entry.ifneedbe,
    {
        ScheduleEntry { time: time.to_owned(), name: name.to_owned(), ifneedbe: false }
    }
}

/// How often `n` is assigned among the first `k` entries of `s`.
pub fn occur_before(s: &[ScheduleEntry], k: usize, n: &str) -> (count: usize)
    requires
        k <= s@.len(),
    ensures
        count == count_upto(names_of(s@), n@, k as int),
{
    let mut count: usize = 0;
    let mut i: usize = 0;
    while i < k
        invariant
            i <= k <= s@.len(),
            count <= i,
            count == count_upto(names_of(s@), n@, i as int),
        decreases k - i,
    {
        if same_text(s[i].name.as_str(), n) {
            count += 1;
        }
        i += 1;
    }
    count
}

/// How often `n` is assigned in `s`.
pub fn occur(s: &[ScheduleEntry], n: &str) -> (count: usize)
    ensures
        count == count_name(names_of(s@), n@),
{
    occur_before(s, s.len(), n)
}

/// A copy of `s`: the same slots, names and flags.
pub fn copy_schedule(s: &[ScheduleEntry]) -> (copy: Schedule)
    ensures
        copy@.len() == s@.len(),
        forall|i: int| 0 <= i < s@.len() ==> #[trigger] copy@[i] == s@[i],
        names_of(copy@) == names_of(s@),
        times_of(copy@) == times_of(s@),
{
    let mut copy: Vec<ScheduleEntry> = Vec::new();
    let mut i: usize = 0;
    while i < s.len()
        invariant
            i <= s@.len(),
            copy@.len() == i,
            forall|k: int| 0 <= k < i ==> #[trigger] copy@[k] == s@[k],
        decreases s@.len() - i,
    {
        copy.push(
            ScheduleEntry {
                time: s[i].time.clone(),
                name: s[i].name.clone(),
                ifneedbe: s[i].ifneedbe,
            },
        );
        i += 1;
    }
    proof {
        assert(names_of(copy@) =~= names_of(s@));
        assert(times_of(copy@) =~= times_of(s@));
    }
    copy
}

} // verus!
