//! The result of a search: the best two schedules seen, by cost.

use crate::cost::{cost_units, EvaluatedSchedule};
use crate::data::{poll_answers, PollColumn};
use vstd::prelude::*;

verus! {

/// The schedules that a search retains: none, one, or the best two with the
/// cheaper first.
#[derive(Debug, Clone)]
pub enum BestSchedules {
    One(EvaluatedSchedule),
    Two(EvaluatedSchedule, EvaluatedSchedule),
    NoneFound,
}

impl BestSchedules {
    /// The retained schedules, best first.
    pub open spec fn retained(&self) -> Seq<EvaluatedSchedule> {
        match *self {
            BestSchedules::NoneFound => seq![],
            BestSchedules::One(r1) => seq![r1],
            BestSchedules::Two(r1, r2) => seq![r1, r2],
        }
    }

    /// The costs of the retained schedules in units, best first.
    pub open spec fn costs(&self) -> Seq<nat> {
        match *self {
            BestSchedules::NoneFound => seq![],
            BestSchedules::One(r1) => seq![r1.cost.units as nat],
            BestSchedules::Two(r1, r2) => seq![r1.cost.units as nat, r2.cost.units as nat],
        }
    }

    /// Of two retained schedules the first costs no more than the second.
    pub open spec fn wf(&self) -> bool {
        match *self {
            BestSchedules::Two(r1, r2) => r1.cost.units <= r2.cost.units,
            _ => true,
        }
    }

    /// What `add` returns: the best two among the retained schedules and
    /// `new`. Only costs are compared, and of two schedules of equal cost
    /// the one retained earlier stays in front.
    pub open spec fn with(self, new: EvaluatedSchedule) -> BestSchedules {
        match self {
            BestSchedules::NoneFound => BestSchedules::One(new),
            BestSchedules::One(r1) => if r1.cost.units > new.cost.units {
                BestSchedules::Two(new, r1)
            } else {
                BestSchedules::Two(r1, new)
            },
            BestSchedules::Two(r1, r2) => if r1.cost.units > new.cost.units {
                BestSchedules::Two(new, r1)
            } else if r2.cost.units > new.cost.units {
                BestSchedules::Two(r1, new)
            } else {
                BestSchedules::Two(r1, r2)
            },
        }
    }

    /// What `merge` returns: the second tracker with each schedule that the
    /// first retains added to it, best first.
    pub open spec fn merged(self, other: BestSchedules) -> BestSchedules {
        match self {
            BestSchedules::NoneFound => other,
            BestSchedules::One(b1) => other.with(b1),
            BestSchedules::Two(b1, b2) => other.with(b1).with(b2),
        }
    }

    /// Whether this tracker holds the best two of the schedules in `all`,
    /// each evaluated against the poll `data`: the only one if `all` has one,
    /// none if `all` is empty, and else two different ones such that no
    /// schedule in `all` costs less than the first, and none but the first
    /// costs less than the second.
    pub open spec fn best_of(&self, data: Seq<PollColumn>, all: Set<Seq<Seq<char>>>) -> bool {
        let polls = poll_answers(data);
        match *self {
            BestSchedules::NoneFound => forall|s: Seq<Seq<char>>| !all.contains(s),
            BestSchedules::One(r1) => {
                &&& all.contains(r1.names())
                &&& r1.evaluates(data)
                &&& forall|s: Seq<Seq<char>>| all.contains(s) ==> s == r1.names()
            },
            BestSchedules::Two(r1, r2) => {
                &&& all.contains(r1.names())
                &&& all.contains(r2.names())
                &&& r1.evaluates(data)
                &&& r2.evaluates(data)
                &&& r1.names() != r2.names()
                &&& r1.cost.units <= r2.cost.units
                &&& forall|s: Seq<Seq<char>>| #[trigger]
                    all.contains(s) ==> {
                        &&& cost_units(s, polls) >= r1.cost.units
                        &&& s != r1.names() ==> cost_units(s, polls) >= r2.cost.units
                    }
            },
        }
    }

    /// Adds a schedule to the retained ones and keeps the best two.
    pub fn add(best: BestSchedules, new: EvaluatedSchedule) -> (r: BestSchedules)
        ensures
            r == best.with(new),
            best.wf() ==> r.wf(),
    {
        match best {
            BestSchedules::One(r1) => {
                if r1.cost.units > new.cost.units {
                    BestSchedules::Two(new, r1)
                } else {
                    BestSchedules::Two(r1, new)
                }
            },
            BestSchedules::Two(r1, r2) => {
                if r1.cost.units > new.cost.units {
                    BestSchedules::Two(new, r1)
                } else if r2.cost.units > new.cost.units {
                    BestSchedules::Two(r1, new)
                } else {
                    BestSchedules::Two(r1, r2)
                }
            },
            BestSchedules::NoneFound => BestSchedules::One(new),
        }
    }

    /// Combines two trackers that were filled apart into one.
    pub fn merge(r1: BestSchedules, r2: BestSchedules) -> (r: BestSchedules)
        ensures
            r == r1.merged(r2),
            r2.wf() ==> r.wf(),
    {
        match r1 {
            BestSchedules::NoneFound => r2,
            BestSchedules::One(b1) => BestSchedules::add(r2, b1),
            BestSchedules::Two(b1, b2) => BestSchedules::add(BestSchedules::add(r2, b1), b2),
        }
    }
}

/// A tracker that holds the best two of `all`, with one more schedule
/// added that is not in `all`, holds the best two of `all` and that one.
pub proof fn lemma_add_best_of(
    best: BestSchedules,
    new: EvaluatedSchedule,
    data: Seq<PollColumn>,
    all: Set<Seq<Seq<char>>>,
)
    requires
        best.best_of(data, all),
        new.evaluates(data),
        !all.contains(new.names()),
    ensures
        best.with(new).best_of(data, all.insert(new.names())),
{
}

/// Merging a tracker that holds the best two of `left` with one that holds
/// the best two of `right` gives one that holds the best two of both, where
/// `left` and `right` share no schedule.
pub proof fn lemma_merge_best_of(
    a: BestSchedules,
    b: BestSchedules,
    data: Seq<PollColumn>,
    left: Set<Seq<Seq<char>>>,
    right: Set<Seq<Seq<char>>>,
)
    requires
        a.best_of(data, left),
        b.best_of(data, right),
        left.disjoint(right),
    ensures
        a.merged(b).best_of(data, left.union(right)),
{
    match a {
        BestSchedules::NoneFound => {
            assert(left.union(right) =~= right);
        },
        BestSchedules::One(b1) => {
            lemma_add_best_of(b, b1, data, right);
            assert(left.union(right) =~= right.insert(b1.names()));
        },
        BestSchedules::Two(b1, b2) => {
            lemma_add_best_of(b, b1, data, right);
            lemma_add_best_of(b.with(b1), b2, data, right.insert(b1.names()));
            let both = right.insert(b1.names()).insert(b2.names());
            let all = left.union(right);
            let out = a.merged(b);
            assert(out.best_of(data, both));
            assert(out is Two);
            assert forall|s: Seq<Seq<char>>| all.contains(s) implies both.contains(s)
                || left.contains(s) by {}
        },
    }
}

/// The first `k` trackers merged from left to right.
pub open spec fn merged_all(trackers: Seq<BestSchedules>, k: int) -> BestSchedules
    decreases k,
{
    if k <= 0 {
        BestSchedules::NoneFound
    } else {
        merged_all(trackers, k - 1).merged(trackers[k - 1])
    }
}

/// The schedules of the first `k` sets together.
pub open spec fn union_upto(sets: Seq<Set<Seq<Seq<char>>>>, k: int) -> Set<Seq<Seq<char>>>
    decreases k,
{
    if k <= 0 {
        Set::empty()
    } else {
        union_upto(sets, k - 1).union(sets[k - 1])
    }
}

/// A schedule is in the first `k` sets together exactly if it is in one of
/// them.
pub proof fn lemma_union_upto(sets: Seq<Set<Seq<Seq<char>>>>, k: int, s: Seq<Seq<char>>)
    requires
        0 <= k <= sets.len(),
    ensures
        union_upto(sets, k).contains(s) <==> exists|i: int|
            0 <= i < k && (#[trigger] sets[i]).contains(s),
    decreases k,
{
    if k > 0 {
        lemma_union_upto(sets, k - 1, s);
    }
}

/// Merges the trackers from left to right into one.
pub fn merge_all(trackers: Vec<BestSchedules>) -> (out: BestSchedules)
    ensures
        out == merged_all(trackers@, trackers@.len() as int),
{
    let ghost all = trackers@;
    let mut rest = trackers;
    let mut best = BestSchedules::NoneFound;
    let ghost mut k: int = 0;
    while rest.len() > 0
        invariant
            0 <= k <= all.len(),
            rest@ == all.skip(k),
            best == merged_all(all, k),
        decreases rest@.len(),
    {
        let next = rest.remove(0);
        proof {
            assert(next == all[k]);
            assert(rest@ =~= all.skip(k + 1));
            k = k + 1;
        }
        best = BestSchedules::merge(best, next);
    }
    best
}

/// Trackers that each hold the best two of a set of schedules, where no
/// two of the sets share a schedule, merge into one that holds the best
/// two of all the sets together.
pub proof fn lemma_merged_all_best_of(
    trackers: Seq<BestSchedules>,
    data: Seq<PollColumn>,
    sets: Seq<Set<Seq<Seq<char>>>>,
    k: int,
)
    requires
        0 <= k <= trackers.len(),
        trackers.len() == sets.len(),
        forall|i: int| 0 <= i < k ==> (#[trigger] trackers[i]).best_of(data, sets[i]),
        forall|i: int, j: int| 0 <= i < j < k ==> (#[trigger] sets[i]).disjoint(#[trigger] sets[j]),
    ensures
        merged_all(trackers, k).best_of(data, union_upto(sets, k)),
    decreases k,
{
    if k > 0 {
        lemma_merged_all_best_of(trackers, data, sets, k - 1);
        let left = union_upto(sets, k - 1);
        assert forall|s: Seq<Seq<char>>| left.contains(s) implies !sets[k - 1].contains(s) by {
            lemma_union_upto(sets, k - 1, s);
            let i = choose|i: int| 0 <= i < k - 1 && (#[trigger] sets[i]).contains(s);
            assert(sets[i].disjoint(sets[k - 1]));
        }
        assert(left.disjoint(sets[k - 1]));
        lemma_merge_best_of(merged_all(trackers, k - 1), trackers[k - 1], data, left, sets[k - 1]);
    }
}

/// The tracker with nothing retained changes nothing in a merge.
pub proof fn lemma_merge_identity(t: BestSchedules)
    requires
        t.wf(),
    ensures
        t.merged(BestSchedules::NoneFound) == t,
        BestSchedules::NoneFound.merged(t) == t,
{
}

/// Whichever of two trackers is merged into the other, the same costs are
/// retained.
pub proof fn lemma_merge_commutes_on_costs(a: BestSchedules, b: BestSchedules)
    requires
        a.wf(),
        b.wf(),
    ensures
        a.merged(b).costs() == b.merged(a).costs(),
{
}

/// Two trackers that each hold the best two of the same schedules retain
/// the same costs, whichever schedules of equal cost they chose.
pub proof fn lemma_best_costs_unique(
    a: BestSchedules,
    b: BestSchedules,
    data: Seq<PollColumn>,
    all: Set<Seq<Seq<char>>>,
)
    requires
        a.best_of(data, all),
        b.best_of(data, all),
    ensures
        a.costs() == b.costs(),
{
}

} // verus!
