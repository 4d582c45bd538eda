//! The scheduling functionality: the search over all assignments of one
//! person per slot, and its entry point.

use crate::cost::{evaluate, MAX_SLOTS};
use crate::data::{
    distinct_names, is_poll_wf, poll_answers, poll_wf, same_text, Answers, Name, PollColumn,
    Response,
};
use crate::schedule::{
    copy_schedule, count_upto, lemma_count_agrees, names_of, occur, placeholder,
    placeholder_name, times_of,
};
use crate::tracker::{
    lemma_add_best_of, lemma_merged_all_best_of, lemma_union_upto, merge_all, union_upto,
};
use vstd::prelude::*;

pub use crate::cost::EvaluatedSchedule;
pub use crate::schedule::{Schedule, ScheduleEntry};
pub use crate::tracker::BestSchedules;

verus! {

/// Options for the scheduling algorithm
#[derive(Debug)]
pub struct SchedulingOptions {
    /// Whether to insert placeholders if a slot cannot be filled, or abort
    pub ignore_empty_slots: bool,
}

impl Default for SchedulingOptions {
    fn default() -> (opts: SchedulingOptions)
        ensures
            !opts.ignore_empty_slots,
    {
        SchedulingOptions { ignore_empty_slots: false }
    }
}

/// The number of slots that one person may get at most: the number of
/// slots divided by the number of respondents of the first slot, rounded
/// down, and one more. There is no bound where the first slot has no
/// respondents. The bound cuts the search short, at a price: a schedule
/// that gives one person more slots than the bound is never reached, also
/// where it would cost less than every schedule that is.
pub open spec fn prune_bound(polls: Seq<Answers>) -> Option<nat> {
    if polls.len() == 0 || polls[0].len() == 0 {
        None
    } else {
        Some((polls.len() / polls[0].len() + 1) as nat)
    }
}

/// Whether respondent `j` of slot `i` can take it after the first `i`
/// slots of `s`: the response is not a no, and the person is not assigned
/// as many slots as the bound among them.
pub open spec fn usable(polls: Seq<Answers>, s: Seq<Seq<char>>, i: int, j: int) -> bool {
    &&& polls[i][j].1 != Response::No
    &&& prune_bound(polls) != Some(count_upto(s, polls[i][j].0, i))
}

/// Whether some respondent of slot `i` can take it after the first `i`
/// slots of `s`.
pub open spec fn fillable(polls: Seq<Answers>, s: Seq<Seq<char>>, i: int) -> bool {
    exists|j: int| 0 <= j < polls[i].len() && #[trigger] usable(polls, s, i, j)
}

/// Whether `s[i]` is a respondent of slot `i` who can take it after the
/// first `i` slots of `s`.
pub open spec fn taken(polls: Seq<Answers>, s: Seq<Seq<char>>, i: int) -> bool {
    exists|j: int|
        0 <= j < polls[i].len() && #[trigger] usable(polls, s, i, j) && polls[i][j].0 == s[i]
}

/// Whether the search assigns `s[i]` to slot `i` after the first `i` slots
/// of `s`: the person is a respondent who can take it, or it is the
/// placeholder, placeholders are allowed, and nobody can take the slot.
pub open spec fn step_ok(
    polls: Seq<Answers>,
    placeholders: bool,
    s: Seq<Seq<char>>,
    i: int,
) -> bool {
    ||| taken(polls, s, i)
    ||| placeholders && s[i] == placeholder_name() && !fillable(polls, s, i)
}

/// Whether the search reaches the first `k` slots of `s`.
pub open spec fn valid_upto(
    polls: Seq<Answers>,
    placeholders: bool,
    s: Seq<Seq<char>>,
    k: int,
) -> bool {
    forall|i: int| 0 <= i < k ==> #[trigger] step_ok(polls, placeholders, s, i)
}

/// Whether `s` is a complete schedule that the search reaches.
pub open spec fn valid_schedule(
    polls: Seq<Answers>,
    placeholders: bool,
    s: Seq<Seq<char>>,
) -> bool {
    &&& s.len() == polls.len()
    &&& valid_upto(polls, placeholders, s, s.len() as int)
}

/// Whether `s` begins with `p`.
pub open spec fn extends(s: Seq<Seq<char>>, p: Seq<Seq<char>>) -> bool {
    &&& p.len() <= s.len()
    &&& forall|i: int| 0 <= i < p.len() ==> s[i] == p[i]
}

/// The complete schedules that the search reaches and that begin with `p`.
pub open spec fn completions(polls: Seq<Answers>, placeholders: bool, p: Seq<Seq<char>>) -> Set<
    Seq<Seq<char>>,
> {
    Set::new(|s: Seq<Seq<char>>| valid_schedule(polls, placeholders, s) && extends(s, p))
}

/// All complete schedules that the search reaches.
pub open spec fn all_schedules(polls: Seq<Answers>, placeholders: bool) -> Set<Seq<Seq<char>>> {
    Set::new(|s: Seq<Seq<char>>| valid_schedule(polls, placeholders, s))
}

/// The complete schedules that the search reaches, that begin with `p`, and
/// whose next slot goes to one of the first `j` respondents of that slot.
pub open spec fn branches(
    polls: Seq<Answers>,
    placeholders: bool,
    p: Seq<Seq<char>>,
    j: int,
) -> Set<Seq<Seq<char>>> {
    Set::new(
        |s: Seq<Seq<char>>|
            valid_schedule(polls, placeholders, s) && extends(s, p) && exists|k: int|
                0 <= k < j && #[trigger] usable(polls, p, p.len() as int, k)
                    && polls[p.len() as int][k].0 == s[p.len() as int],
    )
}

/// Whether a respondent can take slot `i` depends on the slots before it
/// alone.
pub proof fn lemma_usable_agrees(
    polls: Seq<Answers>,
    a: Seq<Seq<char>>,
    b: Seq<Seq<char>>,
    i: int,
    j: int,
)
    requires
        0 <= i <= a.len(),
        i <= b.len(),
        forall|k: int| 0 <= k < i ==> a[k] == b[k],
    ensures
        usable(polls, a, i, j) == usable(polls, b, i, j),
{
    lemma_count_agrees(a, b, polls[i][j].0, i);
}

/// Whether slot `i` can be filled depends on the slots before it alone.
pub proof fn lemma_fillable_agrees(
    polls: Seq<Answers>,
    a: Seq<Seq<char>>,
    b: Seq<Seq<char>>,
    i: int,
)
    requires
        0 <= i <= a.len(),
        i <= b.len(),
        forall|k: int| 0 <= k < i ==> a[k] == b[k],
    ensures
        fillable(polls, a, i) == fillable(polls, b, i),
{
    assert forall|j: int| usable(polls, a, i, j) == usable(polls, b, i, j) by {
        lemma_usable_agrees(polls, a, b, i, j);
    }
}

/// Whether the search assigns slot `i` as a schedule has it depends on the
/// schedule up to that slot alone.
pub proof fn lemma_step_agrees(
    polls: Seq<Answers>,
    placeholders: bool,
    a: Seq<Seq<char>>,
    b: Seq<Seq<char>>,
    i: int,
)
    requires
        0 <= i < a.len(),
        i < b.len(),
        forall|k: int| 0 <= k <= i ==> a[k] == b[k],
    ensures
        step_ok(polls, placeholders, a, i) == step_ok(polls, placeholders, b, i),
{
    assert forall|j: int| usable(polls, a, i, j) == usable(polls, b, i, j) by {
        lemma_usable_agrees(polls, a, b, i, j);
    }
    lemma_fillable_agrees(polls, a, b, i);
}

/// The number of slots that one person may get at most, if there is a
/// bound.
pub fn max_occur(data: &[PollColumn]) -> (bound: Option<usize>)
    requires
        0 < data@.len() <= MAX_SLOTS,
    ensures
        match bound {
            Some(b) => prune_bound(poll_answers(data@)) == Some(b as nat),
            None => prune_bound(poll_answers(data@)) == None::<nat>,
        },
{
    let respondents = data[0].responses.len();
    assert(poll_answers(data@)[0].len() == respondents);
    if respondents == 0 {
        None
    } else {
        Some(data.len() / respondents + 1)
    }
}

/// Whether `cur` is a partial schedule as the search builds it: at most as
/// long as the poll, reached by the search, each entry with the label of
/// its slot and with its flag not set.
pub open spec fn partial_schedule(
    data: Seq<PollColumn>,
    placeholders: bool,
    cur: Seq<ScheduleEntry>,
) -> bool {
    &&& cur.len() <= data.len()
    &&& valid_upto(poll_answers(data), placeholders, names_of(cur), cur.len() as int)
    &&& forall|i: int|
        0 <= i < cur.len() ==> (#[trigger] cur[i]).time@ == data[i].time@ && !cur[i].ifneedbe
}

/// `cur` with one more entry, for the slot that follows it.
fn extended(data: &[PollColumn], cur: &Schedule, name: &str) -> (next: Schedule)
    requires
        cur@.len() < data@.len(),
    ensures
        next@.len() == cur@.len() + 1,
        names_of(next@) == names_of(cur@).push(name@),
        forall|i: int| 0 <= i < cur@.len() ==> #[trigger] next@[i] == cur@[i],
        next@[cur@.len() as int].time@ == data@[cur@.len() as int].time@,
        !next@[cur@.len() as int].ifneedbe,
{
    let day = &data[cur.len()];
    let mut next = copy_schedule(cur.as_slice());
    next.push(ScheduleEntry::new(day.time.as_str(), name));
    assert(names_of(next@) =~= names_of(cur@).push(name@));
    next
}

/// The search from the partial schedule `cur_sched`: every complete
/// schedule that begins with it and that the search reaches is evaluated
/// and added to `results`. `seen` holds the schedules added before.
fn compute_all_schedules_(
    data: &[PollColumn],
    opts: &SchedulingOptions,
    cur_sched: Schedule,
    results: BestSchedules,
    Ghost(seen): Ghost<Set<Seq<Seq<char>>>>,
) -> (out: BestSchedules)
    requires
        0 < data@.len() <= MAX_SLOTS,
        poll_wf(data@),
        partial_schedule(data@, opts.ignore_empty_slots, cur_sched@),
        results.best_of(data@, seen),
        seen.disjoint(
            completions(poll_answers(data@), opts.ignore_empty_slots, names_of(cur_sched@)),
        ),
    ensures
        out.best_of(
            data@,
            seen.union(
                completions(poll_answers(data@), opts.ignore_empty_slots, names_of(cur_sched@)),
            ),
        ),
    decreases data@.len() - cur_sched@.len(),
{
    let ghost polls = poll_answers(data@);
    let ghost ph = opts.ignore_empty_slots;
    let ghost p = names_of(cur_sched@);
    // Allow early cutoff: don't assign people much more than necessary
    let bound = max_occur(data);

    if cur_sched.len() == data.len() {
        let evaluated = evaluate(cur_sched, data);
        proof {
            assert(completions(polls, ph, p).contains(p));
            assert forall|s: Seq<Seq<char>>| #[trigger]
                completions(polls, ph, p).contains(s) implies s == p by {
                assert(s =~= p);
            }
            assert(seen.union(completions(polls, ph, p)) =~= seen.insert(p));
            assert(evaluated.entries@.len() == evaluated.names().len());
            assert forall|i: int| 0 <= i < data@.len() implies (
            #[trigger] evaluated.entries@[i]).time@ == data@[i].time@
                && evaluated.entries@[i].ifneedbe == crate::cost::reluctant_at(
                p,
                polls,
                i,
            ) by {
                assert(times_of(evaluated.entries@)[i] == times_of(cur_sched@)[i]);
                assert(!cur_sched@[i].ifneedbe);
            }
            assert(evaluated.evaluates(data@));
            lemma_add_best_of(results, evaluated, data@, seen);
        }
        BestSchedules::add(results, evaluated)
    } else {
        let slot = cur_sched.len();
        let day = &data[slot];
        let respondents = day.responses.len();
        let mut results = results;
        let mut valid_response_found = false;
        let mut j: usize = 0;
        assert(polls[slot as int] == day.answers());
        assert(branches(polls, ph, p, 0) =~= Set::empty());
        assert(seen.union(branches(polls, ph, p, 0)) =~= seen);
        while j < respondents
            invariant
                0 < data@.len() <= MAX_SLOTS,
                poll_wf(data@),
                partial_schedule(data@, opts.ignore_empty_slots, cur_sched@),
                polls == poll_answers(data@),
                ph == opts.ignore_empty_slots,
                p == names_of(cur_sched@),
                slot == cur_sched@.len(),
                slot < data@.len(),
                *day == data@[slot as int],
                respondents == day.responses@.len(),
                polls[slot as int] == day.answers(),
                j <= respondents,
                match bound {
                    Some(b) => prune_bound(polls) == Some(b as nat),
                    None => prune_bound(polls) == None::<nat>,
                },
                seen.disjoint(completions(polls, ph, p)),
                results.best_of(data@, seen.union(branches(polls, ph, p, j as int))),
                valid_response_found == exists|k: int|
                    0 <= k < j && #[trigger] usable(polls, p, slot as int, k),
            decreases respondents - j,
        {
            let person = day.responses[j].0.as_str();
            let at_bound = match bound {
                Some(b) => occur(cur_sched.as_slice(), person) == b,
                None => false,
            };
            let willing = match day.responses[j].1 {
                Response::No => false,
                _ => true,
            };
            assert(polls[slot as int][j as int] == (person@, day.responses@[j as int].1));
            assert((willing && !at_bound) == usable(polls, p, slot as int, j as int));
            let ghost before = seen.union(branches(polls, ph, p, j as int));
            if willing && !at_bound {
                valid_response_found = true;
                let new_sched = extended(data, &cur_sched, person);
                let ghost q = names_of(new_sched@);
                proof {
                    lemma_push_candidate(polls, ph, p, j as int);
                    lemma_branch_is_new(polls, ph, p, q, j as int, seen);
                }
                results = compute_all_schedules_(data, opts, new_sched, results, Ghost(before));
                proof {
                    lemma_branch_added(polls, ph, p, q, j as int);
                    assert(before.union(completions(polls, ph, q)) =~= seen.union(
                        branches(polls, ph, p, j as int + 1),
                    ));
                }
            } else {
                proof {
                    assert(branches(polls, ph, p, j as int + 1) =~= branches(
                        polls,
                        ph,
                        p,
                        j as int,
                    ));
                }
            }
            j += 1;
        }
        if valid_response_found {
            proof {
                lemma_branches_complete(polls, ph, p);
            }
            results
        } else if opts.ignore_empty_slots {
            let new_sched = extended(data, &cur_sched, placeholder());
            let ghost q = names_of(new_sched@);
            proof {
                assert(branches(polls, ph, p, respondents as int) =~= Set::empty());
                assert(seen.union(branches(polls, ph, p, respondents as int)) =~= seen);
                lemma_push_placeholder(polls, p);
                lemma_placeholder_only(polls, p, q);
            }
            compute_all_schedules_(data, opts, new_sched, results, Ghost(seen))
        } else {
            proof {
                assert(branches(polls, ph, p, respondents as int) =~= Set::empty());
                assert(seen.union(branches(polls, ph, p, respondents as int)) =~= seen);
                lemma_dead_end(polls, p);
                assert(seen.union(completions(polls, ph, p)) =~= seen);
            }
            results
        }
    }
}

/// A reached partial schedule with a respondent of the next slot who can
/// take it is reached too.
pub proof fn lemma_push_candidate(
    polls: Seq<Answers>,
    placeholders: bool,
    p: Seq<Seq<char>>,
    j: int,
)
    requires
        p.len() < polls.len(),
        valid_upto(polls, placeholders, p, p.len() as int),
        0 <= j < polls[p.len() as int].len(),
        usable(polls, p, p.len() as int, j),
    ensures
        valid_upto(
            polls,
            placeholders,
            p.push(polls[p.len() as int][j].0),
            p.len() as int + 1,
        ),
{
    let q = p.push(polls[p.len() as int][j].0);
    let slot = p.len() as int;
    assert forall|i: int| 0 <= i < slot + 1 implies #[trigger] step_ok(
        polls,
        placeholders,
        q,
        i,
    ) by {
        if i < slot {
            assert(step_ok(polls, placeholders, p, i));
            lemma_step_agrees(polls, placeholders, p, q, i);
        } else {
            lemma_usable_agrees(polls, p, q, slot, j);
        }
    }
}

/// A reached partial schedule with the placeholder for the next slot,
/// which nobody can take, is reached too where placeholders are allowed.
pub proof fn lemma_push_placeholder(polls: Seq<Answers>, p: Seq<Seq<char>>)
    requires
        p.len() < polls.len(),
        valid_upto(polls, true, p, p.len() as int),
        !fillable(polls, p, p.len() as int),
    ensures
        valid_upto(polls, true, p.push(placeholder_name()), p.len() as int + 1),
{
    let q = p.push(placeholder_name());
    let slot = p.len() as int;
    assert forall|i: int| 0 <= i < slot + 1 implies #[trigger] step_ok(polls, true, q, i) by {
        if i < slot {
            assert(step_ok(polls, true, p, i));
            lemma_step_agrees(polls, true, p, q, i);
        } else {
            lemma_fillable_agrees(polls, p, q, slot);
        }
    }
}

/// The schedules that continue `p` with respondent `j` of the next slot are
/// none of those seen before, nor of those that continue `p` with an
/// earlier respondent.
proof fn lemma_branch_is_new(
    polls: Seq<Answers>,
    placeholders: bool,
    p: Seq<Seq<char>>,
    q: Seq<Seq<char>>,
    j: int,
    seen: Set<Seq<Seq<char>>>,
)
    requires
        p.len() < polls.len(),
        0 <= j < polls[p.len() as int].len(),
        distinct_names(polls[p.len() as int]),
        q == p.push(polls[p.len() as int][j].0),
        seen.disjoint(completions(polls, placeholders, p)),
    ensures
        seen.union(branches(polls, placeholders, p, j)).disjoint(
            completions(polls, placeholders, q),
        ),
{
    let slot = p.len() as int;
    assert forall|s: Seq<Seq<char>>| #[trigger]
        completions(polls, placeholders, q).contains(s) implies !seen.union(
        branches(polls, placeholders, p, j),
    ).contains(s) by {
        assert(s[slot] == q[slot]);
        assert forall|i: int| 0 <= i < p.len() implies s[i] == p[i] by {
            assert(s[i] == q[i]);
        }
        assert(completions(polls, placeholders, p).contains(s));
        if branches(polls, placeholders, p, j).contains(s) {
            let k = choose|k: int|
                0 <= k < j && #[trigger] usable(polls, p, slot, k) && polls[slot][k].0 == s[slot];
            assert(polls[slot][k].0 == polls[slot][j].0);
        }
    }
}

/// The schedules that continue `p` with one of the first `j + 1`
/// respondents of the next slot are those that continue it with one of the
/// first `j`, and those that continue it with respondent `j`.
proof fn lemma_branch_added(
    polls: Seq<Answers>,
    placeholders: bool,
    p: Seq<Seq<char>>,
    q: Seq<Seq<char>>,
    j: int,
)
    requires
        p.len() < polls.len(),
        0 <= j < polls[p.len() as int].len(),
        usable(polls, p, p.len() as int, j),
        q == p.push(polls[p.len() as int][j].0),
    ensures
        branches(polls, placeholders, p, j + 1) == branches(polls, placeholders, p, j).union(
            completions(polls, placeholders, q),
        ),
{
    let slot = p.len() as int;
    let left = branches(polls, placeholders, p, j + 1);
    let right = branches(polls, placeholders, p, j).union(completions(polls, placeholders, q));
    assert forall|s: Seq<Seq<char>>| left.contains(s) implies right.contains(s) by {
        let k = choose|k: int|
            0 <= k < j + 1 && #[trigger] usable(polls, p, slot, k) && polls[slot][k].0 == s[slot];
        if k < j {
            assert(branches(polls, placeholders, p, j).contains(s));
        } else {
            assert(extends(s, q));
        }
    }
    assert forall|s: Seq<Seq<char>>| right.contains(s) implies left.contains(s) by {
        if branches(polls, placeholders, p, j).contains(s) {
            let k = choose|k: int|
                0 <= k < j && #[trigger] usable(polls, p, slot, k) && polls[slot][k].0 == s[slot];
            assert(0 <= k < j + 1);
        } else {
            assert(s[slot] == q[slot]);
            assert forall|i: int| 0 <= i < p.len() implies s[i] == p[i] by {
                assert(s[i] == q[i]);
            }
        }
    }
    assert(left =~= right);
}

/// Where somebody can take the next slot, every schedule that continues `p`
/// continues it with one of the respondents of that slot.
proof fn lemma_branches_complete(polls: Seq<Answers>, placeholders: bool, p: Seq<Seq<char>>)
    requires
        p.len() < polls.len(),
        fillable(polls, p, p.len() as int),
    ensures
        branches(polls, placeholders, p, polls[p.len() as int].len() as int) == completions(
            polls,
            placeholders,
            p,
        ),
{
    let slot = p.len() as int;
    let left = branches(polls, placeholders, p, polls[slot].len() as int);
    let right = completions(polls, placeholders, p);
    assert forall|s: Seq<Seq<char>>| right.contains(s) implies left.contains(s) by {
        assert(step_ok(polls, placeholders, s, slot));
        lemma_fillable_agrees(polls, p, s, slot);
        let k = choose|k: int|
            0 <= k < polls[slot].len() && #[trigger] usable(polls, s, slot, k) && polls[slot][k].0
                == s[slot];
        lemma_usable_agrees(polls, p, s, slot, k);
    }
    assert(left =~= right);
}

/// Where nobody can take the next slot, every schedule that continues `p`
/// continues it with the placeholder.
proof fn lemma_placeholder_only(polls: Seq<Answers>, p: Seq<Seq<char>>, q: Seq<Seq<char>>)
    requires
        p.len() < polls.len(),
        !fillable(polls, p, p.len() as int),
        q == p.push(placeholder_name()),
    ensures
        completions(polls, true, q) == completions(polls, true, p),
{
    let slot = p.len() as int;
    let left = completions(polls, true, q);
    let right = completions(polls, true, p);
    assert forall|s: Seq<Seq<char>>| right.contains(s) implies left.contains(s) by {
        assert(step_ok(polls, true, s, slot));
        lemma_fillable_agrees(polls, p, s, slot);
        assert(s[slot] == placeholder_name());
        assert(extends(s, q));
    }
    assert forall|s: Seq<Seq<char>>| left.contains(s) implies right.contains(s) by {
        assert forall|i: int| 0 <= i < p.len() implies s[i] == p[i] by {
            assert(s[i] == q[i]);
        }
    }
    assert(left =~= right);
}

/// Where nobody can take the next slot and placeholders are not allowed,
/// no schedule continues `p`.
proof fn lemma_dead_end(polls: Seq<Answers>, p: Seq<Seq<char>>)
    requires
        p.len() < polls.len(),
        !fillable(polls, p, p.len() as int),
    ensures
        completions(polls, false, p) == Set::<Seq<Seq<char>>>::empty(),
{
    let slot = p.len() as int;
    assert forall|s: Seq<Seq<char>>| !completions(polls, false, p).contains(s) by {
        if completions(polls, false, p).contains(s) {
            assert(step_ok(polls, false, s, slot));
            lemma_fillable_agrees(polls, p, s, slot);
        }
    }
    assert(completions(polls, false, p) =~= Set::<Seq<Seq<char>>>::empty());
}

/// Whether someone answered the slot with something other than a no.
pub open spec fn somebody_willing(answers: Answers) -> bool {
    exists|j: int| 0 <= j < answers.len() && (#[trigger] answers[j]).1 != Response::No
}

/// The names of those among the first `k` respondents who did not answer
/// no, in the order of the column.
pub open spec fn willing_upto(answers: Answers, k: int) -> Seq<Seq<char>>
    decreases k,
{
    if k <= 0 {
        Seq::empty()
    } else if answers[k - 1].1 != Response::No {
        willing_upto(answers, k - 1).push(answers[k - 1].0)
    } else {
        willing_upto(answers, k - 1)
    }
}

/// The names with which the schedules of the search begin, one unit of
/// work each: the respondents of the first slot who did not answer no, or,
/// if there is none and placeholders are allowed, the placeholder.
pub open spec fn starting_units(polls: Seq<Answers>, placeholders: bool) -> Seq<Seq<char>> {
    let willing = willing_upto(polls[0], polls[0].len() as int);
    if willing.len() > 0 {
        willing
    } else if placeholders {
        seq![placeholder_name()]
    } else {
        Seq::empty()
    }
}

/// Who is among the willing of the first `k` respondents.
pub proof fn lemma_willing_upto_holds(answers: Answers, k: int, name: Seq<char>)
    requires
        0 <= k <= answers.len(),
    ensures
        willing_upto(answers, k).contains(name) <==> exists|j: int|
            0 <= j < k && (#[trigger] answers[j]).0 == name && answers[j].1 != Response::No,
    decreases k,
{
    if k > 0 {
        lemma_willing_upto_holds(answers, k - 1, name);
        let before = willing_upto(answers, k - 1);
        if answers[k - 1].1 != Response::No {
            let now = before.push(answers[k - 1].0);
            assert(now[now.len() - 1] == answers[k - 1].0);
            if before.contains(name) {
                let i = choose|i: int| 0 <= i < before.len() && before[i] == name;
                assert(now[i] == name);
            }
            if now.contains(name) {
                let i = choose|i: int| 0 <= i < now.len() && now[i] == name;
                if i < before.len() {
                    assert(before[i] == name);
                }
            }
        }
    }
}

/// The units of work cover the search, and no more: a name is among the
/// starting units exactly if the search begins a schedule with it. So
/// every complete schedule that the search reaches begins with one of the
/// units.
pub proof fn lemma_units_cover(polls: Seq<Answers>, placeholders: bool, s: Seq<Seq<char>>)
    requires
        0 < polls.len(),
        0 < s.len(),
    ensures
        starting_units(polls, placeholders).contains(s[0]) <==> step_ok(polls, placeholders, s, 0),
{
    let willing = willing_upto(polls[0], polls[0].len() as int);
    lemma_willing_upto_holds(polls[0], polls[0].len() as int, s[0]);
    assert forall|j: int| #[trigger] usable(polls, s, 0, j) == (polls[0][j].1 != Response::No) by {
        lemma_first_slot_usable(polls, s, j);
    }
    if step_ok(polls, placeholders, s, 0) {
        if taken(polls, s, 0) {
            let j = choose|j: int|
                0 <= j < polls[0].len() && #[trigger] usable(polls, s, 0, j) && polls[0][j].0
                    == s[0];
            assert(polls[0][j].1 != Response::No);
            assert(willing.contains(s[0]));
            assert(willing.len() > 0);
        } else {
            if willing.len() > 0 {
                lemma_willing_upto_holds(polls[0], polls[0].len() as int, willing[0]);
                assert(willing.contains(willing[0]));
                let j = choose|j: int|
                    0 <= j < polls[0].len() && (#[trigger] polls[0][j]).0 == willing[0]
                        && polls[0][j].1 != Response::No;
                assert(usable(polls, s, 0, j));
            }
            assert(seq![placeholder_name()][0] == s[0]);
        }
    }
    if starting_units(polls, placeholders).contains(s[0]) {
        if willing.len() > 0 {
            let j = choose|j: int|
                0 <= j < polls[0].len() && (#[trigger] polls[0][j]).0 == s[0] && polls[0][j].1
                    != Response::No;
            assert(usable(polls, s, 0, j));
        } else {
            let units = starting_units(polls, placeholders);
            let i = choose|i: int| 0 <= i < units.len() && units[i] == s[0];
            assert(placeholders);
            assert(s[0] == placeholder_name());
            if fillable(polls, s, 0) {
                let j = choose|j: int| 0 <= j < polls[0].len() && #[trigger] usable(polls, s, 0, j);
                lemma_willing_upto_holds(polls[0], polls[0].len() as int, polls[0][j].0);
                assert(polls[0][j].1 != Response::No);
                assert(willing.contains(polls[0][j].0));
            }
        }
    }
}

/// For the first slot, a respondent can take it exactly if the response is
/// not a no: nobody is assigned anything yet.
pub proof fn lemma_first_slot_usable(polls: Seq<Answers>, s: Seq<Seq<char>>, j: int)
    requires
        0 < polls.len(),
    ensures
        usable(polls, s, 0, j) == (polls[0][j].1 != Response::No),
        fillable(polls, s, 0) ==> somebody_willing(polls[0]),
{
    if fillable(polls, s, 0) {
        let k = choose|k: int| 0 <= k < polls[0].len() && #[trigger] usable(polls, s, 0, k);
        assert(polls[0][k].1 != Response::No);
    }
}

/// Whether someone answered the slot with something other than a no.
pub fn has_willing(column: &PollColumn) -> (found: bool)
    ensures
        found == somebody_willing(column.answers()),
{
    let mut j: usize = 0;
    while j < column.responses.len()
        invariant
            j <= column.responses@.len(),
            forall|k: int| 0 <= k < j ==> (#[trigger] column.answers()[k]).1 == Response::No,
        decreases column.responses@.len() - j,
    {
        match column.responses[j].1 {
            Response::No => {},
            _ => {
                assert(column.answers()[j as int].1 != Response::No);
                return true;
            },
        }
        j += 1;
    }
    false
}

/// The names to start the search from, one unit of work each.
pub fn starting_names(data: &[PollColumn], opts: &SchedulingOptions) -> (units: Vec<Name>)
    requires
        0 < data@.len(),
    ensures
        Seq::new(units@.len(), |k: int| units@[k]@) == starting_units(
            poll_answers(data@),
            opts.ignore_empty_slots,
        ),
{
    let first_day = &data[0];
    let ghost answers = first_day.answers();
    assert(poll_answers(data@)[0] == answers);
    let mut units: Vec<Name> = Vec::new();
    let mut j: usize = 0;
    while j < first_day.responses.len()
        invariant
            j <= first_day.responses@.len(),
            answers == first_day.answers(),
            Seq::new(units@.len(), |k: int| units@[k]@) == willing_upto(answers, j as int),
        decreases first_day.responses@.len() - j,
    {
        let ghost before = Seq::new(units@.len(), |k: int| units@[k]@);
        match first_day.responses[j].1 {
            Response::No => {},
            _ => {
                units.push(first_day.responses[j].0.clone());
                assert(Seq::new(units@.len(), |k: int| units@[k]@) =~= before.push(
                    answers[j as int].0,
                ));
            },
        }
        j += 1;
    }
    if units.len() == 0 && opts.ignore_empty_slots {
        units.push(placeholder().to_owned());
        assert(Seq::new(units@.len(), |k: int| units@[k]@) =~= seq![placeholder_name()]);
    }
    units
}

/// Whether the search begins a schedule with `first`.
pub fn valid_start(data: &[PollColumn], opts: &SchedulingOptions, first: &str) -> (ok: bool)
    requires
        0 < data@.len(),
        poll_wf(data@),
    ensures
        ok == step_ok(poll_answers(data@), opts.ignore_empty_slots, seq![first@], 0),
{
    let first_day = &data[0];
    let ghost polls = poll_answers(data@);
    let ghost s = seq![first@];
    assert(polls[0] == first_day.answers());
    proof {
        assert forall|j: int| usable(polls, s, 0, j) == (polls[0][j].1 != Response::No) by {
            lemma_first_slot_usable(polls, s, j);
        }
    }
    let willing = match first_day.get(first) {
        Some(Response::No) => false,
        Some(_) => true,
        None => false,
    };
    if willing {
        let ghost j = choose|j: int|
            0 <= j < polls[0].len() && (#[trigger] polls[0][j]).0 == first@;
        assert(usable(polls, s, 0, j));
        return true;
    }
    proof {
        if exists|j: int|
            0 <= j < polls[0].len() && #[trigger] usable(polls, s, 0, j) && polls[0][j].0 == s[0] {
            let j = choose|j: int|
                0 <= j < polls[0].len() && #[trigger] usable(polls, s, 0, j) && polls[0][j].0
                    == s[0];
            let k = choose|k: int| 0 <= k < polls[0].len() && (#[trigger] polls[0][k]).0 == first@;
            assert(polls[0][j].0 == first@);
            assert(j == k);
        }
    }
    if !opts.ignore_empty_slots || !same_text(first, placeholder()) {
        return false;
    }
    let found = has_willing(first_day);
    proof {
        if found {
            let j = choose|j: int|
                0 <= j < polls[0].len() && (#[trigger] polls[0][j]).1 != Response::No;
            assert(usable(polls, s, 0, j));
        } else {
            lemma_first_slot_usable(polls, s, 0);
        }
    }
    !found
}

/// One unit of work: the search over the schedules that begin with
/// `first`, with a tracker of its own. The result holds the best two of
/// the complete schedules that begin with `first` and that the search
/// reaches; there is none where the search does not begin with `first`.
pub fn compute_schedules_from(data: &[PollColumn], opts: &SchedulingOptions, first: &str) -> (out:
    BestSchedules)
    requires
        0 < data@.len() <= MAX_SLOTS,
        poll_wf(data@),
    ensures
        out.best_of(
            data@,
            completions(poll_answers(data@), opts.ignore_empty_slots, seq![first@]),
        ),
{
    let ghost polls = poll_answers(data@);
    let ghost ph = opts.ignore_empty_slots;
    let ghost p = seq![first@];
    if valid_start(data, opts, first) {
        let mut starting_sched: Schedule = Vec::new();
        starting_sched.push(ScheduleEntry::new(data[0].time.as_str(), first));
        assert(names_of(starting_sched@) =~= p);
        let ghost seen = Set::<Seq<Seq<char>>>::empty();
        let out = compute_all_schedules_(
            data,
            opts,
            starting_sched,
            BestSchedules::NoneFound,
            Ghost(seen),
        );
        assert(seen.union(completions(polls, ph, p)) =~= completions(polls, ph, p));
        out
    } else {
        proof {
            assert forall|s: Seq<Seq<char>>| !completions(polls, ph, p).contains(s) by {
                if completions(polls, ph, p).contains(s) {
                    assert(step_ok(polls, ph, s, 0));
                    assert(s[0] == p[0]);
                    lemma_step_agrees(polls, ph, s, p, 0);
                }
            }
        }
        BestSchedules::NoneFound
    }
}

/// The starting units are different names.
pub proof fn lemma_units_distinct(polls: Seq<Answers>, placeholders: bool)
    requires
        0 < polls.len(),
        distinct_names(polls[0]),
    ensures
        forall|a: int, b: int|
            0 <= a < b < starting_units(polls, placeholders).len() ==> starting_units(
                polls,
                placeholders,
            )[a] != starting_units(polls, placeholders)[b],
{
    lemma_willing_distinct(polls[0], polls[0].len() as int);
}

/// Among respondents of different names, the willing have different names.
pub proof fn lemma_willing_distinct(answers: Answers, k: int)
    requires
        0 <= k <= answers.len(),
        distinct_names(answers),
    ensures
        forall|a: int, b: int|
            0 <= a < b < willing_upto(answers, k).len() ==> willing_upto(answers, k)[a]
                != willing_upto(answers, k)[b],
    decreases k,
{
    if k > 0 {
        lemma_willing_distinct(answers, k - 1);
        let before = willing_upto(answers, k - 1);
        if answers[k - 1].1 != Response::No {
            assert forall|a: int| 0 <= a < before.len() implies before[a] != answers[k - 1].0 by {
                lemma_willing_upto_holds(answers, k - 1, before[a]);
                assert(before.contains(before[a]));
            }
        }
    }
}

/// Find the global cost minimum of all valid schedules
///
/// The search is split by the person of the first slot: one unit of work
/// for each respondent of the first slot who did not answer no, or one for
/// the placeholder where there is none and placeholders are allowed. Each
/// unit fills a tracker of its own, and the trackers are merged from left
/// to right. The result holds the best two of all complete schedules that
/// the search reaches.
pub fn compute_all_schedules(data: &[PollColumn], opts: &SchedulingOptions) -> (out: BestSchedules)
    requires
        0 < data@.len() <= MAX_SLOTS,
        poll_wf(data@),
    ensures
        out.best_of(data@, all_schedules(poll_answers(data@), opts.ignore_empty_slots)),
        out.wf(),
        out is NoneFound <==> forall|s: Seq<Seq<char>>|
            !valid_schedule(poll_answers(data@), opts.ignore_empty_slots, s),
        opts.ignore_empty_slots ==> !(out is NoneFound),
        !opts.ignore_empty_slots && (exists|i: int|
            0 <= i < data@.len() && !somebody_willing(#[trigger] poll_answers(data@)[i]))
            ==> out is NoneFound,
{
    let ghost polls = poll_answers(data@);
    let ghost ph = opts.ignore_empty_slots;
    // Split over the first day: one unit of work for the best solutions
    // starting with each name
    let units = starting_names(data, opts);
    let ghost starts = starting_units(polls, ph);
    let ghost sets = Seq::new(starts.len(), |i: int| completions(polls, ph, seq![starts[i]]));
    let mut results: Vec<BestSchedules> = Vec::new();
    let mut k: usize = 0;
    while k < units.len()
        invariant
            0 < data@.len() <= MAX_SLOTS,
            poll_wf(data@),
            polls == poll_answers(data@),
            ph == opts.ignore_empty_slots,
            starts == Seq::new(units@.len(), |i: int| units@[i]@),
            sets == Seq::new(starts.len(), |i: int| completions(polls, ph, seq![starts[i]])),
            k <= units@.len(),
            results@.len() == k,
            forall|i: int| 0 <= i < k ==> (#[trigger] results@[i]).best_of(data@, sets[i]),
        decreases units@.len() - k,
    {
        assert(starts[k as int] == units@[k as int]@);
        let result = compute_schedules_from(data, opts, units[k].as_str());
        results.push(result);
        k += 1;
    }
    // Combine partial solutions
    let out = merge_all(results);
    proof {
        let all = all_schedules(polls, ph);
        let n = starts.len() as int;
        assert(polls[0] == data@[0].answers());
        lemma_units_distinct(polls, ph);
        assert forall|i: int, j: int| 0 <= i < j < n implies (#[trigger] sets[i]).disjoint(
            #[trigger] sets[j],
        ) by {
            assert forall|s: Seq<Seq<char>>| sets[i].contains(s) implies !sets[j].contains(s) by {
                assert(s[0] == seq![starts[i]][0]);
                if sets[j].contains(s) {
                    assert(s[0] == seq![starts[j]][0]);
                }
            }
        }
        lemma_merged_all_best_of(results@, data@, sets, n);
        assert forall|s: Seq<Seq<char>>| all.contains(s) <==> union_upto(sets, n).contains(s) by {
            lemma_union_upto(sets, n, s);
            if all.contains(s) {
                assert(step_ok(polls, ph, s, 0));
                lemma_units_cover(polls, ph, s);
                let i = choose|i: int| 0 <= i < starts.len() && starts[i] == s[0];
                assert(extends(s, seq![starts[i]]));
                assert(sets[i].contains(s));
            }
            if union_upto(sets, n).contains(s) {
                let i = choose|i: int| 0 <= i < n && (#[trigger] sets[i]).contains(s);
            }
        }
        assert(union_upto(sets, n) =~= all);
        if out is NoneFound {
            assert forall|s: Seq<Seq<char>>| !valid_schedule(polls, ph, s) by {
                assert(!all.contains(s));
            }
        } else {
            assert(exists|s: Seq<Seq<char>>| all.contains(s));
        }
        if ph {
            lemma_placeholders_complete(polls, Seq::empty());
            let s = choose|s: Seq<Seq<char>>|
                valid_schedule(polls, true, s) && extends(s, Seq::empty());
            assert(all.contains(s));
        }
        if !ph {
            assert forall|i: int|
                0 <= i < polls.len() && !somebody_willing(
                    #[trigger] polls[i],
                ) implies out is NoneFound by {
                lemma_unwilling_slot(polls, i);
            }
        }
    }
    out
}

/// Whether a poll is one that the search takes: it has a slot, at most
/// `MAX_SLOTS` of them, and no column holds a name twice.
pub open spec fn searchable(data: Seq<PollColumn>) -> bool {
    0 < data.len() <= MAX_SLOTS && poll_wf(data)
}

/// The best schedules of the poll, or nothing where the poll is not one
/// that the search takes.
pub fn try_compute_all_schedules(data: &[PollColumn], opts: &SchedulingOptions) -> (out: Option<
    BestSchedules,
>)
    ensures
        out is Some <==> searchable(data@),
        out is Some ==> out->Some_0.best_of(
            data@,
            all_schedules(poll_answers(data@), opts.ignore_empty_slots),
        ),
{
    if data.len() == 0 || data.len() > MAX_SLOTS || !is_poll_wf(data) {
        None
    } else {
        Some(compute_all_schedules(data, opts))
    }
}

/// With a slot that everybody answered with a no, and without
/// placeholders, the search reaches no complete schedule.
pub proof fn lemma_unwilling_slot(polls: Seq<Answers>, i: int)
    requires
        0 <= i < polls.len(),
        !somebody_willing(polls[i]),
    ensures
        forall|s: Seq<Seq<char>>| !valid_schedule(polls, false, s),
{
    assert forall|s: Seq<Seq<char>>| !valid_schedule(polls, false, s) by {
        if valid_schedule(polls, false, s) {
            assert(step_ok(polls, false, s, i));
            let j = choose|j: int|
                0 <= j < polls[i].len() && #[trigger] usable(polls, s, i, j) && polls[i][j].0
                    == s[i];
            assert(polls[i][j].1 != Response::No);
        }
    }
}

/// With placeholders allowed, every partial schedule that the search
/// reaches is the beginning of a complete one that it reaches: the search
/// never ends without a schedule.
pub proof fn lemma_placeholders_complete(polls: Seq<Answers>, p: Seq<Seq<char>>)
    requires
        p.len() <= polls.len(),
        valid_upto(polls, true, p, p.len() as int),
    ensures
        exists|s: Seq<Seq<char>>| valid_schedule(polls, true, s) && extends(s, p),
    decreases polls.len() - p.len(),
{
    if p.len() == polls.len() {
        assert(valid_schedule(polls, true, p) && extends(p, p));
    } else {
        let slot = p.len() as int;
        let q = if fillable(polls, p, slot) {
            let j = choose|j: int|
                0 <= j < polls[slot].len() && #[trigger] usable(polls, p, slot, j);
            lemma_push_candidate(polls, true, p, j);
            p.push(polls[slot][j].0)
        } else {
            lemma_push_placeholder(polls, p);
            p.push(placeholder_name())
        };
        lemma_placeholders_complete(polls, q);
        let s = choose|s: Seq<Seq<char>>| valid_schedule(polls, true, s) && extends(s, q);
        assert forall|i: int| 0 <= i < p.len() implies s[i] == p[i] by {
            assert(s[i] == q[i]);
        }
        assert(valid_schedule(polls, true, s) && extends(s, p));
    }
}

/// An assignment of one respondent per slot, none of whom answered that
/// slot with a no and none of whom has as many slots as the bound when
/// the slot is given to them, is a schedule that the search reaches. So
/// where every slot has a willing respondent, a search without
/// placeholders finds a schedule unless the bound stands against every
/// such assignment.
pub proof fn lemma_willing_assignment_reached(polls: Seq<Answers>, s: Seq<Seq<char>>)
    requires
        s.len() == polls.len(),
        forall|i: int| 0 <= i < polls.len() ==> #[trigger] taken(polls, s, i),
    ensures
        valid_schedule(polls, false, s),
        valid_schedule(polls, true, s),
{
    assert forall|i: int| 0 <= i < s.len() implies #[trigger] step_ok(polls, false, s, i) by {
        assert(taken(polls, s, i));
    }
    assert forall|i: int| 0 <= i < s.len() implies #[trigger] step_ok(polls, true, s, i) by {
        assert(taken(polls, s, i));
    }
}

} // verus!
