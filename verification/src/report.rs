//! An evaluated schedule as lines of text: one per entry, and one per
//! person with the number of their slots, the persons in order.

use crate::cost::EvaluatedSchedule;
use crate::data::{same_text, Name};
use crate::framadate::decimal;
use crate::schedule::ScheduleEntry;
use vstd::prelude::*;
use vstd::seq_lib::{to_multiset_build, to_multiset_insert};
use vstd::string::StringExecFns;

verus! {

/// Whether `a` comes before `b` in the order of texts: by their first
/// characters where these differ, else by what follows them; a text comes
/// behind each of its beginnings.
pub open spec fn text_lt(a: Seq<char>, b: Seq<char>) -> bool
    decreases a.len(),
{
    if b.len() == 0 {
        false
    } else if a.len() == 0 {
        true
    } else if a[0] != b[0] {
        (a[0] as int) < (b[0] as int)
    } else {
        text_lt(a.skip(1), b.skip(1))
    }
}

/// The order of two string slices, as std's `<` on `str` decides it: by
/// their bytes, which puts them in the order of their characters.
#[verifier::external_body]
fn text_before(a: &str, b: &str) -> (before: bool)
    ensures
        before == text_lt(a@, b@),
{
    a < b
}

/// Whether one person with a count comes before another: by their names,
/// and of equal names by the counts.
pub open spec fn item_lt(a: (Seq<char>, nat), b: (Seq<char>, nat)) -> bool {
    text_lt(a.0, b.0) || (a.0 == b.0 && a.1 < b.1)
}

/// Whether no item comes before an earlier one.
pub open spec fn in_order(items: Seq<(Seq<char>, nat)>) -> bool {
    forall|i: int, j: int|
        0 <= i < j < items.len() ==> !item_lt(#[trigger] items[j], #[trigger] items[i])
}

/// Persons with counts as plain values.
pub open spec fn items_of(counts: Seq<(Name, usize)>) -> Seq<(Seq<char>, nat)> {
    Seq::new(counts.len(), |i: int| (counts[i].0@, counts[i].1 as nat))
}

/// The order of texts is transitive.
pub proof fn lemma_text_lt_transitive(a: Seq<char>, b: Seq<char>, c: Seq<char>)
    requires
        text_lt(a, b),
        text_lt(b, c),
    ensures
        text_lt(a, c),
    decreases a.len(),
{
    if a.len() > 0 && a[0] == b[0] && b[0] == c[0] {
        lemma_text_lt_transitive(a.skip(1), b.skip(1), c.skip(1));
    }
}

/// No text comes before itself.
pub proof fn lemma_text_lt_irreflexive(a: Seq<char>)
    ensures
        !text_lt(a, a),
    decreases a.len(),
{
    if a.len() > 0 {
        lemma_text_lt_irreflexive(a.skip(1));
    }
}

/// The order of persons with counts is transitive.
pub proof fn lemma_item_lt_transitive(
    a: (Seq<char>, nat),
    b: (Seq<char>, nat),
    c: (Seq<char>, nat),
)
    requires
        item_lt(a, b),
        item_lt(b, c),
    ensures
        item_lt(a, c),
{
    if text_lt(a.0, b.0) && text_lt(b.0, c.0) {
        lemma_text_lt_transitive(a.0, b.0, c.0);
    }
}

/// Whether one person with a count comes before another.
fn comes_before(a: &(Name, usize), b: &(Name, usize)) -> (before: bool)
    ensures
        before == item_lt((a.0@, a.1 as nat), (b.0@, b.1 as nat)),
{
    text_before(a.0.as_str(), b.0.as_str()) || (same_text(a.0.as_str(), b.0.as_str()) && a.1
        < b.1)
}

/// The persons with their counts in order: by name, and of equal names by
/// count.
pub fn sorted_counts(counts: &Vec<(Name, usize)>) -> (sorted: Vec<(Name, usize)>)
    ensures
        in_order(items_of(sorted@)),
        items_of(sorted@).to_multiset() == items_of(counts@).to_multiset(),
{
    let ghost all = items_of(counts@);
    let mut sorted: Vec<(Name, usize)> = Vec::new();
    let mut i: usize = 0;
    assert(items_of(sorted@) =~= all.take(0));
    while i < counts.len()
        invariant
            i <= counts@.len(),
            all == items_of(counts@),
            in_order(items_of(sorted@)),
            items_of(sorted@).to_multiset() == all.take(i as int).to_multiset(),
        decreases counts@.len() - i,
    {
        let item = &counts[i];
        let ghost x = (item.0@, item.1 as nat);
        let ghost before = items_of(sorted@);
        let mut pos: usize = 0;
        let mut found = false;
        while pos < sorted.len() && !found
            invariant
                pos <= sorted@.len(),
                before == items_of(sorted@),
                x == (item.0@, item.1 as nat),
                forall|k: int| 0 <= k < pos ==> !item_lt(x, #[trigger] before[k]),
                found ==> pos < sorted@.len() && item_lt(x, before[pos as int]),
            decreases sorted@.len() - pos + if found { 0int } else { 1int },
        {
            assert(before[pos as int] == (sorted@[pos as int].0@, sorted@[pos as int].1 as nat));
            if comes_before(item, &sorted[pos]) {
                found = true;
            } else {
                pos += 1;
            }
        }
        sorted.insert(pos, (item.0.clone(), item.1));
        proof {
            let after = items_of(sorted@);
            assert(after =~= before.insert(pos as int, x));
            to_multiset_insert(before, pos as int, x);
            assert(all.take(i as int + 1) =~= all.take(i as int).push(x));
            to_multiset_build(all.take(i as int), x);
            assert forall|a: int, b: int| 0 <= a < b < after.len() implies !item_lt(
                #[trigger] after[b],
                #[trigger] after[a],
            ) by {
                if b == pos {
                    assert(after[a] == before[a]);
                } else if a == pos {
                    assert(after[b] == before[b - 1]);
                    assert(item_lt(x, before[pos as int]));
                    if b - 1 > pos {
                        assert(!item_lt(before[b - 1], before[pos as int]));
                    }
                    if item_lt(before[b - 1], x) {
                        lemma_item_lt_transitive(before[b - 1], x, before[pos as int]);
                        lemma_text_lt_irreflexive(before[pos as int].0);
                    }
                } else {
                    let a0 = if a < pos { a } else { a - 1 };
                    let b0 = if b < pos { b } else { b - 1 };
                    assert(after[a] == before[a0]);
                    assert(after[b] == before[b0]);
                    assert(!item_lt(before[b0], before[a0]));
                }
            }
        }
        i += 1;
    }
    assert(all.take(counts@.len() as int) =~= all);
    sorted
}

/// The line of an entry: the slot, a colon and a tab, the name, and a
/// question mark where the person answered "if need be".
pub open spec fn entry_line_of(entry: ScheduleEntry) -> Seq<char> {
    entry.time@ + ":\t"@ + entry.name@ + if entry.ifneedbe {
        "?"@
    } else {
        ""@
    }
}

/// The line of an entry.
pub fn entry_line(entry: &ScheduleEntry) -> (line: String)
    ensures
        line@ == entry_line_of(*entry),
{
    entry.time.clone().concat(":\t").concat(entry.name.as_str()).concat(
        if entry.ifneedbe {
            "?"
        } else {
            ""
        },
    )
}

/// The line of a person: the name, a colon and a space, and the count.
pub open spec fn count_line_of(item: (Seq<char>, nat)) -> Seq<char> {
    item.0 + seq![':', ' '] + decimal(item.1)
}

/// `format!` of a name and a count, with a colon and a space between them.
#[verifier::external_body]
fn count_line(name: &str, count: usize) -> (line: String)
    ensures
        line@ == count_line_of((name@, count as nat)),
{
    format!("{}: {}", name, count)
}

impl EvaluatedSchedule {
    /// The entries as lines of text, in slot order.
    pub fn entry_lines(&self) -> (lines: Vec<String>)
        ensures
            lines@.len() == self.entries@.len(),
            forall|i: int|
                0 <= i < lines@.len() ==> (#[trigger] lines@[i])@ == entry_line_of(
                    self.entries@[i],
                ),
    {
        let mut lines: Vec<String> = Vec::new();
        let mut i: usize = 0;
        while i < self.entries.len()
            invariant
                i <= self.entries@.len(),
                lines@.len() == i,
                forall|k: int|
                    0 <= k < i ==> (#[trigger] lines@[k])@ == entry_line_of(self.entries@[k]),
            decreases self.entries@.len() - i,
        {
            lines.push(entry_line(&self.entries[i]));
            i += 1;
        }
        lines
    }
}

/// The persons with their counts as lines of text, in the order given.
pub fn count_lines(counts: &Vec<(Name, usize)>) -> (lines: Vec<String>)
    ensures
        lines@.len() == counts@.len(),
        forall|i: int|
            0 <= i < lines@.len() ==> (#[trigger] lines@[i])@ == count_line_of(
                items_of(counts@)[i],
            ),
{
    let mut lines: Vec<String> = Vec::new();
    let mut i: usize = 0;
    while i < counts.len()
        invariant
            i <= counts@.len(),
            lines@.len() == i,
            forall|k: int|
                0 <= k < i ==> (#[trigger] lines@[k])@ == count_line_of(items_of(counts@)[k]),
        decreases counts@.len() - i,
    {
        lines.push(count_line(counts[i].0.as_str(), counts[i].1));
        i += 1;
    }
    lines
}

} // verus!
