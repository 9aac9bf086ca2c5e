//! What holds of every schedule that a strategy produces.

use crate::algo::{window_group, PreferenceGroup};
use crate::input::{Person, PreferenceType};
use crate::output::{covers, total_days, turns_of, Assignment, Schedule, Turn};
use vstd::prelude::*;

pub mod balanced;
pub mod greedy;
pub mod roundrobin;

verus! {

/// Whether no two turns in a row have the same person.
pub open spec fn no_immediate_repeat(turns: Seq<Turn>) -> bool {
    forall|k: int| 0 <= k < turns.len() - 1 ==> (#[trigger] turns[k]).person != turns[k + 1].person
}

/// Whether every turn has a person of the roster who is away on none of
/// its days.
pub open spec fn avoids_ooo(roster: Seq<Person>, turns: Seq<Turn>) -> bool {
    forall|k: int|
        0 <= k < turns.len() ==> 0 <= (#[trigger] turns[k]).person < roster.len()
            && !roster[turns[k].person].ooo_within(turns[k].start, turns[k].end)
}

/// Whether nobody of the roster is ever away or has a preference.
pub open spec fn unconstrained(roster: Seq<Person>) -> bool {
    &&& forall|i: int, day: int|
        0 <= i < roster.len() ==> !(#[trigger] roster[i].is_ooo_on(day))
    &&& forall|i: int, day: int|
        0 <= i < roster.len() ==> (#[trigger] roster[i].preference_on(day)) is None
}

/// To somebody who is never away and has no preference, every window is
/// free and neutral.
pub proof fn lemma_unconstrained(roster: Seq<Person>, i: int, from: int, to: int)
    requires
        unconstrained(roster),
        0 <= i < roster.len(),
    ensures
        !roster[i].ooo_within(from, to),
        window_group(roster[i], from, to) == PreferenceGroup::Neutral,
{
    if roster[i].ooo_within(from, to) {
        let day = choose|day: int| from <= day < to && #[trigger] roster[i].is_ooo_on(day);
        assert(!roster[i].is_ooo_on(day));
    }
    if roster[i].prefers_within(PreferenceType::Want, from, to) {
        let day = choose|day: int|
            from <= day < to && #[trigger] roster[i].preference_on(day) == Some(
                PreferenceType::Want,
            );
        assert(roster[i].preference_on(day) is None);
    }
    if roster[i].prefers_within(PreferenceType::NotWant, from, to) {
        let day = choose|day: int|
            from <= day < to && #[trigger] roster[i].preference_on(day) == Some(
                PreferenceType::NotWant,
            );
        assert(roster[i].preference_on(day) is None);
    }
}

/// Whether no two people of a roster of `count` differ by more than `most`
/// in the days that `turns` give them.
pub open spec fn evenly_shared(turns: Seq<Turn>, count: int, most: int) -> bool {
    forall|a: int, b: int|
        0 <= a < count && 0 <= b < count ==> #[trigger] total_days(turns, a)
            - #[trigger] total_days(turns, b) <= most
}

/// The person of the turn before the one at `k`, where `last` had the turn
/// before the first.
pub open spec fn person_before(last: Option<int>, turns: Seq<Turn>, k: int) -> Option<int> {
    if k == 0 {
        last
    } else {
        Some(turns[k - 1].person)
    }
}

/// A schedule is well formed where its turns are on days that the calendar
/// can represent, cover some days and each have a person of the roster.
pub proof fn lemma_turns_wf(done: Schedule, start: int, end: int)
    requires
        covers(turns_of(done.turns@), start, end),
        forall|k: int|
            0 <= k < done.turns@.len() ==> (#[trigger] done.turns@[k]).start.wf()
                && done.turns@[k].end.wf(),
        forall|k: int|
            0 <= k < done.turns@.len() ==> 0 <= (#[trigger] turns_of(done.turns@)[k]).person
                < done.people@.len(),
    ensures
        done.wf(),
{
    let turns = done.turns@;
    let views = turns_of(turns);
    assert forall|k: int| 0 <= k < turns.len() implies {
        let turn = #[trigger] turns[k];
        &&& turn.person < done.people@.len()
        &&& turn.start.wf()
        &&& turn.end.wf()
        &&& turn.start@ < turn.end@
    } by {
        assert(views[k] == turns[k]@);
    }
    assert forall|k: int| 0 <= k < turns.len() - 1 implies (#[trigger] turns[k]).end@ == turns[k
        + 1].start@ by {
        assert(views[k] == turns[k]@);
        assert(views[k + 1] == turns[k + 1]@);
    }
}

/// Turns that cover `[middle, end)`, after a turn over `[start, middle)`,
/// cover `[start, end)`.
pub proof fn lemma_covers_after(first: Turn, rest: Seq<Turn>, end: int)
    requires
        first.start < first.end <= end,
        covers(rest, first.end, end),
    ensures
        covers(seq![first] + rest, first.start, end),
{
    let turns = seq![first] + rest;
    assert forall|k: int| 0 <= k < turns.len() implies (#[trigger] turns[k]).start
        < turns[k].end by {
        if k > 0 {
            assert(turns[k] == rest[k - 1]);
        }
    }
    assert forall|k: int| 0 <= k < turns.len() - 1 implies (#[trigger] turns[k]).end == turns[k
        + 1].start by {
        assert(turns[k + 1] == rest[k]);
        if k > 0 {
            assert(turns[k] == rest[k - 1]);
        }
    }
    if rest.len() > 0 {
        assert(turns[turns.len() - 1] == rest[rest.len() - 1]);
    }
}

/// The days of a person over some turns are those of the first turn and
/// those of the others.
pub proof fn lemma_total_days_after(first: Turn, rest: Seq<Turn>, person: int)
    ensures
        total_days(seq![first] + rest, person) == total_days(rest, person) + if first.person
            == person {
            first.end - first.start
        } else {
            0
        },
    decreases rest.len(),
{
    let turns = seq![first] + rest;
    if rest.len() == 0 {
        assert(turns.drop_last() =~= Seq::<Turn>::empty());
        assert(turns.last() == first);
        assert(total_days(turns.drop_last(), person) == 0);
        assert(total_days(rest, person) == 0);
    } else {
        assert(turns.drop_last() =~= seq![first] + rest.drop_last());
        assert(turns.last() == rest.last());
        lemma_total_days_after(first, rest.drop_last(), person);
    }
}

} // verus!
