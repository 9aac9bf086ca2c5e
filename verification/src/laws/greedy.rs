//! What holds of every schedule of the greedy strategy.

use crate::algo::greedy::{choice, comes_first, eligible, is_choice, run};
use crate::algo::{window_end, window_group};
use crate::calendar::SECONDS_PER_DAY;
use crate::input::Person;
use crate::laws::{
    avoids_ooo, evenly_shared, lemma_covers_after, lemma_total_days_after, lemma_unconstrained,
    no_immediate_repeat, person_before, unconstrained,
};
use crate::output::{covers, total_days, Turn};
use vstd::prelude::*;

verus! {

/// Whether each turn is the best that its window allowed: the group of the
/// window for its person ranks no worse than for anyone who was not away
/// during it and did not have the turn before.
pub open spec fn honours_preferences(roster: Seq<Person>, last: Option<int>, turns: Seq<Turn>) -> bool {
    forall|k: int, other: int|
        0 <= k < turns.len() && #[trigger] eligible(
            roster,
            person_before(last, turns, k),
            turns[k].start,
            turns[k].end,
            other,
        ) ==> window_group(roster[(#[trigger] turns[k]).person], turns[k].start, turns[k].end).rank()
            <= window_group(roster[other], turns[k].start, turns[k].end).rank()
}

proof fn lemma_run(
    roster: Seq<Person>,
    end: int,
    length: int,
    current: int,
    loads: Seq<int>,
    last: Option<int>,
)
    requires
        length > 0,
    ensures
        run(roster, end, length, current, loads, last) matches Ok(turns) ==> {
            &&& covers(turns, current, end)
            &&& no_immediate_repeat(turns)
            &&& turns.len() > 0 ==> Some(turns[0].person) != last
            &&& avoids_ooo(roster, turns)
            &&& honours_preferences(roster, last, turns)
        },
    decreases end - current,
{
    if current < end {
        let to = window_end(current, end, length);
        match choice(roster, loads, last, current, to) {
            None => {},
            Some(i) => {
                assert(is_choice(roster, loads, last, current, to, i));
                let first = Turn { person: i, start: current, end: to };
                let after = loads.update(i, loads[i] + (to - current) * SECONDS_PER_DAY);
                lemma_run(roster, end, length, to, after, Some(i));
                match run(roster, end, length, to, after, Some(i)) {
                    Err(_) => {},
                    Ok(rest) => {
                        let turns = seq![first] + rest;
                        lemma_covers_after(first, rest, end);
                        assert forall|k: int| 0 <= k < turns.len() - 1 implies (
                        #[trigger] turns[k]).person != turns[k + 1].person by {
                            assert(turns[k + 1] == rest[k]);
                            if k > 0 {
                                assert(turns[k] == rest[k - 1]);
                            }
                        }
                        assert forall|k: int| 0 <= k < turns.len() implies 0 <= (
                        #[trigger] turns[k]).person < roster.len() && !roster[turns[k].person].ooo_within(
                            turns[k].start,
                            turns[k].end,
                        ) by {
                            if k > 0 {
                                assert(turns[k] == rest[k - 1]);
                            }
                        }
                        assert forall|k: int, other: int|
                            0 <= k < turns.len() && #[trigger] eligible(
                                roster,
                                person_before(last, turns, k),
                                turns[k].start,
                                turns[k].end,
                                other,
                            ) implies window_group(
                            roster[(#[trigger] turns[k]).person],
                            turns[k].start,
                            turns[k].end,
                        ).rank() <= window_group(
                            roster[other],
                            turns[k].start,
                            turns[k].end,
                        ).rank() by {
                            if k == 0 {
                                assert(comes_first(roster, loads, current, to, i, other));
                            } else {
                                assert(turns[k] == rest[k - 1]);
                                if k > 1 {
                                    assert(turns[k - 1] == rest[k - 2]);
                                }
                                assert(eligible(
                                    roster,
                                    person_before(Some(i), rest, k - 1),
                                    rest[k - 1].start,
                                    rest[k - 1].end,
                                    other,
                                ));
                            }
                        }
                    },
                }
            },
        }
    }
}

/// The turns of a schedule cover its days from the first to the last, with
/// no gap and no overlap.
pub proof fn lemma_coverage(
    roster: Seq<Person>,
    start: int,
    end: int,
    length: int,
    loads: Seq<int>,
)
    requires
        length > 0,
    ensures
        run(roster, end, length, start, loads, None) matches Ok(turns) ==> covers(
            turns,
            start,
            end,
        ),
{
    lemma_run(roster, end, length, start, loads, None);
}

/// No two turns in a row go to the same person.
pub proof fn lemma_no_immediate_repeat(
    roster: Seq<Person>,
    start: int,
    end: int,
    length: int,
    loads: Seq<int>,
)
    requires
        length > 0,
    ensures
        run(roster, end, length, start, loads, None) matches Ok(turns) ==> no_immediate_repeat(
            turns,
        ),
{
    lemma_run(roster, end, length, start, loads, None);
}

/// No turn holds a day on which its person is away.
pub proof fn lemma_ooo_exclusion(
    roster: Seq<Person>,
    start: int,
    end: int,
    length: int,
    loads: Seq<int>,
)
    requires
        length > 0,
    ensures
        run(roster, end, length, start, loads, None) matches Ok(turns) ==> avoids_ooo(
            roster,
            turns,
        ),
{
    lemma_run(roster, end, length, start, loads, None);
}

/// A person for whom a window holds a wanted day is taken before one for
/// whom it holds none, and that one before a person for whom it holds an
/// unwanted day and no wanted one: whoever gets a turn has, among those who
/// could have had it, the best group.
pub proof fn lemma_preference_order(
    roster: Seq<Person>,
    start: int,
    end: int,
    length: int,
    loads: Seq<int>,
)
    requires
        length > 0,
    ensures
        run(roster, end, length, start, loads, None) matches Ok(turns) ==> honours_preferences(
            roster,
            None,
            turns,
        ),
{
    lemma_run(roster, end, length, start, loads, None);
}

/// Where everybody is away on the first day, the run fails on that day.
pub proof fn lemma_nobody_available(
    roster: Seq<Person>,
    start: int,
    end: int,
    length: int,
    loads: Seq<int>,
)
    requires
        length > 0,
        start < end,
        forall|i: int| 0 <= i < roster.len() ==> (#[trigger] roster[i]).is_ooo_on(start),
    ensures
        run(roster, end, length, start, loads, None) == Err::<Seq<Turn>, int>(start),
{
    let to = window_end(start, end, length);
    assert forall|i: int| !is_choice(roster, loads, None, start, to, i) by {
        if 0 <= i < roster.len() {
            assert(roster[i].is_ooo_on(start));
            assert(roster[i].ooo_within(start, to));
        }
    }
}

proof fn lemma_fair_run(
    roster: Seq<Person>,
    end: int,
    length: int,
    current: int,
    loads: Seq<int>,
    last: Option<int>,
    remaining: int,
    low: int,
    lowest: int,
)
    requires
        length > 0,
        remaining >= 0,
        end - current == remaining * length,
        unconstrained(roster),
        loads.len() == roster.len(),
        0 <= lowest < roster.len(),
        loads[lowest] == low,
        forall|i: int|
            0 <= i < roster.len() ==> #[trigger] loads[i] == low || loads[i] == low + length
                * SECONDS_PER_DAY,
        last matches Some(l) ==> 0 <= l < roster.len() && (loads[l] == low ==> forall|i: int|
            0 <= i < roster.len() ==> #[trigger] loads[i] == low),
    ensures
        run(roster, end, length, current, loads, last) matches Ok(turns) ==> forall|a: int, b: int|
            0 <= a < roster.len() && 0 <= b < roster.len() ==> loads[a] + #[trigger] total_days(
                turns,
                a,
            ) * SECONDS_PER_DAY - (loads[b] + #[trigger] total_days(turns, b) * SECONDS_PER_DAY)
                <= length * SECONDS_PER_DAY,
    decreases end - current,
{
    let share = length * SECONDS_PER_DAY;
    if remaining == 0 {
        assert(end - current == 0) by (nonlinear_arith)
            requires
                end - current == remaining * length,
                remaining == 0,
        ;
        assert forall|a: int| total_days(Seq::<Turn>::empty(), a) == 0 by {}
    } else {
        assert(end - current >= length && end - (current + length) == (remaining - 1) * length)
            by (nonlinear_arith)
            requires
                end - current == remaining * length,
                remaining >= 1,
                length > 0,
        ;
        let to = window_end(current, end, length);
        assert(to == current + length);
        match choice(roster, loads, last, current, to) {
            None => {},
            Some(i) => {
                assert(is_choice(roster, loads, last, current, to, i));
                assert forall|j: int| 0 <= j < roster.len() implies window_group(
                    #[trigger] roster[j],
                    current,
                    to,
                ).rank() == 1 && !roster[j].ooo_within(current, to) by {
                    lemma_unconstrained(roster, j, current, to);
                }
                assert(loads[i] == low) by {
                    if last == Some(lowest) {
                        assert(loads[i] == low);
                    } else {
                        assert(eligible(roster, last, current, to, lowest));
                        assert(comes_first(roster, loads, current, to, i, lowest));
                    }
                }
                let first = Turn { person: i, start: current, end: to };
                let after = loads.update(i, loads[i] + (to - current) * SECONDS_PER_DAY);
                assert((to - current) * SECONDS_PER_DAY == share);
                assert(share > 0) by (nonlinear_arith)
                    requires
                        share == length * 86_400,
                        length > 0,
                ;
                if exists|j: int| 0 <= j < roster.len() && j != i && loads[j] == low {
                    let j = choose|j: int| 0 <= j < roster.len() && j != i && loads[j] == low;
                    lemma_fair_run(roster, end, length, to, after, Some(i), remaining - 1, low, j);
                } else {
                    assert forall|k: int| 0 <= k < roster.len() implies #[trigger] after[k] == low
                        + share by {
                        if k != i {
                            assert(loads[k] == low || loads[k] == low + share);
                        }
                    }
                    lemma_fair_run(
                        roster,
                        end,
                        length,
                        to,
                        after,
                        Some(i),
                        remaining - 1,
                        low + share,
                        i,
                    );
                }
                match run(roster, end, length, to, after, Some(i)) {
                    Err(_) => {},
                    Ok(rest) => {
                        let turns = seq![first] + rest;
                        assert forall|a: int, b: int|
                            0 <= a < roster.len() && 0 <= b < roster.len() implies loads[a]
                            + #[trigger] total_days(turns, a) * SECONDS_PER_DAY - (loads[b]
                            + #[trigger] total_days(turns, b) * SECONDS_PER_DAY) <= share by {
                            lemma_total_days_after(first, rest, a);
                            lemma_total_days_after(first, rest, b);
                            assert(after[a] + total_days(rest, a) * SECONDS_PER_DAY - (after[b]
                                + total_days(rest, b) * SECONDS_PER_DAY) <= share);
                        }
                    },
                }
            },
        }
    }
}

/// With nobody ever away and no preferences, equal loads to start from and
/// a number of days that the turn length divides, no two people differ by
/// more than one turn in what a schedule gives them.
pub proof fn lemma_fairness(
    roster: Seq<Person>,
    start: int,
    end: int,
    length: int,
    loads: Seq<int>,
)
    requires
        length > 0,
        start <= end,
        (end - start) % length == 0,
        unconstrained(roster),
        loads.len() == roster.len(),
        forall|i: int, j: int|
            0 <= i < roster.len() && 0 <= j < roster.len() ==> loads[i] == loads[j],
    ensures
        run(roster, end, length, start, loads, None) matches Ok(turns) ==> evenly_shared(
            turns,
            roster.len() as int,
            length,
        ),
{
    if roster.len() > 0 {
        let remaining = (end - start) / length;
        assert(end - start == remaining * length && remaining >= 0) by (nonlinear_arith)
            requires
                remaining == (end - start) / length,
                (end - start) % length == 0,
                length > 0,
                start <= end,
        ;
        lemma_fair_run(roster, end, length, start, loads, None, remaining, loads[0], 0);
    }
}

} // verus!
