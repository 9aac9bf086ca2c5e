//! Greedy strategy: turns of a fixed length, each given to the least loaded
//! person of the best preference group.

use crate::algo::{
    classify_window, initial_loads, is_ooo_for_turn, lemma_prepend_none, lemma_prepend_push,
    loads_of, prepend, spec_index, starting_loads, turn_end, window_end, window_group,
};
use crate::calendar::{CalendarDate, SECONDS_PER_DAY};
use crate::input::Person;
use crate::load::{LoadTable, LOAD_LIMIT};
use crate::laws::greedy::{lemma_coverage, lemma_ooo_exclusion};
use crate::laws::lemma_turns_wf;
use crate::output::{covers, turns_of, Assignment, Schedule, ScheduleError, Turn};
use vstd::prelude::*;

verus! {

/// Whether the person at `i` may take the window `[from, to)`: anyone but
/// the one who had the turn before, and only if not away on any day of it.
pub open spec fn eligible(roster: Seq<Person>, last: Option<int>, from: int, to: int, i: int) -> bool {
    &&& 0 <= i < roster.len()
    &&& last != Some(i)
    &&& !roster[i].ooo_within(from, to)
}

/// Whether the person at `i` is taken before the one at `j` for the window
/// `[from, to)`: by the better preference group, then by the lower load,
/// then by the earlier place in the roster.
pub open spec fn comes_first(
    roster: Seq<Person>,
    loads: Seq<int>,
    from: int,
    to: int,
    i: int,
    j: int,
) -> bool {
    let rank_i = window_group(roster[i], from, to).rank();
    let rank_j = window_group(roster[j], from, to).rank();
    rank_i < rank_j || (rank_i == rank_j && (loads[i] < loads[j] || (loads[i] == loads[j] && i
        <= j)))
}

/// Whether the person at `i` is the one to take the window `[from, to)`.
pub open spec fn is_choice(
    roster: Seq<Person>,
    loads: Seq<int>,
    last: Option<int>,
    from: int,
    to: int,
    i: int,
) -> bool {
    &&& eligible(roster, last, from, to, i)
    &&& forall|j: int| #[trigger]
        eligible(roster, last, from, to, j) ==> comes_first(roster, loads, from, to, i, j)
}

/// The person to take the window `[from, to)`, if anyone may.
pub open spec fn choice(
    roster: Seq<Person>,
    loads: Seq<int>,
    last: Option<int>,
    from: int,
    to: int,
) -> Option<int> {
    if exists|i: int| is_choice(roster, loads, last, from, to, i) {
        Some(choose|i: int| is_choice(roster, loads, last, from, to, i))
    } else {
        None
    }
}

/// At most one person is the one to take a window.
pub proof fn lemma_choice_unique(
    roster: Seq<Person>,
    loads: Seq<int>,
    last: Option<int>,
    from: int,
    to: int,
    i: int,
)
    requires
        is_choice(roster, loads, last, from, to, i),
    ensures
        choice(roster, loads, last, from, to) == Some(i),
{
    let other = choose|k: int| is_choice(roster, loads, last, from, to, k);
    assert(comes_first(roster, loads, from, to, i, other));
    assert(comes_first(roster, loads, from, to, other, i));
}

/// The person to take the window `[current_day, turn_end_date)`, if anyone
/// may.
pub fn pick(
    people: &Vec<Person>,
    load: &Vec<i64>,
    last_assignee: Option<usize>,
    current_day: CalendarDate,
    turn_end_date: CalendarDate,
) -> (r: Option<usize>)
    requires
        current_day.wf(),
        turn_end_date.wf(),
        load@.len() == people@.len(),
    ensures
        r matches Some(i) ==> i < people@.len(),
        spec_index(r) == choice(
            people@,
            loads_of(load@),
            spec_index(last_assignee),
            current_day@,
            turn_end_date@,
        ),
{
    let ghost roster = people@;
    let ghost loads = loads_of(load@);
    let ghost last = spec_index(last_assignee);
    let ghost from = current_day@;
    let ghost to = turn_end_date@;
    let mut best: Option<usize> = None;
    let mut best_rank: u8 = 0;
    let mut best_load: i64 = 0;
    let mut i: usize = 0;
    while i < people.len()
        invariant
            i <= people@.len(),
            current_day.wf(),
            turn_end_date.wf(),
            load@.len() == people@.len(),
            roster == people@,
            loads == loads_of(load@),
            last == spec_index(last_assignee),
            from == current_day@,
            to == turn_end_date@,
            best is None ==> forall|j: int| 0 <= j < i ==> !#[trigger] eligible(roster, last, from, to, j),
            best matches Some(b) ==> {
                &&& b < i
                &&& eligible(roster, last, from, to, b as int)
                &&& best_rank == window_group(roster[b as int], from, to).rank()
                &&& best_load == loads[b as int]
                &&& forall|j: int|
                    0 <= j < i && #[trigger] eligible(roster, last, from, to, j) ==> comes_first(
                        roster,
                        loads,
                        from,
                        to,
                        b as int,
                        j,
                    )
            },
        decreases people@.len() - i,
    {
        let skip = match last_assignee {
            Some(previous) => previous == i,
            None => false,
        };
        if !skip && !is_ooo_for_turn(&people[i], current_day, turn_end_date) {
            let rank = classify_window(&people[i], current_day, turn_end_date).ordinal();
            let better = match best {
                Some(_) => rank < best_rank || (rank == best_rank && load[i] < best_load),
                None => true,
            };
            if better {
                best = Some(i);
                best_rank = rank;
                best_load = load[i];
            }
        }
        i += 1;
    }
    proof {
        match best {
            Some(b) => {
                assert(is_choice(roster, loads, last, from, to, b as int));
                lemma_choice_unique(roster, loads, last, from, to, b as int);
            },
            None => {
                assert forall|k: int| !is_choice(roster, loads, last, from, to, k) by {
                    if eligible(roster, last, from, to, k) {
                        assert(0 <= k < i);
                    }
                }
            },
        }
    }
    best
}

/// The outcome of a run from `current` on, with the loads `loads` and
/// `last` the person of the turn before: the turns up to `end`, or the day
/// on which nobody may take the next one.
pub open spec fn run(
    roster: Seq<Person>,
    end: int,
    length: int,
    current: int,
    loads: Seq<int>,
    last: Option<int>,
) -> Result<Seq<Turn>, int>
    decreases end - current,
{
    if current >= end || length <= 0 {
        Ok(Seq::empty())
    } else {
        let to = window_end(current, end, length);
        match choice(roster, loads, last, current, to) {
            None => Err(current),
            Some(i) => prepend(
                seq![Turn { person: i, start: current, end: to }],
                run(
                    roster,
                    end,
                    length,
                    to,
                    loads.update(i, loads[i] + (to - current) * SECONDS_PER_DAY),
                    Some(i),
                ),
            ),
        }
    }
}

/// Covers `[start, end)` with turns of `turn_length_days` days, the last one
/// cut at `end`. Each turn goes to the person who `is_choice` for it, given
/// the loads so far, which start from `initial_load`. Fails on the first
/// day of a turn that nobody may take.
pub fn schedule(
    people: Vec<Person>,
    start: CalendarDate,
    end: CalendarDate,
    turn_length_days: u8,
    _preference_weight: Option<u8>,
    initial_load: Option<LoadTable>,
) -> (r: Result<Schedule, ScheduleError>)
    requires
        start.wf(),
        end.wf(),
        turn_length_days > 0,
        initial_load matches Some(table) ==> table.wf(),
    ensures
        match r {
            Ok(done) => done.people == people && done.wf() && covers(
                turns_of(done.turns@),
                start@,
                end@,
            ) && run(
                people@,
                end@,
                turn_length_days as int,
                start@,
                initial_loads(people@, initial_load),
                None,
            ) == Ok::<Seq<Turn>, int>(turns_of(done.turns@)),
            Err(ScheduleError::NoOneAvailable(day)) => run(
                people@,
                end@,
                turn_length_days as int,
                start@,
                initial_loads(people@, initial_load),
                None,
            ) == Err::<Seq<Turn>, int>(day@),
        },
{
    let mut turns: Vec<Assignment> = Vec::new();
    let mut current_day = start;
    let mut load = starting_loads(&people, &initial_load);
    let mut last_assignee: Option<usize> = None;
    let ghost roster = people@;
    let ghost length = turn_length_days as int;
    let ghost whole = run(roster, end@, length, start@, initial_loads(roster, initial_load), None);
    proof {
        lemma_prepend_none(whole);
        assert(turns_of(turns@) =~= Seq::<Turn>::empty());
    }
    while current_day.is_before(&end)
        invariant
            start.wf(),
            end.wf(),
            current_day.wf(),
            start@ <= current_day@,
            turn_length_days > 0,
            roster == people@,
            length == turn_length_days as int,
            load@.len() == roster.len(),
            forall|k: int|
                0 <= k < turns@.len() ==> (#[trigger] turns@[k]).start.wf() && turns@[k].end.wf(),
            whole == run(
                roster,
                end@,
                length,
                start@,
                initial_loads(roster, initial_load),
                None,
            ),
            forall|i: int|
                0 <= i < load@.len() ==> -LOAD_LIMIT <= #[trigger] load@[i] <= LOAD_LIMIT + (
                current_day@ - start@) * SECONDS_PER_DAY,
            whole == prepend(
                turns_of(turns@),
                run(roster, end@, length, current_day@, loads_of(load@), spec_index(last_assignee)),
            ),
        decreases end@ - current_day@,
    {
        let turn_end_date = turn_end(current_day, end, turn_length_days);
        match pick(&people, &load, last_assignee, current_day, turn_end_date) {
            None => {
                return Err(ScheduleError::NoOneAvailable(current_day));
            },
            Some(assignee) => {
                let seconds = turn_end_date.seconds_since(&current_day);
                let ghost before = load@;
                let ghost done = turns_of(turns@);
                let ghost turn = Turn {
                    person: assignee as int,
                    start: current_day@,
                    end: turn_end_date@,
                };
                load.set(assignee, load[assignee] + seconds);
                turns.push(
                    Assignment { person: assignee, start: current_day, end: turn_end_date },
                );
                proof {
                    assert(loads_of(load@) =~= loads_of(before).update(
                        assignee as int,
                        loads_of(before)[assignee as int] + (turn_end_date@ - current_day@)
                            * SECONDS_PER_DAY,
                    ));
                    assert(turns_of(turns@) =~= done.push(turn));
                    lemma_prepend_push(
                        done,
                        turn,
                        run(
                            roster,
                            end@,
                            length,
                            turn_end_date@,
                            loads_of(load@),
                            Some(assignee as int),
                        ),
                    );
                }
                last_assignee = Some(assignee);
                current_day = turn_end_date;
            },
        }
    }
    proof {
        assert(turns_of(turns@) + Seq::<Turn>::empty() =~= turns_of(turns@));
        let loads = initial_loads(roster, initial_load);
        lemma_coverage(roster, start@, end@, length, loads);
        lemma_ooo_exclusion(roster, start@, end@, length, loads);
    }
    let done = Schedule { people, turns };
    proof {
        lemma_turns_wf(done, start@, end@);
    }
    Ok(done)
}

} // verus!
