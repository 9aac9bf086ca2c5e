//! Round-robin strategy: the roster in a fixed cycle, skipping whoever is
//! away, each turn cut short where its person becomes unavailable.

use crate::algo::{lemma_prepend_none, lemma_prepend_push, prepend, turn_end, window_end};
use crate::calendar::CalendarDate;
use crate::input::Person;
use crate::load::LoadTable;
use crate::laws::roundrobin::{lemma_coverage, lemma_ooo_truncation};
use crate::laws::lemma_turns_wf;
use crate::output::{covers, turns_of, Assignment, Schedule, ScheduleError, Turn};
use vstd::prelude::*;

verus! {

/// The place after `i` in a cycle of `count` places.
pub open spec fn next_index(i: int, count: int) -> int {
    if i + 1 < count {
        i + 1
    } else {
        0
    }
}

/// Whether the person at `candidate` is the first, going round the roster
/// from `cursor`, who is not away on `day`.
pub open spec fn is_next_available(roster: Seq<Person>, day: int, cursor: int, candidate: int) -> bool {
    &&& 0 <= candidate < roster.len()
    &&& !roster[candidate].is_ooo_on(day)
    &&& if cursor <= candidate {
        forall|k: int| cursor <= k < candidate ==> (#[trigger] roster[k]).is_ooo_on(day)
    } else {
        &&& forall|k: int| cursor <= k < roster.len() ==> (#[trigger] roster[k]).is_ooo_on(day)
        &&& forall|k: int| 0 <= k < candidate ==> (#[trigger] roster[k]).is_ooo_on(day)
    }
}

/// The first person, going round the roster from `cursor`, who is not away
/// on `day`; none where everybody is.
pub open spec fn next_available(roster: Seq<Person>, day: int, cursor: int) -> Option<int> {
    if exists|candidate: int| is_next_available(roster, day, cursor, candidate) {
        Some(choose|candidate: int| is_next_available(roster, day, cursor, candidate))
    } else {
        None
    }
}

/// Going round from a place of the roster, at most one person is the first
/// who is not away.
pub proof fn lemma_next_available_unique(roster: Seq<Person>, day: int, cursor: int, candidate: int)
    requires
        0 <= cursor < roster.len(),
        is_next_available(roster, day, cursor, candidate),
    ensures
        next_available(roster, day, cursor) == Some(candidate),
{
    let other = choose|c: int| is_next_available(roster, day, cursor, c);
    assert(is_next_available(roster, day, cursor, other));
    if other < candidate {
        assert(!roster[other].is_ooo_on(day));
    } else if candidate < other {
        assert(!roster[candidate].is_ooo_on(day));
    }
}

/// The first person, going round `people` from `cursor`, who is not away on
/// `day`.
pub fn find_available(people: &Vec<Person>, day: CalendarDate, cursor: usize) -> (r: Option<usize>)
    requires
        cursor < people@.len(),
    ensures
        r matches Some(c) ==> c < people@.len(),
        r matches Some(c) ==> next_available(people@, day@, cursor as int) == Some(c as int),
        r is None ==> next_available(people@, day@, cursor as int) is None,
        r is None ==> forall|k: int| 0 <= k < people@.len() ==> (#[trigger] people@[k]).is_ooo_on(day@),
{
    let count = people.len();
    let mut candidate = cursor;
    while people[candidate].is_ooo(day)
        invariant
            count == people@.len(),
            cursor < people@.len(),
            candidate < people@.len(),
            if cursor <= candidate {
                forall|k: int| cursor <= k < candidate ==> (#[trigger] people@[k]).is_ooo_on(day@)
            } else {
                &&& forall|k: int|
                    cursor <= k < people@.len() ==> (#[trigger] people@[k]).is_ooo_on(day@)
                &&& forall|k: int| 0 <= k < candidate ==> (#[trigger] people@[k]).is_ooo_on(day@)
            },
        decreases
                if cursor <= candidate {
                    people@.len() + cursor - candidate
                } else {
                    cursor - candidate
                },
    {
        candidate = if candidate + 1 < count {
            candidate + 1
        } else {
            0
        };
        if candidate == cursor {
            proof {
                assert forall|c: int| !is_next_available(people@, day@, cursor as int, c) by {
                    if 0 <= c < people@.len() {
                        assert(people@[c].is_ooo_on(day@));
                    }
                }
            }
            return None;
        }
    }
    proof {
        lemma_next_available_unique(people@, day@, cursor as int, candidate as int);
    }
    Some(candidate)
}

/// Whether `i` is the first place of the roster whose person has the id
/// `id`.
pub open spec fn is_position(roster: Seq<Person>, id: Seq<char>, i: int) -> bool {
    &&& 0 <= i < roster.len()
    &&& roster[i].id@ == id
    &&& forall|j: int| 0 <= j < i ==> (#[trigger] roster[j]).id@ != id
}

/// The first place of `people` whose person has the id `id`.
pub fn position(people: &Vec<Person>, id: &String) -> (r: Option<usize>)
    ensures
        r matches Some(i) ==> is_position(people@, id@, i as int),
        r is None ==> forall|i: int| !is_position(people@, id@, i),
        forall|i: int| is_position(people@, id@, i) ==> r == Some(i as usize),
{
    let mut i: usize = 0;
    while i < people.len()
        invariant
            i <= people@.len(),
            forall|j: int| 0 <= j < i ==> (#[trigger] people@[j]).id@ != id@,
        decreases people@.len() - i,
    {
        if people[i].id == *id {
            proof {
                assert forall|other: int| is_position(people@, id@, other) implies other == i by {
                    if other < i {
                        assert(people@[other].id@ != id@);
                    } else if i < other {
                        assert(people@[i as int].id@ != id@);
                    }
                }
            }
            return Some(i);
        }
        i += 1;
    }
    proof {
        assert forall|other: int| !is_position(people@, id@, other) by {
            if 0 <= other < people@.len() {
                assert(people@[other].id@ != id@);
            }
        }
    }
    None
}

/// The place from which a run goes round the roster first: the one after
/// the person whose id has the largest load in `seed` (the last such entry,
/// where several have it), and the first place without a seed, with an empty
/// one, or where that id is not in the roster.
pub open spec fn starting_cursor(roster: Seq<Person>, seed: Option<LoadTable>) -> int {
    match seed {
        Some(table) => if exists|k: int| table.is_heaviest(k) {
            let id = table.entries@[choose|k: int| table.is_heaviest(k)].id@;
            if exists|i: int| is_position(roster, id, i) {
                next_index(choose|i: int| is_position(roster, id, i), roster.len() as int)
            } else {
                0
            }
        } else {
            0
        },
        None => 0,
    }
}

/// The place from which a run goes round `people` first.
pub fn first_cursor(people: &Vec<Person>, initial_load: &Option<LoadTable>) -> (r: usize)
    requires
        people@.len() > 0,
    ensures
        r < people@.len(),
        r == starting_cursor(people@, *initial_load),
{
    let count = people.len();
    match initial_load {
        Some(table) => match table.heaviest() {
            Some(k) => {
                let ghost id = table.entries@[k as int].id@;
                proof {
                    let found = choose|j: int| table.is_heaviest(j);
                    assert(table.is_heaviest(found));
                    assert(found == k);
                }
                match position(people, &table.entries[k].id) {
                    Some(pos) => {
                        proof {
                            let found = choose|i: int| is_position(people@, id, i);
                            assert(is_position(people@, id, found));
                            assert(found == pos);
                        }
                        if pos + 1 < count {
                            pos + 1
                        } else {
                            0
                        }
                    },
                    None => 0,
                }
            },
            None => {
                assert forall|k: int| !table.is_heaviest(k) by {}
                0
            },
        },
        None => 0,
    }
}

/// The day on which a turn of `person` from `from` ends when it may last to
/// `limit`: the first day from `from` on which the person is away, and
/// `limit` where there is none before it.
pub open spec fn turn_extent(person: Person, from: int, limit: int) -> int
    decreases limit - from,
{
    if from >= limit || person.is_ooo_on(from) {
        from
    } else {
        turn_extent(person, from + 1, limit)
    }
}

/// A turn ends between its first day and its limit, on the limit or on a
/// day on which its person is away, and holds no such day.
pub proof fn lemma_turn_extent(person: Person, from: int, limit: int)
    requires
        from <= limit,
    ensures
        from <= turn_extent(person, from, limit) <= limit,
        turn_extent(person, from, limit) == limit || person.is_ooo_on(
            turn_extent(person, from, limit),
        ),
        !person.ooo_within(from, turn_extent(person, from, limit)),
    decreases limit - from,
{
    if from >= limit || person.is_ooo_on(from) {
    } else {
        lemma_turn_extent(person, from + 1, limit);
        let to = turn_extent(person, from + 1, limit);
        if person.ooo_within(from, to) {
            let day = choose|day: int| from <= day < to && #[trigger] person.is_ooo_on(day);
            assert(from + 1 <= day < to);
            assert(person.ooo_within(from + 1, to));
        }
    }
}

/// The day on which a turn of `person` from `from` ends when it may last to
/// `limit`.
pub fn extend_turn(person: &Person, from: CalendarDate, limit: CalendarDate) -> (r: CalendarDate)
    requires
        from.wf(),
        limit.wf(),
    ensures
        r.wf(),
        r@ == turn_extent(*person, from@, limit@),
{
    let mut current_day = from;
    while current_day.is_before(&limit) && !person.is_ooo(current_day)
        invariant
            from.wf(),
            limit.wf(),
            current_day.wf(),
            turn_extent(*person, from@, limit@) == turn_extent(*person, current_day@, limit@),
        decreases limit@ - current_day@,
    {
        match current_day.succ_opt() {
            Some(next) => {
                current_day = next;
            },
            None => {
                proof {
                    assert(false);
                }
            },
        }
    }
    current_day
}

/// The outcome of a run from `current` on, going round the roster from
/// `cursor`: the turns up to `end`, or the day on which everybody is away.
/// After a turn the run goes on from the place after the person who had it.
pub open spec fn run(
    roster: Seq<Person>,
    end: int,
    length: int,
    current: int,
    cursor: int,
) -> Result<Seq<Turn>, int>
    decreases end - current,
    via run_decreases
{
    if current >= end || length <= 0 {
        Ok(Seq::empty())
    } else {
        match next_available(roster, current, cursor) {
            None => Err(current),
            Some(candidate) => {
                let to = turn_extent(roster[candidate], current, window_end(current, end, length));
                prepend(
                    seq![Turn { person: candidate, start: current, end: to }],
                    run(roster, end, length, to, next_index(candidate, roster.len() as int)),
                )
            },
        }
    }
}

#[via_fn]
proof fn run_decreases(roster: Seq<Person>, end: int, length: int, current: int, cursor: int) {
    if current < end && length > 0 {
        match next_available(roster, current, cursor) {
            None => {},
            Some(candidate) => {
                lemma_first_day(roster, end, length, current, cursor);
            },
        }
    }
}

/// A turn of the person found for `current` lasts past that day and not
/// past the end of the schedule.
pub proof fn lemma_first_day(roster: Seq<Person>, end: int, length: int, current: int, cursor: int)
    requires
        current < end,
        length > 0,
        next_available(roster, current, cursor) is Some,
    ensures
        ({
            let candidate = next_available(roster, current, cursor)->Some_0;
            let limit = window_end(current, end, length);
            &&& is_next_available(roster, current, cursor, candidate)
            &&& current < turn_extent(roster[candidate], current, limit) <= limit <= end
        }),
{
    let candidate = next_available(roster, current, cursor)->Some_0;
    let limit = window_end(current, end, length);
    assert(is_next_available(roster, current, cursor, candidate));
    lemma_turn_extent(roster[candidate], current + 1, limit);
}

/// Covers `[start, end)` with turns of up to `turn_length_days` days. Each
/// turn goes to the first person, going round the roster, who is not away
/// on its first day, and ends early on the first day on which that person
/// is away, or at `end`. The first round starts at `starting_cursor`. Fails
/// on the first day of a turn on which everybody is away.
pub fn schedule(
    people: Vec<Person>,
    start: CalendarDate,
    end: CalendarDate,
    turn_length_days: u8,
    initial_load: Option<LoadTable>,
) -> (r: Result<Schedule, ScheduleError>)
    requires
        start.wf(),
        end.wf(),
        turn_length_days > 0,
        people@.len() > 0,
    ensures
        match r {
            Ok(done) => done.people == people && done.wf() && covers(
                turns_of(done.turns@),
                start@,
                end@,
            ) && run(
                people@,
                end@,
                turn_length_days as int,
                start@,
                starting_cursor(people@, initial_load),
            ) == Ok::<Seq<Turn>, int>(turns_of(done.turns@)),
            Err(ScheduleError::NoOneAvailable(day)) => run(
                people@,
                end@,
                turn_length_days as int,
                start@,
                starting_cursor(people@, initial_load),
            ) == Err::<Seq<Turn>, int>(day@),
        },
{
    let mut turns: Vec<Assignment> = Vec::new();
    let mut current_day = start;
    let mut assignee: usize = first_cursor(&people, &initial_load);
    let count = people.len();
    let ghost roster = people@;
    let ghost length = turn_length_days as int;
    let ghost whole = run(roster, end@, length, start@, assignee as int);
    proof {
        lemma_prepend_none(whole);
        assert(turns_of(turns@) =~= Seq::<Turn>::empty());
    }
    while current_day.is_before(&end)
        invariant
            start.wf(),
            end.wf(),
            current_day.wf(),
            turn_length_days > 0,
            roster == people@,
            count == roster.len(),
            assignee < count,
            length == turn_length_days as int,
            forall|k: int|
                0 <= k < turns@.len() ==> (#[trigger] turns@[k]).start.wf() && turns@[k].end.wf(),
            whole == run(roster, end@, length, start@, starting_cursor(roster, initial_load)),
            whole == prepend(
                turns_of(turns@),
                run(roster, end@, length, current_day@, assignee as int),
            ),
        decreases end@ - current_day@,
    {
        let candidate = match find_available(&people, current_day, assignee) {
            Some(found) => found,
            None => {
                return Err(ScheduleError::NoOneAvailable(current_day));
            },
        };
        proof {
            lemma_first_day(roster, end@, length, current_day@, assignee as int);
        }
        let start_day = current_day;
        let last_day = turn_end(current_day, end, turn_length_days);
        current_day = extend_turn(&people[candidate], current_day, last_day);
        let ghost done = turns_of(turns@);
        let ghost turn = Turn { person: candidate as int, start: start_day@, end: current_day@ };
        turns.push(Assignment { person: candidate, start: start_day, end: current_day });
        assignee = if candidate + 1 < count {
            candidate + 1
        } else {
            0
        };
        proof {
            assert(turns_of(turns@) =~= done.push(turn));
            lemma_prepend_push(done, turn, run(roster, end@, length, current_day@, assignee as int));
        }
    }
    proof {
        assert(turns_of(turns@) + Seq::<Turn>::empty() =~= turns_of(turns@));
        let cursor = starting_cursor(roster, initial_load);
        lemma_coverage(roster, start@, end@, length, cursor);
        lemma_ooo_truncation(roster, start@, end@, length, cursor);
    }
    let done = Schedule { people, turns };
    proof {
        lemma_turns_wf(done, start@, end@);
    }
    Ok(done)
}

} // verus!
