//! Balanced strategy: turns of a length within a range, each chosen, with
//! its person, to keep the loads of the roster close to one another.

use crate::algo::{
    classify_window, initial_loads, is_ooo_for_turn, lemma_prepend_none, lemma_prepend_push,
    loads_of, prepend, spec_index, starting_loads, turn_end, window_end, window_group,
};
use crate::calendar::{CalendarDate, SECONDS_PER_DAY};
use crate::input::Person;
use crate::load::{LoadTable, LOAD_LIMIT};
use crate::laws::balanced::{lemma_coverage, lemma_ooo_exclusion};
use crate::laws::lemma_turns_wf;
use crate::output::{covers, turns_of, Assignment, Schedule, ScheduleError, Turn};
use vstd::prelude::*;

verus! {

/// Largest roster that the balanced strategy takes: with it, and with loads
/// up to `VARIANCE_LOAD_LIMIT`, the scaled variance fits in 128 bits.
pub const ROSTER_LIMIT: usize = 0x4_0000;

/// Largest load, in seconds and in either direction, whose variance is
/// computed: twice what a load table holds, which leaves room for the
/// longest schedule that the calendar allows.
pub const VARIANCE_LOAD_LIMIT: i64 = 0x2000_0000_0000;

/// The sum of `loads`.
pub open spec fn sum(loads: Seq<int>) -> int
    decreases loads.len(),
{
    if loads.len() == 0 {
        0
    } else {
        sum(loads.drop_last()) + loads.last()
    }
}

/// The sum of the squares of `loads`.
pub open spec fn sum_of_squares(loads: Seq<int>) -> int
    decreases loads.len(),
{
    if loads.len() == 0 {
        0
    } else {
        sum_of_squares(loads.drop_last()) + loads.last() * loads.last()
    }
}

/// The population variance of `loads` (the mean squared deviation from the
/// mean), times the square of their number. Tables of one length compare by
/// it as they do by their variance, and it is a whole number.
pub open spec fn scaled_variance(loads: Seq<int>) -> int {
    loads.len() * sum_of_squares(loads) - sum(loads) * sum(loads)
}

proof fn lemma_square_bound(x: int, bound: int)
    requires
        -bound <= x <= bound,
    ensures
        0 <= x * x <= bound * bound,
{
    assert(0 <= x * x <= bound * bound) by (nonlinear_arith)
        requires
            -bound <= x <= bound,
    ;
}

/// The variance of `load`, scaled to a whole number: see `scaled_variance`.
pub fn calculate_load_variance(load: &Vec<i64>) -> (r: i128)
    requires
        load@.len() <= ROSTER_LIMIT,
        forall|i: int|
            0 <= i < load@.len() ==> -VARIANCE_LOAD_LIMIT <= #[trigger] load@[i]
                <= VARIANCE_LOAD_LIMIT,
    ensures
        r == scaled_variance(loads_of(load@)),
{
    let ghost loads = loads_of(load@);
    let mut total: i128 = 0;
    let mut squares: i128 = 0;
    let mut i: usize = 0;
    while i < load.len()
        invariant
            i <= load@.len(),
            load@.len() <= ROSTER_LIMIT,
            loads == loads_of(load@),
            forall|k: int|
                0 <= k < load@.len() ==> -VARIANCE_LOAD_LIMIT <= #[trigger] load@[k]
                    <= VARIANCE_LOAD_LIMIT,
            total == sum(loads.take(i as int)),
            squares == sum_of_squares(loads.take(i as int)),
            -i * VARIANCE_LOAD_LIMIT <= total <= i * VARIANCE_LOAD_LIMIT,
            0 <= squares <= i * (VARIANCE_LOAD_LIMIT * VARIANCE_LOAD_LIMIT),
        decreases load@.len() - i,
    {
        let x: i128 = load[i] as i128;
        proof {
            lemma_square_bound(x as int, VARIANCE_LOAD_LIMIT as int);
            assert(loads.take(i + 1).drop_last() =~= loads.take(i as int));
            assert(loads.take(i + 1).last() == x);
            assert((i + 1) * VARIANCE_LOAD_LIMIT == i * VARIANCE_LOAD_LIMIT + VARIANCE_LOAD_LIMIT)
                by (nonlinear_arith);
            assert((i + 1) * (VARIANCE_LOAD_LIMIT * VARIANCE_LOAD_LIMIT) == i * (
            VARIANCE_LOAD_LIMIT * VARIANCE_LOAD_LIMIT) + VARIANCE_LOAD_LIMIT * VARIANCE_LOAD_LIMIT)
                by (nonlinear_arith);
            assert(i * VARIANCE_LOAD_LIMIT <= 0x4_0000 * 0x2000_0000_0000) by (nonlinear_arith)
                requires
                    i <= 0x4_0000,
                    VARIANCE_LOAD_LIMIT == 0x2000_0000_0000,
            ;
            assert(i * (VARIANCE_LOAD_LIMIT * VARIANCE_LOAD_LIMIT) <= 0x4_0000 * (0x2000_0000_0000
                * 0x2000_0000_0000)) by (nonlinear_arith)
                requires
                    i <= 0x4_0000,
                    VARIANCE_LOAD_LIMIT == 0x2000_0000_0000,
            ;
        }
        total = total + x;
        squares = squares + x * x;
        i += 1;
    }
    let count: i128 = load.len() as i128;
    proof {
        assert(loads.take(load@.len() as int) =~= loads);
        let n = load@.len() as int;
        let limit = VARIANCE_LOAD_LIMIT as int;
        assert(n * squares <= 0x4_0000 * (0x4_0000 * (0x2000_0000_0000 * 0x2000_0000_0000)))
            by (nonlinear_arith)
            requires
                0 <= n <= 0x4_0000,
                0 <= squares <= n * (limit * limit),
                limit == 0x2000_0000_0000,
        ;
        assert(0 <= n * squares) by (nonlinear_arith)
            requires
                0 <= n,
                0 <= squares,
        ;
        assert(n * limit <= 0x8000_0000_0000_0000) by (nonlinear_arith)
            requires
                0 <= n <= 0x4_0000,
                limit == 0x2000_0000_0000,
        ;
        assert(0 <= total * total <= 0x4000_0000_0000_0000_0000_0000_0000_0000)
            by (nonlinear_arith)
            requires
                -0x8000_0000_0000_0000 <= total <= 0x8000_0000_0000_0000,
        ;
    }
    count * squares - total * total
}

/// Whether the person at `i` may take a turn of `length` days from
/// `current`: anyone but the one who had the turn before, with a length
/// from `min` to `max`, and only if not away on any day of the turn.
pub open spec fn valid_pair(
    roster: Seq<Person>,
    last: Option<int>,
    current: int,
    end: int,
    min: int,
    max: int,
    i: int,
    length: int,
) -> bool {
    &&& 0 <= i < roster.len()
    &&& last != Some(i)
    &&& min <= length <= max
    &&& !roster[i].ooo_within(current, window_end(current, end, length))
}

/// The rank of the preference group of a turn of `length` days from
/// `current` for the person at `i`.
pub open spec fn pair_rank(roster: Seq<Person>, current: int, end: int, i: int, length: int) -> int {
    window_group(roster[i], current, window_end(current, end, length)).rank()
}

/// The scaled variance of the loads once the person at `i` has taken a turn
/// of `length` days from `current`.
pub open spec fn pair_variance(loads: Seq<int>, current: int, end: int, i: int, length: int) -> int {
    scaled_variance(
        loads.update(i, loads[i] + (window_end(current, end, length) - current) * SECONDS_PER_DAY),
    )
}

/// Whether the turn of `length` days for the person at `i` is taken before
/// the one of `other` days for the person at `j`: by the better preference
/// group, then by the smaller variance of the loads that result, then by
/// the earlier person, then by the shorter length.
pub open spec fn pair_first(
    roster: Seq<Person>,
    loads: Seq<int>,
    current: int,
    end: int,
    i: int,
    length: int,
    j: int,
    other: int,
) -> bool {
    let rank_i = pair_rank(roster, current, end, i, length);
    let rank_j = pair_rank(roster, current, end, j, other);
    let variance_i = pair_variance(loads, current, end, i, length);
    let variance_j = pair_variance(loads, current, end, j, other);
    rank_i < rank_j || (rank_i == rank_j && (variance_i < variance_j || (variance_i == variance_j
        && (i < j || (i == j && length <= other)))))
}

/// Whether the turn of `length` days for the person at `i` is the one to
/// take from `current`.
pub open spec fn is_choice(
    roster: Seq<Person>,
    loads: Seq<int>,
    last: Option<int>,
    current: int,
    end: int,
    min: int,
    max: int,
    i: int,
    length: int,
) -> bool {
    &&& valid_pair(roster, last, current, end, min, max, i, length)
    &&& forall|j: int, other: int| #[trigger]
        valid_pair(roster, last, current, end, min, max, j, other) ==> pair_first(
            roster,
            loads,
            current,
            end,
            i,
            length,
            j,
            other,
        )
}

/// The person and the length of the turn to take from `current`, if there
/// is a turn that someone may take.
pub open spec fn choice(
    roster: Seq<Person>,
    loads: Seq<int>,
    last: Option<int>,
    current: int,
    end: int,
    min: int,
    max: int,
) -> Option<(int, int)> {
    if exists|pair: (int, int)|
        is_choice(roster, loads, last, current, end, min, max, pair.0, pair.1) {
        Some(
            choose|pair: (int, int)|
                is_choice(roster, loads, last, current, end, min, max, pair.0, pair.1),
        )
    } else {
        None
    }
}

/// At most one turn is the one to take.
pub proof fn lemma_choice_unique(
    roster: Seq<Person>,
    loads: Seq<int>,
    last: Option<int>,
    current: int,
    end: int,
    min: int,
    max: int,
    i: int,
    length: int,
)
    requires
        is_choice(roster, loads, last, current, end, min, max, i, length),
    ensures
        choice(roster, loads, last, current, end, min, max) == Some((i, length)),
{
    let mine = (i, length);
    assert(is_choice(roster, loads, last, current, end, min, max, mine.0, mine.1));
    let found = choose|pair: (int, int)|
        is_choice(roster, loads, last, current, end, min, max, pair.0, pair.1);
    assert(pair_first(roster, loads, current, end, i, length, found.0, found.1));
    assert(pair_first(roster, loads, current, end, found.0, found.1, i, length));
}

/// The person and the length of the turn to take from `current_day`, with
/// the day on which it ends, if there is a turn that someone may take.
pub fn pick(
    people: &Vec<Person>,
    load: &Vec<i64>,
    last_assignee: Option<usize>,
    current_day: CalendarDate,
    end: CalendarDate,
    min_turn_days: u8,
    max_turn_days: u8,
) -> (r: Option<(usize, u8, CalendarDate)>)
    requires
        current_day.wf(),
        end.wf(),
        current_day@ < end@,
        load@.len() == people@.len(),
        people@.len() <= ROSTER_LIMIT,
        forall|k: int|
            0 <= k < load@.len() ==> -LOAD_LIMIT <= #[trigger] load@[k] && load@[k] + (end@
                - current_day@) * SECONDS_PER_DAY <= VARIANCE_LOAD_LIMIT,
    ensures
        match r {
            Some((i, length, turn_end_date)) => {
                &&& i < people@.len()
                &&& turn_end_date.wf()
                &&& turn_end_date@ == window_end(current_day@, end@, length as int)
                &&& choice(
                    people@,
                    loads_of(load@),
                    spec_index(last_assignee),
                    current_day@,
                    end@,
                    min_turn_days as int,
                    max_turn_days as int,
                ) == Some((i as int, length as int))
            },
            None => choice(
                people@,
                loads_of(load@),
                spec_index(last_assignee),
                current_day@,
                end@,
                min_turn_days as int,
                max_turn_days as int,
            ) is None,
        },
{
    let ghost roster = people@;
    let ghost loads = loads_of(load@);
    let ghost last = spec_index(last_assignee);
    let ghost from = current_day@;
    let ghost to = end@;
    let ghost min = min_turn_days as int;
    let ghost max = max_turn_days as int;
    let mut best: Option<(usize, u8, CalendarDate)> = None;
    let mut best_rank: u8 = 0;
    let mut best_variance: i128 = 0;
    let mut i: usize = 0;
    while i < people.len()
        invariant
            i <= people@.len(),
            current_day.wf(),
            end.wf(),
            current_day@ < end@,
            load@.len() == people@.len(),
            people@.len() <= ROSTER_LIMIT,
            forall|k: int|
                0 <= k < load@.len() ==> -LOAD_LIMIT <= #[trigger] load@[k] && load@[k] + (end@
                    - current_day@) * SECONDS_PER_DAY <= VARIANCE_LOAD_LIMIT,
            roster == people@,
            loads == loads_of(load@),
            last == spec_index(last_assignee),
            from == current_day@,
            to == end@,
            min == min_turn_days as int,
            max == max_turn_days as int,
            best is None ==> forall|j: int, other: int|
                j < i ==> !#[trigger] valid_pair(roster, last, from, to, min, max, j, other),
            best matches Some((b, length, date)) ==> {
                &&& b < i
                &&& date.wf()
                &&& date@ == window_end(from, to, length as int)
                &&& valid_pair(roster, last, from, to, min, max, b as int, length as int)
                &&& best_rank == pair_rank(roster, from, to, b as int, length as int)
                &&& best_variance == pair_variance(loads, from, to, b as int, length as int)
                &&& forall|j: int, other: int|
                    j < i && #[trigger] valid_pair(roster, last, from, to, min, max, j, other)
                        ==> pair_first(roster, loads, from, to, b as int, length as int, j, other)
            },
        decreases people@.len() - i,
    {
        let skip = match last_assignee {
            Some(previous) => previous == i,
            None => false,
        };
        if !skip {
            let mut turn_len: u16 = min_turn_days as u16;
            while turn_len <= max_turn_days as u16
                invariant
                    i < people@.len(),
                    current_day.wf(),
                    end.wf(),
                    current_day@ < end@,
                    load@.len() == people@.len(),
                    people@.len() <= ROSTER_LIMIT,
                    forall|k: int|
                        0 <= k < load@.len() ==> -LOAD_LIMIT <= #[trigger] load@[k] && load@[k] + (
                        end@ - current_day@) * SECONDS_PER_DAY <= VARIANCE_LOAD_LIMIT,
                    roster == people@,
                    loads == loads_of(load@),
                    last == spec_index(last_assignee),
                    from == current_day@,
                    to == end@,
                    min == min_turn_days as int,
                    max == max_turn_days as int,
                    last != Some(i as int),
                    min <= turn_len,
                    turn_len <= max + 1 || max < min,
                    best is None ==> forall|j: int, other: int|
                        (j < i || (j == i && other < turn_len)) ==> !#[trigger] valid_pair(
                            roster,
                            last,
                            from,
                            to,
                            min,
                            max,
                            j,
                            other,
                        ),
                    best matches Some((b, length, date)) ==> {
                        &&& (b < i || (b == i && length < turn_len))
                        &&& date.wf()
                        &&& date@ == window_end(from, to, length as int)
                        &&& valid_pair(roster, last, from, to, min, max, b as int, length as int)
                        &&& best_rank == pair_rank(roster, from, to, b as int, length as int)
                        &&& best_variance == pair_variance(
                            loads,
                            from,
                            to,
                            b as int,
                            length as int,
                        )
                        &&& forall|j: int, other: int|
                            (j < i || (j == i && other < turn_len)) && #[trigger] valid_pair(
                                roster,
                                last,
                                from,
                                to,
                                min,
                                max,
                                j,
                                other,
                            ) ==> pair_first(
                                roster,
                                loads,
                                from,
                                to,
                                b as int,
                                length as int,
                                j,
                                other,
                            )
                    },
                decreases max_turn_days + 1 - turn_len,
            {
                let length = turn_len as u8;
                let turn_end_date = turn_end(current_day, end, length);
                if !is_ooo_for_turn(&people[i], current_day, turn_end_date) {
                    let rank = classify_window(&people[i], current_day, turn_end_date).ordinal();
                    let seconds = turn_end_date.seconds_since(&current_day);
                    let mut next_load = load.clone();
                    assert(next_load@ =~= load@);
                    next_load.set(i, next_load[i] + seconds);
                    proof {
                        assert((turn_end_date@ - current_day@) * SECONDS_PER_DAY <= (end@
                            - current_day@) * SECONDS_PER_DAY);
                        assert(loads_of(next_load@) =~= loads.update(
                            i as int,
                            loads[i as int] + (turn_end_date@ - from) * SECONDS_PER_DAY,
                        ));
                    }
                    let variance = calculate_load_variance(&next_load);
                    let better = match best {
                        Some(_) => rank < best_rank || (rank == best_rank && variance
                            < best_variance),
                        None => true,
                    };
                    if better {
                        best = Some((i, length, turn_end_date));
                        best_rank = rank;
                        best_variance = variance;
                    }
                }
                turn_len += 1;
            }
        }
        i += 1;
    }
    proof {
        match best {
            Some((b, length, _)) => {
                assert(is_choice(roster, loads, last, from, to, min, max, b as int, length as int));
                lemma_choice_unique(roster, loads, last, from, to, min, max, b as int, length as int);
            },
            None => {
                assert forall|pair: (int, int)|
                    !is_choice(roster, loads, last, from, to, min, max, pair.0, pair.1) by {
                    if valid_pair(roster, last, from, to, min, max, pair.0, pair.1) {
                        assert(pair.0 < i);
                    }
                }
            },
        }
    }
    best
}

/// The outcome of a run from `current` on, with the loads `loads` and
/// `last` the person of the turn before: the turns up to `end`, or the day
/// from which there is no turn that anyone may take.
pub open spec fn run(
    roster: Seq<Person>,
    end: int,
    min: int,
    max: int,
    current: int,
    loads: Seq<int>,
    last: Option<int>,
) -> Result<Seq<Turn>, int>
    decreases end - current,
{
    if current >= end || min <= 0 {
        Ok(Seq::empty())
    } else {
        match choice(roster, loads, last, current, end, min, max) {
            None => Err(current),
            Some((i, length)) => {
                let to = window_end(current, end, length);
                prepend(
                    seq![Turn { person: i, start: current, end: to }],
                    run(
                        roster,
                        end,
                        min,
                        max,
                        to,
                        loads.update(i, loads[i] + (to - current) * SECONDS_PER_DAY),
                        Some(i),
                    ),
                )
            },
        }
    }
}

/// Covers `[start, end)` with turns of `min_turn_days` to `max_turn_days`
/// days, the last one cut at `end`. Each turn, with its person and its
/// length, is the one that `is_choice`, given the loads so far, which start
/// from `initial_load`. Fails on the day from which there is no turn that
/// anyone may take.
pub fn schedule(
    people: Vec<Person>,
    start: CalendarDate,
    end: CalendarDate,
    min_turn_days: u8,
    max_turn_days: u8,
    initial_load: Option<LoadTable>,
) -> (r: Result<Schedule, ScheduleError>)
    requires
        start.wf(),
        end.wf(),
        min_turn_days > 0,
        people@.len() <= ROSTER_LIMIT,
        initial_load matches Some(table) ==> table.wf(),
    ensures
        match r {
            Ok(done) => done.people == people && done.wf() && covers(
                turns_of(done.turns@),
                start@,
                end@,
            ) && run(
                people@,
                end@,
                min_turn_days as int,
                max_turn_days as int,
                start@,
                initial_loads(people@, initial_load),
                None,
            ) == Ok::<Seq<Turn>, int>(turns_of(done.turns@)),
            Err(ScheduleError::NoOneAvailable(day)) => run(
                people@,
                end@,
                min_turn_days as int,
                max_turn_days as int,
                start@,
                initial_loads(people@, initial_load),
                None,
            ) == Err::<Seq<Turn>, int>(day@),
        },
{
    let mut turns: Vec<Assignment> = Vec::new();
    let mut current_day = start;
    let mut load = starting_loads(&people, &initial_load);
    let mut last_assignee: Option<usize> = None;
    let ghost roster = people@;
    let ghost min = min_turn_days as int;
    let ghost max = max_turn_days as int;
    let ghost whole = run(roster, end@, min, max, start@, initial_loads(roster, initial_load), None);
    proof {
        lemma_prepend_none(whole);
        assert(turns_of(turns@) =~= Seq::<Turn>::empty());
    }
    while current_day.is_before(&end)
        invariant
            start.wf(),
            end.wf(),
            current_day.wf(),
            start@ <= current_day@,
            min_turn_days > 0,
            roster == people@,
            roster.len() <= ROSTER_LIMIT,
            min == min_turn_days as int,
            max == max_turn_days as int,
            load@.len() == roster.len(),
            forall|k: int|
                0 <= k < turns@.len() ==> (#[trigger] turns@[k]).start.wf() && turns@[k].end.wf(),
            whole == run(roster, end@, min, max, start@, initial_loads(roster, initial_load), None),
            forall|i: int|
                0 <= i < load@.len() ==> -LOAD_LIMIT <= #[trigger] load@[i] <= LOAD_LIMIT + (
                current_day@ - start@) * SECONDS_PER_DAY,
            whole == prepend(
                turns_of(turns@),
                run(
                    roster,
                    end@,
                    min,
                    max,
                    current_day@,
                    loads_of(load@),
                    spec_index(last_assignee),
                ),
            ),
        decreases end@ - current_day@,
    {
        match pick(
            &people,
            &load,
            last_assignee,
            current_day,
            end,
            min_turn_days,
            max_turn_days,
        ) {
            None => {
                return Err(ScheduleError::NoOneAvailable(current_day));
            },
            Some((assignee, length, turn_end)) => {
                let seconds = turn_end.seconds_since(&current_day);
                let ghost before = load@;
                let ghost done = turns_of(turns@);
                let ghost turn = Turn {
                    person: assignee as int,
                    start: current_day@,
                    end: turn_end@,
                };
                load.set(assignee, load[assignee] + seconds);
                turns.push(Assignment { person: assignee, start: current_day, end: turn_end });
                proof {
                    assert(loads_of(load@) =~= loads_of(before).update(
                        assignee as int,
                        loads_of(before)[assignee as int] + (turn_end@ - current_day@)
                            * SECONDS_PER_DAY,
                    ));
                    assert(turns_of(turns@) =~= done.push(turn));
                    lemma_prepend_push(
                        done,
                        turn,
                        run(
                            roster,
                            end@,
                            min,
                            max,
                            turn_end@,
                            loads_of(load@),
                            Some(assignee as int),
                        ),
                    );
                }
                current_day = turn_end;
                last_assignee = Some(assignee);
            },
        }
    }
    proof {
        assert(turns_of(turns@) + Seq::<Turn>::empty() =~= turns_of(turns@));
        let loads = initial_loads(roster, initial_load);
        lemma_coverage(roster, start@, end@, min, max, loads);
        lemma_ooo_exclusion(roster, start@, end@, min, max, loads);
    }
    let done = Schedule { people, turns };
    proof {
        lemma_turns_wf(done, start@, end@);
    }
    Ok(done)
}

} // verus!
