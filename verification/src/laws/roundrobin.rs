//! What holds of every schedule of the round-robin strategy.

use crate::algo::roundrobin::{
    is_next_available, lemma_first_day, lemma_next_available_unique, lemma_turn_extent,
    next_available, next_index, run, turn_extent,
};
use crate::algo::window_end;
use crate::input::Person;
use crate::laws::{evenly_shared, lemma_covers_after, lemma_total_days_after, unconstrained};
use crate::output::{covers, total_days, Turn};
use vstd::prelude::*;

verus! {

/// Whether each turn has a person of the roster, lasts from one to `length`
/// days, holds no day on which its person is away, and, where it is
/// shorter than it might have been, ends on such a day.
pub open spec fn truncated(roster: Seq<Person>, end: int, length: int, turns: Seq<Turn>) -> bool {
    forall|k: int|
        0 <= k < turns.len() ==> {
            let turn = #[trigger] turns[k];
            &&& 0 <= turn.person < roster.len()
            &&& turn.start < turn.end <= turn.start + length
            &&& !roster[turn.person].ooo_within(turn.start, turn.end)
            &&& turn.end == window_end(turn.start, end, length) || roster[turn.person].is_ooo_on(
                turn.end,
            )
        }
}

proof fn lemma_run(roster: Seq<Person>, end: int, length: int, current: int, cursor: int)
    requires
        length > 0,
    ensures
        run(roster, end, length, current, cursor) matches Ok(turns) ==> covers(turns, current, end)
            && truncated(roster, end, length, turns),
    decreases end - current,
{
    if current < end {
        match next_available(roster, current, cursor) {
            None => {},
            Some(candidate) => {
                lemma_first_day(roster, end, length, current, cursor);
                let limit = window_end(current, end, length);
                let to = turn_extent(roster[candidate], current, limit);
                lemma_turn_extent(roster[candidate], current, limit);
                let first = Turn { person: candidate, start: current, end: to };
                let next = next_index(candidate, roster.len() as int);
                lemma_run(roster, end, length, to, next);
                match run(roster, end, length, to, next) {
                    Err(_) => {},
                    Ok(rest) => {
                        let turns = seq![first] + rest;
                        lemma_covers_after(first, rest, end);
                        assert forall|k: int| 0 <= k < turns.len() implies {
                            let turn = #[trigger] turns[k];
                            &&& 0 <= turn.person < roster.len()
                            &&& turn.start < turn.end <= turn.start + length
                            &&& !roster[turn.person].ooo_within(turn.start, turn.end)
                            &&& turn.end == window_end(turn.start, end, length)
                                || roster[turn.person].is_ooo_on(turn.end)
                        } by {
                            if k > 0 {
                                assert(turns[k] == rest[k - 1]);
                            }
                        }
                    },
                }
            },
        }
    }
}

/// The turns of a schedule cover its days from the first to the last, with
/// no gap and no overlap.
pub proof fn lemma_coverage(roster: Seq<Person>, start: int, end: int, length: int, cursor: int)
    requires
        length > 0,
    ensures
        run(roster, end, length, start, cursor) matches Ok(turns) ==> covers(turns, start, end),
{
    lemma_run(roster, end, length, start, cursor);
}

/// A turn never goes on into a day on which its person is away: it ends
/// on the first such day, if there is one before its full length and the
/// end of the schedule.
pub proof fn lemma_ooo_truncation(
    roster: Seq<Person>,
    start: int,
    end: int,
    length: int,
    cursor: int,
)
    requires
        length > 0,
    ensures
        run(roster, end, length, start, cursor) matches Ok(turns) ==> truncated(
            roster,
            end,
            length,
            turns,
        ),
{
    lemma_run(roster, end, length, start, cursor);
}

/// Where everybody is away on the first day, the run fails on that day.
pub proof fn lemma_nobody_available(
    roster: Seq<Person>,
    start: int,
    end: int,
    length: int,
    cursor: int,
)
    requires
        length > 0,
        start < end,
        forall|i: int| 0 <= i < roster.len() ==> (#[trigger] roster[i]).is_ooo_on(start),
    ensures
        run(roster, end, length, start, cursor) == Err::<Seq<Turn>, int>(start),
{
    assert forall|candidate: int| !is_next_available(roster, start, cursor, candidate) by {
        if 0 <= candidate < roster.len() {
            assert(roster[candidate].is_ooo_on(start));
        }
    }
}

/// How many places after `cursor`, going round `count` places, `place` is.
pub open spec fn places_after(cursor: int, place: int, count: int) -> int {
    if place >= cursor {
        place - cursor
    } else {
        place - cursor + count
    }
}

proof fn lemma_fair_run(
    roster: Seq<Person>,
    end: int,
    length: int,
    current: int,
    cursor: int,
    rounds: int,
    extra: int,
)
    requires
        length > 0,
        unconstrained(roster),
        0 <= cursor < roster.len(),
        rounds >= 0,
        0 <= extra < roster.len(),
        end - current == (rounds * roster.len() + extra) * length,
    ensures
        run(roster, end, length, current, cursor) matches Ok(turns) && forall|a: int|
            0 <= a < roster.len() ==> #[trigger] total_days(turns, a) == (rounds + if places_after(
                cursor,
                a,
                roster.len() as int,
            ) < extra {
                1int
            } else {
                0int
            }) * length,
    decreases end - current,
{
    let count = roster.len() as int;
    let share = length;
    let left = rounds * count + extra;
    assert(left >= 0) by (nonlinear_arith)
        requires
            left == rounds * count + extra,
            rounds >= 0,
            count > 0,
            extra >= 0,
    ;
    if rounds == 0 && extra == 0 {
        assert(left == 0) by (nonlinear_arith)
            requires
                left == rounds * count + extra,
                rounds == 0,
                extra == 0,
        ;
        assert(end - current == 0) by (nonlinear_arith)
            requires
                end - current == left * length,
                left == 0,
        ;
        assert forall|a: int| 0 <= a < count implies total_days(Seq::<Turn>::empty(), a) == (
        rounds + 0) * share by {
            assert((rounds + 0) * share == 0) by (nonlinear_arith)
                requires
                    rounds == 0,
            ;
        }
    } else {
        let (rounds_after, extra_after) = if extra >= 1 {
            (rounds, extra - 1)
        } else {
            (rounds - 1, count - 1)
        };
        assert(left - 1 == rounds_after * count + extra_after) by (nonlinear_arith)
            requires
                left == rounds * count + extra,
                (rounds_after == rounds && extra_after == extra - 1) || (rounds_after == rounds - 1
                    && extra_after == count - 1 && extra == 0),
        ;
        assert(end - current >= length && end - (current + length) == (left - 1) * length)
            by (nonlinear_arith)
            requires
                end - current == left * length,
                left >= 1,
                length > 0,
        ;
        let limit = window_end(current, end, length);
        assert(limit == current + length);
        assert(is_next_available(roster, current, cursor, cursor));
        lemma_next_available_unique(roster, current, cursor, cursor);
        lemma_turn_extent(roster[cursor], current, limit);
        let to = turn_extent(roster[cursor], current, limit);
        assert(to == limit);
        let first = Turn { person: cursor, start: current, end: to };
        let next = next_index(cursor, count);
        lemma_fair_run(roster, end, length, to, next, rounds_after, extra_after);
        let rest = run(roster, end, length, to, next)->Ok_0;
        let turns = seq![first] + rest;
        assert(to - current == share);
        assert forall|a: int| 0 <= a < count implies #[trigger] total_days(turns, a) == (rounds
            + if places_after(cursor, a, count) < extra {
            1int
        } else {
            0int
        }) * share by {
            lemma_total_days_after(first, rest, a);
            let before = if places_after(cursor, a, count) < extra {
                1int
            } else {
                0int
            };
            let after = if places_after(next, a, count) < extra_after {
                1int
            } else {
                0int
            };
            let own = if a == cursor {
                1int
            } else {
                0int
            };
            assert(total_days(rest, a) == (rounds_after + after) * share);
            assert(rounds_after + after + own == rounds + before);
            assert((rounds_after + after) * share + own * share == (rounds + before) * share)
                by (nonlinear_arith)
                requires
                    rounds_after + after + own == rounds + before,
            ;
        }
    }
}

/// With nobody ever away and a number of days that the turn length
/// divides, no two people differ by more than one turn in what a schedule
/// gives them, wherever the first round starts.
pub proof fn lemma_fairness(roster: Seq<Person>, start: int, end: int, length: int, cursor: int)
    requires
        length > 0,
        start <= end,
        (end - start) % length == 0,
        unconstrained(roster),
        0 <= cursor < roster.len(),
    ensures
        run(roster, end, length, start, cursor) matches Ok(turns) && evenly_shared(
            turns,
            roster.len() as int,
            length,
        ),
{
    let count = roster.len() as int;
    let share = length;
    let left = (end - start) / length;
    let rounds = left / count;
    let extra = left % count;
    assert(end - start == left * length && left >= 0) by (nonlinear_arith)
        requires
            left == (end - start) / length,
            (end - start) % length == 0,
            length > 0,
            start <= end,
    ;
    assert(left == rounds * count + extra && rounds >= 0 && 0 <= extra < count)
        by (nonlinear_arith)
        requires
            rounds == left / count,
            extra == left % count,
            count > 0,
            left >= 0,
    ;
    lemma_fair_run(roster, end, length, start, cursor, rounds, extra);
    let turns = run(roster, end, length, start, cursor)->Ok_0;
    assert forall|a: int, b: int| 0 <= a < count && 0 <= b < count implies #[trigger] total_days(
        turns,
        a,
    ) - #[trigger] total_days(turns, b) <= share by {
        let more = if places_after(cursor, a, count) < extra {
            1int
        } else {
            0int
        };
        let less = if places_after(cursor, b, count) < extra {
            1int
        } else {
            0int
        };
        assert((rounds + more) * share - (rounds + less) * share <= share) by (nonlinear_arith)
            requires
                more - less <= 1,
                share >= 0,
        ;
    }
}

} // verus!
