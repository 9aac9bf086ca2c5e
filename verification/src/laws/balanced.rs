//! What holds of every schedule of the balanced strategy.

use crate::algo::balanced::{choice, is_choice, pair_first, pair_rank, run, valid_pair};
use crate::algo::{window_end, window_group};
use crate::calendar::SECONDS_PER_DAY;
use crate::input::Person;
use crate::laws::{avoids_ooo, lemma_covers_after, no_immediate_repeat, person_before};
use crate::output::{covers, Turn};
use vstd::prelude::*;

verus! {

/// Whether each turn is the best that could start on its first day: the
/// group of its window for its person ranks no worse than that of any turn
/// of an allowed length for anyone who is not away during it and did not
/// have the turn before.
pub open spec fn honours_preferences(
    roster: Seq<Person>,
    end: int,
    min: int,
    max: int,
    last: Option<int>,
    turns: Seq<Turn>,
) -> bool {
    forall|k: int, other: int, length: int|
        0 <= k < turns.len() && #[trigger] valid_pair(
            roster,
            person_before(last, turns, k),
            turns[k].start,
            end,
            min,
            max,
            other,
            length,
        ) ==> window_group(roster[(#[trigger] turns[k]).person], turns[k].start, turns[k].end).rank()
            <= pair_rank(roster, turns[k].start, end, other, length)
}

proof fn lemma_run(
    roster: Seq<Person>,
    end: int,
    min: int,
    max: int,
    current: int,
    loads: Seq<int>,
    last: Option<int>,
)
    requires
        min > 0,
    ensures
        run(roster, end, min, max, current, loads, last) matches Ok(turns) ==> {
            &&& covers(turns, current, end)
            &&& no_immediate_repeat(turns)
            &&& turns.len() > 0 ==> Some(turns[0].person) != last
            &&& avoids_ooo(roster, turns)
            &&& honours_preferences(roster, end, min, max, last, turns)
        },
    decreases end - current,
{
    if current < end {
        match choice(roster, loads, last, current, end, min, max) {
            None => {},
            Some((i, length)) => {
                assert(is_choice(roster, loads, last, current, end, min, max, i, length));
                let to = window_end(current, end, length);
                let first = Turn { person: i, start: current, end: to };
                let after = loads.update(i, loads[i] + (to - current) * SECONDS_PER_DAY);
                lemma_run(roster, end, min, max, to, after, Some(i));
                match run(roster, end, min, max, to, after, Some(i)) {
                    Err(_) => {},
                    Ok(rest) => {
                        let turns = seq![first] + rest;
                        lemma_covers_after(first, rest, end);
                        assert forall|k: int| 0 <= k < turns.len() - 1 implies (
                        #[trigger] turns[k]).person != turns[k + 1].person by {
                            assert(turns[k + 1] == rest[k]);
                            if k > 0 {
                                assert(turns[k] == rest[k - 1]);
                            }
                        }
                        assert forall|k: int| 0 <= k < turns.len() implies 0 <= (
                        #[trigger] turns[k]).person < roster.len() && !roster[turns[k].person].ooo_within(
                            turns[k].start,
                            turns[k].end,
                        ) by {
                            if k > 0 {
                                assert(turns[k] == rest[k - 1]);
                            }
                        }
                        assert forall|k: int, other: int, span: int|
                            0 <= k < turns.len() && #[trigger] valid_pair(
                                roster,
                                person_before(last, turns, k),
                                turns[k].start,
                                end,
                                min,
                                max,
                                other,
                                span,
                            ) implies window_group(
                            roster[(#[trigger] turns[k]).person],
                            turns[k].start,
                            turns[k].end,
                        ).rank() <= pair_rank(roster, turns[k].start, end, other, span) by {
                            if k == 0 {
                                assert(pair_first(
                                    roster,
                                    loads,
                                    current,
                                    end,
                                    i,
                                    length,
                                    other,
                                    span,
                                ));
                            } else {
                                assert(turns[k] == rest[k - 1]);
                                if k > 1 {
                                    assert(turns[k - 1] == rest[k - 2]);
                                }
                                assert(valid_pair(
                                    roster,
                                    person_before(Some(i), rest, k - 1),
                                    rest[k - 1].start,
                                    end,
                                    min,
                                    max,
                                    other,
                                    span,
                                ));
                            }
                        }
                    },
                }
            },
        }
    }
}

/// The turns of a schedule cover its days from the first to the last, with
/// no gap and no overlap.
pub proof fn lemma_coverage(
    roster: Seq<Person>,
    start: int,
    end: int,
    min: int,
    max: int,
    loads: Seq<int>,
)
    requires
        min > 0,
    ensures
        run(roster, end, min, max, start, loads, None) matches Ok(turns) ==> covers(
            turns,
            start,
            end,
        ),
{
    lemma_run(roster, end, min, max, start, loads, None);
}

/// No two turns in a row go to the same person.
pub proof fn lemma_no_immediate_repeat(
    roster: Seq<Person>,
    start: int,
    end: int,
    min: int,
    max: int,
    loads: Seq<int>,
)
    requires
        min > 0,
    ensures
        run(roster, end, min, max, start, loads, None) matches Ok(turns) ==> no_immediate_repeat(
            turns,
        ),
{
    lemma_run(roster, end, min, max, start, loads, None);
}

/// No turn holds a day on which its person is away.
pub proof fn lemma_ooo_exclusion(
    roster: Seq<Person>,
    start: int,
    end: int,
    min: int,
    max: int,
    loads: Seq<int>,
)
    requires
        min > 0,
    ensures
        run(roster, end, min, max, start, loads, None) matches Ok(turns) ==> avoids_ooo(
            roster,
            turns,
        ),
{
    lemma_run(roster, end, min, max, start, loads, None);
}

/// A turn with a wanted day for its person is taken before one with none,
/// and that one before a turn with an unwanted day and no wanted one:
/// the turn that is taken has, among those that could have been, the best
/// group.
pub proof fn lemma_preference_order(
    roster: Seq<Person>,
    start: int,
    end: int,
    min: int,
    max: int,
    loads: Seq<int>,
)
    requires
        min > 0,
    ensures
        run(roster, end, min, max, start, loads, None) matches Ok(turns) ==> honours_preferences(
            roster,
            end,
            min,
            max,
            None,
            turns,
        ),
{
    lemma_run(roster, end, min, max, start, loads, None);
}

/// Where everybody is away on the first day, the run fails on that day.
pub proof fn lemma_nobody_available(
    roster: Seq<Person>,
    start: int,
    end: int,
    min: int,
    max: int,
    loads: Seq<int>,
)
    requires
        min > 0,
        start < end,
        forall|i: int| 0 <= i < roster.len() ==> (#[trigger] roster[i]).is_ooo_on(start),
    ensures
        run(roster, end, min, max, start, loads, None) == Err::<Seq<Turn>, int>(start),
{
    assert forall|pair: (int, int)|
        !is_choice(roster, loads, None, start, end, min, max, pair.0, pair.1) by {
        if 0 <= pair.0 < roster.len() && min <= pair.1 {
            assert(roster[pair.0].is_ooo_on(start));
            assert(roster[pair.0].ooo_within(start, window_end(start, end, pair.1)));
        }
    }
}

/// With one person only, a schedule has at most one turn.
pub proof fn lemma_single_person(
    roster: Seq<Person>,
    start: int,
    end: int,
    min: int,
    max: int,
    loads: Seq<int>,
)
    requires
        min > 0,
        roster.len() == 1,
    ensures
        run(roster, end, min, max, start, loads, None) matches Ok(turns) ==> turns.len() <= 1,
{
    lemma_run(roster, end, min, max, start, loads, None);
    match run(roster, end, min, max, start, loads, None) {
        Ok(turns) => {
            if turns.len() > 1 {
                assert(avoids_ooo(roster, turns));
                assert(turns[0].person == 0);
                assert(turns[1].person == 0);
            }
        },
        Err(_) => {},
    }
}

} // verus!
