//! What a strategy hands back: the turns, in order, over the roster.

use crate::calendar::{CalendarDate, SECONDS_PER_DAY};
use crate::input::Person;
use std::collections::HashMap;
use vstd::prelude::*;

verus! {

broadcast use vstd::std_specs::hash::group_hash_axioms;

/// The one way in which scheduling fails.
#[derive(Debug, Clone, Copy, PartialEq, Eq, Structural)]
pub enum ScheduleError {
    /// Nobody can validly start a turn on this day.
    NoOneAvailable(CalendarDate),
}

/// A turn as the contracts speak of it: an index into the roster and the day
/// numbers of the first day and of the day after the last.
pub ghost struct Turn {
    pub person: int,
    pub start: int,
    pub end: int,
}

/// One turn: the person at index `person` of the roster covers the days from
/// `start` up to, not including, `end`.
#[derive(Debug, Clone, Copy, PartialEq, Eq, Structural)]
pub struct Assignment {
    pub person: usize,
    pub start: CalendarDate,
    pub end: CalendarDate,
}

impl View for Assignment {
    type V = Turn;

    open spec fn view(&self) -> Turn {
        Turn { person: self.person as int, start: self.start@, end: self.end@ }
    }
}

/// The turns of `turns`, each by its view.
pub open spec fn turns_of(turns: Seq<Assignment>) -> Seq<Turn> {
    Seq::new(turns.len(), |k: int| turns[k]@)
}

/// Whether `turns` cover `[start, end)` day by day: non-empty turns, the
/// first from `start`, each from where the one before ends, the last up to
/// `end`. Over an empty range there are no turns.
pub open spec fn covers(turns: Seq<Turn>, start: int, end: int) -> bool {
    &&& forall|k: int| 0 <= k < turns.len() ==> (#[trigger] turns[k]).start < turns[k].end
    &&& forall|k: int| 0 <= k < turns.len() - 1 ==> (#[trigger] turns[k]).end == turns[k + 1].start
    &&& if start < end {
        turns.len() > 0 && turns[0].start == start && turns[turns.len() - 1].end == end
    } else {
        turns.len() == 0
    }
}

/// The days that `turns` give to the person at index `person`.
pub open spec fn total_days(turns: Seq<Turn>, person: int) -> int
    decreases turns.len(),
{
    if turns.len() == 0 {
        0
    } else {
        let last = turns.last();
        total_days(turns.drop_last(), person) + if last.person == person {
            last.end - last.start
        } else {
            0
        }
    }
}

/// A roster and the turns assigned over it.
#[derive(Debug)]
pub struct Schedule {
    pub people: Vec<Person>,
    pub turns: Vec<Assignment>,
}

/// What each person of a schedule who has a turn carries in all: days, by
/// the person's place in the roster.
#[derive(Debug)]
pub struct Load {
    pub days: HashMap<usize, i64>,
}

/// One turn as it is written down: the person by id.
#[derive(Debug)]
pub struct YamlAssignment {
    pub person: String,
    pub start: CalendarDate,
    pub end: CalendarDate,
}

/// A schedule as it is written down.
#[derive(Debug)]
pub struct YamlSchedule {
    pub schedule: Vec<YamlAssignment>,
}

/// Whether some turn of `turns` has the person at `person`.
pub open spec fn has_turn(turns: Seq<Turn>, person: int) -> bool {
    exists|k: int| 0 <= k < turns.len() && (#[trigger] turns[k]).person == person
}

/// Over turns that follow one another, nobody has more days than lie
/// between the start of the first and the end of the last.
pub proof fn lemma_total_days_bounded(turns: Seq<Turn>, person: int)
    requires
        turns.len() > 0,
        forall|k: int| 0 <= k < turns.len() ==> (#[trigger] turns[k]).start < turns[k].end,
        forall|k: int| 0 <= k < turns.len() - 1 ==> (#[trigger] turns[k]).end == turns[k + 1].start,
    ensures
        0 <= total_days(turns, person) <= turns.last().end - turns[0].start,
    decreases turns.len(),
{
    let front = turns.drop_last();
    if front.len() == 0 {
        assert(total_days(front, person) == 0);
    } else {
        assert forall|k: int| 0 <= k < front.len() - 1 implies (#[trigger] front[k]).end == front[k
            + 1].start by {
            assert(front[k] == turns[k]);
            assert(front[k + 1] == turns[k + 1]);
        }
        lemma_total_days_bounded(front, person);
        assert(front.last() == turns[turns.len() - 2]);
        assert(front[0] == turns[0]);
    }
}

impl Assignment {
    /// The whole days of the turn.
    pub fn days(&self) -> (r: i64)
        requires
            self.start.wf(),
            self.end.wf(),
        ensures
            r == self.end@ - self.start@,
    {
        self.end.seconds_since(&self.start) / SECONDS_PER_DAY
    }
}

impl Schedule {
    /// Every turn has a person of the roster and lasts at least a day, on
    /// days that the calendar can represent, and starts where the turn
    /// before it ends.
    pub open spec fn wf(self) -> bool {
        &&& forall|k: int|
            0 <= k < self.turns@.len() ==> {
                let turn = #[trigger] self.turns@[k];
                &&& turn.person < self.people@.len()
                &&& turn.start.wf()
                &&& turn.end.wf()
                &&& turn.start@ < turn.end@
            }
        &&& forall|k: int|
            0 <= k < self.turns@.len() - 1 ==> (#[trigger] self.turns@[k]).end@ == self.turns@[k
                + 1].start@
    }

    /// Whether the schedule is well formed.
    pub fn is_well_formed(&self) -> (r: bool)
        ensures
            r == self.wf(),
    {
        let mut k: usize = 0;
        while k < self.turns.len()
            invariant
                k <= self.turns@.len(),
                forall|j: int|
                    0 <= j < k ==> {
                        let turn = #[trigger] self.turns@[j];
                        &&& turn.person < self.people@.len()
                        &&& turn.start.wf()
                        &&& turn.end.wf()
                        &&& turn.start@ < turn.end@
                    },
                forall|j: int|
                    0 <= j < k - 1 ==> (#[trigger] self.turns@[j]).end@ == self.turns@[j + 1].start@,
            decreases self.turns@.len() - k,
        {
            let turn = &self.turns[k];
            let sound = turn.person < self.people.len() && CalendarDate::from_day_number(
                turn.start.days,
            ).is_some() && CalendarDate::from_day_number(turn.end.days).is_some()
                && turn.start.is_before(&turn.end);
            if !sound {
                return false;
            }
            if k > 0 && self.turns[k - 1].end.days != turn.start.days {
                assert(self.turns@[k - 1].end@ != self.turns@[k - 1 + 1].start@);
                return false;
            }
            k += 1;
        }
        true
    }

    /// The days that each person with a turn has in all.
    pub fn load(&self) -> (r: Load)
        requires
            self.wf(),
        ensures
            forall|person: usize|
                r.days@.contains_key(person) <==> has_turn(turns_of(self.turns@), person as int),
            forall|person: usize|
                r.days@.contains_key(person) ==> #[trigger] r.days@[person] == total_days(
                    turns_of(self.turns@),
                    person as int,
                ),
    {
        let ghost turns = turns_of(self.turns@);
        let mut days: HashMap<usize, i64> = HashMap::new();
        let mut k: usize = 0;
        assert(turns.take(0) =~= Seq::<Turn>::empty());
        while k < self.turns.len()
            invariant
                k <= self.turns@.len(),
                self.wf(),
                turns == turns_of(self.turns@),
                forall|person: usize|
                    days@.contains_key(person) <==> has_turn(turns.take(k as int), person as int),
                forall|person: usize|
                    days@.contains_key(person) ==> #[trigger] days@[person] == total_days(
                        turns.take(k as int),
                        person as int,
                    ),
            decreases self.turns@.len() - k,
        {
            let turn = &self.turns[k];
            let ghost done = turns.take(k as int);
            let ghost next = turns.take(k + 1);
            proof {
                assert(next.drop_last() =~= done);
                assert(next.last() == turn@);
                assert forall|j: int| 0 <= j < next.len() implies (#[trigger] next[j]).start
                    < next[j].end by {
                    assert(next[j] == self.turns@[j]@);
                }
                assert forall|j: int| 0 <= j < next.len() - 1 implies (#[trigger] next[j]).end
                    == next[j + 1].start by {
                    assert(next[j] == self.turns@[j]@);
                    assert(next[j + 1] == self.turns@[j + 1]@);
                }
                lemma_total_days_bounded(next, turn.person as int);
                assert(next[0] == self.turns@[0]@);
                assert(self.turns@[0].start.wf());
            }
            let length = turn.days();
            let so_far = match days.get(&turn.person) {
                Some(days) => *days,
                None => {
                    proof {
                        assert(!has_turn(done, turn.person as int));
                        lemma_no_turn_no_days(done, turn.person as int);
                    }
                    0
                },
            };
            days.insert(turn.person, so_far + length);
            proof {
                assert forall|person: usize| days@.contains_key(person) <==> has_turn(
                    next,
                    person as int,
                ) by {
                    if has_turn(next, person as int) {
                        let j = choose|j: int|
                            0 <= j < next.len() && (#[trigger] next[j]).person == person as int;
                        if j < k {
                            assert(done[j] == next[j]);
                            assert(has_turn(done, person as int));
                        }
                    }
                    if has_turn(done, person as int) {
                        let j = choose|j: int|
                            0 <= j < done.len() && (#[trigger] done[j]).person == person as int;
                        assert(next[j] == done[j]);
                    }
                    if person == turn.person {
                        assert(next[k as int].person == person as int);
                    }
                }
            }
            k += 1;
        }
        assert(turns.take(k as int) =~= turns);
        Load { days }
    }

    /// The turns as they are written down, each with the id of its person.
    pub fn to_yaml_schedule(&self) -> (r: YamlSchedule)
        requires
            forall|k: int|
                0 <= k < self.turns@.len() ==> (#[trigger] self.turns@[k]).person
                    < self.people@.len(),
        ensures
            r.schedule@.len() == self.turns@.len(),
            forall|k: int|
                0 <= k < self.turns@.len() ==> {
                    let entry = #[trigger] r.schedule@[k];
                    &&& entry.person@ == self.people@[self.turns@[k].person as int].id@
                    &&& entry.start == self.turns@[k].start
                    &&& entry.end == self.turns@[k].end
                },
    {
        let mut assignments: Vec<YamlAssignment> = Vec::new();
        let mut k: usize = 0;
        while k < self.turns.len()
            invariant
                k <= self.turns@.len(),
                assignments@.len() == k,
                forall|j: int|
                    0 <= j < self.turns@.len() ==> (#[trigger] self.turns@[j]).person
                        < self.people@.len(),
                forall|j: int|
                    0 <= j < k ==> {
                        let entry = #[trigger] assignments@[j];
                        &&& entry.person@ == self.people@[self.turns@[j].person as int].id@
                        &&& entry.start == self.turns@[j].start
                        &&& entry.end == self.turns@[j].end
                    },
            decreases self.turns@.len() - k,
        {
            let turn = &self.turns[k];
            let person = &self.people[turn.person];
            assignments.push(
                YamlAssignment { person: person.id.clone(), start: turn.start, end: turn.end },
            );
            k += 1;
        }
        YamlSchedule { schedule: assignments }
    }
}

/// Who has no turn has no days.
pub proof fn lemma_no_turn_no_days(turns: Seq<Turn>, person: int)
    requires
        !has_turn(turns, person),
    ensures
        total_days(turns, person) == 0,
    decreases turns.len(),
{
    if turns.len() > 0 {
        let front = turns.drop_last();
        assert(turns[turns.len() - 1].person != person);
        assert forall|k: int| 0 <= k < front.len() implies (#[trigger] front[k]).person
            != person by {
            assert(front[k] == turns[k]);
        }
        lemma_no_turn_no_days(front, person);
    }
}

} // verus!
