//! The three strategies, and what they share: how a window of days looks to
//! one person, and the loads that a run starts from.

use crate::calendar::CalendarDate;
use crate::input::{Person, PreferenceType};
use crate::load::{LoadTable, LOAD_LIMIT};
use crate::output::Turn;
use vstd::prelude::*;

pub mod balanced;
pub mod greedy;
pub mod roundrobin;

verus! {

/// How a window of days looks to a person, best first: a window with a
/// wanted day is `Want` whatever else it holds; one with an unwanted day and
/// no wanted day is `NotWant`; any other is `Neutral`.
#[derive(Clone, Copy, Debug, PartialEq, Eq, Structural)]
pub enum PreferenceGroup {
    Want,
    Neutral,
    NotWant,
}

impl PreferenceGroup {
    /// Place in the order `Want < Neutral < NotWant`.
    pub open spec fn rank(self) -> int {
        match self {
            PreferenceGroup::Want => 0,
            PreferenceGroup::Neutral => 1,
            PreferenceGroup::NotWant => 2,
        }
    }

    /// Place in the order `Want < Neutral < NotWant`.
    pub fn ordinal(&self) -> (r: u8)
        ensures
            r == self.rank(),
    {
        match self {
            PreferenceGroup::Want => 0,
            PreferenceGroup::Neutral => 1,
            PreferenceGroup::NotWant => 2,
        }
    }
}

/// The group of the window `[from, to)` for `person`.
pub open spec fn window_group(person: Person, from: int, to: int) -> PreferenceGroup {
    if person.prefers_within(PreferenceType::Want, from, to) {
        PreferenceGroup::Want
    } else if person.prefers_within(PreferenceType::NotWant, from, to) {
        PreferenceGroup::NotWant
    } else {
        PreferenceGroup::Neutral
    }
}

/// Where a turn of `length` days from `current` ends when the schedule ends
/// at `end`.
pub open spec fn window_end(current: int, end: int, length: int) -> int {
    if current + length < end {
        current + length
    } else {
        end
    }
}

/// The day on which a turn of `length` days from `current` ends when the
/// schedule ends at `end`.
pub fn turn_end(current: CalendarDate, end: CalendarDate, length: u8) -> (r: CalendarDate)
    requires
        current.wf(),
        end.wf(),
    ensures
        r@ == window_end(current@, end@, length as int),
        r.wf(),
{
    match current.checked_add_days(length as u64) {
        Some(last) => if last.is_before(&end) {
            last
        } else {
            end
        },
        None => end,
    }
}

/// Whether `person` is away on some day of `[start_date, end_date)`.
pub fn is_ooo_for_turn(person: &Person, start_date: CalendarDate, end_date: CalendarDate) -> (r:
    bool)
    requires
        start_date.wf(),
        end_date.wf(),
    ensures
        r == person.ooo_within(start_date@, end_date@),
{
    let mut current_date = start_date;
    while current_date.is_before(&end_date)
        invariant
            start_date.wf(),
            end_date.wf(),
            current_date.wf(),
            start_date@ <= current_date@,
            forall|day: int| start_date@ <= day < current_date@ ==> !#[trigger] person.is_ooo_on(day),
        decreases end_date@ - current_date@,
    {
        if person.is_ooo(current_date) {
            return true;
        }
        match current_date.succ_opt() {
            Some(next) => {
                current_date = next;
            },
            None => {
                return false;
            },
        }
    }
    false
}

/// The group of the window `[start_date, end_date)` for `person`.
pub fn classify_window(person: &Person, start_date: CalendarDate, end_date: CalendarDate) -> (r:
    PreferenceGroup)
    requires
        start_date.wf(),
        end_date.wf(),
    ensures
        r == window_group(*person, start_date@, end_date@),
{
    let mut has_want = false;
    let mut has_not_want = false;
    let mut d = start_date;
    while d.is_before(&end_date)
        invariant
            start_date.wf(),
            end_date.wf(),
            d.wf(),
            start_date@ <= d@,
            start_date@ < end_date@ ==> d@ <= end_date@,
            start_date@ >= end_date@ ==> d@ == start_date@,
            has_want == person.prefers_within(PreferenceType::Want, start_date@, d@),
            has_not_want == person.prefers_within(PreferenceType::NotWant, start_date@, d@),
        decreases end_date@ - d@,
    {
        match person.preference(d) {
            Some(PreferenceType::Want) => {
                has_want = true;
            },
            Some(PreferenceType::NotWant) => {
                has_not_want = true;
            },
            None => {},
        }
        let ghost today = d@;
        match d.succ_opt() {
            Some(next) => {
                d = next;
            },
            None => {
                proof {
                    assert(false);
                }
            },
        }
        proof {
            assert forall|kind: PreferenceType|
                person.prefers_within(kind, start_date@, today + 1) == (person.prefers_within(
                    kind,
                    start_date@,
                    today,
                ) || person.preference_on(today) == Some(kind)) by {
                if person.prefers_within(kind, start_date@, today + 1) {
                    let day = choose|day: int|
                        start_date@ <= day < today + 1 && #[trigger] person.preference_on(day)
                            == Some(kind);
                    if day < today {
                        assert(person.prefers_within(kind, start_date@, today));
                    }
                }
                if person.prefers_within(kind, start_date@, today) {
                    let day = choose|day: int|
                        start_date@ <= day < today && #[trigger] person.preference_on(day) == Some(
                            kind,
                        );
                    assert(start_date@ <= day < today + 1);
                }
            }
        }
    }
    if has_want {
        PreferenceGroup::Want
    } else if has_not_want {
        PreferenceGroup::NotWant
    } else {
        PreferenceGroup::Neutral
    }
}

/// The load that each member of `roster` starts a run with: what `seed`
/// records for the member's id, and zero without a seed or an entry.
pub open spec fn initial_loads(roster: Seq<Person>, seed: Option<LoadTable>) -> Seq<int> {
    Seq::new(
        roster.len(),
        |i: int|
            match seed {
                Some(table) => table.seconds_of(roster[i].id@),
                None => 0,
            },
    )
}

/// A place in the roster, or none, as the contracts speak of it.
pub open spec fn spec_index(index: Option<usize>) -> Option<int> {
    match index {
        Some(i) => Some(i as int),
        None => None,
    }
}

/// The loads of `load` as the contracts speak of them.
pub open spec fn loads_of(load: Seq<i64>) -> Seq<int> {
    Seq::new(load.len(), |i: int| load[i] as int)
}

/// The outcome of a run whose first turns are `done` and whose remainder
/// ends as `rest` does.
pub open spec fn prepend(done: Seq<Turn>, rest: Result<Seq<Turn>, int>) -> Result<Seq<Turn>, int> {
    match rest {
        Ok(turns) => Ok(done + turns),
        Err(day) => Err(day),
    }
}

/// Prepending turn by turn is prepending them all at once.
pub proof fn lemma_prepend_push(done: Seq<Turn>, turn: Turn, rest: Result<Seq<Turn>, int>)
    ensures
        prepend(done, prepend(seq![turn], rest)) == prepend(done.push(turn), rest),
{
    match rest {
        Ok(turns) => {
            assert(done + (seq![turn] + turns) =~= done.push(turn) + turns);
        },
        Err(_) => {},
    }
}

/// Prepending no turns changes nothing.
pub proof fn lemma_prepend_none(rest: Result<Seq<Turn>, int>)
    ensures
        prepend(Seq::empty(), rest) == rest,
{
    match rest {
        Ok(turns) => {
            assert(Seq::<Turn>::empty() + turns =~= turns);
        },
        Err(_) => {},
    }
}

/// The load that each member of `people` starts a run with.
pub fn starting_loads(people: &Vec<Person>, initial_load: &Option<LoadTable>) -> (r: Vec<i64>)
    requires
        initial_load matches Some(table) ==> table.wf(),
    ensures
        r@.len() == people@.len(),
        loads_of(r@) == initial_loads(people@, *initial_load),
        forall|i: int| 0 <= i < r@.len() ==> -LOAD_LIMIT <= #[trigger] r@[i] <= LOAD_LIMIT,
{
    let mut load: Vec<i64> = Vec::new();
    let mut i: usize = 0;
    while i < people.len()
        invariant
            i <= people@.len(),
            load@.len() == i,
            initial_load matches Some(table) ==> table.wf(),
            forall|j: int| 0 <= j < i ==> #[trigger] load@[j] == initial_loads(people@, *initial_load)[j],
            forall|j: int| 0 <= j < i ==> -LOAD_LIMIT <= #[trigger] load@[j] <= LOAD_LIMIT,
        decreases people@.len() - i,
    {
        let seconds = match initial_load {
            Some(table) => match table.get(&people[i].id) {
                Some(found) => {
                    proof {
                        table.lemma_index_of(table.index_of(people@[i as int].id@));
                    }
                    found
                },
                None => 0,
            },
            None => 0,
        };
        load.push(seconds);
        i += 1;
    }
    assert(loads_of(load@) =~= initial_loads(people@, *initial_load));
    load
}

} // verus!
