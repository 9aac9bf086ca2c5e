//! The configuration of a run, as its author wrote it, and the rules that
//! it has to meet before anything is scheduled.

use crate::calendar::CalendarDate;
use vstd::prelude::*;

verus! {

/// What is wrong with a configuration. The first three variants carry the
/// words of whoever read the file; the others come from `Config::validate`.
#[derive(Debug)]
pub enum ConfigError {
    InvalidPath(String),
    ReadFile(String),
    Parse(String),
    EmptyPersonName,
    InvalidDateRange,
    InvalidTurnLength,
    InvalidOOOPeriod { person_name: String },
}

/// Days on which a person is away: one day, or every day from `from` to
/// `to`, both included.
#[derive(Debug, Clone, Copy, PartialEq, Eq, Structural)]
pub enum OOO {
    Day(CalendarDate),
    Period { from: CalendarDate, to: CalendarDate },
}

/// A wish for one day.
#[derive(Debug, Clone, Copy, PartialEq, Eq, Structural)]
pub enum Preference {
    Want(CalendarDate),
    NotWant(CalendarDate),
}

/// One person of the configuration.
#[derive(Debug)]
pub struct Person {
    pub name: String,
    pub ooo: Option<Vec<OOO>>,
    pub preferences: Option<Vec<Preference>>,
}

/// The strategy and its parameters.
#[derive(Debug, Clone, Copy, PartialEq, Eq, Structural)]
pub enum Algo {
    RoundRobin { turn_length_days: u8 },
    Greedy { turn_length_days: u8, preference_weight: Option<u8> },
    Balanced { min_turn_days: u8, max_turn_days: u8 },
}

/// The days to cover, from `from` up to, not including, `to`, and how.
#[derive(Debug)]
pub struct Schedule {
    pub from: CalendarDate,
    pub to: CalendarDate,
    pub algo: Algo,
}

/// A configuration: the people, each under a person id, and the schedule.
#[derive(Debug)]
pub struct Config {
    pub people: Vec<(String, Person)>,
    pub schedule: Schedule,
}

impl OOO {
    /// Whether the day with number `day` is one of the days of absence.
    pub open spec fn covers(self, day: int) -> bool {
        match self {
            OOO::Day(date) => date@ == day,
            OOO::Period { from, to } => from@ <= day <= to@,
        }
    }

    /// Whether the dates are ones that the calendar can represent.
    pub open spec fn wf(self) -> bool {
        match self {
            OOO::Day(date) => date.wf(),
            OOO::Period { from, to } => from.wf() && to.wf(),
        }
    }
}

impl Preference {
    /// The day that the wish is for.
    pub open spec fn date(self) -> CalendarDate {
        match self {
            Preference::Want(date) => date,
            Preference::NotWant(date) => date,
        }
    }
}

impl Algo {
    /// Whether the turn lengths are usable: positive, and for a range the
    /// shortest not above the longest.
    pub open spec fn lengths_valid(self) -> bool {
        match self {
            Algo::RoundRobin { turn_length_days } => turn_length_days > 0,
            Algo::Greedy { turn_length_days, .. } => turn_length_days > 0,
            Algo::Balanced { min_turn_days, max_turn_days } => 0 < min_turn_days <= max_turn_days,
        }
    }
}

impl Person {
    /// Whether every date of an absence is one that the calendar can
    /// represent.
    pub open spec fn wf(self) -> bool {
        self.ooo matches Some(entries) ==> forall|k: int|
            0 <= k < entries@.len() ==> (#[trigger] entries@[k]).wf()
    }

    /// Whether the day with number `day` is a day of one of the absences.
    pub open spec fn away_on(self, day: int) -> bool {
        self.ooo matches Some(entries) && exists|k: int|
            0 <= k < entries@.len() && (#[trigger] entries@[k]).covers(day)
    }

    /// Whether one of the periods of absence ends on or before the day on
    /// which it starts.
    pub open spec fn has_invalid_period(self) -> bool {
        self.ooo matches Some(entries) && exists|k: int|
            0 <= k < entries@.len() && (#[trigger] entries@[k] matches OOO::Period { from, to }
                && from@ >= to@)
    }

    /// Whether the person breaks a rule: an empty name, or an invalid period.
    pub open spec fn is_faulty(self) -> bool {
        self.name@.len() == 0 || self.has_invalid_period()
    }

    /// Whether one of the periods of absence ends on or before the day on
    /// which it starts.
    pub fn invalid_period(&self) -> (r: bool)
        ensures
            r == self.has_invalid_period(),
    {
        match &self.ooo {
            Some(ooos) => {
                let mut k: usize = 0;
                while k < ooos.len()
                    invariant
                        k <= ooos@.len(),
                        self.ooo == Some(*ooos),
                        forall|j: int|
                            0 <= j < k ==> !(#[trigger] ooos@[j] matches OOO::Period { from, to }
                                && from@ >= to@),
                    decreases ooos@.len() - k,
                {
                    match ooos[k] {
                        OOO::Period { from, to } => {
                            if !from.is_before(&to) {
                                return true;
                            }
                        },
                        OOO::Day(_) => {},
                    }
                    k += 1;
                }
                false
            },
            None => false,
        }
    }
}

impl Config {
    /// Whether the person at `i` is the first who breaks a rule.
    pub open spec fn is_first_faulty(self, i: int) -> bool {
        &&& 0 <= i < self.people@.len()
        &&& self.people@[i].1.is_faulty()
        &&& forall|j: int| 0 <= j < i ==> !(#[trigger] self.people@[j]).1.is_faulty()
    }

    /// Checks the rules, in this order: the schedule starts before it ends;
    /// the turn lengths are usable; then, person by person, the name is not
    /// empty and every period of absence starts before it ends. The error
    /// is that of the first rule broken.
    pub fn validate(&self) -> (r: Result<(), ConfigError>)
        ensures
            r is Ok <==> {
                &&& self.schedule.from@ < self.schedule.to@
                &&& self.schedule.algo.lengths_valid()
                &&& forall|i: int|
                    0 <= i < self.people@.len() ==> !(#[trigger] self.people@[i]).1.is_faulty()
            },
            r matches Err(e) ==> match e {
                ConfigError::InvalidDateRange => self.schedule.from@ >= self.schedule.to@,
                ConfigError::InvalidTurnLength => self.schedule.from@ < self.schedule.to@
                    && !self.schedule.algo.lengths_valid(),
                ConfigError::EmptyPersonName => self.schedule.from@ < self.schedule.to@
                    && self.schedule.algo.lengths_valid() && exists|i: int|
                    self.is_first_faulty(i) && self.people@[i].1.name@.len() == 0,
                ConfigError::InvalidOOOPeriod { person_name } => self.schedule.from@
                    < self.schedule.to@ && self.schedule.algo.lengths_valid() && exists|i: int|
                    self.is_first_faulty(i) && self.people@[i].1.name@.len() > 0 && person_name@
                        == self.people@[i].1.name@,
                _ => false,
            },
    {
        if !self.schedule.from.is_before(&self.schedule.to) {
            return Err(ConfigError::InvalidDateRange);
        }
        let lengths_ok = match self.schedule.algo {
            Algo::RoundRobin { turn_length_days } => turn_length_days != 0,
            Algo::Greedy { turn_length_days, .. } => turn_length_days != 0,
            Algo::Balanced { min_turn_days, max_turn_days } => min_turn_days != 0 && min_turn_days
                <= max_turn_days,
        };
        if !lengths_ok {
            return Err(ConfigError::InvalidTurnLength);
        }
        let mut i: usize = 0;
        while i < self.people.len()
            invariant
                i <= self.people@.len(),
                self.schedule.from@ < self.schedule.to@,
                self.schedule.algo.lengths_valid(),
                forall|j: int| 0 <= j < i ==> !(#[trigger] self.people@[j]).1.is_faulty(),
            decreases self.people@.len() - i,
        {
            let person = &self.people[i].1;
            if person.name.as_str().is_empty() {
                assert(self.is_first_faulty(i as int));
                return Err(ConfigError::EmptyPersonName);
            }
            if person.invalid_period() {
                assert(self.is_first_faulty(i as int));
                return Err(ConfigError::InvalidOOOPeriod { person_name: person.name.clone() });
            }
            i += 1;
        }
        Ok(())
    }
}

} // verus!
