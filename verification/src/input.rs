//! The roster: who can be scheduled, when they are away and what they prefer.

use crate::calendar::CalendarDate;
use crate::config;
use crate::config::{Preference, OOO};
use std::collections::{HashMap, HashSet};
use vstd::prelude::*;

verus! {

broadcast use vstd::std_specs::hash::group_hash_axioms;

/// What a person asks for on one day.
#[derive(Clone, Copy, Debug, PartialEq, Eq, Structural)]
pub enum PreferenceType {
    Want,
    NotWant,
}

/// One member of the roster. Days are held by their day numbers.
#[derive(Debug)]
pub struct Person {
    /// Key that stays the same from one run to the next.
    pub id: String,
    /// Name for display.
    pub name: String,
    /// Days on which the person can neither start nor continue a turn.
    pub ooo: HashSet<i32>,
    /// At most one preference for a day.
    pub preferences: HashMap<i32, PreferenceType>,
}

/// The preferences that `entries` record, day by day: of two entries for
/// one day the later one counts.
pub open spec fn wishes(entries: Seq<Preference>) -> Map<i32, PreferenceType>
    decreases entries.len(),
{
    if entries.len() == 0 {
        Map::empty()
    } else {
        wishes(entries.drop_last()).insert(
            entries.last().date().days,
            match entries.last() {
                Preference::Want(_) => PreferenceType::Want,
                Preference::NotWant(_) => PreferenceType::NotWant,
            },
        )
    }
}

impl Person {
    /// The member of the roster that the configuration describes under the
    /// id `value.0`: away on every day of every absence (a period counts
    /// from its first day to its last, both included), with the preferences
    /// of `wishes`.
    pub fn from(value: (&String, &config::Person)) -> (r: Person)
        requires
            value.1.wf(),
        ensures
            r.id@ == value.0@,
            r.name@ == value.1.name@,
            forall|day: int| r.is_ooo_on(day) <==> value.1.away_on(day),
            r.preferences@ == match value.1.preferences {
                Some(entries) => wishes(entries@),
                None => Map::empty(),
            },
    {
        let (id, p) = value;
        let mut ooo: HashSet<i32> = HashSet::new();
        if let Some(ooo_vec) = &p.ooo {
            let mut k: usize = 0;
            while k < ooo_vec.len()
                invariant
                    k <= ooo_vec@.len(),
                    p.ooo == Some(*ooo_vec),
                    p.wf(),
                    forall|day: i32|
                        ooo@.contains(day) <==> exists|j: int|
                            0 <= j < k && (#[trigger] ooo_vec@[j]).covers(day as int),
                decreases ooo_vec@.len() - k,
            {
                let ghost before = ooo@;
                assert(p.ooo matches Some(entries) && entries@ == ooo_vec@);
                assert(ooo_vec@[k as int].wf());
                match ooo_vec[k] {
                    OOO::Day(date) => {
                        ooo.insert(date.days);
                    },
                    OOO::Period { from, to } => {
                        let mut current = from;
                        let mut more = !to.is_before(&from);
                        while more
                            invariant
                                from.wf(),
                                to.wf(),
                                current.wf(),
                                more ==> from@ <= current@ <= to@,
                                !more ==> forall|day: i32|
                                    ooo@.contains(day) <==> before.contains(day) || from@ <= day
                                        <= to@,
                                more ==> forall|day: i32|
                                    ooo@.contains(day) <==> before.contains(day) || from@ <= day
                                        < current@,
                            decreases to@ - current@ + if more { 1int } else { 0int },
                        {
                            let ghost during = ooo@;
                            ooo.insert(current.days);
                            let ghost today = current@;
                            if current.is_before(&to) {
                                match current.succ_opt() {
                                    Some(next) => {
                                        current = next;
                                    },
                                    None => {
                                        more = false;
                                    },
                                }
                            } else {
                                more = false;
                            }
                            proof {
                                if more {
                                    assert forall|day: i32|
                                        ooo@.contains(day) <==> before.contains(day) || from@
                                            <= day < current@ by {
                                        assert(during.contains(day) <==> before.contains(day)
                                            || from@ <= day < today);
                                    }
                                } else {
                                    assert forall|day: i32|
                                        ooo@.contains(day) <==> before.contains(day) || from@
                                            <= day <= to@ by {
                                        assert(during.contains(day) <==> before.contains(day)
                                            || from@ <= day < today);
                                    }
                                }
                            }
                        }
                    },
                }
                proof {
                    let entry = ooo_vec@[k as int];
                    assert forall|day: i32| ooo@.contains(day) <==> exists|j: int|
                        0 <= j < k + 1 && (#[trigger] ooo_vec@[j]).covers(day as int) by {
                        if ooo@.contains(day) {
                            if before.contains(day) {
                                let j = choose|j: int|
                                    0 <= j < k && (#[trigger] ooo_vec@[j]).covers(day as int);
                                assert(0 <= j < k + 1);
                            } else {
                                assert(entry.covers(day as int));
                            }
                        }
                        if exists|j: int|
                            0 <= j < k + 1 && (#[trigger] ooo_vec@[j]).covers(day as int) {
                            let j = choose|j: int|
                                0 <= j < k + 1 && (#[trigger] ooo_vec@[j]).covers(day as int);
                            if j < k {
                                assert(before.contains(day));
                            }
                        }
                    }
                }
                k += 1;
            }
        }
        let mut preferences: HashMap<i32, PreferenceType> = HashMap::new();
        if let Some(pref_vec) = &p.preferences {
            let mut k: usize = 0;
            assert(pref_vec@.take(0) =~= Seq::<Preference>::empty());
            while k < pref_vec.len()
                invariant
                    k <= pref_vec@.len(),
                    preferences@ == wishes(pref_vec@.take(k as int)),
                decreases pref_vec@.len() - k,
            {
                assert(pref_vec@.take(k + 1).drop_last() =~= pref_vec@.take(k as int));
                match pref_vec[k] {
                    Preference::Want(date) => {
                        preferences.insert(date.days, PreferenceType::Want);
                    },
                    Preference::NotWant(date) => {
                        preferences.insert(date.days, PreferenceType::NotWant);
                    },
                }
                k += 1;
            }
            assert(pref_vec@.take(k as int) =~= pref_vec@);
        }
        let r = Person { id: id.clone(), name: p.name.clone(), ooo, preferences };
        proof {
            assert forall|day: int| r.is_ooo_on(day) <==> p.away_on(day) by {
                if p.away_on(day) {
                    let entries = p.ooo->Some_0;
                    let j = choose|j: int|
                        0 <= j < entries@.len() && (#[trigger] entries@[j]).covers(day);
                    assert(entries@[j].wf());
                    assert(i32::MIN <= day <= i32::MAX);
                }
            }
        }
        r
    }

    /// Whether the person is away on the day with number `day`.
    pub open spec fn is_ooo_on(self, day: int) -> bool {
        i32::MIN <= day <= i32::MAX && self.ooo@.contains(day as i32)
    }

    /// The preference recorded for the day with number `day`.
    pub open spec fn preference_on(self, day: int) -> Option<PreferenceType> {
        if i32::MIN <= day <= i32::MAX && self.preferences@.contains_key(day as i32) {
            Some(self.preferences@[day as i32])
        } else {
            None
        }
    }

    /// Whether the person is away on some day of `[from, to)`.
    pub open spec fn ooo_within(self, from: int, to: int) -> bool {
        exists|day: int| from <= day < to && #[trigger] self.is_ooo_on(day)
    }

    /// Whether some day of `[from, to)` carries the preference `kind`.
    pub open spec fn prefers_within(self, kind: PreferenceType, from: int, to: int) -> bool {
        exists|day: int| from <= day < to && #[trigger] self.preference_on(day) == Some(kind)
    }

    /// A person without absences or preferences.
    pub fn new(id: String, name: String) -> (r: Person)
        ensures
            r.id == id,
            r.name == name,
            r.ooo@ == Set::<i32>::empty(),
            r.preferences@ == Map::<i32, PreferenceType>::empty(),
    {
        Person { id, name, ooo: HashSet::new(), preferences: HashMap::new() }
    }

    /// Records that the person is away on `date`.
    pub fn add_ooo(&mut self, date: CalendarDate)
        ensures
            final(self).id == old(self).id,
            final(self).name == old(self).name,
            final(self).preferences == old(self).preferences,
            final(self).ooo@ == old(self).ooo@.insert(date.days),
    {
        self.ooo.insert(date.days);
    }

    /// Records a preference for `date`, in place of an earlier one for that day.
    pub fn add_preference(&mut self, date: CalendarDate, kind: PreferenceType)
        ensures
            final(self).id == old(self).id,
            final(self).name == old(self).name,
            final(self).ooo == old(self).ooo,
            final(self).preferences@ == old(self).preferences@.insert(date.days, kind),
    {
        self.preferences.insert(date.days, kind);
    }

    /// Whether the person is away on `date`.
    pub fn is_ooo(&self, date: CalendarDate) -> (r: bool)
        ensures
            r == self.is_ooo_on(date@),
    {
        self.ooo.contains(&date.days)
    }

    /// The preference recorded for `date`.
    pub fn preference(&self, date: CalendarDate) -> (r: Option<PreferenceType>)
        ensures
            r == self.preference_on(date@),
    {
        match self.preferences.get(&date.days) {
            Some(kind) => Some(*kind),
            None => None,
        }
    }
}

} // verus!
