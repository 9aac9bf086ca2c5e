//! Accumulated load per person id, carried from one run to the next.

use crate::calendar::SECONDS_PER_DAY;
use crate::output::{YamlAssignment, YamlSchedule};
use vstd::prelude::*;

verus! {

/// Largest load, in seconds and in either direction, that a table holds.
pub const LOAD_LIMIT: i64 = 0x1000_0000_0000;

/// The load of one person id, in seconds.
#[derive(Debug)]
pub struct LoadEntry {
    pub id: String,
    pub seconds: i64,
}

/// Loads by person id, in the order in which the ids were first added.
#[derive(Debug)]
pub struct LoadTable {
    pub entries: Vec<LoadEntry>,
}

impl LoadTable {
    /// No id occurs twice and every load is within `LOAD_LIMIT`.
    pub open spec fn wf(self) -> bool {
        &&& forall|j: int, k: int|
            0 <= j < k < self.entries@.len() ==> (#[trigger] self.entries@[j]).id@ != (
            #[trigger] self.entries@[k]).id@
        &&& forall|k: int|
            0 <= k < self.entries@.len() ==> -LOAD_LIMIT <= (#[trigger] self.entries@[k]).seconds
                <= LOAD_LIMIT
    }

    /// Whether the table has an entry for `id`.
    pub open spec fn holds(self, id: Seq<char>) -> bool {
        exists|k: int| 0 <= k < self.entries@.len() && (#[trigger] self.entries@[k]).id@ == id
    }

    /// The position of an entry for `id`.
    pub open spec fn index_of(self, id: Seq<char>) -> int {
        choose|k: int| 0 <= k < self.entries@.len() && (#[trigger] self.entries@[k]).id@ == id
    }

    /// The load recorded for `id`; zero where there is none.
    pub open spec fn seconds_of(self, id: Seq<char>) -> int {
        if self.holds(id) {
            self.entries@[self.index_of(id)].seconds as int
        } else {
            0
        }
    }

    /// In a well-formed table the entry at `k` is the one that `index_of`
    /// finds for its id.
    pub proof fn lemma_index_of(self, k: int)
        requires
            self.wf(),
            0 <= k < self.entries@.len(),
        ensures
            self.holds(self.entries@[k].id@),
            self.index_of(self.entries@[k].id@) == k,
            self.seconds_of(self.entries@[k].id@) == self.entries@[k].seconds,
    {
        let id = self.entries@[k].id@;
        let found = self.index_of(id);
        if found < k {
            assert(self.entries@[found].id@ != self.entries@[k].id@);
        } else if k < found {
            assert(self.entries@[k].id@ != self.entries@[found].id@);
        }
    }

    /// Whether the entry at `k` holds the largest load, and is the last of
    /// those that do.
    pub open spec fn is_heaviest(self, k: int) -> bool {
        &&& 0 <= k < self.entries@.len()
        &&& forall|j: int|
            0 <= j < k ==> (#[trigger] self.entries@[j]).seconds <= self.entries@[k].seconds
        &&& forall|j: int|
            k < j < self.entries@.len() ==> (#[trigger] self.entries@[j]).seconds
                < self.entries@[k].seconds
    }

    /// The position of the last entry with the largest load; none in an
    /// empty table.
    pub fn heaviest(&self) -> (r: Option<usize>)
        ensures
            r is None <==> self.entries@.len() == 0,
            r matches Some(k) ==> self.is_heaviest(k as int),
            forall|k: int| self.is_heaviest(k) ==> r == Some(k as usize),
    {
        if self.entries.len() == 0 {
            return None;
        }
        let mut best: usize = 0;
        let mut k: usize = 1;
        while k < self.entries.len()
            invariant
                best < k <= self.entries@.len(),
                forall|j: int|
                    0 <= j < best ==> (#[trigger] self.entries@[j]).seconds
                        <= self.entries@[best as int].seconds,
                forall|j: int|
                    best < j < k ==> (#[trigger] self.entries@[j]).seconds
                        < self.entries@[best as int].seconds,
            decreases self.entries@.len() - k,
        {
            if self.entries[k].seconds >= self.entries[best].seconds {
                best = k;
            }
            k += 1;
        }
        proof {
            assert forall|other: int| self.is_heaviest(other) implies other == best by {
                if other < best {
                    assert(self.entries@[best as int].seconds < self.entries@[other].seconds);
                } else if best < other {
                    assert(self.entries@[other].seconds < self.entries@[best as int].seconds);
                }
            }
        }
        Some(best)
    }

    /// Whether the table is well formed.
    pub fn is_well_formed(&self) -> (r: bool)
        ensures
            r == self.wf(),
    {
        let mut k: usize = 0;
        while k < self.entries.len()
            invariant
                k <= self.entries@.len(),
                forall|i: int, j: int|
                    0 <= i < j < k ==> (#[trigger] self.entries@[i]).id@ != (
                    #[trigger] self.entries@[j]).id@,
                forall|j: int|
                    0 <= j < k ==> -LOAD_LIMIT <= (#[trigger] self.entries@[j]).seconds
                        <= LOAD_LIMIT,
            decreases self.entries@.len() - k,
        {
            let seconds = self.entries[k].seconds;
            if seconds < -LOAD_LIMIT || seconds > LOAD_LIMIT {
                return false;
            }
            let mut i: usize = 0;
            while i < k
                invariant
                    i <= k < self.entries@.len(),
                    forall|j: int|
                        0 <= j < i ==> (#[trigger] self.entries@[j]).id@
                            != self.entries@[k as int].id@,
                decreases k - i,
            {
                if self.entries[i].id == self.entries[k].id {
                    return false;
                }
                i += 1;
            }
            k += 1;
        }
        true
    }

    /// The empty table.
    pub fn new() -> (r: LoadTable)
        ensures
            r.wf(),
            r.entries@.len() == 0,
            forall|id: Seq<char>| !r.holds(id),
    {
        LoadTable { entries: Vec::new() }
    }

    /// Whether the table has no entry.
    pub fn is_empty(&self) -> (r: bool)
        ensures
            r == (self.entries@.len() == 0),
    {
        self.entries.len() == 0
    }

    /// The position of the entry for `id`, if there is one.
    pub fn find(&self, id: &String) -> (r: Option<usize>)
        ensures
            match r {
                Some(k) => k < self.entries@.len() && self.entries@[k as int].id@ == id@ && forall|
                    j: int,
                | 0 <= j < k ==> (#[trigger] self.entries@[j]).id@ != id@,
                None => !self.holds(id@),
            },
    {
        let mut k: usize = 0;
        while k < self.entries.len()
            invariant
                k <= self.entries@.len(),
                forall|j: int| 0 <= j < k ==> (#[trigger] self.entries@[j]).id@ != id@,
            decreases self.entries@.len() - k,
        {
            if self.entries[k].id == *id {
                return Some(k);
            }
            k += 1;
        }
        None
    }

    /// The load recorded for `id`, if there is one.
    pub fn get(&self, id: &String) -> (r: Option<i64>)
        requires
            self.wf(),
        ensures
            r == if self.holds(id@) {
                Some(self.seconds_of(id@) as i64)
            } else {
                None
            },
    {
        match self.find(id) {
            Some(k) => {
                proof {
                    self.lemma_index_of(k as int);
                }
                Some(self.entries[k].seconds)
            },
            None => None,
        }
    }

    /// Adds `seconds` to the load of `id`, which starts from zero where the
    /// table has no entry for it.
    pub fn add(&mut self, id: String, seconds: i64)
        requires
            old(self).wf(),
            -LOAD_LIMIT <= old(self).seconds_of(id@) + seconds <= LOAD_LIMIT,
        ensures
            final(self).wf(),
            final(self).holds(id@),
            final(self).seconds_of(id@) == old(self).seconds_of(id@) + seconds,
            forall|other: Seq<char>|
                other != id@ ==> final(self).holds(other) == old(self).holds(other)
                    && final(self).seconds_of(other) == old(self).seconds_of(other),
            final(self).entries@.len() == if old(self).holds(id@) {
                old(self).entries@.len()
            } else {
                old(self).entries@.len() + 1
            },
            forall|k: int|
                0 <= k < old(self).entries@.len() ==> (#[trigger] final(self).entries@[k]).id@
                    == old(self).entries@[k].id@,
    {
        let ghost before = *self;
        match self.find(&id) {
            Some(k) => {
                proof {
                    before.lemma_index_of(k as int);
                }
                let sum = self.entries[k].seconds + seconds;
                self.entries.set(k, LoadEntry { id, seconds: sum });
                proof {
                    let after = *self;
                    assert(forall|j: int|
                        0 <= j < after.entries@.len() ==> (#[trigger] after.entries@[j]).id@
                            == before.entries@[j].id@);
                    assert(after.wf());
                    after.lemma_index_of(k as int);
                    assert forall|other: Seq<char>| other != id@ implies after.holds(other)
                        == before.holds(other) && after.seconds_of(other) == before.seconds_of(
                        other,
                    ) by {
                        if before.holds(other) {
                            let j = before.index_of(other);
                            before.lemma_index_of(j);
                            assert(after.entries@[j].id@ == other);
                            after.lemma_index_of(j);
                        }
                        if after.holds(other) {
                            let j = after.index_of(other);
                            assert(before.entries@[j].id@ == other);
                        }
                    }
                }
            },
            None => {
                self.entries.push(LoadEntry { id, seconds });
                proof {
                    let after = *self;
                    let k = before.entries@.len() as int;
                    assert(forall|j: int|
                        0 <= j < k ==> (#[trigger] after.entries@[j]) == before.entries@[j]);
                    assert(after.wf()) by {
                        assert forall|i: int, j: int|
                            0 <= i < j < after.entries@.len() implies (
                        #[trigger] after.entries@[i]).id@ != (#[trigger] after.entries@[j]).id@ by {
                            if j == k {
                                assert(before.entries@[i].id@ != id@);
                            } else {
                                assert(before.entries@[i].id@ != before.entries@[j].id@);
                            }
                        }
                    }
                    after.lemma_index_of(k);
                    assert forall|other: Seq<char>| other != id@ implies after.holds(other)
                        == before.holds(other) && after.seconds_of(other) == before.seconds_of(
                        other,
                    ) by {
                        if before.holds(other) {
                            let j = before.index_of(other);
                            before.lemma_index_of(j);
                            assert(after.entries@[j].id@ == other);
                            after.lemma_index_of(j);
                        }
                        if after.holds(other) {
                            let j = after.index_of(other);
                            assert(j != k);
                            assert(before.entries@[j].id@ == other);
                        }
                    }
                }
            },
        }
    }
}

/// The seconds that the turns of `entries` give to the person with the id
/// `id`: for each of that person's turns, the time from its start to its end.
pub open spec fn prior_seconds(entries: Seq<YamlAssignment>, id: Seq<char>) -> int
    decreases entries.len(),
{
    if entries.len() == 0 {
        0
    } else {
        let last = entries.last();
        prior_seconds(entries.drop_last(), id) + if last.person@ == id {
            (last.end@ - last.start@) * SECONDS_PER_DAY
        } else {
            0
        }
    }
}

/// Whether some turn of `entries` is of the person with the id `id`.
pub open spec fn names(entries: Seq<YamlAssignment>, id: Seq<char>) -> bool {
    exists|k: int| 0 <= k < entries.len() && (#[trigger] entries[k]).person@ == id
}

/// Whether, turn after turn, nobody's seconds leave what a table holds.
pub open spec fn within_limit(entries: Seq<YamlAssignment>) -> bool {
    forall|k: int, id: Seq<char>|
        0 <= k <= entries.len() ==> -LOAD_LIMIT <= #[trigger] prior_seconds(entries.take(k), id)
            <= LOAD_LIMIT
}

/// The loads to start a run with after the schedule `previous`: for every
/// person id in it, the seconds of that person's turns. None where, at some
/// turn, somebody's seconds leave what a table holds.
pub fn calculate_initial_load(previous: &YamlSchedule) -> (r: Option<LoadTable>)
    requires
        forall|k: int|
            0 <= k < previous.schedule@.len() ==> (#[trigger] previous.schedule@[k]).start.wf()
                && previous.schedule@[k].end.wf(),
    ensures
        r is Some <==> within_limit(previous.schedule@),
        r matches Some(table) ==> {
            &&& table.wf()
            &&& forall|id: Seq<char>| table.holds(id) <==> names(previous.schedule@, id)
            &&& forall|id: Seq<char>|
                table.seconds_of(id) == prior_seconds(previous.schedule@, id)
        },
{
    let ghost entries = previous.schedule@;
    let mut initial_load = LoadTable::new();
    let mut k: usize = 0;
    assert(entries.take(0) =~= Seq::<YamlAssignment>::empty());
    while k < previous.schedule.len()
        invariant
            k <= entries.len(),
            entries == previous.schedule@,
            forall|j: int|
                0 <= j < entries.len() ==> (#[trigger] entries[j]).start.wf() && entries[j].end.wf(),
            initial_load.wf(),
            forall|j: int, id: Seq<char>|
                0 <= j <= k ==> -LOAD_LIMIT <= #[trigger] prior_seconds(entries.take(j), id)
                    <= LOAD_LIMIT,
            forall|id: Seq<char>| initial_load.holds(id) <==> names(entries.take(k as int), id),
            forall|id: Seq<char>|
                initial_load.seconds_of(id) == prior_seconds(entries.take(k as int), id),
        decreases entries.len() - k,
    {
        let assignment = &previous.schedule[k];
        let ghost done = entries.take(k as int);
        let ghost next = entries.take(k + 1);
        let ghost before = initial_load;
        proof {
            assert(next.drop_last() =~= done);
            assert(next.last() == *assignment);
            assert(entries[k as int].start.wf());
        }
        let duration = assignment.end.seconds_since(&assignment.start);
        let so_far = match initial_load.get(&assignment.person) {
            Some(seconds) => seconds,
            None => 0,
        };
        let sum = so_far + duration;
        if sum < -LOAD_LIMIT || sum > LOAD_LIMIT {
            proof {
                assert(prior_seconds(entries.take(k + 1), assignment.person@) == sum);
            }
            return None;
        }
        initial_load.add(assignment.person.clone(), duration);
        proof {
            assert forall|id: Seq<char>| initial_load.holds(id) <==> names(next, id) by {
                if names(next, id) {
                    let j = choose|j: int| 0 <= j < next.len() && (#[trigger] next[j]).person@ == id;
                    if j < k {
                        assert(done[j] == next[j]);
                        assert(names(done, id));
                    }
                }
                if names(done, id) {
                    let j = choose|j: int| 0 <= j < done.len() && (#[trigger] done[j]).person@ == id;
                    assert(next[j] == done[j]);
                }
                if id == assignment.person@ {
                    assert(next[k as int].person@ == id);
                }
            }
            assert forall|j: int, id: Seq<char>| 0 <= j <= k + 1 implies -LOAD_LIMIT
                <= #[trigger] prior_seconds(entries.take(j), id) <= LOAD_LIMIT by {
                if j == k + 1 {
                    assert(prior_seconds(next, id) == initial_load.seconds_of(id));
                    if initial_load.holds(id) {
                        initial_load.lemma_index_of(initial_load.index_of(id));
                    }
                }
            }
        }
        k += 1;
    }
    proof {
        assert(entries.take(k as int) =~= entries);
    }
    Some(initial_load)
}

} // verus!
