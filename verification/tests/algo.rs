use turns::algo::{classify_window, is_ooo_for_turn, starting_loads, turn_end, PreferenceGroup};
use turns::calendar::{CalendarDate, MAX_DAY};
use turns::input::{Person, PreferenceType};
use turns::load::{LoadEntry, LoadTable, LOAD_LIMIT};
use turns::output::{Assignment, Schedule};

fn date(year: i32, month: u32, day: u32) -> CalendarDate {
    CalendarDate::from_ymd_opt(year, month, day).unwrap()
}

fn person(id: &str, name: &str) -> Person {
    Person::new(id.to_string(), name.to_string())
}

#[test]
fn preference_groups_are_ordered() {
    assert_eq!(PreferenceGroup::Want.ordinal(), 0);
    assert_eq!(PreferenceGroup::Neutral.ordinal(), 1);
    assert_eq!(PreferenceGroup::NotWant.ordinal(), 2);
}

#[test]
fn turn_end_is_cut_at_the_end_of_the_schedule() {
    let end = date(2025, 1, 10);
    assert_eq!(turn_end(date(2025, 1, 1), end, 3), date(2025, 1, 4));
    assert_eq!(turn_end(date(2025, 1, 7), end, 3), end);
    assert_eq!(turn_end(date(2025, 1, 8), end, 3), end);
    assert_eq!(turn_end(date(2025, 1, 1), end, 255), end);
    let last = CalendarDate::from_day_number(MAX_DAY).unwrap();
    let near = CalendarDate::from_day_number(MAX_DAY - 1).unwrap();
    assert_eq!(turn_end(near, last, 7), last);
}

#[test]
fn ooo_for_turn_looks_at_every_day_but_the_last() {
    let mut alice = person("alice", "Alice");
    alice.add_ooo(date(2025, 1, 3));
    assert!(!is_ooo_for_turn(&alice, date(2025, 1, 1), date(2025, 1, 3)));
    assert!(is_ooo_for_turn(&alice, date(2025, 1, 1), date(2025, 1, 4)));
    assert!(is_ooo_for_turn(&alice, date(2025, 1, 3), date(2025, 1, 4)));
    assert!(!is_ooo_for_turn(&alice, date(2025, 1, 4), date(2025, 1, 9)));
    assert!(!is_ooo_for_turn(&alice, date(2025, 1, 3), date(2025, 1, 3)));
    assert!(!is_ooo_for_turn(&alice, date(2025, 1, 4), date(2025, 1, 1)));
}

#[test]
fn windows_are_classified() {
    let mut alice = person("alice", "Alice");
    alice.add_preference(date(2025, 1, 2), PreferenceType::NotWant);
    alice.add_preference(date(2025, 1, 4), PreferenceType::Want);
    assert_eq!(classify_window(&alice, date(2025, 1, 1), date(2025, 1, 2)), PreferenceGroup::Neutral);
    assert_eq!(classify_window(&alice, date(2025, 1, 1), date(2025, 1, 3)), PreferenceGroup::NotWant);
    assert_eq!(classify_window(&alice, date(2025, 1, 1), date(2025, 1, 5)), PreferenceGroup::Want);
    assert_eq!(classify_window(&alice, date(2025, 1, 4), date(2025, 1, 5)), PreferenceGroup::Want);
    assert_eq!(classify_window(&alice, date(2025, 1, 4), date(2025, 1, 4)), PreferenceGroup::Neutral);
}

#[test]
fn starting_loads_follow_the_roster() {
    let people = vec![person("alice", "Alice"), person("bob", "Bob"), person("carol", "Carol")];
    assert_eq!(starting_loads(&people, &None), vec![0, 0, 0]);
    let mut seed = LoadTable::new();
    seed.add("carol".to_string(), 30);
    seed.add("zed".to_string(), 99);
    seed.add("alice".to_string(), -5);
    assert_eq!(starting_loads(&people, &Some(seed)), vec![-5, 0, 30]);
}

#[test]
fn load_table_well_formedness() {
    let mut table = LoadTable::new();
    assert!(table.is_well_formed());
    table.add("a".to_string(), LOAD_LIMIT);
    table.add("b".to_string(), -LOAD_LIMIT);
    assert!(table.is_well_formed());
    let twice = LoadTable {
        entries: vec![
            LoadEntry { id: "a".to_string(), seconds: 1 },
            LoadEntry { id: "b".to_string(), seconds: 1 },
            LoadEntry { id: "a".to_string(), seconds: 2 },
        ],
    };
    assert!(!twice.is_well_formed());
    let heavy = LoadTable { entries: vec![LoadEntry { id: "a".to_string(), seconds: LOAD_LIMIT + 1 }] };
    assert!(!heavy.is_well_formed());
}

#[test]
fn schedule_well_formedness() {
    let people = || vec![person("alice", "Alice"), person("bob", "Bob")];
    let turn = |person, start, end| Assignment { person, start, end };
    let good = Schedule {
        people: people(),
        turns: vec![
            turn(0, date(2025, 1, 1), date(2025, 1, 3)),
            turn(1, date(2025, 1, 3), date(2025, 1, 4)),
        ],
    };
    assert!(good.is_well_formed());
    let gap = Schedule {
        people: people(),
        turns: vec![
            turn(0, date(2025, 1, 1), date(2025, 1, 3)),
            turn(1, date(2025, 1, 4), date(2025, 1, 5)),
        ],
    };
    assert!(!gap.is_well_formed());
    let nobody = Schedule { people: people(), turns: vec![turn(2, date(2025, 1, 1), date(2025, 1, 3))] };
    assert!(!nobody.is_well_formed());
    let empty_turn = Schedule { people: people(), turns: vec![turn(0, date(2025, 1, 1), date(2025, 1, 1))] };
    assert!(!empty_turn.is_well_formed());
    let far = Schedule {
        people: people(),
        turns: vec![turn(0, date(2025, 1, 1), CalendarDate { days: MAX_DAY + 1 })],
    };
    assert!(!far.is_well_formed());
    assert!(Schedule { people: vec![], turns: vec![] }.is_well_formed());
}

#[test]
fn strategies_hand_back_well_formed_schedules() {
    let roster = |bob_away: bool| {
        let mut bob = person("bob", "Bob");
        if bob_away {
            bob.add_ooo(date(2025, 1, 5));
        }
        vec![person("alice", "Alice"), bob, person("carol", "Carol")]
    };
    let start = date(2025, 1, 1);
    let end = date(2025, 1, 20);
    let greedy = turns::algo::greedy::schedule(roster(true), start, end, 3, None, None).unwrap();
    let balanced = turns::algo::balanced::schedule(roster(true), start, end, 2, 4, None).unwrap();
    let round = turns::algo::roundrobin::schedule(roster(true), start, end, 3, None).unwrap();
    for done in [&greedy, &balanced, &round] {
        assert!(done.is_well_formed());
        assert_eq!(done.turns[0].start, start);
        assert_eq!(done.turns[done.turns.len() - 1].end, end);
        for turn in &done.turns {
            let mut day = turn.start;
            while day.is_before(&turn.end) {
                assert!(!done.people[turn.person].is_ooo(day));
                day = day.succ_opt().unwrap();
            }
        }
        let load = done.load();
        assert_eq!(load.days.values().sum::<i64>(), 19);
    }
    for turn in &round.turns {
        assert!(turn.days() >= 1 && turn.days() <= 3);
    }
}
