use turns::algo::balanced::{calculate_load_variance, pick, schedule, ROSTER_LIMIT};
use turns::calendar::CalendarDate;
use turns::input::{Person, PreferenceType};
use turns::load::LoadTable;
use turns::output::ScheduleError;

fn date(year: i32, month: u32, day: u32) -> CalendarDate {
    CalendarDate::from_ymd_opt(year, month, day).unwrap()
}

fn person(id: &str, name: &str) -> Person {
    Person::new(id.to_string(), name.to_string())
}

fn days_of(schedule: &turns::output::Schedule, person: usize) -> i64 {
    schedule.turns.iter().filter(|t| t.person == person).map(|t| t.days()).sum::<i64>()
}

#[test]
fn test_simple_balanced_schedule() {
    let people = vec![person("alice", "Alice"), person("bob", "Bob")];
    let start = date(2025, 1, 1);
    let end = date(2025, 1, 11);
    let schedule = schedule(people, start, end, 3, 7, None).unwrap();

    let alice_load = days_of(&schedule, 0);
    let bob_load = days_of(&schedule, 1);

    assert_eq!(alice_load, 6);
    assert_eq!(bob_load, 4);
}

#[test]
fn test_balanced_with_preferences() {
    let mut alice = person("alice", "Alice");
    alice.add_preference(date(2025, 1, 1), PreferenceType::Want);
    let people = vec![alice, person("bob", "Bob")];
    let start = date(2025, 1, 1);
    let end = date(2025, 1, 5);
    let schedule = schedule(people, start, end, 1, 3, None).unwrap();
    assert_eq!(schedule.turns[0].person, 0);
}

#[test]
fn balanced_turns_in_detail() {
    let people = vec![person("alice", "Alice"), person("bob", "Bob")];
    let schedule = schedule(people, date(2025, 1, 1), date(2025, 1, 11), 3, 7, None).unwrap();
    let turns: Vec<(usize, CalendarDate, CalendarDate)> =
        schedule.turns.iter().map(|t| (t.person, t.start, t.end)).collect();
    assert_eq!(
        turns,
        vec![
            (0, date(2025, 1, 1), date(2025, 1, 4)),
            (1, date(2025, 1, 4), date(2025, 1, 7)),
            (0, date(2025, 1, 7), date(2025, 1, 10)),
            (1, date(2025, 1, 10), date(2025, 1, 11)),
        ]
    );
}

#[test]
fn balanced_variance_is_exact() {
    assert_eq!(calculate_load_variance(&vec![]), 0);
    assert_eq!(calculate_load_variance(&vec![7]), 0);
    assert_eq!(calculate_load_variance(&vec![3, 0]), 9);
    assert_eq!(calculate_load_variance(&vec![1, 2, 3]), 6);
    assert_eq!(calculate_load_variance(&vec![-4, 4]), 64);
    let day: i64 = 86_400;
    assert_eq!(
        calculate_load_variance(&vec![3 * day, 0]),
        (3 * day as i128) * (3 * day as i128)
    );
}

#[test]
fn balanced_variance_at_the_limits() {
    let big: i64 = 0x2000_0000_0000;
    let count = 1000usize;
    let mut load = vec![big; count];
    load[0] = -big;
    let n = count as i128;
    let b = big as i128;
    let sum = (n - 2) * b;
    assert_eq!(calculate_load_variance(&load), n * (n * b * b) - sum * sum);
    assert!(count <= ROSTER_LIMIT);
}

#[test]
fn balanced_prefers_the_smaller_variance() {
    let people = vec![person("bob", "Bob"), person("alice", "Alice")];
    let load = vec![10 * 86_400, 0];
    let picked = pick(&people, &load, None, date(2025, 1, 1), date(2025, 1, 31), 1, 3);
    assert_eq!(picked, Some((1, 3, date(2025, 1, 4))));
}

#[test]
fn balanced_takes_the_first_of_equals() {
    let people = vec![person("alice", "Alice"), person("bob", "Bob")];
    let load = vec![0, 0];
    let picked = pick(&people, &load, None, date(2025, 1, 1), date(2025, 1, 31), 2, 5);
    assert_eq!(picked, Some((0, 2, date(2025, 1, 3))));
}

#[test]
fn balanced_want_beats_variance() {
    let mut bob = person("bob", "Bob");
    bob.add_preference(date(2025, 1, 3), PreferenceType::Want);
    let people = vec![person("alice", "Alice"), bob];
    let load = vec![0, 10 * 86_400];
    let picked = pick(&people, &load, None, date(2025, 1, 1), date(2025, 1, 31), 1, 4);
    assert_eq!(picked, Some((1, 3, date(2025, 1, 4))));
}

#[test]
fn balanced_not_want_comes_last() {
    let mut alice = person("alice", "Alice");
    alice.add_preference(date(2025, 1, 1), PreferenceType::NotWant);
    let people = vec![alice, person("bob", "Bob")];
    let schedule = schedule(people, date(2025, 1, 1), date(2025, 1, 3), 1, 1, None).unwrap();
    assert_eq!(schedule.turns[0].person, 1);
    assert_eq!(schedule.turns[1].person, 0);
}

#[test]
fn balanced_skips_turns_with_a_day_away() {
    let mut alice = person("alice", "Alice");
    alice.add_ooo(date(2025, 1, 2));
    let people = vec![alice, person("bob", "Bob")];
    let load = vec![0, 5 * 86_400];
    let picked = pick(&people, &load, None, date(2025, 1, 1), date(2025, 1, 31), 1, 3);
    assert_eq!(picked, Some((0, 1, date(2025, 1, 2))));
}

#[test]
fn balanced_no_one_available() {
    let mut alice = person("alice", "Alice");
    alice.add_ooo(date(2025, 1, 1));
    let mut bob = person("bob", "Bob");
    bob.add_ooo(date(2025, 1, 1));
    let result = schedule(vec![alice, bob], date(2025, 1, 1), date(2025, 1, 5), 1, 3, None);
    assert_eq!(result.err(), Some(ScheduleError::NoOneAvailable(date(2025, 1, 1))));
}

#[test]
fn balanced_single_person_fails_after_the_first_turn() {
    let people = vec![person("alice", "Alice")];
    let result = schedule(people, date(2025, 1, 1), date(2025, 1, 10), 2, 3, None);
    assert_eq!(result.err(), Some(ScheduleError::NoOneAvailable(date(2025, 1, 3))));
    let people = vec![person("alice", "Alice")];
    let done = schedule(people, date(2025, 1, 1), date(2025, 1, 3), 2, 3, None).unwrap();
    assert_eq!(done.turns.len(), 1);
}

#[test]
fn balanced_empty_range_of_lengths_fails() {
    let people = vec![person("alice", "Alice"), person("bob", "Bob")];
    let result = schedule(people, date(2025, 1, 1), date(2025, 1, 10), 5, 3, None);
    assert_eq!(result.err(), Some(ScheduleError::NoOneAvailable(date(2025, 1, 1))));
}

#[test]
fn balanced_carries_loads_over() {
    let mut seed = LoadTable::new();
    seed.add("bob".to_string(), 10 * 86_400);
    seed.add("alice".to_string(), 0);
    let people = vec![person("bob", "Bob"), person("alice", "Alice")];
    let done = schedule(people, date(2025, 1, 1), date(2025, 1, 9), 1, 3, Some(seed)).unwrap();
    let turns: Vec<(usize, i64)> = done.turns.iter().map(|t| (t.person, t.days())).collect();
    assert_eq!(turns[0], (1, 3));
    assert_eq!(turns[1].0, 0);
    assert_eq!(turns[1].1, 1);
}

#[test]
fn balanced_covers_without_repeating() {
    let mut bob = person("bob", "Bob");
    bob.add_ooo(date(2025, 1, 6));
    let mut carol = person("carol", "Carol");
    carol.add_preference(date(2025, 1, 9), PreferenceType::Want);
    let people = vec![person("alice", "Alice"), bob, carol];
    let start = date(2025, 1, 1);
    let end = date(2025, 2, 1);
    let done = schedule(people, start, end, 2, 4, None).unwrap();
    assert_eq!(done.turns[0].start, start);
    assert_eq!(done.turns[done.turns.len() - 1].end, end);
    for pair in done.turns.windows(2) {
        assert_eq!(pair[0].end, pair[1].start);
        assert_ne!(pair[0].person, pair[1].person);
    }
    for turn in &done.turns {
        assert!(turn.start.is_before(&turn.end));
        let mut day = turn.start;
        while day.is_before(&turn.end) {
            assert!(!done.people[turn.person].is_ooo(day));
            day = day.succ_opt().unwrap();
        }
    }
}
