use turns::calendar::CalendarDate;
use turns::load::{calculate_initial_load, LoadTable, LOAD_LIMIT};
use turns::output::{YamlAssignment, YamlSchedule};

fn date(year: i32, month: u32, day: u32) -> CalendarDate {
    CalendarDate::from_ymd_opt(year, month, day).unwrap()
}

fn entry(person: &str, start: CalendarDate, end: CalendarDate) -> YamlAssignment {
    YamlAssignment { person: person.to_string(), start, end }
}

#[test]
fn load_table_adds_up() {
    let mut table = LoadTable::new();
    assert!(table.is_empty());
    assert_eq!(table.get(&"alice".to_string()), None);
    table.add("alice".to_string(), 5);
    table.add("bob".to_string(), 7);
    table.add("alice".to_string(), 11);
    table.add("bob".to_string(), -9);
    assert!(!table.is_empty());
    assert_eq!(table.get(&"alice".to_string()), Some(16));
    assert_eq!(table.get(&"bob".to_string()), Some(-2));
    assert_eq!(table.get(&"carol".to_string()), None);
    assert_eq!(table.find(&"alice".to_string()), Some(0));
    assert_eq!(table.find(&"bob".to_string()), Some(1));
    assert_eq!(table.entries.len(), 2);
}

#[test]
fn load_table_heaviest_is_the_last_of_the_largest() {
    let mut table = LoadTable::new();
    assert_eq!(table.heaviest(), None);
    table.add("a".to_string(), 3);
    assert_eq!(table.heaviest(), Some(0));
    table.add("b".to_string(), 9);
    table.add("c".to_string(), 9);
    table.add("d".to_string(), 1);
    assert_eq!(table.heaviest(), Some(2));
}

#[test]
fn initial_load_sums_by_person() {
    let previous = YamlSchedule {
        schedule: vec![
            entry("alice", date(2025, 1, 1), date(2025, 1, 4)),
            entry("bob", date(2025, 1, 4), date(2025, 1, 7)),
            entry("alice", date(2025, 1, 7), date(2025, 1, 10)),
            entry("bob", date(2025, 1, 10), date(2025, 1, 11)),
        ],
    };
    let table = calculate_initial_load(&previous).unwrap();
    assert_eq!(table.get(&"alice".to_string()), Some(6 * 86_400));
    assert_eq!(table.get(&"bob".to_string()), Some(4 * 86_400));
    assert_eq!(table.get(&"carol".to_string()), None);
    assert_eq!(table.entries[0].id, "alice");
    assert_eq!(table.entries[1].id, "bob");
}

#[test]
fn initial_load_of_nothing_is_empty() {
    let table = calculate_initial_load(&YamlSchedule { schedule: vec![] }).unwrap();
    assert!(table.is_empty());
}

#[test]
fn initial_load_takes_a_turn_backwards_as_negative() {
    let previous = YamlSchedule {
        schedule: vec![
            entry("alice", date(2025, 1, 4), date(2025, 1, 1)),
            entry("alice", date(2025, 1, 1), date(2025, 1, 2)),
        ],
    };
    let table = calculate_initial_load(&previous).unwrap();
    assert_eq!(table.get(&"alice".to_string()), Some(-2 * 86_400));
}

#[test]
fn initial_load_stops_at_the_limit() {
    let first = CalendarDate::from_day_number(turns::calendar::MIN_DAY).unwrap();
    let last = CalendarDate::from_day_number(turns::calendar::MAX_DAY).unwrap();
    let once = YamlSchedule { schedule: vec![entry("alice", first, last)] };
    let table = calculate_initial_load(&once).unwrap();
    let span = (turns::calendar::MAX_DAY as i64 - turns::calendar::MIN_DAY as i64) * 86_400;
    assert!(span <= LOAD_LIMIT);
    assert_eq!(table.get(&"alice".to_string()), Some(span));

    let twice = YamlSchedule {
        schedule: vec![entry("alice", first, last), entry("bob", first, last), entry("alice", first, last)],
    };
    assert!(calculate_initial_load(&twice).is_none());

    let back = YamlSchedule {
        schedule: vec![entry("alice", first, last), entry("alice", last, first), entry("alice", first, last)],
    };
    assert_eq!(calculate_initial_load(&back).unwrap().get(&"alice".to_string()), Some(span));
}
