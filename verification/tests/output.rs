use turns::calendar::CalendarDate;
use turns::input::Person;
use turns::output::{Assignment, Schedule};

fn date(year: i32, month: u32, day: u32) -> CalendarDate {
    CalendarDate::from_ymd_opt(year, month, day).unwrap()
}

fn turn(person: usize, start: CalendarDate, end: CalendarDate) -> Assignment {
    Assignment { person, start, end }
}

fn sample() -> Schedule {
    Schedule {
        people: vec![
            Person::new("alice".to_string(), "Alice".to_string()),
            Person::new("bob".to_string(), "Bob".to_string()),
            Person::new("carol".to_string(), "Carol".to_string()),
        ],
        turns: vec![
            turn(0, date(2025, 1, 1), date(2025, 1, 4)),
            turn(1, date(2025, 1, 4), date(2025, 1, 7)),
            turn(0, date(2025, 1, 7), date(2025, 1, 10)),
            turn(1, date(2025, 1, 10), date(2025, 1, 11)),
        ],
    }
}

#[test]
fn assignment_days() {
    assert_eq!(turn(0, date(2025, 1, 1), date(2025, 1, 4)).days(), 3);
    assert_eq!(turn(0, date(2025, 2, 27), date(2025, 3, 2)).days(), 3);
    assert_eq!(turn(0, date(2024, 2, 27), date(2024, 3, 2)).days(), 4);
}

#[test]
fn schedule_load_sums_by_person() {
    let load = sample().load();
    assert_eq!(load.days.len(), 2);
    assert_eq!(load.days.get(&0), Some(&6));
    assert_eq!(load.days.get(&1), Some(&4));
    assert_eq!(load.days.get(&2), None);
}

#[test]
fn schedule_load_of_no_turns_is_empty() {
    let schedule = Schedule { people: vec![], turns: vec![] };
    assert!(schedule.load().days.is_empty());
}

#[test]
fn schedule_is_written_with_ids() {
    let written = sample().to_yaml_schedule();
    let lines: Vec<(String, CalendarDate, CalendarDate)> =
        written.schedule.iter().map(|a| (a.person.clone(), a.start, a.end)).collect();
    assert_eq!(
        lines,
        vec![
            ("alice".to_string(), date(2025, 1, 1), date(2025, 1, 4)),
            ("bob".to_string(), date(2025, 1, 4), date(2025, 1, 7)),
            ("alice".to_string(), date(2025, 1, 7), date(2025, 1, 10)),
            ("bob".to_string(), date(2025, 1, 10), date(2025, 1, 11)),
        ]
    );
}

#[test]
fn written_schedule_seeds_the_next_run() {
    let written = sample().to_yaml_schedule();
    let table = turns::load::calculate_initial_load(&written).unwrap();
    assert_eq!(table.get(&"alice".to_string()), Some(6 * 86_400));
    assert_eq!(table.get(&"bob".to_string()), Some(4 * 86_400));
}
