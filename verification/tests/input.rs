use turns::calendar::{CalendarDate, MAX_DAY};
use turns::config;
use turns::config::{Preference, OOO};
use turns::input::{Person, PreferenceType};

fn date(year: i32, month: u32, day: u32) -> CalendarDate {
    CalendarDate::from_ymd_opt(year, month, day).unwrap()
}

#[test]
fn person_from_config_expands_absences() {
    let described = config::Person {
        name: "Alice".to_string(),
        ooo: Some(vec![
            OOO::Day(date(2025, 1, 2)),
            OOO::Period { from: date(2025, 1, 30), to: date(2025, 2, 2) },
            OOO::Period { from: date(2025, 3, 5), to: date(2025, 3, 4) },
            OOO::Period { from: date(2025, 4, 1), to: date(2025, 4, 1) },
        ]),
        preferences: None,
    };
    let id = "alice".to_string();
    let person = Person::from((&id, &described));
    assert_eq!(person.id, "alice");
    assert_eq!(person.name, "Alice");
    let mut away: Vec<i32> = person.ooo.iter().copied().collect();
    away.sort();
    let expected: Vec<i32> = vec![
        date(2025, 1, 2),
        date(2025, 1, 30),
        date(2025, 1, 31),
        date(2025, 2, 1),
        date(2025, 2, 2),
        date(2025, 4, 1),
    ]
    .iter()
    .map(|d| d.day_number())
    .collect();
    assert_eq!(away, expected);
    assert!(person.is_ooo(date(2025, 2, 2)));
    assert!(!person.is_ooo(date(2025, 2, 3)));
    assert!(!person.is_ooo(date(2025, 3, 4)));
    assert!(person.preferences.is_empty());
}

#[test]
fn person_from_config_takes_the_later_preference() {
    let described = config::Person {
        name: "Bob".to_string(),
        ooo: None,
        preferences: Some(vec![
            Preference::Want(date(2025, 1, 2)),
            Preference::NotWant(date(2025, 1, 3)),
            Preference::NotWant(date(2025, 1, 2)),
        ]),
    };
    let id = "bob".to_string();
    let person = Person::from((&id, &described));
    assert_eq!(person.preference(date(2025, 1, 2)), Some(PreferenceType::NotWant));
    assert_eq!(person.preference(date(2025, 1, 3)), Some(PreferenceType::NotWant));
    assert_eq!(person.preference(date(2025, 1, 4)), None);
    assert_eq!(person.preferences.len(), 2);
    assert!(person.ooo.is_empty());
}

#[test]
fn person_from_config_period_up_to_the_last_day() {
    let last = CalendarDate::from_day_number(MAX_DAY).unwrap();
    let before = CalendarDate::from_day_number(MAX_DAY - 2).unwrap();
    let described = config::Person {
        name: "Carol".to_string(),
        ooo: Some(vec![OOO::Period { from: before, to: last }]),
        preferences: None,
    };
    let id = "carol".to_string();
    let person = Person::from((&id, &described));
    assert_eq!(person.ooo.len(), 3);
    assert!(person.is_ooo(last));
}

#[test]
fn person_builders() {
    let mut person = Person::new("dan".to_string(), "Dan".to_string());
    assert!(!person.is_ooo(date(2025, 1, 1)));
    person.add_ooo(date(2025, 1, 1));
    person.add_preference(date(2025, 1, 1), PreferenceType::Want);
    person.add_preference(date(2025, 1, 1), PreferenceType::NotWant);
    assert!(person.is_ooo(date(2025, 1, 1)));
    assert_eq!(person.preference(date(2025, 1, 1)), Some(PreferenceType::NotWant));
    assert_eq!(person.id, "dan");
    assert_eq!(person.name, "Dan");
}
