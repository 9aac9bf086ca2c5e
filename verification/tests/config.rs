use turns::calendar::CalendarDate;
use turns::config::{Algo, Config, ConfigError, Person, Preference, Schedule, OOO};

fn date(year: i32, month: u32, day: u32) -> CalendarDate {
    CalendarDate::from_ymd_opt(year, month, day).unwrap()
}

fn person(name: &str) -> Person {
    Person { name: name.to_string(), ooo: None, preferences: Some(vec![]) }
}

fn january(algo: Algo) -> Schedule {
    Schedule { from: date(2025, 1, 1), to: date(2025, 1, 31), algo }
}

#[test]
fn test_parse_valid_config() {
    let alice = Person {
        name: "Alice".to_string(),
        ooo: None,
        preferences: Some(vec![Preference::Want(date(2025, 1, 10))]),
    };
    let bob = Person { name: "Bob".to_string(), ooo: None, preferences: None };
    let config = Config {
        people: vec![("alice".to_string(), alice), ("bob".to_string(), bob)],
        schedule: january(Algo::RoundRobin { turn_length_days: 7 }),
    };
    let result = config.validate();
    assert!(result.is_ok());
}

#[test]
fn test_parse_empty_person_name() {
    let config = Config {
        people: vec![("alice".to_string(), person(""))],
        schedule: january(Algo::RoundRobin { turn_length_days: 7 }),
    };
    let result = config.validate();
    assert!(matches!(result, Err(ConfigError::EmptyPersonName)));
}

#[test]
fn test_parse_invalid_date_range() {
    let config = Config {
        people: vec![("alice".to_string(), person("Alice"))],
        schedule: Schedule {
            from: date(2025, 1, 31),
            to: date(2025, 1, 1),
            algo: Algo::RoundRobin { turn_length_days: 7 },
        },
    };
    let result = config.validate();
    assert!(matches!(result, Err(ConfigError::InvalidDateRange)));
}

#[test]
fn test_parse_invalid_turn_length() {
    let config = Config {
        people: vec![("alice".to_string(), person("Alice"))],
        schedule: january(Algo::RoundRobin { turn_length_days: 0 }),
    };
    let result = config.validate();
    assert!(matches!(result, Err(ConfigError::InvalidTurnLength)));
}

#[test]
fn test_parse_invalid_ooo_period() {
    let alice = Person {
        name: "Alice".to_string(),
        ooo: Some(vec![OOO::Period { from: date(2025, 1, 10), to: date(2025, 1, 5) }]),
        preferences: Some(vec![]),
    };
    let config = Config {
        people: vec![("alice".to_string(), alice)],
        schedule: january(Algo::RoundRobin { turn_length_days: 7 }),
    };
    let result = config.validate();
    assert!(matches!(result, Err(ConfigError::InvalidOOOPeriod { .. })));
}

#[test]
fn validate_names_the_person_with_the_period() {
    let bob = Person {
        name: "Bob".to_string(),
        ooo: Some(vec![
            OOO::Day(date(2025, 1, 2)),
            OOO::Period { from: date(2025, 1, 3), to: date(2025, 1, 5) },
            OOO::Period { from: date(2025, 1, 7), to: date(2025, 1, 7) },
        ]),
        preferences: None,
    };
    let config = Config {
        people: vec![("alice".to_string(), person("Alice")), ("bob".to_string(), bob)],
        schedule: january(Algo::Greedy { turn_length_days: 2, preference_weight: None }),
    };
    match config.validate() {
        Err(ConfigError::InvalidOOOPeriod { person_name }) => assert_eq!(person_name, "Bob"),
        _ => panic!(),
    }
}

#[test]
fn validate_takes_the_rules_in_order() {
    let config = Config {
        people: vec![("alice".to_string(), person(""))],
        schedule: Schedule {
            from: date(2025, 1, 1),
            to: date(2025, 1, 1),
            algo: Algo::RoundRobin { turn_length_days: 0 },
        },
    };
    assert!(matches!(config.validate(), Err(ConfigError::InvalidDateRange)));

    let config = Config {
        people: vec![("alice".to_string(), person(""))],
        schedule: january(Algo::Greedy { turn_length_days: 0, preference_weight: Some(1) }),
    };
    assert!(matches!(config.validate(), Err(ConfigError::InvalidTurnLength)));

    let bad = Person {
        name: "Bad".to_string(),
        ooo: Some(vec![OOO::Period { from: date(2025, 1, 3), to: date(2025, 1, 3) }]),
        preferences: None,
    };
    let config = Config {
        people: vec![("bad".to_string(), bad), ("none".to_string(), person(""))],
        schedule: january(Algo::RoundRobin { turn_length_days: 1 }),
    };
    assert!(matches!(config.validate(), Err(ConfigError::InvalidOOOPeriod { .. })));
}

#[test]
fn validate_balanced_lengths() {
    let with = |min_turn_days, max_turn_days| Config {
        people: vec![("alice".to_string(), person("Alice"))],
        schedule: january(Algo::Balanced { min_turn_days, max_turn_days }),
    };
    assert!(with(1, 1).validate().is_ok());
    assert!(with(3, 7).validate().is_ok());
    assert!(matches!(with(0, 7).validate(), Err(ConfigError::InvalidTurnLength)));
    assert!(matches!(with(4, 3).validate(), Err(ConfigError::InvalidTurnLength)));
}

#[test]
fn validate_accepts_no_people() {
    let config = Config { people: vec![], schedule: january(Algo::RoundRobin { turn_length_days: 1 }) };
    assert!(config.validate().is_ok());
}

#[test]
fn invalid_period_cases() {
    let mut p = person("P");
    assert!(!p.invalid_period());
    p.ooo = Some(vec![]);
    assert!(!p.invalid_period());
    p.ooo = Some(vec![OOO::Day(date(2025, 1, 1)), OOO::Period { from: date(2025, 1, 1), to: date(2025, 1, 2) }]);
    assert!(!p.invalid_period());
    p.ooo = Some(vec![OOO::Period { from: date(2025, 1, 2), to: date(2025, 1, 2) }]);
    assert!(p.invalid_period());
}
