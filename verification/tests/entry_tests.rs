use planner::{AppError, Entry, EntryTrait};

fn entry(target: &str, time: &str) -> Entry {
    match Entry::try_from(target, time) {
        Ok(entry) => entry,
        Err(error) => panic!("no entry: {}", error.to_string()),
    }
}

#[test]
fn buy_milk_at_nine_five() {
    let made = entry("Buy milk", "9:5");
    assert_eq!(made.time(), "9:05");
    assert_eq!(made.target(), "Buy milk");
    assert_eq!(made.to_string(), "Время: 9:05\nЗадача: Buy milk\n");
}

#[test]
fn task_is_taken_without_the_white_space_around_it() {
    let made = entry("  Call mom \t\n", "09:00\n");
    assert_eq!(made.target(), "Call mom");
    assert_eq!(made.time(), "9:00");
    let inner = entry("\u{a0}a  b\u{3000}", "1:1");
    assert_eq!(inner.target(), "a  b");
}

#[test]
fn empty_task_ends_the_dialog() {
    assert!(matches!(Entry::try_from("", "9:30"), Err(AppError::Exit)));
    assert!(matches!(Entry::try_from(" \t\n", "9:30"), Err(AppError::Exit)));
    assert!(matches!(Entry::try_from("", "25:00"), Err(AppError::Exit)));
}

#[test]
fn empty_time_ends_the_dialog() {
    assert!(matches!(Entry::try_from("Meeting", ""), Err(AppError::Exit)));
    assert!(matches!(Entry::try_from("Meeting", "\n"), Err(AppError::Exit)));
    assert!(matches!(Entry::try_from("Meeting", "  \u{2003} "), Err(AppError::Exit)));
}

#[test]
fn invalid_time_is_refused_with_its_message() {
    match Entry::try_from("Meeting", "25:00") {
        Err(AppError::Msg(words)) => assert_eq!(words, "Invalid time."),
        _ => panic!("25:00 was not refused"),
    }
    assert!(matches!(Entry::try_from("Meeting", "soon"), Err(AppError::Msg(_))));
    assert!(matches!(Entry::try_from("Meeting", "12:60"), Err(AppError::Msg(_))));
}

#[test]
fn entries_are_equal_if_they_say_the_same() {
    assert!(entry("a", "9:5") == entry(" a ", "09:05"));
    assert!(entry("a", "9:05") != entry("b", "9:05"));
    assert!(entry("a", "9:05") != entry("a", "9:06"));
    let made = entry("a", "9:05");
    assert!(made.clone() == made);
}

#[test]
fn default_entry_is_empty() {
    let empty = Entry::default();
    assert_eq!(empty.time(), "");
    assert_eq!(empty.target(), "");
    assert_eq!(empty.order_key(), None);
    assert_eq!(empty.to_string(), "Время: \nЗадача: \n");
}

#[test]
fn entries_are_ordered_by_the_digits_of_their_time() {
    assert_eq!(entry("a", "9:30").order_key(), Some(930));
    assert_eq!(entry("a", "14:05").order_key(), Some(1405));
    assert_eq!(entry("a", "0:0").order_key(), Some(0));
    assert!(entry("a", "9:59").order_key() < entry("a", "10:00").order_key());
}

#[test]
fn error_words() {
    assert_eq!(AppError::Exit.to_string(), "Выход");
    assert_eq!(AppError::Msg("Invalid time.").to_string(), "Invalid time.");
    assert_eq!(AppError::invalid_time().to_string(), "Invalid time.");
    assert_eq!(AppError::invalid_time().report(), "Error: Invalid time.\n");
    assert_eq!(AppError::Exit.report(), "Error: Выход\n");
    assert_eq!(AppError::Msg("").report(), "Error: \n");
}
