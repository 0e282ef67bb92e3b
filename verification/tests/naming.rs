use chrono::{Datelike, Local};
use mongo_backup::date::{parse_date_prefix, Date, DateError};
use mongo_backup::naming::{generate_filename, name_from_parts, DATE_FORMAT, TIME_FORMAT};

#[test]
fn formats_are_those_of_the_archive_names() {
    assert_eq!(DATE_FORMAT, "%Y-%m-%d");
    assert_eq!(TIME_FORMAT, "%I-%M-%S_%p");
}

#[test]
fn parts_are_joined_by_the_separator() {
    assert_eq!(name_from_parts("2024-01-05", "03-04-05_PM"), "2024-01-05_03-04-05_PM");
    assert_eq!(name_from_parts("", ""), "_");
    assert_eq!(name_from_parts("a", ""), "a_");
    assert_eq!(name_from_parts("", "b"), "_b");
}

#[test]
fn joined_name_reads_back_as_its_date_part() {
    assert_eq!(
        parse_date_prefix(&name_from_parts("2024-02-29", "11-59-59_PM")),
        Ok(Date { year: 2024, month: 2, day: 29 })
    );
    assert_eq!(
        parse_date_prefix(&name_from_parts("2023-02-29", "11-59-59_PM")),
        Err(DateError::NoSuchDate)
    );
    assert_eq!(
        parse_date_prefix(&name_from_parts("today", "11-59-59_PM")),
        Err(DateError::Malformed)
    );
}

#[test]
fn generated_name_has_date_and_time_of_now() {
    let before = Local::now();
    let name = generate_filename();
    let after = Local::now();
    let today = |now: chrono::DateTime<Local>| Date {
        year: now.year(),
        month: now.month(),
        day: now.day(),
    };
    let token = name.split('_').next().unwrap();
    assert!(token.chars().count() >= 10, "{name}");
    assert!(name.starts_with(&format!("{token}_")), "{name}");
    let date = parse_date_prefix(&name).unwrap();
    assert!(date == today(before) || date == today(after), "{name}");
    assert_eq!(name.chars().count(), 22, "{name}");
    assert!(name.ends_with("_AM") || name.ends_with("_PM"), "{name}");
    let time: Vec<&str> = name[11..19].split('-').collect();
    assert_eq!(time.len(), 3, "{name}");
    let hour: u32 = time[0].parse().unwrap();
    assert!((1..=12).contains(&hour), "{name}");
}
