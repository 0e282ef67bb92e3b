use mongo_backup::date::DateError;
use mongo_backup::eviction::{find_oldest_file, select_oldest, ListingError};

fn listing(names: &[&str]) -> Vec<String> {
    names.iter().map(|n| n.to_string()).collect()
}

#[test]
fn six_dated_names_give_the_oldest() {
    let names = listing(&[
        "2024-01-01_a.zip",
        "2024-01-02_b.zip",
        "2024-01-03_c.zip",
        "2024-01-04_d.zip",
        "2024-01-05_e.zip",
        "2024-01-06_f.zip",
    ]);
    assert_eq!(select_oldest(&names), Ok(Some("2024-01-01_a.zip".to_string())));
    let raw = "2024-01-01_a.zip\n2024-01-02_b.zip\n2024-01-03_c.zip\n2024-01-04_d.zip\n2024-01-05_e.zip\n2024-01-06_f.zip";
    assert_eq!(find_oldest_file(raw), Ok("2024-01-01_a.zip".to_string()));
}

#[test]
fn four_names_give_nothing() {
    let names = listing(&["2024-01-01_a", "2024-01-02_b", "2024-01-03_c", "2024-01-04_d"]);
    assert_eq!(select_oldest(&names), Ok(None));
    assert_eq!(
        find_oldest_file("2024-01-01_a\n2024-01-02_b\n2024-01-03_c\n2024-01-04_d\n"),
        Ok(String::new())
    );
}

#[test]
fn short_listings_give_nothing_whatever_they_hold() {
    assert_eq!(select_oldest(&listing(&[])), Ok(None));
    assert_eq!(find_oldest_file(""), Ok(String::new()));
    assert_eq!(find_oldest_file("\n\n\n\n\n\n\n\n"), Ok(String::new()));
    assert_eq!(select_oldest(&listing(&["junk", "more junk", "2024-13-45_x"])), Ok(None));
    assert_eq!(find_oldest_file("a\nb\nc\nd\ne"), Ok(String::new()));
    assert_eq!(
        select_oldest(&listing(&["", "a", "", "b", "", "c", "", "d", "", "e", ""])),
        Ok(None)
    );
}

#[test]
fn the_floor_is_six_names() {
    let five = "2024-01-05_e\n2024-01-04_d\n2024-01-03_c\n2024-01-02_b\n2024-01-01_a\n";
    assert_eq!(find_oldest_file(five), Ok(String::new()));
    let six = "2024-01-06_f\n2024-01-05_e\n2024-01-04_d\n2024-01-03_c\n2024-01-02_b\n2024-01-01_a\n";
    assert_eq!(find_oldest_file(six), Ok("2024-01-01_a".to_string()));
}

#[test]
fn raw_listing_is_cut_at_line_breaks() {
    let raw = "2024-03-05_e\n2024-03-02_b\n\n2024-03-01_a\n2024-03-04_d\n2024-03-03_c\n2024-03-06_f\n";
    assert_eq!(find_oldest_file(raw), Ok("2024-03-01_a".to_string()));
}

#[test]
fn oldest_is_found_wherever_it_stands() {
    let names = [
        "2024-03-05_e",
        "2023-12-31_z",
        "2024-03-01_a",
        "2024-03-04_d",
        "2024-03-03_c",
        "2024-03-06_f",
        "2024-01-31_g",
    ];
    for shift in 0..names.len() {
        let mut rotated = names.to_vec();
        rotated.rotate_left(shift);
        assert_eq!(select_oldest(&listing(&rotated)), Ok(Some("2023-12-31_z".to_string())));
    }
}

#[test]
fn first_of_equal_dates_wins() {
    let names = listing(&[
        "2024-03-05_e",
        "2024-03-01_second-in-name-order",
        "2024-03-04_d",
        "2024-03-01_first-in-name-order",
        "2024-03-03_c",
        "2024-03-01_a",
    ]);
    assert_eq!(select_oldest(&names), Ok(Some("2024-03-01_second-in-name-order".to_string())));
}

#[test]
fn dates_are_ordered_as_dates_not_as_text() {
    let names = listing(&[
        "2024-10-01_a",
        "2024-09-30_b",
        "2025-01-01_c",
        "2024-12-31_d",
        "2024-09-30_e",
        "2024-11-15_f",
    ]);
    assert_eq!(select_oldest(&names), Ok(Some("2024-09-30_b".to_string())));
}

#[test]
fn undated_name_is_reported() {
    let raw = "2024-03-05_e\n2024-03-02_b\nlatest\n2024-03-04_d\n2024-03-03_c\n2024-03-06_f";
    assert_eq!(
        find_oldest_file(raw),
        Err(ListingError { entry: 2, reason: DateError::MissingSeparator })
    );
}

#[test]
fn first_bad_name_is_the_one_reported() {
    let names = listing(&[
        "2024-03-05_e",
        "",
        "2024-03-02_b",
        "2024-3-4_d",
        "",
        "2024-02-30_c",
        "none",
        "2024-03-06_f",
    ]);
    assert_eq!(
        select_oldest(&names),
        Err(ListingError { entry: 2, reason: DateError::Malformed })
    );
}

#[test]
fn bad_name_in_last_place_still_fails() {
    let names = listing(&[
        "2024-03-05_e",
        "2024-03-02_b",
        "2024-03-04_d",
        "2024-03-03_c",
        "2024-03-06_f",
        "2023-02-29_g",
    ]);
    assert_eq!(
        select_oldest(&names),
        Err(ListingError { entry: 5, reason: DateError::NoSuchDate })
    );
}

#[test]
fn carriage_returns_are_part_of_the_name() {
    let raw = "2024-03-05_e\r\n2024-03-02_b\r\n2024-03-01_a\r\n2024-03-04_d\r\n2024-03-03_c\r\n2024-03-06_f\r\n";
    assert_eq!(find_oldest_file(raw), Ok("2024-03-01_a\r".to_string()));
}
