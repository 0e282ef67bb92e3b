use mongo_backup::retention::DirEntry;
use mongo_backup::size::{display_unit, total_size, SizeUnit, BYTES_PER_GIGABYTE};

fn entry(is_file: bool, size: u64) -> DirEntry {
    DirEntry { path: String::from("p"), is_file, size, modified: 0 }
}

#[test]
fn sizes_of_regular_files_add_up() {
    assert_eq!(total_size(&vec![]), 0);
    assert_eq!(total_size(&vec![entry(true, 5)]), 5);
    assert_eq!(total_size(&vec![entry(true, 5), entry(true, 0), entry(true, 1_000_000)]), 1_000_005);
}

#[test]
fn directories_add_nothing_to_the_size() {
    assert_eq!(total_size(&vec![entry(false, 4096)]), 0);
    assert_eq!(
        total_size(&vec![entry(true, 10), entry(false, 4096), entry(true, 20), entry(false, 1)]),
        30
    );
}

#[test]
fn sum_goes_beyond_sixty_four_bits() {
    let entries = vec![entry(true, u64::MAX), entry(true, u64::MAX), entry(true, 2)];
    assert_eq!(total_size(&entries), 2 * (u64::MAX as u128) + 2);
}

#[test]
fn gigabytes_start_at_two_to_the_thirtieth() {
    assert_eq!(BYTES_PER_GIGABYTE, 1024 * 1024 * 1024);
    assert_eq!(display_unit(0), SizeUnit::Megabytes);
    assert_eq!(display_unit(1024 * 1024), SizeUnit::Megabytes);
    assert_eq!(display_unit(BYTES_PER_GIGABYTE - 1), SizeUnit::Megabytes);
    assert_eq!(display_unit(BYTES_PER_GIGABYTE), SizeUnit::Gigabytes);
    assert_eq!(display_unit(u128::MAX), SizeUnit::Gigabytes);
}

#[test]
fn unit_agrees_with_the_size_in_gigabytes_as_a_float() {
    for total in [0u64, 1, 1 << 20, (1 << 30) - 1, 1 << 30, (1 << 30) + 1, 1 << 53, u64::MAX] {
        let in_gigabytes = total as f64 / 1024.0 / 1024.0 / 1024.0;
        let expected = if in_gigabytes >= 1.0 { SizeUnit::Gigabytes } else { SizeUnit::Megabytes };
        assert_eq!(display_unit(total as u128), expected, "{total}");
    }
}
