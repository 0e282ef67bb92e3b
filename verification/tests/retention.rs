use mongo_backup::retention::{newest_first, prune, DirEntry, PrunePlan, RETENTION_WINDOW};

fn file(path: &str, modified: i128) -> DirEntry {
    DirEntry { path: path.to_string(), is_file: true, size: 1, modified }
}

fn dir(path: &str, modified: i128) -> DirEntry {
    DirEntry { path: path.to_string(), is_file: false, size: 4096, modified }
}

fn paths(entries: &[DirEntry], places: &[usize]) -> Vec<String> {
    places.iter().map(|&i| entries[i].path.clone()).collect()
}

#[test]
fn the_window_holds_three_files() {
    assert_eq!(RETENTION_WINDOW, 3);
}

#[test]
fn five_files_lose_the_two_oldest() {
    let entries = vec![file("F1", 10), file("F2", 20), file("F3", 30), file("F4", 40), file("F5", 50)];
    let plan = prune(&entries);
    assert_eq!(paths(&entries, &plan.keep), ["F5", "F4", "F3"]);
    assert_eq!(paths(&entries, &plan.delete), ["F2", "F1"]);
}

#[test]
fn up_to_three_files_all_stay() {
    assert_eq!(prune(&vec![]), PrunePlan { keep: vec![], delete: vec![] });
    let one = vec![file("a", 5)];
    assert_eq!(prune(&one), PrunePlan { keep: vec![0], delete: vec![] });
    let two = vec![file("a", 5), file("b", 9)];
    assert_eq!(prune(&two), PrunePlan { keep: vec![1, 0], delete: vec![] });
    let three = vec![file("a", 5), file("b", 9), file("c", 1)];
    assert_eq!(prune(&three), PrunePlan { keep: vec![1, 0, 2], delete: vec![] });
}

#[test]
fn four_files_lose_one() {
    let entries = vec![file("a", 5), file("b", 9), file("c", 1), file("d", 7)];
    assert_eq!(prune(&entries), PrunePlan { keep: vec![1, 3, 0], delete: vec![2] });
}

#[test]
fn all_but_three_go_whatever_the_order_of_the_scan() {
    let stamps: [i128; 8] = [40, -3, 77, 12, 0, 1_000_000_000_000_000_000_000, 5, 13];
    let entries: Vec<DirEntry> =
        stamps.iter().enumerate().map(|(i, &m)| file(&format!("f{i}"), m)).collect();
    let plan = prune(&entries);
    assert_eq!(plan.keep, [5, 2, 0]);
    assert_eq!(plan.delete, [7, 3, 6, 4, 1]);
    assert_eq!(plan.delete.len(), entries.len() - 3);
}

#[test]
fn files_of_one_instant_rank_in_scan_order() {
    let entries = vec![file("a", 7), file("b", 7), file("c", 7), file("d", 7), file("e", 7)];
    assert_eq!(prune(&entries), PrunePlan { keep: vec![0, 1, 2], delete: vec![3, 4] });
    let mixed = vec![file("a", 1), file("b", 9), file("c", 9), file("d", 1), file("e", 9), file("f", 9)];
    assert_eq!(prune(&mixed), PrunePlan { keep: vec![1, 2, 4], delete: vec![5, 0, 3] });
}

#[test]
fn directories_are_neither_counted_nor_deleted() {
    let entries = vec![
        dir("d1", 100),
        file("a", 5),
        dir("d2", 1),
        file("b", 9),
        file("c", 1),
        dir("d3", 50),
    ];
    assert_eq!(prune(&entries), PrunePlan { keep: vec![3, 1, 4], delete: vec![] });
    let more = vec![
        dir("d1", 100),
        file("a", 5),
        dir("d2", 1),
        file("b", 9),
        file("c", 1),
        dir("d3", 50),
        file("d", 7),
        dir("d4", 0),
    ];
    assert_eq!(prune(&more), PrunePlan { keep: vec![3, 6, 1], delete: vec![4] });
    let only_dirs = vec![dir("d1", 1), dir("d2", 2), dir("d3", 3), dir("d4", 4), dir("d5", 5)];
    assert_eq!(prune(&only_dirs), PrunePlan { keep: vec![], delete: vec![] });
}

#[test]
fn taking_the_directories_out_changes_nothing() {
    let with_dirs = vec![
        file("a", 3),
        dir("x", 9),
        file("b", 8),
        file("c", 3),
        dir("y", 8),
        file("d", 1),
        file("e", 8),
    ];
    let without: Vec<DirEntry> = vec![file("a", 3), file("b", 8), file("c", 3), file("d", 1), file("e", 8)];
    let plan = prune(&with_dirs);
    let bare = prune(&without);
    assert_eq!(paths(&with_dirs, &plan.keep), paths(&without, &bare.keep));
    assert_eq!(paths(&with_dirs, &plan.delete), paths(&without, &bare.delete));
    assert_eq!(paths(&with_dirs, &plan.delete), ["c", "d"]);
}

#[test]
fn newest_come_first() {
    let entries = vec![file("a", 3), dir("x", 9), file("b", 8), file("c", 3), file("d", -1)];
    assert_eq!(newest_first(&entries), [2, 0, 3, 4]);
}

#[test]
fn plan_is_the_newest_first_order_cut_after_three() {
    let entries: Vec<DirEntry> = (0..40)
        .map(|i| {
            let stamp = ((i * 7919) % 13) as i128;
            if i % 5 == 4 {
                dir(&format!("d{i}"), stamp)
            } else {
                file(&format!("f{i}"), stamp)
            }
        })
        .collect();
    let mut expected: Vec<usize> = (0..entries.len()).filter(|&i| entries[i].is_file).collect();
    expected.sort_by(|&a, &b| entries[b].modified.cmp(&entries[a].modified));
    let plan = prune(&entries);
    assert_eq!(plan.keep, expected[..3]);
    assert_eq!(plan.delete, expected[3..]);
    assert_eq!(newest_first(&entries), expected);
}
