use lumixbackup::entry::{clone_entries, FileEntry};
use lumixbackup::order::sort_by_time;
use lumixbackup::segment::{detect_photoshoots, gap_seconds, Photoshoot, DEFAULT_GAP_MINUTES};

fn entry(path: &str, timestamp: i64) -> FileEntry {
    FileEntry { path: path.to_string(), timestamp }
}

fn paths(shoot: &Photoshoot) -> Vec<String> {
    shoot.files.iter().map(|f| f.path.clone()).collect()
}

fn clock(hours: i64, minutes: i64) -> i64 {
    1_700_000_000 + hours * 3600 + minutes * 60
}

#[test]
fn four_files_with_a_long_pause_make_two_shoots() {
    let files = vec![
        entry("a.jpg", clock(10, 0)),
        entry("b.jpg", clock(10, 5)),
        entry("c.jpg", clock(10, 6)),
        entry("d.jpg", clock(13, 0)),
    ];
    let shoots = detect_photoshoots(&files, 120 * 60);
    assert_eq!(shoots.len(), 2);
    assert_eq!(paths(&shoots[0]), vec!["a.jpg", "b.jpg", "c.jpg"]);
    assert_eq!(paths(&shoots[1]), vec!["d.jpg"]);
}

#[test]
fn threshold_zero_keeps_files_of_one_second_together() {
    let files = vec![entry("a.jpg", 500), entry("b.jpg", 500), entry("c.jpg", 500)];
    let shoots = detect_photoshoots(&files, 0);
    assert_eq!(shoots.len(), 1);
    assert_eq!(paths(&shoots[0]), vec!["a.jpg", "b.jpg", "c.jpg"]);
}

#[test]
fn a_gap_equal_to_the_threshold_does_not_split() {
    let files = vec![entry("a.jpg", 1000), entry("b.jpg", 1060)];
    let shoots = detect_photoshoots(&files, 60);
    assert_eq!(shoots.len(), 1);
    assert_eq!(paths(&shoots[0]), vec!["a.jpg", "b.jpg"]);
}

#[test]
fn a_gap_one_second_over_the_threshold_splits() {
    let files = vec![entry("a.jpg", 1000), entry("b.jpg", 1061)];
    let shoots = detect_photoshoots(&files, 60);
    assert_eq!(shoots.len(), 2);
    assert_eq!(paths(&shoots[0]), vec!["a.jpg"]);
    assert_eq!(paths(&shoots[1]), vec!["b.jpg"]);
}

#[test]
fn no_files_give_no_shoots() {
    let shoots = detect_photoshoots(&Vec::new(), 7200);
    assert!(shoots.is_empty());
}

#[test]
fn one_file_gives_one_shoot_of_one() {
    let shoots = detect_photoshoots(&vec![entry("only.rw2", 42)], 7200);
    assert_eq!(shoots.len(), 1);
    assert_eq!(shoots[0].files, vec![entry("only.rw2", 42)]);
}

#[test]
fn files_within_the_threshold_give_one_shoot() {
    let files = vec![entry("a", 0), entry("b", 10), entry("c", 20), entry("d", 30)];
    let shoots = detect_photoshoots(&files, 10);
    assert_eq!(shoots.len(), 1);
    assert_eq!(shoots[0].files.len(), 4);
}

#[test]
fn the_gap_is_measured_to_the_file_before_not_to_the_start() {
    // Each step is within the threshold although the whole span is not.
    let files = vec![entry("a", 0), entry("b", 50), entry("c", 100), entry("d", 150)];
    let shoots = detect_photoshoots(&files, 60);
    assert_eq!(shoots.len(), 1);
}

#[test]
fn files_are_put_in_time_order_first() {
    let files = vec![
        entry("late.jpg", 9000),
        entry("early.jpg", 100),
        entry("mid.jpg", 4000),
        entry("early2.jpg", 130),
    ];
    let shoots = detect_photoshoots(&files, 60);
    assert_eq!(shoots.len(), 3);
    assert_eq!(paths(&shoots[0]), vec!["early.jpg", "early2.jpg"]);
    assert_eq!(paths(&shoots[1]), vec!["mid.jpg"]);
    assert_eq!(paths(&shoots[2]), vec!["late.jpg"]);
}

#[test]
fn files_of_one_second_keep_their_order() {
    let files = vec![
        entry("z", 7),
        entry("b", 3),
        entry("y", 7),
        entry("a", 3),
        entry("x", 7),
        entry("c", 3),
    ];
    let sorted = sort_by_time(clone_entries(&files));
    let order: Vec<&str> = sorted.iter().map(|f| f.path.as_str()).collect();
    assert_eq!(order, vec!["b", "a", "c", "z", "y", "x"]);
}

#[test]
fn sorting_matches_a_stable_sort_on_many_files() {
    let mut files = Vec::new();
    let mut seed: u64 = 12345;
    for i in 0..500 {
        seed = seed.wrapping_mul(6364136223846793005).wrapping_add(1442695040888963407);
        files.push(entry(&format!("f{}", i), ((seed >> 33) % 50) as i64 - 25));
    }
    let mut expected = clone_entries(&files);
    expected.sort_by_key(|f| f.timestamp);
    assert_eq!(sort_by_time(clone_entries(&files)), expected);
}

#[test]
fn shoots_in_a_row_are_the_sorted_catalog() {
    let mut files = Vec::new();
    let mut seed: u64 = 99;
    for i in 0..300 {
        seed = seed.wrapping_mul(6364136223846793005).wrapping_add(1442695040888963407);
        files.push(entry(&format!("f{}", i), ((seed >> 33) % 100_000) as i64));
    }
    let gap = 400;
    let shoots = detect_photoshoots(&files, gap);
    let mut row: Vec<FileEntry> = Vec::new();
    for shoot in &shoots {
        assert!(!shoot.files.is_empty());
        for pair in shoot.files.windows(2) {
            assert!(pair[1].timestamp - pair[0].timestamp <= gap);
            assert!(pair[0].timestamp <= pair[1].timestamp);
        }
        row.extend(clone_entries(&shoot.files));
    }
    for pair in shoots.windows(2) {
        let last = pair[0].files.last().unwrap().timestamp;
        let first = pair[1].files[0].timestamp;
        assert!(first - last > gap);
    }
    assert_eq!(row, sort_by_time(clone_entries(&files)));
    assert_eq!(row.len(), files.len());
}

#[test]
fn a_negative_threshold_puts_every_file_alone() {
    let files = vec![entry("a", 5), entry("b", 5), entry("c", 6)];
    let shoots = detect_photoshoots(&files, -1);
    assert_eq!(shoots.len(), 3);
}

#[test]
fn extreme_timestamps_do_not_overflow() {
    let files = vec![entry("far", i64::MAX), entry("near", i64::MIN)];
    let shoots = detect_photoshoots(&files, i64::MAX);
    assert_eq!(shoots.len(), 2);
    assert_eq!(paths(&shoots[0]), vec!["near"]);
}

#[test]
fn detection_leaves_the_catalog_alone() {
    let files = vec![entry("b", 2), entry("a", 1)];
    let _ = detect_photoshoots(&files, 10);
    assert_eq!(files, vec![entry("b", 2), entry("a", 1)]);
}

#[test]
fn a_new_shoot_is_empty_and_add_appends() {
    let mut shoot = Photoshoot::new();
    assert!(shoot.files.is_empty());
    shoot.add(entry("a.jpg", 3));
    shoot.add(entry("b.jpg", 1));
    assert_eq!(shoot.files, vec![entry("a.jpg", 3), entry("b.jpg", 1)]);
}

#[test]
fn min_and_max_hold_whatever_the_order() {
    let shoot = Photoshoot { files: vec![entry("a", 30), entry("b", -4), entry("c", 12)] };
    assert_eq!(shoot.min_timestamp(), -4);
    assert_eq!(shoot.max_timestamp(), 30);
    let single = Photoshoot { files: vec![entry("a", 9)] };
    assert_eq!(single.min_timestamp(), 9);
    assert_eq!(single.max_timestamp(), 9);
}

#[test]
fn count_by_ext_ignores_ascii_case() {
    let shoot = Photoshoot {
        files: vec![
            entry("/card/DCIM/shot1.JPG", 1),
            entry("/card/DCIM/shot2.jpg", 2),
            entry("/card/DCIM/shot3.RW2", 3),
            entry("/card/DCIM/clip.mov", 4),
            entry("/card/DCIM/notes", 5),
            entry("/card/DCIM/jpg", 6),
        ],
    };
    assert_eq!(shoot.count_by_ext("jpg"), 2);
    assert_eq!(shoot.count_by_ext("JPG"), 2);
    assert_eq!(shoot.count_by_ext("rw2"), 1);
    assert_eq!(shoot.count_by_ext("mov"), 1);
    assert_eq!(shoot.count_by_ext("png"), 0);
    assert_eq!(shoot.count_by_ext(""), 0);
}

#[test]
fn minutes_become_seconds() {
    assert_eq!(DEFAULT_GAP_MINUTES, 120);
    assert_eq!(gap_seconds(DEFAULT_GAP_MINUTES), Some(7200));
    assert_eq!(gap_seconds(0), Some(0));
    assert_eq!(gap_seconds(-3), Some(-180));
    assert_eq!(gap_seconds(i64::MAX / 60), Some(i64::MAX / 60 * 60));
    assert_eq!(gap_seconds(i64::MAX / 60 + 1), None);
    assert_eq!(gap_seconds(i64::MIN), None);
}
