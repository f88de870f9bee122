use dirmtime::report::report;
use dirmtime::time::{later, Timestamp};
use dirmtime::tree::{resolve, Entry};

fn at(secs: i64, nanos: u32) -> Timestamp {
    Timestamp { secs, nanos }
}

fn leaf(path: &str, is_dir: bool, modified: Option<Timestamp>) -> Entry {
    Entry { path: path.to_string(), is_dir, modified, children: Vec::new() }
}

#[test]
fn parent_time_bounds_child_time() {
    let child = Entry {
        path: "d/c".to_string(),
        is_dir: true,
        modified: Some(at(10, 0)),
        children: vec![leaf("d/c/f", false, Some(at(30, 5)))],
    };
    let child_time = resolve(&child).unwrap();
    let parent = Entry { path: "d".to_string(), is_dir: true, modified: Some(at(20, 0)), children: vec![child] };
    let parent_time = resolve(&parent).unwrap();
    assert!(child_time.is_not_after(&parent_time));
    assert_eq!(parent_time, at(30, 5));
}

#[test]
fn own_time_is_a_floor() {
    let d = Entry {
        path: "d".to_string(),
        is_dir: true,
        modified: Some(at(50, 0)),
        children: vec![leaf("d/old", false, Some(at(1, 0)))],
    };
    assert_eq!(resolve(&d), Some(at(50, 0)));
}

#[test]
fn timeless_subtree_has_no_time() {
    let d = Entry {
        path: "d".to_string(),
        is_dir: true,
        modified: None,
        children: vec![leaf("d/x", false, None), leaf("d/y", true, None)],
    };
    assert_eq!(resolve(&d), None);
    assert!(report(&vec![d]).is_empty());
}

#[test]
fn file_in_subdirectory_that_is_not_a_directory_has_no_subtree() {
    // a plain file contributes its own time only, even with entries recorded beneath it
    let odd = Entry {
        path: "d/f".to_string(),
        is_dir: false,
        modified: Some(at(2, 0)),
        children: vec![leaf("d/f/g", false, Some(at(90, 0)))],
    };
    let d = Entry { path: "d".to_string(), is_dir: true, modified: Some(at(1, 0)), children: vec![odd] };
    assert_eq!(resolve(&d), Some(at(2, 0)));
}

#[test]
fn top_level_file_never_reported() {
    let top = vec![
        leaf("r/newest.txt", false, Some(at(1_000, 0))),
        leaf("r/dir", true, Some(at(1, 0))),
    ];
    let rows = report(&top);
    assert_eq!(rows.len(), 1);
    assert_eq!(rows[0].path, "r/dir");
}

#[test]
fn rows_are_newest_first() {
    let top = vec![
        leaf("r/a", true, Some(at(5, 0))),
        leaf("r/b", true, Some(at(5, 7))),
        leaf("r/c", true, Some(at(-3, 0))),
        leaf("r/d", true, Some(at(40, 0))),
    ];
    let rows = report(&top);
    let names: Vec<&str> = rows.iter().map(|r| r.path.as_str()).collect();
    assert_eq!(names, vec!["r/d", "r/b", "r/a", "r/c"]);
    for w in rows.windows(2) {
        assert!(w[1].time.is_not_after(&w[0].time));
    }
}

#[test]
fn later_treats_absence_as_identity() {
    assert_eq!(later(None, None), None);
    assert_eq!(later(Some(at(3, 0)), None), Some(at(3, 0)));
    assert_eq!(later(None, Some(at(-3, 0))), Some(at(-3, 0)));
    assert_eq!(later(Some(at(3, 1)), Some(at(3, 2))), Some(at(3, 2)));
    assert_eq!(later(Some(at(4, 0)), Some(at(3, 999))), Some(at(4, 0)));
}
