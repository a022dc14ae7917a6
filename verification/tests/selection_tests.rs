use dupefinder::scanner::FileInfo;
use dupefinder::selection::calculate_savings;
use dupefinder::selection::index_of_newest;
use dupefinder::selection::index_of_oldest;
use dupefinder::selection::keep_only;
use dupefinder::selection::new_group;
use dupefinder::selection::unkept_files;
use dupefinder::selection::DupeFinderApp;
use dupefinder::selection::DuplicateGroup;

fn fi(path: &str, size: u64) -> FileInfo {
    FileInfo { path: path.to_string(), size }
}

#[test]
fn new_group_keeps_everything() {
    let group = new_group(vec![fi("a", 2), fi("b", 2)]);
    assert_eq!(group.selected, vec![true, true]);
    assert_eq!(group.files.len(), 2);
    assert_eq!(calculate_savings(&vec![group]), 0);
}

#[test]
fn savings_sums_unkept_sizes() {
    let g1 = DuplicateGroup {
        files: vec![fi("a", 100), fi("b", 100), fi("c", 100)],
        selected: vec![true, false, false],
    };
    let g2 = DuplicateGroup {
        files: vec![fi("d", 7), fi("e", 7)],
        selected: vec![false, true],
    };
    assert_eq!(calculate_savings(&vec![g1, g2]), 207);
}

#[test]
fn app_state_recomputes_savings() {
    let group = DuplicateGroup {
        files: vec![fi("a", 10), fi("b", 10)],
        selected: vec![true, false],
    };
    let mut app = DupeFinderApp { duplicate_groups: vec![group], total_size_savings: 0 };
    app.calculate_savings();
    assert_eq!(app.total_size_savings, 10);
}

#[test]
fn unkept_files_lists_deletions_in_order() {
    let group = DuplicateGroup {
        files: vec![fi("a", 3), fi("b", 3), fi("c", 3)],
        selected: vec![true, false, false],
    };
    assert_eq!(unkept_files(&group), vec![fi("b", 3), fi("c", 3)]);
}

#[test]
fn keep_only_marks_one_index() {
    assert_eq!(keep_only(4, 2), vec![false, false, true, false]);
    assert_eq!(keep_only(0, 0), Vec::<bool>::new());
}

#[test]
fn newest_picks_last_maximum() {
    assert_eq!(index_of_newest(&vec![Some(5), Some(5), Some(3)]), Some(1));
    assert_eq!(index_of_newest(&vec![None, Some(1)]), Some(1));
    assert_eq!(index_of_newest(&vec![Some(1), None]), Some(0));
    assert_eq!(index_of_newest(&Vec::new()), None);
}

#[test]
fn oldest_picks_first_minimum() {
    assert_eq!(index_of_oldest(&vec![Some(3), Some(3), Some(5)]), Some(0));
    assert_eq!(index_of_oldest(&vec![Some(1), None]), Some(1));
    assert_eq!(index_of_oldest(&Vec::new()), None);
}

#[test]
fn keep_newest_then_delete_rest() {
    let group = new_group(vec![fi("old", 50), fi("new", 50)]);
    let times = vec![Some(10), Some(20)];
    let k = index_of_newest(&times).unwrap();
    let reselected = DuplicateGroup {
        files: group.files,
        selected: keep_only(2, k),
    };
    assert_eq!(unkept_files(&reselected), vec![fi("old", 50)]);
    assert_eq!(calculate_savings(&vec![reselected]), 50);
}
