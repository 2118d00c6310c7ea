use tidy::removal::{holds_position, remove_by_position};

fn words(items: &[&str]) -> Vec<String> {
    items.iter().map(|w| w.to_string()).collect()
}

#[test]
fn marked_positions_leave_in_one_pass() {
    let list = words(&["a", "b", "c", "d", "e"]);
    assert_eq!(remove_by_position(vec![1, 3], list), words(&["a", "c", "e"]));
}

#[test]
fn positions_refer_to_the_snapshot() {
    // Were the entries removed one after the other, position 1 would name
    // "c" once "a" is gone.
    let list = words(&["a", "b", "c"]);
    assert_eq!(remove_by_position(vec![0, 1], list), words(&["c"]));
}

#[test]
fn a_position_marked_twice_counts_once() {
    let list = words(&["a", "b", "c"]);
    assert_eq!(remove_by_position(vec![1, 1, 1], list), words(&["a", "c"]));
}

#[test]
fn order_of_positions_does_not_matter() {
    let list = words(&["a", "b", "c", "d"]);
    assert_eq!(remove_by_position(vec![3, 0], list), words(&["b", "c"]));
}

#[test]
fn positions_beyond_the_list_mark_nothing() {
    let list = words(&["a", "b"]);
    assert_eq!(remove_by_position(vec![2, 7, usize::MAX], list), words(&["a", "b"]));
}

#[test]
fn no_positions_and_no_list() {
    assert_eq!(remove_by_position(Vec::new(), words(&["a"])), words(&["a"]));
    assert_eq!(remove_by_position(vec![0], Vec::new()), Vec::<String>::new());
    assert_eq!(remove_by_position(vec![0, 1], words(&["a", "b"])), Vec::<String>::new());
}

#[test]
fn holds_position_finds_what_is_listed() {
    let positions = vec![4, 2, 4];
    assert!(holds_position(&positions, 4));
    assert!(holds_position(&positions, 2));
    assert!(!holds_position(&positions, 3));
    assert!(!holds_position(&Vec::new(), 0));
}
