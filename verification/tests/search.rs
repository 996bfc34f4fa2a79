use clipwise::item::{ClipboardItem, Timestamp};
use clipwise::search::{compute_filtered, order_matches};

fn item(id: &str, content: &str, pinned: bool) -> ClipboardItem {
    ClipboardItem { id: id.to_string(), content: content.to_string(), copied_at: Timestamp { secs: 0, nanos: 0 }, pinned }
}

#[test]
fn empty_query_shows_everything_in_order() {
    let items = vec![item("a", "one", true), item("b", "two", false), item("c", "three", false)];
    assert_eq!(compute_filtered(&items, ""), vec![0, 1, 2]);
    assert_eq!(compute_filtered(&Vec::<ClipboardItem>::new(), ""), Vec::<usize>::new());
}

#[test]
fn query_keeps_only_matches() {
    let items = vec![item("a", "apple pie", false), item("b", "banana", false), item("c", "grape", false)];
    let shown = compute_filtered(&items, "ap");
    assert!(shown.contains(&0));
    assert!(shown.contains(&2));
    assert!(!shown.contains(&1));
    assert_eq!(compute_filtered(&items, "zzz"), Vec::<usize>::new());
}

#[test]
fn pinned_matches_come_first() {
    let items = vec![item("a", "rust", false), item("b", "rusty nail", true)];
    assert_eq!(compute_filtered(&items, "rust"), vec![1, 0]);
}

#[test]
fn order_matches_by_pin_then_score_then_position() {
    let items = vec![item("a", "", false), item("b", "", false), item("c", "", true), item("d", "", false), item("e", "", false)];
    let scores = vec![Some(5), None, Some(1), Some(9), Some(5)];
    assert_eq!(order_matches(&items, &scores), vec![2, 3, 0, 4]);
}
