use clipwise::history::{absorb_at, sort_items, StoreAction, MAX_UNPINNED};
use clipwise::item::{ClipboardItem, Timestamp};

fn ts(secs: i64) -> Timestamp {
    Timestamp { secs, nanos: 0 }
}

fn item(id: &str, content: &str, secs: i64, pinned: bool) -> ClipboardItem {
    ClipboardItem { id: id.to_string(), content: content.to_string(), copied_at: ts(secs), pinned }
}

fn ids(items: &[ClipboardItem]) -> Vec<&str> {
    items.iter().map(|i| i.id.as_str()).collect()
}

#[test]
fn sort_puts_pinned_first_then_newest() {
    let mut items = vec![
        item("a", "A", 10, false),
        item("b", "B", 30, false),
        item("c", "C", 5, true),
        item("d", "D", 20, true),
        item("e", "E", 40, false),
    ];
    sort_items(&mut items);
    assert_eq!(ids(&items), vec!["d", "c", "e", "b", "a"]);
}

#[test]
fn sort_keeps_ties_in_place() {
    let mut items = vec![
        item("x", "X", 10, false),
        item("y", "Y", 10, false),
        item("z", "Z", 10, false),
        item("p", "P", 10, true),
    ];
    sort_items(&mut items);
    assert_eq!(ids(&items), vec!["p", "x", "y", "z"]);
}

#[test]
fn sort_orders_by_nanoseconds_within_a_second() {
    let mut items = vec![
        ClipboardItem { id: "early".into(), content: "1".into(), copied_at: Timestamp { secs: 7, nanos: 100 }, pinned: false },
        ClipboardItem { id: "late".into(), content: "2".into(), copied_at: Timestamp { secs: 7, nanos: 900 }, pinned: false },
    ];
    sort_items(&mut items);
    assert_eq!(ids(&items), vec!["late", "early"]);
}

#[test]
fn sort_of_sorted_history_changes_nothing() {
    let mut items = vec![item("p", "P", 1, true), item("n", "N", 9, false), item("o", "O", 3, false)];
    sort_items(&mut items);
    let first: Vec<String> = items.iter().map(|i| i.id.clone()).collect();
    sort_items(&mut items);
    let second: Vec<String> = items.iter().map(|i| i.id.clone()).collect();
    assert_eq!(first, second);
}

#[test]
fn sort_of_empty_history() {
    let mut items: Vec<ClipboardItem> = Vec::new();
    sort_items(&mut items);
    assert!(items.is_empty());
}

#[test]
fn absorb_new_text_goes_to_top() {
    let mut items = vec![item("a", "alpha", 10, false)];
    let action = absorb_at(&mut items, item("b", "beta", 20, false), ts(99));
    assert_eq!(action, StoreAction::SaveAll);
    assert_eq!(ids(&items), vec!["b", "a"]);
    assert_eq!(items[0].copied_at, ts(20));
}

#[test]
fn absorb_repeated_text_moves_existing_entry_up() {
    let mut items = vec![item("a", "alpha", 30, false), item("b", "beta", 20, false), item("c", "gamma", 10, false)];
    let action = absorb_at(&mut items, item("fresh", "gamma", 40, false), ts(50));
    assert_eq!(ids(&items), vec!["c", "a", "b"]);
    assert_eq!(items[0].copied_at, ts(50));
    assert_eq!(items.len(), 3);
    assert_eq!(action, StoreAction::SaveItemAndOrder { index: 0 });
}

#[test]
fn absorb_repeated_pinned_text_stays_pinned() {
    let mut items = vec![item("p", "keep", 5, true), item("a", "alpha", 30, false)];
    let action = absorb_at(&mut items, item("new", "keep", 40, false), ts(60));
    assert_eq!(ids(&items), vec!["p", "a"]);
    assert!(items[0].pinned);
    assert_eq!(items[0].copied_at, ts(60));
    assert_eq!(action, StoreAction::SaveItemAndOrder { index: 0 });
}

#[test]
fn absorb_reports_the_updated_entry_below_pinned_ones() {
    let mut items = vec![item("p", "pinned", 5, true), item("a", "alpha", 30, false), item("b", "beta", 20, false)];
    let action = absorb_at(&mut items, item("x", "beta", 0, false), ts(60));
    assert_eq!(ids(&items), vec!["p", "b", "a"]);
    assert_eq!(action, StoreAction::SaveItemAndOrder { index: 1 });
}

#[test]
fn absorb_drops_oldest_unpinned_past_the_cap() {
    let mut items: Vec<ClipboardItem> = Vec::new();
    items.push(item("pin", "pinned text", 1, true));
    for k in 0..MAX_UNPINNED {
        let secs = 1000 - k as i64;
        items.push(item(&format!("id{k}"), &format!("text {k}"), secs, false));
    }
    let oldest = format!("id{}", MAX_UNPINNED - 1);
    let action = absorb_at(&mut items, item("newest", "brand new", 5000, false), ts(6000));
    assert_eq!(action, StoreAction::SaveAll);
    assert_eq!(items.len(), MAX_UNPINNED + 1);
    assert_eq!(items.iter().filter(|i| !i.pinned).count(), MAX_UNPINNED);
    assert!(items.iter().all(|i| i.id != oldest));
    assert_eq!(items[0].id, "pin");
    assert_eq!(items[1].id, "newest");
}

#[test]
fn absorb_under_the_cap_keeps_everything() {
    let mut items: Vec<ClipboardItem> = Vec::new();
    for k in 0..(MAX_UNPINNED - 1) {
        items.push(item(&format!("id{k}"), &format!("text {k}"), 1000 - k as i64, false));
    }
    absorb_at(&mut items, item("newest", "brand new", 5000, false), ts(6000));
    assert_eq!(items.len(), MAX_UNPINNED);
}

#[test]
fn absorb_never_drops_pinned_entries() {
    let mut items: Vec<ClipboardItem> = Vec::new();
    for k in 0..MAX_UNPINNED {
        items.push(item(&format!("u{k}"), &format!("u {k}"), 1000 - k as i64, false));
    }
    for k in 0..3 {
        items.push(item(&format!("p{k}"), &format!("p {k}"), 1 + k as i64, true));
    }
    sort_items(&mut items);
    absorb_at(&mut items, item("n", "new text", 9000, false), ts(9000));
    assert_eq!(items.iter().filter(|i| i.pinned).count(), 3);
    assert_eq!(items.iter().filter(|i| !i.pinned).count(), MAX_UNPINNED);
}
