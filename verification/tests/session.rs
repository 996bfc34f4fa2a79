use clipwise::history::{StoreAction, MAX_UNPINNED};
use clipwise::item::{observe, observe_at, ClipboardItem, Timestamp};
use clipwise::session::{row_action, row_shade, KeyPresses, RowAction, RowClicks, RowSlot, Session, Shade};

fn item(id: &str, content: &str, secs: i64, pinned: bool) -> ClipboardItem {
    ClipboardItem { id: id.to_string(), content: content.to_string(), copied_at: Timestamp { secs, nanos: 0 }, pinned }
}

fn no_keys() -> KeyPresses {
    KeyPresses { escape: false, enter: false, up: false, down: false, ctrl_d: false, delete: false }
}

fn sample() -> Session {
    Session::new(vec![item("p", "pinned", 1, true), item("a", "alpha", 30, false), item("b", "beta", 20, false)])
}

fn ids(s: &Session) -> Vec<&str> {
    s.items.iter().map(|i| i.id.as_str()).collect()
}

#[test]
fn new_session_starts_fresh() {
    let s = sample();
    assert_eq!(s.search_query, "");
    assert_eq!(s.confirm_delete, None);
    assert_eq!(s.selected_index, 0);
    assert!(!s.focus_requested);
}

#[test]
fn focus_is_requested_once() {
    let mut s = sample();
    assert!(s.take_focus_request());
    assert!(!s.take_focus_request());
}

#[test]
fn clamp_pulls_selection_back() {
    let mut s = sample();
    s.selected_index = 5;
    s.clamp_selection(3);
    assert_eq!(s.selected_index, 2);
    s.selected_index = 5;
    s.clamp_selection(0);
    assert_eq!(s.selected_index, 5);
    s.selected_index = 1;
    s.clamp_selection(3);
    assert_eq!(s.selected_index, 1);
}

#[test]
fn up_and_down_stay_on_the_list() {
    let mut s = sample();
    let shown = vec![0, 1, 2];
    s.handle_keys(KeyPresses { up: true, ..no_keys() }, &shown);
    assert_eq!(s.selected_index, 0);
    s.handle_keys(KeyPresses { down: true, ..no_keys() }, &shown);
    s.handle_keys(KeyPresses { down: true, ..no_keys() }, &shown);
    s.handle_keys(KeyPresses { down: true, ..no_keys() }, &shown);
    assert_eq!(s.selected_index, 2);
    s.handle_keys(KeyPresses { up: true, ..no_keys() }, &shown);
    assert_eq!(s.selected_index, 1);
    s.handle_keys(KeyPresses { down: true, ..no_keys() }, &vec![]);
    assert_eq!(s.selected_index, 1);
}

#[test]
fn escape_clears_search_then_closes() {
    let mut s = sample();
    s.search_query = "al".to_string();
    let e = s.handle_keys(KeyPresses { escape: true, ..no_keys() }, &vec![1]);
    assert!(!e.close);
    assert_eq!(s.search_query, "");
    let e = s.handle_keys(KeyPresses { escape: true, ..no_keys() }, &vec![0, 1, 2]);
    assert!(e.close);
}

#[test]
fn enter_copies_selected_and_closes() {
    let mut s = sample();
    s.selected_index = 1;
    let e = s.handle_keys(KeyPresses { enter: true, ..no_keys() }, &vec![0, 1, 2]);
    assert!(e.close);
    assert_eq!(e.copy.as_deref(), Some("alpha"));
    assert!(!e.save_all);
    let e = s.handle_keys(KeyPresses { enter: true, ..no_keys() }, &vec![]);
    assert!(e.close);
    assert_eq!(e.copy, None);
}

#[test]
fn enter_uses_selection_after_arrow_keys() {
    let mut s = sample();
    let e = s.handle_keys(KeyPresses { down: true, enter: true, ..no_keys() }, &vec![0, 1, 2]);
    assert_eq!(e.copy.as_deref(), Some("alpha"));
}

#[test]
fn ctrl_d_toggles_pin_and_reorders() {
    let mut s = sample();
    s.selected_index = 2;
    let e = s.handle_keys(KeyPresses { ctrl_d: true, ..no_keys() }, &vec![0, 1, 2]);
    assert!(e.save_all);
    assert_eq!(ids(&s), vec!["b", "p", "a"]);
    assert!(s.items[0].pinned);
    let e = s.handle_keys(KeyPresses { ctrl_d: true, ..no_keys() }, &vec![]);
    assert!(!e.save_all);
}

#[test]
fn delete_key_asks_for_confirmation_only_without_search() {
    let mut s = sample();
    s.selected_index = 1;
    s.handle_keys(KeyPresses { delete: true, ..no_keys() }, &vec![0, 1, 2]);
    assert_eq!(s.confirm_delete.as_deref(), Some("a"));
    let mut s = sample();
    s.search_query = "b".to_string();
    s.handle_keys(KeyPresses { delete: true, ..no_keys() }, &vec![2]);
    assert_eq!(s.confirm_delete, None);
}

#[test]
fn row_actions() {
    let mut s = sample();
    assert!(!s.apply_row_action(RowAction::RequestDelete("b".to_string())));
    assert_eq!(s.confirm_delete.as_deref(), Some("b"));
    assert!(!s.apply_row_action(RowAction::CancelDelete));
    assert_eq!(s.confirm_delete, None);
    assert!(s.apply_row_action(RowAction::ConfirmDelete("a".to_string())));
    assert_eq!(ids(&s), vec!["p", "b"]);
    assert_eq!(s.confirm_delete, None);
    assert!(s.apply_row_action(RowAction::TogglePin("p".to_string())));
    assert_eq!(ids(&s), vec!["b", "p"]);
    assert!(!s.items[1].pinned);
    assert!(s.apply_row_action(RowAction::TogglePin("missing".to_string())));
    assert_eq!(ids(&s), vec!["b", "p"]);
}

#[test]
fn confirm_delete_removes_every_entry_with_the_id() {
    let mut s = Session::new(vec![item("x", "one", 3, false), item("y", "two", 2, false), item("x", "three", 1, false)]);
    s.apply_row_action(RowAction::ConfirmDelete("x".to_string()));
    assert_eq!(ids(&s), vec!["y"]);
}

#[test]
fn layout_splits_sections_and_marks_rows() {
    let mut s = sample();
    s.selected_index = 1;
    s.confirm_delete = Some("b".to_string());
    let (pinned, recent) = s.layout_rows(&vec![0, 1, 2]);
    assert_eq!(pinned, vec![RowSlot { item_index: 0, selected: false, confirming: false }]);
    assert_eq!(recent, vec![
        RowSlot { item_index: 1, selected: true, confirming: false },
        RowSlot { item_index: 2, selected: false, confirming: true },
    ]);
    let (pinned, recent) = s.layout_rows(&vec![2]);
    assert!(pinned.is_empty());
    assert_eq!(recent, vec![RowSlot { item_index: 2, selected: false, confirming: true }]);
}

#[test]
fn row_shades() {
    assert_eq!(row_shade(true, true), Shade::Selected);
    assert_eq!(row_shade(false, true), Shade::Hovered);
    assert_eq!(row_shade(false, false), Shade::Base);
}

#[test]
fn absorb_through_the_session() {
    let mut s = sample();
    let action = s.absorb_at(item("n", "beta", 0, false), Timestamp { secs: 99, nanos: 0 });
    assert_eq!(ids(&s), vec!["p", "b", "a"]);
    assert_eq!(action, StoreAction::SaveItemAndOrder { index: 1 });
    let action = s.absorb(item("m", "brand new", 0, false));
    assert_eq!(action, StoreAction::SaveAll);
    assert_eq!(s.items.len(), 4);
}

#[test]
fn observe_emits_only_new_nonempty_text() {
    let mut last = String::new();
    assert!(observe(&mut last, String::new()).is_none());
    let it = observe(&mut last, "hello".to_string()).expect("new text");
    assert_eq!(it.content, "hello");
    assert!(!it.pinned);
    assert_eq!(it.id.len(), 36);
    assert_eq!(it.id.chars().nth(14), Some('4'));
    assert_eq!(last, "hello");
    assert!(observe(&mut last, "hello".to_string()).is_none());
    let other = observe(&mut last, "world".to_string()).expect("new text");
    assert_ne!(other.id, it.id);
    assert_eq!(last, "world");
}

#[test]
fn pinning_twice_restores_the_history() {
    let mut s = Session::new(vec![
        item("p", "pinned", 5, true),
        item("a", "alpha", 40, false),
        item("b", "beta", 30, false),
        item("c", "gamma", 20, false),
    ]);
    s.apply_row_action(RowAction::TogglePin("b".to_string()));
    assert_eq!(ids(&s), vec!["b", "p", "a", "c"]);
    s.apply_row_action(RowAction::TogglePin("b".to_string()));
    assert_eq!(ids(&s), vec!["p", "a", "b", "c"]);
}

fn full_history() -> Session {
    let mut items = vec![item("pin", "pinned text", 10_000, true)];
    for k in 0..MAX_UNPINNED {
        items.push(item(&format!("u{k}"), &format!("text {k}"), 5000 - k as i64, false));
    }
    Session::new(items)
}

#[test]
fn unpinning_with_ctrl_d_keeps_the_cap() {
    let mut s = full_history();
    let oldest = format!("u{}", MAX_UNPINNED - 1);
    let e = s.handle_keys(KeyPresses { ctrl_d: true, ..no_keys() }, &vec![0]);
    assert!(e.save_all);
    assert_eq!(s.items.iter().filter(|i| !i.pinned).count(), MAX_UNPINNED);
    assert_eq!(s.items.len(), MAX_UNPINNED);
    assert!(s.items.iter().any(|i| i.id == "pin"));
    assert!(s.items.iter().all(|i| i.id != oldest));
    assert_eq!(s.items[0].id, "pin");
}

#[test]
fn unpinning_with_the_pin_button_keeps_the_cap() {
    let mut s = full_history();
    let oldest = format!("u{}", MAX_UNPINNED - 1);
    assert!(s.apply_row_action(RowAction::TogglePin("pin".to_string())));
    assert_eq!(s.items.iter().filter(|i| !i.pinned).count(), MAX_UNPINNED);
    assert!(s.items.iter().all(|i| i.id != oldest));
}

#[test]
fn pinning_under_the_cap_drops_nothing() {
    let mut s = full_history();
    assert!(s.apply_row_action(RowAction::TogglePin("u3".to_string())));
    assert_eq!(s.items.len(), MAX_UNPINNED + 1);
    assert_eq!(s.items[0].id, "pin");
    assert_eq!(s.items[1].id, "u3");
}

#[test]
fn row_clicks_map_to_actions() {
    let id = "abc".to_string();
    let none = RowClicks { cancel: false, delete: false, pin: false, trash: false };
    assert!(row_action(&id, false, none).is_none());
    assert!(row_action(&id, true, none).is_none());
    assert!(matches!(row_action(&id, false, RowClicks { pin: true, ..none }), Some(RowAction::TogglePin(x)) if x == "abc"));
    assert!(matches!(row_action(&id, false, RowClicks { trash: true, pin: true, ..none }), Some(RowAction::RequestDelete(x)) if x == "abc"));
    assert!(matches!(row_action(&id, true, RowClicks { cancel: true, ..none }), Some(RowAction::CancelDelete)));
    assert!(matches!(row_action(&id, true, RowClicks { cancel: true, delete: true, ..none }), Some(RowAction::ConfirmDelete(x)) if x == "abc"));
    // buttons of the other mode are not shown, so their clicks do nothing
    assert!(row_action(&id, true, RowClicks { pin: true, trash: true, ..none }).is_none());
    assert!(row_action(&id, false, RowClicks { cancel: true, delete: true, ..none }).is_none());
}

#[test]
fn observed_entries_carry_the_poll_instant() {
    let mut last = String::new();
    let at = Timestamp { secs: 1_700_000_000, nanos: 42 };
    let it = observe_at(&mut last, "copied".to_string(), at).expect("new text");
    assert_eq!(it.copied_at, at);
    assert_eq!(it.content, "copied");
    assert!(!it.pinned);
    assert_eq!(&it.id[8..9], "-");
    assert!(observe_at(&mut last, "copied".to_string(), at).is_none());
    assert!(observe_at(&mut last, String::new(), at).is_none());
    assert_eq!(last, "copied");
}
