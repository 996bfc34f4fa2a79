use clipwise::item::{ClipboardItem, Timestamp};
use clipwise::storage::{
    delete_item_ops, gather, item_key, item_keys, order_key, order_value, read_order, save_all_ops,
    save_item_ops, StoreError, StoreOp,
};
use std::collections::HashMap;

type Store = HashMap<Vec<u8>, Vec<u8>>;

fn item(id: &str, content: &str, secs: i64, pinned: bool) -> ClipboardItem {
    ClipboardItem { id: id.to_string(), content: content.to_string(), copied_at: Timestamp { secs, nanos: 7 }, pinned }
}

fn encode(it: &ClipboardItem) -> Vec<u8> {
    serde_json::to_vec(&(it.id.clone(), it.content.clone(), it.copied_at.secs, it.copied_at.nanos, it.pinned)).unwrap()
}

fn decode(bytes: &[u8]) -> Option<ClipboardItem> {
    let (id, content, secs, nanos, pinned): (String, String, i64, u32, bool) = serde_json::from_slice(bytes).ok()?;
    Some(ClipboardItem { id, content, copied_at: Timestamp { secs, nanos }, pinned })
}

fn apply(store: &mut Store, ops: Vec<StoreOp>) {
    for op in ops {
        match op {
            StoreOp::Clear => store.clear(),
            StoreOp::Put { key, value } => {
                store.insert(key, value);
            }
            StoreOp::Remove { key } => {
                store.remove(&key);
            }
            StoreOp::Flush => {}
        }
    }
}

fn load(store: &Store) -> Result<Vec<ClipboardItem>, StoreError> {
    let ids = read_order(store.get(&order_key()).cloned())?;
    let keys = item_keys(&ids);
    let fetched = keys.iter().map(|k| store.get(k).and_then(|b| decode(b))).collect();
    Ok(gather(fetched))
}

fn view(items: &[ClipboardItem]) -> Vec<(String, String, i64, bool)> {
    items.iter().map(|i| (i.id.clone(), i.content.clone(), i.copied_at.secs, i.pinned)).collect()
}

#[test]
fn keys_are_utf8_bytes() {
    assert_eq!(order_key(), b"__order__".to_vec());
    assert_eq!(item_key("ab\u{e9}"), "ab\u{e9}".as_bytes().to_vec());
}

#[test]
fn order_value_is_a_json_array_of_ids() {
    let items = vec![item("a\"1", "x", 1, false), item("b", "y", 2, true)];
    assert_eq!(order_value(&items), serde_json::to_vec(&vec!["a\"1", "b"]).unwrap());
}

#[test]
fn empty_store_loads_empty_history() {
    let store = Store::new();
    assert_eq!(load(&store).unwrap().len(), 0);
}

#[test]
fn corrupt_order_is_an_error() {
    let mut store = Store::new();
    store.insert(order_key(), b"not json".to_vec());
    assert_eq!(load(&store).err(), Some(StoreError::CorruptOrder));
}

#[test]
fn load_after_save_all_gives_items_back() {
    let items = vec![item("p", "pinned", 1, true), item("a", "alpha", 30, false), item("b", "be\ta", 20, false)];
    let mut store = Store::new();
    store.insert(b"stale".to_vec(), b"junk".to_vec());
    let encoded = items.iter().map(encode).collect();
    apply(&mut store, save_all_ops(&items, encoded));
    assert!(!store.contains_key(&b"stale".to_vec()));
    assert_eq!(view(&load(&store).unwrap()), view(&items));
}

#[test]
fn save_item_updates_one_entry_and_the_order() {
    let items = vec![item("a", "alpha", 30, false), item("b", "beta", 20, false)];
    let mut store = Store::new();
    apply(&mut store, save_all_ops(&items, items.iter().map(encode).collect()));
    let moved = item("b", "beta", 50, false);
    let list = vec![item("b", "beta", 50, false), item("a", "alpha", 30, false)];
    apply(&mut store, save_item_ops(&moved, encode(&moved), &list));
    assert_eq!(view(&load(&store).unwrap()), view(&list));
}

#[test]
fn delete_item_removes_one_entry() {
    let items = vec![item("a", "alpha", 30, false), item("b", "beta", 20, false)];
    let mut store = Store::new();
    apply(&mut store, save_all_ops(&items, items.iter().map(encode).collect()));
    let list = vec![item("b", "beta", 20, false)];
    apply(&mut store, delete_item_ops("a", &list));
    assert!(!store.contains_key(&item_key("a")));
    assert_eq!(view(&load(&store).unwrap()), view(&list));
}

#[test]
fn missing_or_unreadable_entries_are_skipped() {
    let mut store = Store::new();
    store.insert(order_key(), serde_json::to_vec(&vec!["a", "gone", "bad", "b"]).unwrap());
    store.insert(item_key("a"), encode(&item("a", "alpha", 1, false)));
    store.insert(item_key("bad"), b"{".to_vec());
    store.insert(item_key("b"), encode(&item("b", "beta", 2, false)));
    let loaded = load(&store).unwrap();
    assert_eq!(loaded.iter().map(|i| i.id.as_str()).collect::<Vec<_>>(), vec!["a", "b"]);
}

#[test]
fn gather_keeps_found_entries_in_order() {
    let got = gather(vec![None, Some(item("x", "1", 0, false)), None, Some(item("y", "2", 0, true))]);
    assert_eq!(got.iter().map(|i| i.id.as_str()).collect::<Vec<_>>(), vec!["x", "y"]);
}
