//! How the history is laid out in a key-value store: one value per entry under
//! its id, and the display order under a reserved key.
//!
//! The store itself lives outside this crate; the functions here say which
//! writes to make and how to read back what was written.

use vstd::prelude::*;
use vstd::utf8::{encode_utf8, encode_utf8_decode_utf8};
use vstd::string::StrSliceExecFns;
use crate::item::{ClipboardItem, Timestamp};
use crate::history::{absorb_action, absorb_source, position_of_content, position_of_id, refreshed, stably_ordered, StoreAction};

verus! {

/// The bytes serde_json writes for the JSON array of the strings `ids`.
pub uninterp spec fn json_string_array(ids: Seq<Seq<char>>) -> Seq<u8>;

/// The strings serde_json reads from `bytes` as a JSON array of strings, or
/// `None` when `bytes` is not one.
pub uninterp spec fn parse_string_array(bytes: Seq<u8>) -> Option<Seq<Seq<char>>>;

/// Writes the ids as a JSON array.
///
/// Trusted: `serde_json::to_vec` on a vector of strings. Its result is named by
/// `json_string_array`; reading that back with `serde_json::from_slice` as a
/// vector of strings gives the same strings (serde_json escapes every character
/// a JSON string cannot hold as it is). Writing strings into a byte vector
/// cannot fail, so the empty vector of the error arm is never returned.
#[verifier::external_body]
fn encode_order(ids: &Vec<String>) -> (b: Vec<u8>)
    ensures
        b@ == json_string_array(ids.deep_view()),
        parse_string_array(b@) == Some(ids.deep_view()),
{
    serde_json::to_vec(ids).unwrap_or_default()
}

/// Reads a JSON array of strings.
///
/// Trusted: `serde_json::from_slice` into a vector of strings; its result is
/// named by `parse_string_array`.
#[verifier::external_body]
fn decode_order(bytes: &[u8]) -> (r: Option<Vec<String>>)
    ensures
        match r {
            Some(v) => parse_string_array(bytes@) == Some(v.deep_view()),
            None => parse_string_array(bytes@).is_none(),
        },
{
    serde_json::from_slice::<Vec<String>>(bytes).ok()
}

/// The reserved key of the display order, as text.
pub open spec fn order_key_text() -> Seq<char> {
    "__order__"@
}

/// The store key of the entry with id `id`: its UTF-8 bytes.
pub open spec fn key_of(id: Seq<char>) -> Seq<u8> {
    encode_utf8(id)
}

/// The ids of the entries, in order.
pub open spec fn item_ids(items: Seq<ClipboardItem>) -> Seq<Seq<char>> {
    Seq::new(items.len(), |i: int| items[i].id@)
}

/// One write to the store.
#[derive(Debug)]
pub enum StoreOp {
    /// Remove every key.
    Clear,
    Put { key: Vec<u8>, value: Vec<u8> },
    Remove { key: Vec<u8> },
    /// Make the writes so far durable.
    Flush,
}

/// A store write with its bytes as sequences.
pub enum OpModel {
    Clear,
    Put(Seq<u8>, Seq<u8>),
    Remove(Seq<u8>),
    Flush,
}

impl View for StoreOp {
    type V = OpModel;

    open spec fn view(&self) -> OpModel {
        match self {
            StoreOp::Clear => OpModel::Clear,
            StoreOp::Put { key, value } => OpModel::Put(key@, value@),
            StoreOp::Remove { key } => OpModel::Remove(key@),
            StoreOp::Flush => OpModel::Flush,
        }
    }
}

/// The models of a list of writes.
pub open spec fn ops_model(ops: Seq<StoreOp>) -> Seq<OpModel> {
    Seq::new(ops.len(), |i: int| ops[i]@)
}

/// The store contents after one write.
pub open spec fn apply_op(m: Map<Seq<u8>, Seq<u8>>, op: OpModel) -> Map<Seq<u8>, Seq<u8>> {
    match op {
        OpModel::Clear => Map::empty(),
        OpModel::Put(k, v) => m.insert(k, v),
        OpModel::Remove(k) => m.remove(k),
        OpModel::Flush => m,
    }
}

/// The store contents after a list of writes, in order.
pub open spec fn apply_ops(m: Map<Seq<u8>, Seq<u8>>, ops: Seq<OpModel>) -> Map<Seq<u8>, Seq<u8>>
    decreases ops.len(),
{
    if ops.len() == 0 {
        m
    } else {
        apply_op(apply_ops(m, ops.drop_last()), ops.last())
    }
}

/// The writes that store `items`: clear everything, write each entry's bytes
/// (`encoded[i]` for `items[i]`) under its id, write the order, flush.
pub open spec fn save_all_plan(items: Seq<ClipboardItem>, encoded: Seq<Seq<u8>>, order: Seq<u8>) -> Seq<OpModel> {
    seq![OpModel::Clear]
        + Seq::new(items.len(), |i: int| OpModel::Put(key_of(items[i].id@), encoded[i]))
        + seq![OpModel::Put(key_of(order_key_text()), order), OpModel::Flush]
}

/// The writes that store one entry and the new order `items`.
pub open spec fn save_item_plan(item: ClipboardItem, encoded: Seq<u8>, order: Seq<u8>) -> Seq<OpModel> {
    seq![OpModel::Put(key_of(item.id@), encoded), OpModel::Put(key_of(order_key_text()), order), OpModel::Flush]
}

/// The writes that remove the entry `id` and store the new order.
pub open spec fn delete_item_plan(id: Seq<char>, order: Seq<u8>) -> Seq<OpModel> {
    seq![OpModel::Remove(key_of(id)), OpModel::Put(key_of(order_key_text()), order), OpModel::Flush]
}

/// Why stored history could not be read.
#[derive(Debug, PartialEq, Eq, Structural)]
pub enum StoreError {
    /// The value under the order key is not a JSON array of strings.
    CorruptOrder,
}

/// The entries present in `s`, in order.
pub open spec fn present(s: Seq<Option<ClipboardItem>>) -> Seq<ClipboardItem>
    decreases s.len(),
{
    if s.len() == 0 {
        Seq::empty()
    } else {
        match s.last() {
            Some(x) => present(s.drop_last()).push(x),
            None => present(s.drop_last()),
        }
    }
}

/// What reading the id `id` gives: its bytes decoded by `decode`, or nothing
/// when the key is missing or the bytes do not decode.
pub open spec fn fetch(m: Map<Seq<u8>, Seq<u8>>, id: Seq<char>, decode: spec_fn(Seq<u8>) -> Option<ClipboardItem>) -> Option<ClipboardItem> {
    if m.contains_key(key_of(id)) {
        decode(m[key_of(id)])
    } else {
        None
    }
}

/// What loading the store `m` gives: no order key means an empty history; an
/// order that does not parse is an error; otherwise the entries of the listed
/// ids in order, skipping ids whose entry is missing or does not decode.
pub open spec fn load_model(m: Map<Seq<u8>, Seq<u8>>, decode: spec_fn(Seq<u8>) -> Option<ClipboardItem>) -> Result<Seq<ClipboardItem>, StoreError> {
    if !m.contains_key(key_of(order_key_text())) {
        Ok(Seq::empty())
    } else {
        match parse_string_array(m[key_of(order_key_text())]) {
            None => Err(StoreError::CorruptOrder),
            Some(ids) => Ok(present(Seq::new(ids.len(), |k: int| fetch(m, ids[k], decode)))),
        }
    }
}

/// The store `m` holds `items`: the order key lists their ids in order, and
/// under each id lie bytes that decode to that entry.
pub open spec fn represents(m: Map<Seq<u8>, Seq<u8>>, items: Seq<ClipboardItem>, decode: spec_fn(Seq<u8>) -> Option<ClipboardItem>) -> bool {
    &&& m.contains_key(key_of(order_key_text()))
    &&& parse_string_array(m[key_of(order_key_text())]) == Some(item_ids(items))
    &&& forall|i: int| 0 <= i < items.len() ==> fetch(m, #[trigger] items[i].id@, decode) == Some(items[i])
}

/// The key under which the display order is stored.
pub fn order_key() -> (k: Vec<u8>)
    ensures
        k@ == key_of(order_key_text()),
{
    "__order__".as_bytes_vec()
}

/// The key under which the entry with id `id` is stored.
pub fn item_key(id: &str) -> (k: Vec<u8>)
    ensures
        k@ == key_of(id@),
{
    id.as_bytes_vec()
}

fn ids_of(items: &Vec<ClipboardItem>) -> (ids: Vec<String>)
    ensures
        ids.deep_view() == item_ids(items@),
{
    let mut ids: Vec<String> = Vec::new();
    let n = items.len();
    let mut i: usize = 0;
    while i < n
        invariant
            n == items.len(),
            i <= n,
            ids@.len() == i,
            ids.deep_view() == item_ids(items@).subrange(0, i as int),
        decreases n - i,
    {
        let ghost before = ids@;
        let id = items[i].id.clone();
        ids.push(id);
        proof {
            assert forall|k: int| 0 <= k < i + 1 implies ids.deep_view()[k] == item_ids(items@).subrange(0, i + 1)[k] by {
                if k < i {
                    assert(ids@[k] == before[k]);
                    assert(before[k].deep_view() == item_ids(items@).subrange(0, i as int)[k]);
                }
            }
            assert(ids.deep_view() =~= item_ids(items@).subrange(0, i + 1));
        }
        i = i + 1;
    }
    proof {
        assert(item_ids(items@).subrange(0, n as int) =~= item_ids(items@));
    }
    ids
}

/// The stored form of the order of `items`: the JSON array of their ids.
pub fn order_value(items: &Vec<ClipboardItem>) -> (b: Vec<u8>)
    ensures
        b@ == json_string_array(item_ids(items@)),
        parse_string_array(b@) == Some(item_ids(items@)),
{
    let ids = ids_of(items);
    encode_order(&ids)
}

/// The writes that replace the stored history by `items`, where `encoded[i]`
/// are the stored bytes of `items[i]`.
pub fn save_all_ops(items: &Vec<ClipboardItem>, encoded: Vec<Vec<u8>>) -> (ops: Vec<StoreOp>)
    requires
        encoded.len() == items.len(),
    ensures
        ops_model(ops@) == save_all_plan(items@, encoded.deep_view(), json_string_array(item_ids(items@))),
        parse_string_array(json_string_array(item_ids(items@))) == Some(item_ids(items@)),
{
    let ghost enc = encoded.deep_view();
    let mut ops: Vec<StoreOp> = Vec::new();
    ops.push(StoreOp::Clear);
    let mut rest = encoded;
    let n = items.len();
    let mut i: usize = 0;
    while i < n
        invariant
            n == items.len(),
            i <= n,
            rest.len() == n - i,
            enc.len() == n,
            ops@.len() == i + 1,
            forall|j: int| 0 <= j < rest.len() ==> (#[trigger] rest@[j])@ == enc[i + j],
            ops_model(ops@) == seq![OpModel::Clear] + Seq::new(i as nat, |j: int| OpModel::Put(key_of(items@[j].id@), enc[j])),
        decreases n - i,
    {
        let ghost before = rest@;
        let value = rest.remove(0);
        let key = item_key(items[i].id.as_str());
        let ghost ops_before = ops@;
        proof {
            assert(value@ == enc[i as int]);
        }
        ops.push(StoreOp::Put { key, value });
        proof {
            let target = seq![OpModel::Clear] + Seq::new((i + 1) as nat, |j: int| OpModel::Put(key_of(items@[j].id@), enc[j]));
            let prev = seq![OpModel::Clear] + Seq::new(i as nat, |j: int| OpModel::Put(key_of(items@[j].id@), enc[j]));
            assert forall|k: int| 0 <= k < ops@.len() implies ops_model(ops@)[k] == target[k] by {
                if k < ops@.len() - 1 {
                    assert(ops@[k] == ops_before[k]);
                    assert(ops_model(ops_before)[k] == prev[k]);
                }
            }
            assert(ops_model(ops@) =~= seq![OpModel::Clear] + Seq::new((i + 1) as nat, |j: int| OpModel::Put(key_of(items@[j].id@), enc[j])));
            assert forall|j: int| 0 <= j < rest.len() implies (#[trigger] rest@[j])@ == enc[i + 1 + j] by {
                assert(rest@[j] == before[j + 1]);
            }
        }
        i = i + 1;
    }
    let order = order_value(items);
    ops.push(StoreOp::Put { key: order_key(), value: order });
    ops.push(StoreOp::Flush);
    proof {
        assert(ops_model(ops@) =~= save_all_plan(items@, enc, json_string_array(item_ids(items@))));
    }
    ops
}

/// The writes that store the entry `item` (its stored bytes are `encoded`) and
/// the new order `items`, leaving the other entries alone.
pub fn save_item_ops(item: &ClipboardItem, encoded: Vec<u8>, items: &Vec<ClipboardItem>) -> (ops: Vec<StoreOp>)
    ensures
        ops_model(ops@) == save_item_plan(*item, encoded@, json_string_array(item_ids(items@))),
        parse_string_array(json_string_array(item_ids(items@))) == Some(item_ids(items@)),
{
    let mut ops: Vec<StoreOp> = Vec::new();
    ops.push(StoreOp::Put { key: item_key(item.id.as_str()), value: encoded });
    ops.push(StoreOp::Put { key: order_key(), value: order_value(items) });
    ops.push(StoreOp::Flush);
    proof {
        assert(ops_model(ops@) =~= save_item_plan(*item, encoded@, json_string_array(item_ids(items@))));
    }
    ops
}

/// The writes that remove the entry `id` and store the new order `items`.
pub fn delete_item_ops(id: &str, items: &Vec<ClipboardItem>) -> (ops: Vec<StoreOp>)
    ensures
        ops_model(ops@) == delete_item_plan(id@, json_string_array(item_ids(items@))),
        parse_string_array(json_string_array(item_ids(items@))) == Some(item_ids(items@)),
{
    let mut ops: Vec<StoreOp> = Vec::new();
    ops.push(StoreOp::Remove { key: item_key(id) });
    ops.push(StoreOp::Put { key: order_key(), value: order_value(items) });
    ops.push(StoreOp::Flush);
    proof {
        assert(ops_model(ops@) =~= delete_item_plan(id@, json_string_array(item_ids(items@))));
    }
    ops
}

/// Reads the stored order: no value means no entries; a value that is not a
/// JSON array of strings is an error.
pub fn read_order(value: Option<Vec<u8>>) -> (r: Result<Vec<String>, StoreError>)
    ensures
        match value {
            None => r matches Ok(ids) && ids@.len() == 0,
            Some(b) => match parse_string_array(b@) {
                Some(ids) => r matches Ok(v) && v.deep_view() == ids,
                None => r == Err::<Vec<String>, StoreError>(StoreError::CorruptOrder),
            },
        },
{
    match value {
        None => Ok(Vec::new()),
        Some(b) => match decode_order(b.as_slice()) {
            Some(ids) => Ok(ids),
            None => Err(StoreError::CorruptOrder),
        },
    }
}

/// The keys to read, one per listed id, in order.
pub fn item_keys(ids: &Vec<String>) -> (keys: Vec<Vec<u8>>)
    ensures
        keys@.len() == ids@.len(),
        forall|k: int| 0 <= k < ids@.len() ==> (#[trigger] keys@[k])@ == key_of(ids@[k]@),
{
    let mut keys: Vec<Vec<u8>> = Vec::new();
    let n = ids.len();
    let mut i: usize = 0;
    while i < n
        invariant
            n == ids.len(),
            i <= n,
            keys@.len() == i,
            forall|k: int| 0 <= k < i ==> (#[trigger] keys@[k])@ == key_of(ids@[k]@),
        decreases n - i,
    {
        keys.push(item_key(ids[i].as_str()));
        i = i + 1;
    }
    keys
}

/// The entries that were found and decoded, in the order they were read.
pub fn gather(fetched: Vec<Option<ClipboardItem>>) -> (items: Vec<ClipboardItem>)
    ensures
        items@ == present(fetched@),
{
    let ghost orig = fetched@;
    let mut rest = fetched;
    let mut items: Vec<ClipboardItem> = Vec::new();
    proof {
        assert(orig.subrange(0, 0) =~= Seq::<Option<ClipboardItem>>::empty());
    }
    while rest.len() > 0
        invariant
            rest@.len() <= orig.len(),
            rest@ == orig.subrange(orig.len() - rest@.len(), orig.len() as int),
            items@ == present(orig.subrange(0, orig.len() - rest@.len())),
        decreases rest.len(),
    {
        let ghost done = orig.subrange(0, orig.len() - rest@.len());
        let x = rest.remove(0);
        proof {
            assert(orig.subrange(0, orig.len() - rest@.len()) =~= done.push(x));
            assert(done.push(x).drop_last() =~= done);
            assert(rest@ =~= orig.subrange(orig.len() - rest@.len(), orig.len() as int));
        }
        match x {
            Some(it) => items.push(it),
            None => {},
        }
    }
    proof {
        assert(orig.subrange(0, orig.len() as int) =~= orig);
    }
    items
}

proof fn lemma_apply_append(m: Map<Seq<u8>, Seq<u8>>, a: Seq<OpModel>, b: Seq<OpModel>)
    ensures
        apply_ops(m, a + b) == apply_ops(apply_ops(m, a), b),
    decreases b.len(),
{
    if b.len() == 0 {
        assert(a + b =~= a);
    } else {
        lemma_apply_append(m, a, b.drop_last());
        assert((a + b).drop_last() =~= a + b.drop_last());
        assert((a + b).last() == b.last());
    }
}

proof fn lemma_apply_three(m: Map<Seq<u8>, Seq<u8>>, x: OpModel, y: OpModel, z: OpModel)
    ensures
        apply_ops(m, seq![x, y, z]) == apply_op(apply_op(apply_op(m, x), y), z),
{
    assert(seq![x, y, z].drop_last() =~= seq![x, y]);
    assert(seq![x, y].drop_last() =~= seq![x]);
    assert(seq![x].drop_last() =~= Seq::<OpModel>::empty());
    assert(apply_ops(m, Seq::<OpModel>::empty()) == m);
    assert(apply_ops(m, seq![x]) == apply_op(m, x));
    assert(apply_ops(m, seq![x, y]) == apply_op(apply_op(m, x), y));
}

/// Different ids have different keys.
proof fn lemma_key_injective(a: Seq<char>, b: Seq<char>)
    requires
        a != b,
    ensures
        key_of(a) != key_of(b),
{
    encode_utf8_decode_utf8(a);
    encode_utf8_decode_utf8(b);
}

proof fn lemma_present_all(s: Seq<Option<ClipboardItem>>, items: Seq<ClipboardItem>)
    requires
        s.len() == items.len(),
        forall|k: int| 0 <= k < s.len() ==> s[k] == Some(#[trigger] items[k]),
    ensures
        present(s) == items,
    decreases s.len(),
{
    if s.len() == 0 {
        assert(items =~= Seq::<ClipboardItem>::empty());
    } else {
        let k = s.len() - 1;
        assert(s[k] == Some(items[k]));
        lemma_present_all(s.drop_last(), items.drop_last());
        assert(items.drop_last().push(items[k]) =~= items);
    }
}

/// A store that holds `items` loads as `items`.
pub proof fn law_load_reads_back(m: Map<Seq<u8>, Seq<u8>>, items: Seq<ClipboardItem>, decode: spec_fn(Seq<u8>) -> Option<ClipboardItem>)
    requires
        represents(m, items, decode),
    ensures
        load_model(m, decode) == Ok::<Seq<ClipboardItem>, StoreError>(items),
{
    let ids = item_ids(items);
    let fetched = Seq::new(ids.len(), |k: int| fetch(m, ids[k], decode));
    assert forall|k: int| 0 <= k < fetched.len() implies fetched[k] == Some(#[trigger] items[k]) by {
        assert(ids[k] == items[k].id@);
    }
    lemma_present_all(fetched, items);
}

proof fn lemma_puts(items: Seq<ClipboardItem>, encoded: Seq<Seq<u8>>, n: int)
    requires
        0 <= n <= items.len(),
        encoded.len() == items.len(),
        forall|i: int, j: int| 0 <= i < items.len() && 0 <= j < items.len() && i != j ==> (#[trigger] items[i]).id@ != (#[trigger] items[j]).id@,
    ensures
        ({
            let puts = Seq::new(n as nat, |i: int| OpModel::Put(key_of(items[i].id@), encoded[i]));
            let mm = apply_ops(Map::empty(), puts);
            forall|i: int| 0 <= i < n ==> mm.contains_key(key_of(#[trigger] items[i].id@)) && mm[key_of(items[i].id@)] == encoded[i]
        }),
    decreases n,
{
    let puts = Seq::new(n as nat, |i: int| OpModel::Put(key_of(items[i].id@), encoded[i]));
    if n > 0 {
        lemma_puts(items, encoded, n - 1);
        let prev = Seq::new((n - 1) as nat, |i: int| OpModel::Put(key_of(items[i].id@), encoded[i]));
        assert(puts.drop_last() =~= prev);
        let mm = apply_ops(Map::empty(), puts);
        assert forall|i: int| 0 <= i < n implies mm.contains_key(key_of(#[trigger] items[i].id@)) && mm[key_of(items[i].id@)] == encoded[i] by {
            if i < n - 1 {
                lemma_key_injective(items[i].id@, items[n - 1].id@);
            }
        }
    }
}

/// Storing `items` with `save_all_plan` leaves a store that holds exactly
/// `items`, whatever the store held before, when the ids are distinct, none is
/// the reserved order key, every entry's bytes decode to it, and the order bytes
/// read back as the ids (as those of `save_all_ops` do).
pub proof fn law_save_all_represents(
    m: Map<Seq<u8>, Seq<u8>>,
    items: Seq<ClipboardItem>,
    encoded: Seq<Seq<u8>>,
    order: Seq<u8>,
    decode: spec_fn(Seq<u8>) -> Option<ClipboardItem>,
)
    requires
        encoded.len() == items.len(),
        forall|i: int| 0 <= i < items.len() ==> decode(#[trigger] encoded[i]) == Some(items[i]),
        forall|i: int, j: int| 0 <= i < items.len() && 0 <= j < items.len() && i != j ==> (#[trigger] items[i]).id@ != (#[trigger] items[j]).id@,
        forall|i: int| 0 <= i < items.len() ==> (#[trigger] items[i]).id@ != order_key_text(),
        parse_string_array(order) == Some(item_ids(items)),
    ensures
        represents(apply_ops(m, save_all_plan(items, encoded, order)), items, decode),
{
    let n = items.len() as int;
    let puts = Seq::new(n as nat, |i: int| OpModel::Put(key_of(items[i].id@), encoded[i]));
    let ok = key_of(order_key_text());
    let tail = seq![OpModel::Put(ok, order), OpModel::Flush];
    assert(save_all_plan(items, encoded, order) =~= seq![OpModel::Clear] + puts + tail);
    lemma_apply_append(m, seq![OpModel::Clear] + puts, tail);
    lemma_apply_append(m, seq![OpModel::Clear], puts);
    assert(seq![OpModel::Clear].drop_last() =~= Seq::<OpModel>::empty());
    assert(apply_ops(m, seq![OpModel::Clear]) == Map::<Seq<u8>, Seq<u8>>::empty());
    lemma_puts(items, encoded, n);
    let mm = apply_ops(Map::empty(), puts);
    assert(tail.drop_last() =~= seq![OpModel::Put(ok, order)]);
    assert(seq![OpModel::Put(ok, order)].drop_last() =~= Seq::<OpModel>::empty());
    let fin = apply_ops(m, save_all_plan(items, encoded, order));
    assert(apply_ops(m, seq![OpModel::Clear] + puts) == mm);
    assert(apply_ops(mm, Seq::<OpModel>::empty()) == mm);
    assert(apply_ops(mm, seq![OpModel::Put(ok, order)]) == mm.insert(ok, order));
    assert(apply_ops(mm, tail) == mm.insert(ok, order));
    assert(fin == mm.insert(ok, order));
    assert forall|i: int| 0 <= i < items.len() implies fetch(fin, #[trigger] items[i].id@, decode) == Some(items[i]) by {
        lemma_key_injective(items[i].id@, order_key_text());
        assert(mm.contains_key(key_of(items[i].id@)));
    }
}

/// Loading right after storing `items` gives `items` back, under the
/// conditions of `law_save_all_represents`.
pub proof fn law_load_after_save_all(
    m: Map<Seq<u8>, Seq<u8>>,
    items: Seq<ClipboardItem>,
    encoded: Seq<Seq<u8>>,
    order: Seq<u8>,
    decode: spec_fn(Seq<u8>) -> Option<ClipboardItem>,
)
    requires
        encoded.len() == items.len(),
        forall|i: int| 0 <= i < items.len() ==> decode(#[trigger] encoded[i]) == Some(items[i]),
        forall|i: int, j: int| 0 <= i < items.len() && 0 <= j < items.len() && i != j ==> (#[trigger] items[i]).id@ != (#[trigger] items[j]).id@,
        forall|i: int| 0 <= i < items.len() ==> (#[trigger] items[i]).id@ != order_key_text(),
        parse_string_array(order) == Some(item_ids(items)),
    ensures
        load_model(apply_ops(m, save_all_plan(items, encoded, order)), decode) == Ok::<Seq<ClipboardItem>, StoreError>(items),
{
    law_save_all_represents(m, items, encoded, order, decode);
    law_load_reads_back(apply_ops(m, save_all_plan(items, encoded, order)), items, decode);
}

/// Storing one entry and a new order keeps the store holding the whole new
/// list, when every other entry of the list was already held, the stored entry
/// is the only one with its id, and no id of the list is the reserved order key.
pub proof fn law_save_item_represents(
    m: Map<Seq<u8>, Seq<u8>>,
    old: Seq<ClipboardItem>,
    item: ClipboardItem,
    encoded: Seq<u8>,
    list: Seq<ClipboardItem>,
    order: Seq<u8>,
    decode: spec_fn(Seq<u8>) -> Option<ClipboardItem>,
)
    requires
        represents(m, old, decode),
        decode(encoded) == Some(item),
        forall|k: int| 0 <= k < list.len() ==> (#[trigger] list[k]).id@ != order_key_text(),
        item.id@ != order_key_text(),
        parse_string_array(order) == Some(item_ids(list)),
        forall|k: int| 0 <= k < list.len() && (#[trigger] list[k]).id@ == item.id@ ==> list[k] == item,
        forall|k: int| 0 <= k < list.len() && (#[trigger] list[k]).id@ != item.id@ ==> old.contains(list[k]),
    ensures
        represents(apply_ops(m, save_item_plan(item, encoded, order)), list, decode),
{
    let ok = key_of(order_key_text());
    let ik = key_of(item.id@);
    lemma_apply_three(m, OpModel::Put(ik, encoded), OpModel::Put(ok, order), OpModel::Flush);
    let fin = apply_ops(m, save_item_plan(item, encoded, order));
    assert(fin == m.insert(ik, encoded).insert(ok, order));
    lemma_key_injective(item.id@, order_key_text());
    assert forall|k: int| 0 <= k < list.len() implies fetch(fin, #[trigger] list[k].id@, decode) == Some(list[k]) by {
        lemma_key_injective(list[k].id@, order_key_text());
        if list[k].id@ != item.id@ {
            lemma_key_injective(list[k].id@, item.id@);
            let j = choose|j: int| 0 <= j < old.len() && old[j] == list[k];
            assert(fetch(m, old[j].id@, decode) == Some(old[j]));
        }
    }
}

/// Removing an entry and storing a new order keeps the store holding the new
/// list, when every entry of the list was already held, none has the removed
/// id and none has the reserved order key as id.
pub proof fn law_delete_item_represents(
    m: Map<Seq<u8>, Seq<u8>>,
    old: Seq<ClipboardItem>,
    id: Seq<char>,
    list: Seq<ClipboardItem>,
    order: Seq<u8>,
    decode: spec_fn(Seq<u8>) -> Option<ClipboardItem>,
)
    requires
        represents(m, old, decode),
        parse_string_array(order) == Some(item_ids(list)),
        forall|k: int| 0 <= k < list.len() ==> (#[trigger] list[k]).id@ != order_key_text(),
        forall|k: int| 0 <= k < list.len() ==> (#[trigger] list[k]).id@ != id && old.contains(list[k]),
    ensures
        represents(apply_ops(m, delete_item_plan(id, order)), list, decode),
{
    let ok = key_of(order_key_text());
    lemma_apply_three(m, OpModel::Remove(key_of(id)), OpModel::Put(ok, order), OpModel::Flush);
    let fin = apply_ops(m, delete_item_plan(id, order));
    assert(fin == m.remove(key_of(id)).insert(ok, order));
    assert forall|k: int| 0 <= k < list.len() implies fetch(fin, #[trigger] list[k].id@, decode) == Some(list[k]) by {
        lemma_key_injective(list[k].id@, order_key_text());
        lemma_key_injective(list[k].id@, id);
        let j = choose|j: int| 0 <= j < old.len() && old[j] == list[k];
        assert(fetch(m, old[j].id@, decode) == Some(old[j]));
    }
}

/// The writes owed for the store action `action` on the new history `r`:
/// the entry at the index and the order, or everything. `encoded` holds the
/// stored bytes of the entries written, in order.
pub open spec fn action_plan(r: Seq<ClipboardItem>, action: StoreAction, encoded: Seq<Seq<u8>>, order: Seq<u8>) -> Seq<OpModel> {
    match action {
        StoreAction::SaveItemAndOrder { index } => save_item_plan(r[index as int], encoded[0], order),
        StoreAction::SaveAll => save_all_plan(r, encoded, order),
    }
}

/// Taking in clipboard text and carrying out the store action it returns
/// keeps the store holding the history, which then loads back as the new
/// history: when the store held the old history, the ids of the new history
/// are distinct and none is the reserved order key, the bytes written decode
/// to the entries they are written for, and the order bytes read back as the
/// ids (as those of `save_item_ops` and `save_all_ops` do).
pub proof fn law_absorb_keeps_store(
    m: Map<Seq<u8>, Seq<u8>>,
    old: Seq<ClipboardItem>,
    new_item: ClipboardItem,
    now: Timestamp,
    r: Seq<ClipboardItem>,
    action: StoreAction,
    encoded: Seq<Seq<u8>>,
    order: Seq<u8>,
    decode: spec_fn(Seq<u8>) -> Option<ClipboardItem>,
)
    requires
        represents(m, old, decode),
        stably_ordered(r, absorb_source(old, new_item, now)),
        absorb_action(old, new_item, r, action),
        r.len() <= usize::MAX,
        forall|i: int, j: int| 0 <= i < r.len() && 0 <= j < r.len() && i != j ==> (#[trigger] r[i]).id@ != (#[trigger] r[j]).id@,
        forall|i: int| 0 <= i < r.len() ==> (#[trigger] r[i]).id@ != order_key_text(),
        parse_string_array(order) == Some(item_ids(r)),
        match action {
            StoreAction::SaveItemAndOrder { index } => encoded.len() == 1 && index < r.len() && decode(encoded[0]) == Some(r[index as int]),
            StoreAction::SaveAll => encoded.len() == r.len() && forall|i: int| 0 <= i < r.len() ==> decode(#[trigger] encoded[i]) == Some(r[i]),
        },
    ensures
        represents(apply_ops(m, action_plan(r, action, encoded, order)), r, decode),
        load_model(apply_ops(m, action_plan(r, action, encoded, order)), decode) == Ok::<Seq<ClipboardItem>, StoreError>(r),
{
    match action {
        StoreAction::SaveItemAndOrder { index } => {
            let c = new_item.content@;
            let p = position_of_content(old, c).unwrap();
            crate::history::lemma_position_of_content_some(old, c);
            let id = old[p].id@;
            crate::history::lemma_position_of_id_some(r, id);
            let item = r[index as int];
            assert(position_of_id(r, id).unwrap() == index as int);
            assert(item.id@ == id);
            let src = absorb_source(old, new_item, now);
            assert(src[0].id@ == id);
            assert(src == seq![refreshed(old[p], now)] + old.remove(p));
            assert forall|k: int| 0 <= k < r.len() && (#[trigger] r[k]).id@ != item.id@ implies old.contains(r[k]) by {
                assert(r.contains(r[k]));
                crate::history::lemma_perm_contains(r, src, r[k]);
                let q = choose|q: int| 0 <= q < src.len() && src[q] == r[k];
                assert(q != 0);
                assert(old.remove(p)[q - 1] == r[k]);
                let o = if q - 1 < p { q - 1 } else { q };
                assert(old[o] == r[k]);
            }
            law_save_item_represents(m, old, item, encoded[0], r, order, decode);
        },
        StoreAction::SaveAll => {
            law_save_all_represents(m, r, encoded, order, decode);
        },
    }
    law_load_reads_back(apply_ops(m, action_plan(r, action, encoded, order)), r, decode);
}

} // verus!
