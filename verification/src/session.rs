//! The launcher's state and how keys and row buttons change it.

use vstd::prelude::*;
use crate::item::{ClipboardItem, Timestamp};
use crate::history::{
    absorb_at, absorb_action, absorb_source, distinct_contents, in_display_order, position_of_id, shown_before,
    sort_items, stably_ordered, StoreAction, capped, count_unpinned, enforce_cap, is_unpinned, law_capped,
    MAX_UNPINNED,
};
use crate::clock::now_utc;

verus! {

/// Everything the launcher remembers between frames: the history in display
/// order, the search text, the entry awaiting delete confirmation (by id), the
/// selected row (a position in the shown list) and whether the search field has
/// been focused yet.
pub struct Session {
    pub items: Vec<ClipboardItem>,
    pub search_query: String,
    pub confirm_delete: Option<String>,
    pub selected_index: usize,
    pub focus_requested: bool,
}

/// The keys pressed in one frame. `delete` is Delete or Backspace.
#[derive(Clone, Copy, Debug)]
pub struct KeyPresses {
    pub escape: bool,
    pub enter: bool,
    pub up: bool,
    pub down: bool,
    pub ctrl_d: bool,
    pub delete: bool,
}

/// What the keys of one frame ask of the outside: close the window, put text on
/// the clipboard, rewrite the stored history.
#[derive(Debug)]
pub struct KeyEffects {
    pub close: bool,
    pub copy: Option<String>,
    pub save_all: bool,
}

/// A button pressed on a row of the list.
#[derive(Debug)]
pub enum RowAction {
    TogglePin(String),
    RequestDelete(String),
    ConfirmDelete(String),
    CancelDelete,
}

/// `s` with the pin of entry `i` flipped (unchanged when `i` is no index of `s`).
pub open spec fn toggled(s: Seq<ClipboardItem>, i: int) -> Seq<ClipboardItem> {
    if 0 <= i < s.len() {
        s.update(i, ClipboardItem { id: s[i].id, content: s[i].content, copied_at: s[i].copied_at, pinned: !s[i].pinned })
    } else {
        s
    }
}

/// The selection after Up and Down: Up moves one row up unless on the first
/// row, Down one row down unless on the last of `shown` rows.
pub open spec fn moved_selection(sel: int, keys: KeyPresses, shown: int) -> int {
    let s1 = if keys.up && sel > 0 { sel - 1 } else { sel };
    if keys.down && shown > 0 && s1 + 1 < shown { s1 + 1 } else { s1 }
}

/// The entries of `s` whose id is not `id`, in order.
pub open spec fn without_id(s: Seq<ClipboardItem>, id: Seq<char>) -> Seq<ClipboardItem>
    decreases s.len(),
{
    if s.len() == 0 {
        Seq::empty()
    } else if s.last().id@ == id {
        without_id(s.drop_last(), id)
    } else {
        without_id(s.drop_last(), id).push(s.last())
    }
}

fn flip_pin(items: &mut Vec<ClipboardItem>, idx: usize)
    requires
        idx < old(items).len(),
    ensures
        final(items)@ == toggled(old(items)@, idx as int),
{
    let mut it = items.remove(idx);
    it.pinned = !it.pinned;
    items.insert(idx, it);
    proof {
        assert(final(items)@ =~= toggled(old(items)@, idx as int));
    }
}

/// `r` is what flipping the pin of entry `i` of `s` leaves: the flipped history
/// in display order, capped to `MAX_UNPINNED` unpinned entries.
pub open spec fn repinned(s: Seq<ClipboardItem>, i: int, r: Seq<ClipboardItem>) -> bool {
    exists|q: Seq<ClipboardItem>| stably_ordered(q, toggled(s, i)) && r == capped(q)
}

pub(crate) proof fn lemma_toggled_count(s: Seq<ClipboardItem>, i: int)
    ensures
        count_unpinned(toggled(s, i)) <= count_unpinned(s) + 1,
{
    if 0 <= i < s.len() {
        let t = toggled(s, i);
        assert(t.remove(i) =~= s.remove(i));
        crate::history::lemma_count_remove(s, i, |x: ClipboardItem| is_unpinned(x));
        crate::history::lemma_count_remove(t, i, |x: ClipboardItem| is_unpinned(x));
    }
}

/// Flips the pin of entry `idx` (if there is one), reorders, and drops the
/// oldest unpinned entry if that leaves more than `MAX_UNPINNED` unpinned.
fn flip_and_reorder(items: &mut Vec<ClipboardItem>, idx: usize)
    ensures
        repinned(old(items)@, idx as int, final(items)@),
        count_unpinned(old(items)@) <= MAX_UNPINNED ==> count_unpinned(final(items)@) <= MAX_UNPINNED,
        in_display_order(final(items)@),
{
    if idx < items.len() {
        flip_pin(items, idx);
    }
    let ghost t = items@;
    sort_items(items);
    let ghost q = items@;
    enforce_cap(items);
    proof {
        assert(t == toggled(old(items)@, idx as int));
        lemma_toggled_count(old(items)@, idx as int);
        crate::history::lemma_count_perm(t, q, |x: ClipboardItem| is_unpinned(x));
        law_capped(q);
    }
}

pub(crate) proof fn lemma_without_id_count(s: Seq<ClipboardItem>, id: Seq<char>)
    ensures
        count_unpinned(without_id(s, id)) <= count_unpinned(s),
    decreases s.len(),
{
    if s.len() > 0 {
        lemma_without_id_count(s.drop_last(), id);
        if s.last().id@ != id {
            let w = without_id(s.drop_last(), id);
            assert(w.push(s.last()).drop_last() =~= w);
        }
    }
}

proof fn lemma_without_id_ordered(s: Seq<ClipboardItem>, id: Seq<char>)
    requires
        in_display_order(s),
    ensures
        in_display_order(without_id(s, id)),
        forall|a: int| 0 <= a < without_id(s, id).len() ==> exists|j: int| 0 <= j < s.len() && s[j] == #[trigger] without_id(s, id)[a],
    decreases s.len(),
{
    if s.len() > 0 {
        let d = s.drop_last();
        assert(in_display_order(d)) by {
            assert forall|i: int, j: int| 0 <= i < j < d.len() implies !shown_before(#[trigger] d[j], #[trigger] d[i]) by {
                assert(d[i] == s[i] && d[j] == s[j]);
            }
        }
        lemma_without_id_ordered(d, id);
        let w = without_id(d, id);
        if s.last().id@ != id {
            let r = w.push(s.last());
            assert forall|i: int, j: int| 0 <= i < j < r.len() implies !shown_before(#[trigger] r[j], #[trigger] r[i]) by {
                if j == r.len() - 1 {
                    let k = choose|k: int| 0 <= k < d.len() && d[k] == #[trigger] w[i];
                    assert(s[k] == r[i]);
                    assert(s[s.len() - 1] == r[j]);
                } else {
                    assert(r[i] == w[i] && r[j] == w[j]);
                }
            }
            assert forall|a: int| 0 <= a < r.len() implies exists|j: int| 0 <= j < s.len() && s[j] == #[trigger] r[a] by {
                if a == r.len() - 1 {
                    assert(s[s.len() - 1] == r[a]);
                } else {
                    let k = choose|k: int| 0 <= k < d.len() && d[k] == #[trigger] w[a];
                    assert(s[k] == r[a]);
                }
            }
        } else {
            assert forall|a: int| 0 <= a < w.len() implies exists|j: int| 0 <= j < s.len() && s[j] == #[trigger] w[a] by {
                let k = choose|k: int| 0 <= k < d.len() && d[k] == #[trigger] w[a];
                assert(s[k] == w[a]);
            }
        }
    }
}

fn remove_with_id(items: &mut Vec<ClipboardItem>, id: &String)
    ensures
        final(items)@ == without_id(old(items)@, id@),
{
    let mut rest: Vec<ClipboardItem> = Vec::new();
    std::mem::swap(items, &mut rest);
    let ghost orig = rest@;
    let mut kept: Vec<ClipboardItem> = Vec::new();
    proof {
        assert(orig.subrange(0, 0) =~= Seq::<ClipboardItem>::empty());
    }
    while rest.len() > 0
        invariant
            rest@.len() <= orig.len(),
            rest@ == orig.subrange(orig.len() - rest@.len(), orig.len() as int),
            kept@ == without_id(orig.subrange(0, orig.len() - rest@.len()), id@),
        decreases rest.len(),
    {
        let ghost done = orig.subrange(0, orig.len() - rest@.len());
        let x = rest.remove(0);
        proof {
            assert(orig.subrange(0, orig.len() - rest@.len()) =~= done.push(x));
            assert(done.push(x).drop_last() =~= done);
            assert(rest@ =~= orig.subrange(orig.len() - rest@.len(), orig.len() as int));
        }
        if !(x.id == *id) {
            kept.push(x);
        }
    }
    proof {
        assert(orig.subrange(0, orig.len() as int) =~= orig);
    }
    *items = kept;
}


/// One row of the shown list: which entry, whether it is the selected row,
/// whether it awaits delete confirmation.
#[derive(Clone, Copy, Debug, PartialEq, Eq, Structural)]
pub struct RowSlot {
    pub item_index: usize,
    pub selected: bool,
    pub confirming: bool,
}

/// The background a row is painted with.
#[derive(Clone, Copy, Debug, PartialEq, Eq, Structural)]
pub enum Shade {
    Base,
    Hovered,
    Selected,
}

/// A selected row is painted as selected, else a row under the pointer as
/// hovered, else plainly.
pub fn row_shade(selected: bool, hovered: bool) -> (r: Shade)
    ensures
        r == (if selected { Shade::Selected } else if hovered { Shade::Hovered } else { Shade::Base }),
{
    if selected {
        Shade::Selected
    } else if hovered {
        Shade::Hovered
    } else {
        Shade::Base
    }
}

/// The buttons of one row clicked in a frame: Cancel and Delete while the row
/// awaits confirmation, the pin and the trash otherwise.
#[derive(Clone, Copy, Debug)]
pub struct RowClicks {
    pub cancel: bool,
    pub delete: bool,
    pub pin: bool,
    pub trash: bool,
}

/// What the clicks on the row of the entry `id` ask for. A row awaiting
/// confirmation offers Cancel and Delete, Delete winning when both were
/// clicked; another row offers the pin and the trash, the trash winning.
pub fn row_action(id: &String, confirming: bool, clicks: RowClicks) -> (r: Option<RowAction>)
    ensures
        match r {
            None => if confirming { !clicks.cancel && !clicks.delete } else { !clicks.pin && !clicks.trash },
            Some(RowAction::CancelDelete) => confirming && clicks.cancel && !clicks.delete,
            Some(RowAction::ConfirmDelete(x)) => confirming && clicks.delete && x == *id,
            Some(RowAction::TogglePin(x)) => !confirming && clicks.pin && !clicks.trash && x == *id,
            Some(RowAction::RequestDelete(x)) => !confirming && clicks.trash && x == *id,
        },
{
    let mut action: Option<RowAction> = None;
    if confirming {
        if clicks.cancel {
            action = Some(RowAction::CancelDelete);
        }
        if clicks.delete {
            action = Some(RowAction::ConfirmDelete(id.clone()));
        }
    } else {
        if clicks.pin {
            action = Some(RowAction::TogglePin(id.clone()));
        }
        if clicks.trash {
            action = Some(RowAction::RequestDelete(id.clone()));
        }
    }
    action
}

/// The position of the first occurrence of `idx` in `shown`, or 0 when it does not occur.
pub open spec fn display_position(shown: Seq<usize>, idx: usize) -> int
    decreases shown.len(),
{
    if shown.len() == 0 {
        0
    } else if shown[0] == idx {
        0
    } else if shown.drop_first().contains(idx) {
        display_position(shown.drop_first(), idx) + 1
    } else {
        0
    }
}

/// The row for entry `idx` of `items` in the list `shown`.
pub open spec fn slot_of(items: Seq<ClipboardItem>, shown: Seq<usize>, confirm: Option<String>, selected: usize, idx: usize) -> RowSlot {
    RowSlot {
        item_index: idx,
        selected: display_position(shown, idx) == selected,
        confirming: match confirm {
            Some(c) => c@ == items[idx as int].id@,
            None => false,
        },
    }
}

/// The rows, in the order of `upto`, of the entries whose pin flag is `pinned`.
pub open spec fn section(items: Seq<ClipboardItem>, shown: Seq<usize>, upto: Seq<usize>, confirm: Option<String>, selected: usize, pinned: bool) -> Seq<RowSlot>
    decreases upto.len(),
{
    if upto.len() == 0 {
        Seq::empty()
    } else {
        let rest = section(items, shown, upto.drop_last(), confirm, selected, pinned);
        if items[upto.last() as int].pinned == pinned {
            rest.push(slot_of(items, shown, confirm, selected, upto.last()))
        } else {
            rest
        }
    }
}

proof fn lemma_display_position(shown: Seq<usize>, idx: usize, q: int)
    requires
        0 <= q <= shown.len(),
        forall|j: int| 0 <= j < q ==> shown[j] != idx,
    ensures
        q < shown.len() && shown[q] == idx ==> display_position(shown, idx) == q,
        q == shown.len() ==> display_position(shown, idx) == 0,
    decreases q,
{
    if shown.len() > 0 && q > 0 {
        let d = shown.drop_first();
        assert forall|j: int| 0 <= j < q - 1 implies d[j] != idx by {
            assert(d[j] == shown[j + 1]);
        }
        lemma_display_position(d, idx, q - 1);
        if q < shown.len() && shown[q] == idx {
            assert(d[q - 1] == idx);
            assert(d.contains(idx));
        }
        if q == shown.len() {
            assert(!d.contains(idx));
        }
    }
}

proof fn lemma_without_id_members(s: Seq<ClipboardItem>, id: Seq<char>)
    ensures
        forall|a: int| 0 <= a < without_id(s, id).len() ==> exists|j: int| 0 <= j < s.len() && s[j] == #[trigger] without_id(s, id)[a],
        forall|a: int| 0 <= a < without_id(s, id).len() ==> (#[trigger] without_id(s, id)[a]).id@ != id,
        forall|i: int| 0 <= i < s.len() && (#[trigger] s[i]).id@ != id ==> without_id(s, id).contains(s[i]),
    decreases s.len(),
{
    if s.len() > 0 {
        let d = s.drop_last();
        lemma_without_id_members(d, id);
        let w = without_id(d, id);
        assert forall|a: int| 0 <= a < w.len() implies exists|j: int| 0 <= j < s.len() && s[j] == #[trigger] w[a] by {
            let k = choose|k: int| 0 <= k < d.len() && d[k] == #[trigger] w[a];
            assert(s[k] == w[a]);
        }
        assert forall|i: int| 0 <= i < s.len() && (#[trigger] s[i]).id@ != id implies without_id(s, id).contains(s[i]) by {
            if i < s.len() - 1 {
                assert(d[i] == s[i]);
                assert(w.contains(s[i]));
                let k = choose|k: int| 0 <= k < w.len() && w[k] == s[i];
                if s.last().id@ != id {
                    assert(without_id(s, id)[k] == s[i]);
                }
            } else {
                assert(without_id(s, id) == w.push(s.last()));
                assert(without_id(s, id)[w.len() as int] == s[i]);
            }
        }
        if s.last().id@ != id {
            let r = w.push(s.last());
            assert forall|a: int| 0 <= a < r.len() implies exists|j: int| 0 <= j < s.len() && s[j] == #[trigger] r[a] by {
                if a == r.len() - 1 {
                    assert(s[s.len() - 1] == r[a]);
                } else {
                    assert(r[a] == w[a]);
                }
            }
            assert forall|a: int| 0 <= a < r.len() implies (#[trigger] r[a]).id@ != id by {
                if a < r.len() - 1 {
                    assert(r[a] == w[a]);
                }
            }
        }
    }
}

/// Confirming a delete removes exactly the entries with that id: none is left,
/// and every other entry stays.
pub proof fn law_delete_removes_exactly(s: Seq<ClipboardItem>, id: Seq<char>)
    ensures
        forall|a: int| 0 <= a < without_id(s, id).len() ==> (#[trigger] without_id(s, id)[a]).id@ != id,
        forall|i: int| 0 <= i < s.len() && (#[trigger] s[i]).id@ != id ==> without_id(s, id).contains(s[i]),
        forall|a: int| 0 <= a < without_id(s, id).len() ==> s.contains(#[trigger] without_id(s, id)[a]),
{
    lemma_without_id_members(s, id);
    assert forall|a: int| 0 <= a < without_id(s, id).len() implies s.contains(#[trigger] without_id(s, id)[a]) by {
        let j = choose|j: int| 0 <= j < s.len() && s[j] == without_id(s, id)[a];
    }
}

/// Deleting entries never makes two entries hold the same text.
pub proof fn law_delete_keeps_contents_distinct(s: Seq<ClipboardItem>, id: Seq<char>)
    requires
        distinct_contents(s),
    ensures
        distinct_contents(without_id(s, id)),
    decreases s.len(),
{
    if s.len() > 0 {
        let d = s.drop_last();
        assert(distinct_contents(d)) by {
            assert forall|i: int, j: int| 0 <= i < d.len() && 0 <= j < d.len() && i != j implies #[trigger] d[i].content@ != #[trigger] d[j].content@ by {
                assert(d[i] == s[i] && d[j] == s[j]);
            }
        }
        law_delete_keeps_contents_distinct(d, id);
        lemma_without_id_members(d, id);
        let w = without_id(d, id);
        if s.last().id@ != id {
            let r = w.push(s.last());
            assert forall|i: int, j: int| 0 <= i < r.len() && 0 <= j < r.len() && i != j implies #[trigger] r[i].content@ != #[trigger] r[j].content@ by {
                if i == r.len() - 1 {
                    let k = choose|k: int| 0 <= k < d.len() && d[k] == #[trigger] w[j];
                    assert(s[k] == r[j]);
                    assert(s[s.len() - 1] == r[i]);
                } else if j == r.len() - 1 {
                    let k = choose|k: int| 0 <= k < d.len() && d[k] == #[trigger] w[i];
                    assert(s[k] == r[i]);
                    assert(s[s.len() - 1] == r[j]);
                } else {
                    assert(r[i] == w[i] && r[j] == w[j]);
                }
            }
        }
    }
}

/// Flipping a pin (with reordering and capping) never makes two entries hold
/// the same text.
pub proof fn law_toggle_keeps_contents_distinct(s: Seq<ClipboardItem>, i: int, r: Seq<ClipboardItem>)
    requires
        distinct_contents(s),
        repinned(s, i, r),
    ensures
        distinct_contents(r),
{
    let q = choose|q: Seq<ClipboardItem>| stably_ordered(q, toggled(s, i)) && r == capped(q);
    let t = toggled(s, i);
    assert forall|a: int, b: int| 0 <= a < t.len() && 0 <= b < t.len() && a != b implies #[trigger] t[a].content@ != #[trigger] t[b].content@ by {
        assert(t[a].content == s[a].content && t[b].content == s[b].content);
    }
    crate::history::lemma_distinct_perm(t, q);
    law_capped(q);
}

/// Up and Down keep the selection on a shown row.
pub proof fn law_selection_stays_on_list(sel: int, keys: KeyPresses, shown: int)
    requires
        0 <= sel < shown,
    ensures
        0 <= moved_selection(sel, keys, shown) < shown,
{
}

/// In display order every pinned entry comes before every unpinned one.
pub proof fn law_pinned_first(s: Seq<ClipboardItem>)
    requires
        in_display_order(s),
    ensures
        forall|i: int, j: int| 0 <= i < j < s.len() && (#[trigger] s[j]).pinned ==> (#[trigger] s[i]).pinned,
{
    assert forall|i: int, j: int| 0 <= i < j < s.len() && (#[trigger] s[j]).pinned implies (#[trigger] s[i]).pinned by {
        assert(!shown_before(s[j], s[i]));
    }
}

/// No two entries were copied at the same instant.
pub open spec fn distinct_instants(s: Seq<ClipboardItem>) -> bool {
    forall|i: int, j: int| 0 <= i < s.len() && 0 <= j < s.len() && i != j ==> #[trigger] s[i].copied_at != #[trigger] s[j].copied_at
}

proof fn lemma_toggled_multiset(s: Seq<ClipboardItem>, i: int)
    requires
        0 <= i < s.len(),
    ensures
        toggled(s, i).to_multiset() == s.to_multiset().remove(s[i]).insert(toggled(s, i)[i]),
{
    let t = toggled(s, i);
    let y = t[i];
    s.to_multiset_ensures();
    t.to_multiset_ensures();
    assert(t.remove(i) =~= s.remove(i));
    assert(t.remove(i).to_multiset() == t.to_multiset().remove(t[i]));
    assert(s.remove(i).to_multiset() == s.to_multiset().remove(s[i]));
    assert(t.to_multiset().count(y) > 0) by {
        assert(t.contains(y));
    }
    assert(s.to_multiset().count(s[i]) > 0) by {
        assert(s.contains(s[i]));
    }
    assert(t.to_multiset() =~= s.to_multiset().remove(s[i]).insert(y));
}

proof fn lemma_ordered_distinct_unique(a: Seq<ClipboardItem>, b: Seq<ClipboardItem>)
    requires
        in_display_order(a),
        in_display_order(b),
        a.to_multiset() == b.to_multiset(),
        distinct_instants(a),
    ensures
        a == b,
    decreases a.len(),
{
    a.to_multiset_ensures();
    b.to_multiset_ensures();
    if a.len() == 0 {
        assert(a =~= b);
    } else {
        let n = a.len() - 1;
        let m = b.len() - 1;
        let x = a[n];
        let y = b[m];
        assert(b.contains(y));
        assert(b.to_multiset().count(y) > 0);
        assert(a.contains(y));
        assert(a.contains(x));
        assert(a.to_multiset().count(x) > 0);
        assert(b.contains(x));
        let i = choose|i: int| 0 <= i < a.len() && a[i] == y;
        let j = choose|j: int| 0 <= j < b.len() && b[j] == x;
        if i < n {
            assert(!shown_before(a[n], a[i]));
        }
        if j < m {
            assert(!shown_before(b[m], b[j]));
        }
        assert(x.copied_at == y.copied_at);
        assert(i == n);
        assert(x == y);
        let a2 = a.drop_last();
        let b2 = b.drop_last();
        assert(a2.push(x) =~= a);
        assert(b2.push(y) =~= b);
        a2.to_multiset_ensures();
        b2.to_multiset_ensures();
        assert(a2.to_multiset() =~= a.to_multiset().remove(x));
        assert(b2.to_multiset() =~= b.to_multiset().remove(y));
        assert(in_display_order(a2)) by {
            assert forall|p: int, q: int| 0 <= p < q < a2.len() implies !shown_before(#[trigger] a2[q], #[trigger] a2[p]) by {
                assert(a2[p] == a[p] && a2[q] == a[q]);
            }
        }
        assert(in_display_order(b2)) by {
            assert forall|p: int, q: int| 0 <= p < q < b2.len() implies !shown_before(#[trigger] b2[q], #[trigger] b2[p]) by {
                assert(b2[p] == b[p] && b2[q] == b[q]);
            }
        }
        assert(distinct_instants(a2)) by {
            assert forall|p: int, q: int| 0 <= p < a2.len() && 0 <= q < a2.len() && p != q implies #[trigger] a2[p].copied_at != #[trigger] a2[q].copied_at by {
                assert(a2[p] == a[p] && a2[q] == a[q]);
            }
        }
        lemma_ordered_distinct_unique(a2, b2);
        assert(a =~= b);
    }
}

/// Flipping the pin of an entry and then flipping it back restores the history,
/// when the history was in display order, no two entries were copied at the
/// same instant, and the first flip does not pass the cap on unpinned entries
/// (nothing is dropped). Here `r1` is the history after the first flip (of
/// entry `i`), `j` is where the flipped entry ended up, and `r2` is the history
/// after the second flip.
pub proof fn law_toggle_twice_restores(s: Seq<ClipboardItem>, i: int, r1: Seq<ClipboardItem>, j: int, r2: Seq<ClipboardItem>)
    requires
        in_display_order(s),
        distinct_instants(s),
        0 <= i < s.len(),
        count_unpinned(s) <= MAX_UNPINNED,
        count_unpinned(toggled(s, i)) <= MAX_UNPINNED,
        repinned(s, i, r1),
        0 <= j < r1.len(),
        r1[j] == toggled(s, i)[i],
        repinned(r1, j, r2),
    ensures
        r2 == s,
{
    let t1 = toggled(s, i);
    let q1 = choose|q: Seq<ClipboardItem>| stably_ordered(q, t1) && r1 == capped(q);
    crate::history::lemma_count_perm(t1, q1, |x: ClipboardItem| is_unpinned(x));
    law_capped(q1);
    assert(r1 == q1);
    let x = s[i];
    let xf = t1[i];
    lemma_toggled_multiset(s, i);
    lemma_toggled_multiset(r1, j);
    let t2 = toggled(r1, j);
    assert(t2[j] == x);
    assert(xf != x);
    s.to_multiset_ensures();
    assert(s.contains(x));
    assert(s.to_multiset().count(x) > 0);
    assert(r1.to_multiset() == s.to_multiset().remove(x).insert(xf));
    assert(t2.to_multiset() == r1.to_multiset().remove(xf).insert(x));
    assert(t2.to_multiset() =~= s.to_multiset());
    let q2 = choose|q: Seq<ClipboardItem>| stably_ordered(q, t2) && r2 == capped(q);
    crate::history::lemma_count_perm(s, t2, |x: ClipboardItem| is_unpinned(x));
    crate::history::lemma_count_perm(t2, q2, |x: ClipboardItem| is_unpinned(x));
    law_capped(q2);
    assert(r2 == q2);
    lemma_ordered_distinct_unique(s, r2);
}

/// Up moves the selection exactly one row up from any row but the first, and
/// Down exactly one row down from any row but the last; from the first row Up
/// and from the last row Down leave it where it is, and with neither key it
/// stays.
pub proof fn law_arrow_keys(sel: int, keys: KeyPresses, shown: int)
    requires
        0 <= sel < shown,
    ensures
        keys.up && !keys.down && sel > 0 ==> moved_selection(sel, keys, shown) == sel - 1,
        keys.up && !keys.down && sel == 0 ==> moved_selection(sel, keys, shown) == 0,
        keys.down && !keys.up && sel + 1 < shown ==> moved_selection(sel, keys, shown) == sel + 1,
        keys.down && !keys.up && sel + 1 == shown ==> moved_selection(sel, keys, shown) == sel,
        !keys.up && !keys.down ==> moved_selection(sel, keys, shown) == sel,
        keys.up && keys.down && 0 < sel ==> moved_selection(sel, keys, shown) == sel,
        keys.up && keys.down && sel == 0 ==> moved_selection(sel, keys, shown) == (if shown > 1 { 1int } else { 0int }),
{
}

proof fn lemma_display_position_distinct(shown: Seq<usize>, a: int)
    requires
        0 <= a < shown.len(),
        forall|i: int, j: int| 0 <= i < j < shown.len() ==> shown[i] != shown[j],
    ensures
        display_position(shown, shown[a]) == a,
{
    assert forall|j: int| 0 <= j < a implies shown[j] != shown[a] by {}
    lemma_display_position(shown, shown[a], a);
}

/// In a shown list without repeats, the row at position `a` is marked selected
/// exactly when `a` is the selected position, and marked as awaiting
/// confirmation exactly when its entry has the pending id.
pub proof fn law_row_marks(items: Seq<ClipboardItem>, shown: Seq<usize>, confirm: Option<String>, selected: usize, a: int)
    requires
        0 <= a < shown.len(),
        forall|i: int, j: int| 0 <= i < j < shown.len() ==> shown[i] != shown[j],
    ensures
        slot_of(items, shown, confirm, selected, shown[a]).selected == (a == selected),
        slot_of(items, shown, confirm, selected, shown[a]).item_index == shown[a],
        slot_of(items, shown, confirm, selected, shown[a]).confirming
            == (confirm.is_some() && confirm.unwrap()@ == items[shown[a] as int].id@),
{
    lemma_display_position_distinct(shown, a);
}

/// Whether `row` is the row of some position `a` of `shown` whose entry has
/// pin flag `pinned`, marked selected exactly when `a` is the selected
/// position and awaiting confirmation exactly when its entry has the pending id.
pub open spec fn marks_position(items: Seq<ClipboardItem>, shown: Seq<usize>, confirm: Option<String>, selected: usize, pinned: bool, row: RowSlot, bound: int) -> bool {
    exists|a: int| 0 <= a < bound && #[trigger] shown[a] == row.item_index && {
        &&& items[shown[a] as int].pinned == pinned
        &&& row.selected == (a == selected)
        &&& row.confirming == (confirm.is_some() && confirm.unwrap()@ == items[shown[a] as int].id@)
    }
}

proof fn lemma_section_rows(items: Seq<ClipboardItem>, shown: Seq<usize>, confirm: Option<String>, selected: usize, pinned: bool, k: int)
    requires
        0 <= k <= shown.len(),
        forall|i: int, j: int| 0 <= i < j < shown.len() ==> shown[i] != shown[j],
        forall|a: int| 0 <= a < shown.len() ==> #[trigger] shown[a] < items.len(),
    ensures
        forall|r: int| 0 <= r < section(items, shown, shown.subrange(0, k), confirm, selected, pinned).len()
            ==> marks_position(items, shown, confirm, selected, pinned,
                #[trigger] section(items, shown, shown.subrange(0, k), confirm, selected, pinned)[r], k),
    decreases k,
{
    if k > 0 {
        lemma_section_rows(items, shown, confirm, selected, pinned, k - 1);
        let upto = shown.subrange(0, k);
        assert(upto.drop_last() =~= shown.subrange(0, k - 1));
        assert(upto.last() == shown[k - 1]);
        lemma_display_position_distinct(shown, k - 1);
        let rest = section(items, shown, shown.subrange(0, k - 1), confirm, selected, pinned);
        let sec = section(items, shown, upto, confirm, selected, pinned);
        assert forall|r: int| 0 <= r < sec.len() implies
            marks_position(items, shown, confirm, selected, pinned, #[trigger] sec[r], k) by {
            if r < rest.len() {
                assert(sec[r] == rest[r]);
                assert(marks_position(items, shown, confirm, selected, pinned, rest[r], k - 1));
                let a = choose|a: int| 0 <= a < k - 1 && #[trigger] shown[a] == rest[r].item_index && {
                    &&& items[shown[a] as int].pinned == pinned
                    &&& rest[r].selected == (a == selected)
                    &&& rest[r].confirming == (confirm.is_some() && confirm.unwrap()@ == items[shown[a] as int].id@)
                };
                assert(shown[a] == sec[r].item_index);
            } else {
                assert(sec[r] == slot_of(items, shown, confirm, selected, shown[k - 1]));
                assert(items[shown[k - 1] as int].pinned == pinned);
                assert(shown[k - 1] == sec[r].item_index);
            }
        }
    }
}

/// Laying out a shown list without repeats puts each row in the section of its
/// entry's pin flag, and marks a row selected exactly when its position in the
/// shown list is the selected position, and awaiting confirmation exactly when
/// its entry has the pending id.
pub proof fn law_layout_marks(items: Seq<ClipboardItem>, shown: Seq<usize>, confirm: Option<String>, selected: usize, pinned: bool)
    requires
        forall|i: int, j: int| 0 <= i < j < shown.len() ==> shown[i] != shown[j],
        forall|a: int| 0 <= a < shown.len() ==> #[trigger] shown[a] < items.len(),
    ensures
        forall|r: int| 0 <= r < section(items, shown, shown, confirm, selected, pinned).len()
            ==> marks_position(items, shown, confirm, selected, pinned,
                #[trigger] section(items, shown, shown, confirm, selected, pinned)[r], shown.len() as int),
{
    lemma_section_rows(items, shown, confirm, selected, pinned, shown.len() as int);
    assert(shown.subrange(0, shown.len() as int) =~= shown);
}

impl Session {
    /// A fresh launcher over `items`: empty search, nothing awaiting
    /// confirmation, the first row selected, the search field not focused yet.
    pub fn new(items: Vec<ClipboardItem>) -> (s: Session)
        ensures
            s.items@ == items@,
            s.search_query@.len() == 0,
            s.confirm_delete.is_none(),
            s.selected_index == 0,
            !s.focus_requested,
    {
        Session { items, search_query: String::new(), confirm_delete: None, selected_index: 0, focus_requested: false }
    }

    /// Pulls the selection back onto the last of `shown` rows when it lies
    /// beyond them; with no rows shown it is left alone.
    pub fn clamp_selection(&mut self, shown: usize)
        ensures
            final(self).selected_index == (if shown > 0 && old(self).selected_index >= shown { (shown - 1) as usize } else { old(self).selected_index }),
            final(self).items == old(self).items,
            final(self).search_query == old(self).search_query,
            final(self).confirm_delete == old(self).confirm_delete,
            final(self).focus_requested == old(self).focus_requested,
    {
        if shown > 0 && self.selected_index >= shown {
            self.selected_index = shown - 1;
        }
    }

    /// Whether the search field still has to be focused; it is focused once.
    pub fn take_focus_request(&mut self) -> (r: bool)
        ensures
            r == !old(self).focus_requested,
            final(self).focus_requested,
            final(self).items == old(self).items,
            final(self).search_query == old(self).search_query,
            final(self).confirm_delete == old(self).confirm_delete,
            final(self).selected_index == old(self).selected_index,
    {
        if !self.focus_requested {
            self.focus_requested = true;
            true
        } else {
            false
        }
    }

    /// Applies the keys of one frame, given the rows shown (`filtered`, indices
    /// into the history) when the frame began. In order: Escape clears a
    /// non-empty search or else closes; Up and Down move the selection; Enter
    /// copies the selected entry and closes; Ctrl+D flips the pin of the
    /// selected entry, reorders and keeps the cap on unpinned entries; Delete
    /// or Backspace, with an empty search, asks to confirm deleting the
    /// selected entry.
    pub fn handle_keys(&mut self, keys: KeyPresses, filtered: &Vec<usize>) -> (e: KeyEffects)
        ensures
            final(self).selected_index == moved_selection(old(self).selected_index as int, keys, filtered@.len() as int),
            final(self).search_query@ == (if keys.escape { Seq::<char>::empty() } else { old(self).search_query@ }),
            e.close == ((keys.escape && old(self).search_query@.len() == 0) || keys.enter),
            ({
                let sel = final(self).selected_index as int;
                &&& e.save_all == (keys.ctrl_d && sel < filtered@.len())
                &&& e.copy == (if keys.enter && sel < filtered@.len() && filtered@[sel] < old(self).items@.len() {
                        Some(old(self).items@[filtered@[sel] as int].content)
                    } else {
                        None
                    })
                &&& (keys.ctrl_d && sel < filtered@.len()) ==> repinned(old(self).items@, filtered@[sel] as int, final(self).items@)
                &&& !(keys.ctrl_d && sel < filtered@.len()) ==> final(self).items@ == old(self).items@
                &&& final(self).confirm_delete == (if keys.delete && old(self).search_query@.len() == 0 && sel < filtered@.len() && filtered@[sel] < final(self).items@.len() {
                        Some(final(self).items@[filtered@[sel] as int].id)
                    } else {
                        old(self).confirm_delete
                    })
            }),
            in_display_order(old(self).items@) ==> in_display_order(final(self).items@),
            count_unpinned(old(self).items@) <= MAX_UNPINNED ==> count_unpinned(final(self).items@) <= MAX_UNPINNED,
            final(self).focus_requested == old(self).focus_requested,
    {
        let do_delete = keys.delete && self.search_query.as_str().is_empty();
        let mut close = false;
        if keys.escape {
            if !self.search_query.as_str().is_empty() {
                self.search_query = String::new();
            } else {
                close = true;
            }
        }
        if keys.up && self.selected_index > 0 {
            self.selected_index = self.selected_index - 1;
        }
        let shown = filtered.len();
        if keys.down && shown > 0 && self.selected_index < shown - 1 {
            self.selected_index = self.selected_index + 1;
        }
        let sel = self.selected_index;
        let mut copy: Option<String> = None;
        if keys.enter {
            if sel < shown {
                let idx = filtered[sel];
                if idx < self.items.len() {
                    copy = Some(self.items[idx].content.clone());
                }
            }
            close = true;
        }
        let mut save_all = false;
        if keys.ctrl_d && sel < shown {
            let idx = filtered[sel];
            flip_and_reorder(&mut self.items, idx);
            save_all = true;
        }
        if do_delete && sel < shown {
            let idx = filtered[sel];
            if idx < self.items.len() {
                self.confirm_delete = Some(self.items[idx].id.clone());
            }
        }
        KeyEffects { close, copy, save_all }
    }

    /// Applies a row button: flip the pin of the first entry with the id,
    /// reorder and keep the cap on unpinned entries; ask to confirm deleting an
    /// entry; delete every entry with the id; or drop the pending confirmation. Returns whether the stored history has
    /// to be rewritten.
    pub fn apply_row_action(&mut self, action: RowAction) -> (save_all: bool)
        ensures
            match action {
                RowAction::TogglePin(id) => {
                    &&& repinned(old(self).items@, match position_of_id(old(self).items@, id@) {
                            Some(i) => i,
                            None => -1,
                        }, final(self).items@)
                    &&& save_all
                    &&& final(self).confirm_delete == old(self).confirm_delete
                },
                RowAction::RequestDelete(id) => {
                    &&& final(self).items@ == old(self).items@
                    &&& final(self).confirm_delete == Some(id)
                    &&& !save_all
                },
                RowAction::ConfirmDelete(id) => {
                    &&& final(self).items@ == without_id(old(self).items@, id@)
                    &&& final(self).confirm_delete.is_none()
                    &&& save_all
                },
                RowAction::CancelDelete => {
                    &&& final(self).items@ == old(self).items@
                    &&& final(self).confirm_delete.is_none()
                    &&& !save_all
                },
            },
            in_display_order(old(self).items@) ==> in_display_order(final(self).items@),
            count_unpinned(old(self).items@) <= MAX_UNPINNED ==> count_unpinned(final(self).items@) <= MAX_UNPINNED,
            final(self).search_query == old(self).search_query,
            final(self).selected_index == old(self).selected_index,
            final(self).focus_requested == old(self).focus_requested,
    {
        match action {
            RowAction::TogglePin(id) => {
                let n = self.items.len();
                let mut k: usize = 0;
                while k < n && !(self.items[k].id == id)
                    invariant
                        n == self.items.len(),
                        k <= n,
                        forall|j: int| 0 <= j < k ==> (#[trigger] self.items@[j]).id@ != id@,
                    decreases n - k,
                {
                    k = k + 1;
                }
                proof {
                    crate::history::lemma_position_of_id(self.items@, id@, k as int);
                }
                let target = if k < n { k } else { n };
                flip_and_reorder(&mut self.items, target);
                proof {
                    if k >= n {
                        assert(toggled(old(self).items@, target as int) == toggled(old(self).items@, -1));
                    }
                }
                true
            },
            RowAction::RequestDelete(id) => {
                self.confirm_delete = Some(id);
                false
            },
            RowAction::ConfirmDelete(id) => {
                proof {
                    if in_display_order(self.items@) {
                        lemma_without_id_ordered(self.items@, id@);
                    }
                    lemma_without_id_count(self.items@, id@);
                }
                remove_with_id(&mut self.items, &id);
                self.confirm_delete = None;
                true
            },
            RowAction::CancelDelete => {
                self.confirm_delete = None;
                false
            },
        }
    }


    /// The row of entry `idx` in the list `shown`.
    fn slot(&self, shown: &Vec<usize>, idx: usize) -> (r: RowSlot)
        requires
            idx < self.items.len(),
        ensures
            r == slot_of(self.items@, shown@, self.confirm_delete, self.selected_index, idx),
    {
        let n = shown.len();
        let mut q: usize = 0;
        while q < n && shown[q] != idx
            invariant
                n == shown.len(),
                q <= n,
                forall|j: int| 0 <= j < q ==> shown@[j] != idx,
            decreases n - q,
        {
            q = q + 1;
        }
        proof {
            lemma_display_position(shown@, idx, q as int);
        }
        let pos = if q < n { q } else { 0 };
        let confirming = match &self.confirm_delete {
            Some(c) => *c == self.items[idx].id,
            None => false,
        };
        RowSlot { item_index: idx, selected: pos == self.selected_index, confirming }
    }

    /// Splits the shown list into its pinned rows and its other rows, each in
    /// shown order, marking the selected row and the row awaiting confirmation.
    pub fn layout_rows(&self, shown: &Vec<usize>) -> (r: (Vec<RowSlot>, Vec<RowSlot>))
        requires
            forall|a: int| 0 <= a < shown@.len() ==> #[trigger] shown@[a] < self.items@.len(),
        ensures
            r.0@ == section(self.items@, shown@, shown@, self.confirm_delete, self.selected_index, true),
            r.1@ == section(self.items@, shown@, shown@, self.confirm_delete, self.selected_index, false),
    {
        let n = shown.len();
        let mut pinned: Vec<RowSlot> = Vec::new();
        let mut recent: Vec<RowSlot> = Vec::new();
        let mut a: usize = 0;
        while a < n
            invariant
                n == shown.len(),
                a <= n,
                forall|b: int| 0 <= b < shown@.len() ==> #[trigger] shown@[b] < self.items@.len(),
                pinned@ == section(self.items@, shown@, shown@.subrange(0, a as int), self.confirm_delete, self.selected_index, true),
                recent@ == section(self.items@, shown@, shown@.subrange(0, a as int), self.confirm_delete, self.selected_index, false),
            decreases n - a,
        {
            let idx = shown[a];
            let slot = self.slot(shown, idx);
            proof {
                let up = shown@.subrange(0, a + 1);
                assert(up.drop_last() =~= shown@.subrange(0, a as int));
                assert(up.last() == idx);
            }
            if self.items[idx].pinned {
                pinned.push(slot);
            } else {
                recent.push(slot);
            }
            a = a + 1;
        }
        proof {
            assert(shown@.subrange(0, n as int) =~= shown@);
        }
        (pinned, recent)
    }

    /// Takes in clipboard text captured at `now` (see `absorb_at`).
    pub fn absorb_at(&mut self, new_item: ClipboardItem, now: Timestamp) -> (action: StoreAction)
        ensures
            stably_ordered(final(self).items@, absorb_source(old(self).items@, new_item, now)),
            absorb_action(old(self).items@, new_item, final(self).items@, action),
            final(self).search_query == old(self).search_query,
            final(self).confirm_delete == old(self).confirm_delete,
            final(self).selected_index == old(self).selected_index,
            final(self).focus_requested == old(self).focus_requested,
    {
        absorb_at(&mut self.items, new_item, now)
    }

    /// Takes in clipboard text, stamping a repeated text with the current instant.
    pub fn absorb(&mut self, new_item: ClipboardItem) -> (action: StoreAction)
        ensures
            exists|now: Timestamp| {
                &&& stably_ordered(final(self).items@, absorb_source(old(self).items@, new_item, now))
                &&& absorb_action(old(self).items@, new_item, final(self).items@, action)
            },
            final(self).search_query == old(self).search_query,
            final(self).confirm_delete == old(self).confirm_delete,
            final(self).selected_index == old(self).selected_index,
            final(self).focus_requested == old(self).focus_requested,
    {
        let now = now_utc();
        self.absorb_at(new_item, now)
    }
}

} // verus!
