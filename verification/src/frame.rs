//! Laws over whole frames: any run of the history changes a frame can make
//! (new clipboard text, pin flips, deletes) keeps the cap on unpinned entries,
//! keeps the pinned entries the user left alone, and, with the writes each
//! change asks for, keeps the store holding the history.

use vstd::prelude::*;
use crate::item::{ClipboardItem, Timestamp};
use crate::history::{
    absorb_action, absorb_source, capped, count_unpinned, is_unpinned, last_unpinned,
    law_absorb_caps_unpinned, law_absorb_keeps_pinned_entries, law_capped, refreshed,
    stably_ordered, StoreAction, MAX_UNPINNED,
};
use crate::session::{law_delete_removes_exactly, repinned, toggled, without_id};
use crate::storage::{
    action_plan, apply_ops, item_ids, law_absorb_keeps_store, law_load_reads_back,
    law_save_all_represents, load_model, order_key_text, parse_string_array, represents,
    save_all_plan, OpModel, StoreError,
};

verus! {

/// One change to the history, as the launcher makes them.
pub enum Step {
    /// Clipboard text taken in at an instant (`Session::absorb_at`), with the
    /// store action it returned.
    Absorb(ClipboardItem, Timestamp, StoreAction),
    /// The pin of the entry at an index flipped (Ctrl+D, or the pin button),
    /// with reordering and the cap.
    Repin(int),
    /// Every entry with an id deleted (a confirmed delete).
    Delete(Seq<char>),
    /// Nothing changed in the history.
    Keep,
}

/// `b` is what the step `step` makes of `a`.
pub open spec fn step_leads(a: Seq<ClipboardItem>, step: Step, b: Seq<ClipboardItem>) -> bool {
    match step {
        Step::Absorb(n, t, act) => stably_ordered(b, absorb_source(a, n, t)) && absorb_action(a, n, b, act),
        Step::Repin(i) => repinned(a, i, b),
        Step::Delete(id) => b == without_id(a, id),
        Step::Keep => b == a,
    }
}

/// `hs` are the histories of a run of `steps`: each step leads from one to the next.
pub open spec fn is_run(hs: Seq<Seq<ClipboardItem>>, steps: Seq<Step>) -> bool {
    &&& hs.len() == steps.len() + 1
    &&& forall|k: int| 0 <= k < steps.len() ==> step_leads(#[trigger] hs[k], steps[k], hs[k + 1])
}

/// The step neither flips the pin of nor deletes an entry with id `id` of `a`.
pub open spec fn spares(a: Seq<ClipboardItem>, step: Step, id: Seq<char>) -> bool {
    match step {
        Step::Repin(i) => !(0 <= i < a.len() && a[i].id@ == id),
        Step::Delete(d) => d != id,
        _ => true,
    }
}

/// `s` holds a pinned entry with the id and text of `x`.
pub open spec fn holds_pinned(s: Seq<ClipboardItem>, x: ClipboardItem) -> bool {
    exists|q: int| 0 <= q < s.len() && (#[trigger] s[q]).id@ == x.id@ && s[q].content@ == x.content@ && s[q].pinned
}

proof fn lemma_step_caps(a: Seq<ClipboardItem>, step: Step, b: Seq<ClipboardItem>)
    requires
        step_leads(a, step, b),
        count_unpinned(a) <= MAX_UNPINNED,
    ensures
        count_unpinned(b) <= MAX_UNPINNED,
{
    match step {
        Step::Absorb(n, t, act) => {
            law_absorb_caps_unpinned(a, n, t, b);
        },
        Step::Repin(i) => {
            let q = choose|q: Seq<ClipboardItem>| stably_ordered(q, toggled(a, i)) && b == capped(q);
            crate::session::lemma_toggled_count(a, i);
            crate::history::lemma_count_perm(toggled(a, i), q, |x: ClipboardItem| is_unpinned(x));
            law_capped(q);
        },
        Step::Delete(id) => {
            crate::session::lemma_without_id_count(a, id);
        },
        Step::Keep => {},
    }
}

proof fn lemma_run_caps(hs: Seq<Seq<ClipboardItem>>, steps: Seq<Step>, k: int)
    requires
        is_run(hs, steps),
        0 <= k <= steps.len(),
        count_unpinned(hs[0]) <= MAX_UNPINNED,
    ensures
        count_unpinned(hs[k]) <= MAX_UNPINNED,
    decreases k,
{
    if k > 0 {
        lemma_run_caps(hs, steps, k - 1);
        assert(step_leads(hs[k - 1], steps[k - 1], hs[k]));
        lemma_step_caps(hs[k - 1], steps[k - 1], hs[k]);
    }
}

/// Over any run of changes a frame makes, the history never holds more than
/// `MAX_UNPINNED` unpinned entries, as long as it did not at the start.
pub proof fn law_frame_caps_unpinned(hs: Seq<Seq<ClipboardItem>>, steps: Seq<Step>)
    requires
        is_run(hs, steps),
        count_unpinned(hs[0]) <= MAX_UNPINNED,
    ensures
        forall|k: int| 0 <= k < hs.len() ==> count_unpinned(#[trigger] hs[k]) <= MAX_UNPINNED,
{
    assert forall|k: int| 0 <= k < hs.len() implies count_unpinned(#[trigger] hs[k]) <= MAX_UNPINNED by {
        lemma_run_caps(hs, steps, k);
    }
}

proof fn lemma_capped_keeps_pinned(s: Seq<ClipboardItem>, q: int)
    requires
        0 <= q < s.len(),
        s[q].pinned,
    ensures
        capped(s).contains(s[q]),
{
    crate::history::lemma_last_unpinned_props(s);
    if count_unpinned(s) > MAX_UNPINNED {
        if let Some(r) = last_unpinned(s) {
            let k = if q < r { q } else { q - 1 };
            assert(s.remove(r)[k] == s[q]);
        } else {
            assert(s[q] == s[q]);
        }
    } else {
        assert(s[q] == s[q]);
    }
}

proof fn lemma_contains_pinned(s: Seq<ClipboardItem>, y: ClipboardItem, x: ClipboardItem)
    requires
        s.contains(y),
        y.id@ == x.id@,
        y.content@ == x.content@,
        y.pinned,
    ensures
        holds_pinned(s, x),
{
    let q = choose|q: int| 0 <= q < s.len() && s[q] == y;
    assert(s[q].id@ == x.id@);
}

proof fn lemma_step_keeps_pinned(a: Seq<ClipboardItem>, step: Step, b: Seq<ClipboardItem>, x: ClipboardItem)
    requires
        step_leads(a, step, b),
        holds_pinned(a, x),
        spares(a, step, x.id@),
    ensures
        holds_pinned(b, x),
{
    let q = choose|q: int| 0 <= q < a.len() && (#[trigger] a[q]).id@ == x.id@ && a[q].content@ == x.content@ && a[q].pinned;
    let y = a[q];
    match step {
        Step::Absorb(n, t, act) => {
            law_absorb_keeps_pinned_entries(a, n, t, b);
            assert(a[q].pinned);
            if b.contains(y) {
                lemma_contains_pinned(b, y, x);
            } else {
                lemma_contains_pinned(b, refreshed(y, t), x);
            }
        },
        Step::Repin(i) => {
            let qs = choose|qs: Seq<ClipboardItem>| stably_ordered(qs, toggled(a, i)) && b == capped(qs);
            let tg = toggled(a, i);
            assert(tg[q] == y);
            assert(tg.contains(y));
            crate::history::lemma_perm_contains(tg, qs, y);
            let r = choose|r: int| 0 <= r < qs.len() && qs[r] == y;
            lemma_capped_keeps_pinned(qs, r);
            lemma_contains_pinned(b, y, x);
        },
        Step::Delete(id) => {
            law_delete_removes_exactly(a, id);
            lemma_contains_pinned(b, y, x);
        },
        Step::Keep => {
            assert(a[q].id@ == x.id@);
        },
    }
}

proof fn lemma_run_keeps_pinned(hs: Seq<Seq<ClipboardItem>>, steps: Seq<Step>, x: ClipboardItem, k: int)
    requires
        is_run(hs, steps),
        0 <= k <= steps.len(),
        holds_pinned(hs[0], x),
        forall|j: int| 0 <= j < steps.len() ==> spares(#[trigger] hs[j], steps[j], x.id@),
    ensures
        holds_pinned(hs[k], x),
    decreases k,
{
    if k > 0 {
        lemma_run_keeps_pinned(hs, steps, x, k - 1);
        assert(step_leads(hs[k - 1], steps[k - 1], hs[k]));
        assert(spares(hs[k - 1], steps[k - 1], x.id@));
        lemma_step_keeps_pinned(hs[k - 1], steps[k - 1], hs[k], x);
    }
}

/// Over any run of changes a frame makes, every pinned entry at the start that
/// no step unpins or deletes is still there, pinned, with its id and text (its
/// instant is refreshed when its text is copied again).
pub proof fn law_frame_keeps_pinned(hs: Seq<Seq<ClipboardItem>>, steps: Seq<Step>, p: int)
    requires
        is_run(hs, steps),
        0 <= p < hs[0].len(),
        hs[0][p].pinned,
        forall|j: int| 0 <= j < steps.len() ==> spares(#[trigger] hs[j], steps[j], hs[0][p].id@),
    ensures
        holds_pinned(hs[steps.len() as int], hs[0][p]),
{
    assert(hs[0][p].id@ == hs[0][p].id@);
    lemma_run_keeps_pinned(hs, steps, hs[0][p], steps.len() as int);
}

/// The writes the launcher makes after a step: what the store action of new
/// text asks for, a full rewrite after a pin flip or a delete, nothing else.
/// `encoded` are the stored bytes of the entries written, `order` the stored
/// order.
pub open spec fn step_writes(b: Seq<ClipboardItem>, step: Step, encoded: Seq<Seq<u8>>, order: Seq<u8>) -> Seq<OpModel> {
    match step {
        Step::Absorb(_, _, act) => action_plan(b, act, encoded, order),
        Step::Repin(_) => save_all_plan(b, encoded, order),
        Step::Delete(_) => save_all_plan(b, encoded, order),
        Step::Keep => Seq::empty(),
    }
}

/// What the writes after a step into history `b` rest on: distinct ids, none
/// the reserved order key; order bytes that read back as the ids (as those of
/// `order_value` do); entry bytes that decode to the entries they are written for.
pub open spec fn writes_sound(b: Seq<ClipboardItem>, step: Step, encoded: Seq<Seq<u8>>, order: Seq<u8>, decode: spec_fn(Seq<u8>) -> Option<ClipboardItem>) -> bool {
    &&& b.len() <= usize::MAX
    &&& forall|i: int, j: int| 0 <= i < b.len() && 0 <= j < b.len() && i != j ==> (#[trigger] b[i]).id@ != (#[trigger] b[j]).id@
    &&& forall|i: int| 0 <= i < b.len() ==> (#[trigger] b[i]).id@ != order_key_text()
    &&& parse_string_array(order) == Some(item_ids(b))
    &&& match step {
        Step::Absorb(_, _, StoreAction::SaveItemAndOrder { index }) =>
            encoded.len() == 1 && index < b.len() && decode(encoded[0]) == Some(b[index as int]),
        Step::Keep => true,
        _ => encoded.len() == b.len() && forall|i: int| 0 <= i < b.len() ==> decode(#[trigger] encoded[i]) == Some(b[i]),
    }
}

/// The store after the writes of the first `k` steps of a run, starting from `m`.
pub open spec fn run_store(
    m: Map<Seq<u8>, Seq<u8>>,
    hs: Seq<Seq<ClipboardItem>>,
    steps: Seq<Step>,
    encs: Seq<Seq<Seq<u8>>>,
    orders: Seq<Seq<u8>>,
    k: int,
) -> Map<Seq<u8>, Seq<u8>>
    decreases k,
{
    if k <= 0 {
        m
    } else {
        apply_ops(run_store(m, hs, steps, encs, orders, k - 1), step_writes(hs[k], steps[k - 1], encs[k - 1], orders[k - 1]))
    }
}

proof fn lemma_run_store(
    m: Map<Seq<u8>, Seq<u8>>,
    hs: Seq<Seq<ClipboardItem>>,
    steps: Seq<Step>,
    encs: Seq<Seq<Seq<u8>>>,
    orders: Seq<Seq<u8>>,
    decode: spec_fn(Seq<u8>) -> Option<ClipboardItem>,
    k: int,
)
    requires
        is_run(hs, steps),
        encs.len() == steps.len(),
        orders.len() == steps.len(),
        represents(m, hs[0], decode),
        forall|j: int| 0 <= j < steps.len() ==> writes_sound(#[trigger] hs[j + 1], steps[j], encs[j], orders[j], decode),
        0 <= k <= steps.len(),
    ensures
        represents(run_store(m, hs, steps, encs, orders, k), hs[k], decode),
    decreases k,
{
    if k > 0 {
        lemma_run_store(m, hs, steps, encs, orders, decode, k - 1);
        let prev = run_store(m, hs, steps, encs, orders, k - 1);
        let a = hs[k - 1];
        let b = hs[k];
        let j = k - 1;
        assert(step_leads(hs[j], steps[j], hs[j + 1]));
        assert(writes_sound(hs[j + 1], steps[j], encs[j], orders[j], decode));
        match steps[j] {
            Step::Absorb(n, t, act) => {
                law_absorb_keeps_store(prev, a, n, t, b, act, encs[j], orders[j], decode);
            },
            Step::Repin(_) => {
                law_save_all_represents(prev, b, encs[j], orders[j], decode);
            },
            Step::Delete(_) => {
                law_save_all_represents(prev, b, encs[j], orders[j], decode);
            },
            Step::Keep => {
                assert(apply_ops(prev, Seq::<OpModel>::empty()) == prev);
            },
        }
    }
}

/// Over any run of changes a frame makes, the store keeps holding the history
/// when each change is followed by the writes it asks for: at the end it loads
/// back as the final history. This rests on the store holding the history at
/// the start and on each step's writes being sound (`writes_sound`).
pub proof fn law_frame_keeps_store(
    m: Map<Seq<u8>, Seq<u8>>,
    hs: Seq<Seq<ClipboardItem>>,
    steps: Seq<Step>,
    encs: Seq<Seq<Seq<u8>>>,
    orders: Seq<Seq<u8>>,
    decode: spec_fn(Seq<u8>) -> Option<ClipboardItem>,
)
    requires
        is_run(hs, steps),
        encs.len() == steps.len(),
        orders.len() == steps.len(),
        represents(m, hs[0], decode),
        forall|j: int| 0 <= j < steps.len() ==> writes_sound(#[trigger] hs[j + 1], steps[j], encs[j], orders[j], decode),
    ensures
        represents(run_store(m, hs, steps, encs, orders, steps.len() as int), hs[steps.len() as int], decode),
        load_model(run_store(m, hs, steps, encs, orders, steps.len() as int), decode)
            == Ok::<Seq<ClipboardItem>, StoreError>(hs[steps.len() as int]),
{
    lemma_run_store(m, hs, steps, encs, orders, decode, steps.len() as int);
    law_load_reads_back(run_store(m, hs, steps, encs, orders, steps.len() as int), hs[steps.len() as int], decode);
}

} // verus!
