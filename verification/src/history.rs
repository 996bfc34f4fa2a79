//! The history list: its display order and how new clipboard text enters it.

use vstd::prelude::*;
use crate::item::{ClipboardItem, Timestamp};

verus! {

/// `a` is shown strictly before `b`: pinned entries come first, and within
/// each group newer entries come first.
pub open spec fn shown_before(a: ClipboardItem, b: ClipboardItem) -> bool {
    (a.pinned && !b.pinned) || (a.pinned == b.pinned && a.copied_at.is_after(b.copied_at))
}

/// What the display order looks at: the pin flag and the copy instant.
pub open spec fn rank_of(a: ClipboardItem) -> (bool, Timestamp) {
    (a.pinned, a.copied_at)
}

/// No entry is shown after one it should precede.
pub open spec fn in_display_order(s: Seq<ClipboardItem>) -> bool {
    forall|i: int, j: int| 0 <= i < j < s.len() ==> !shown_before(#[trigger] s[j], #[trigger] s[i])
}

/// The entries of `s` whose rank is `k`, in the order they occur in `s`.
pub open spec fn of_rank(s: Seq<ClipboardItem>, k: (bool, Timestamp)) -> Seq<ClipboardItem>
    decreases s.len(),
{
    if s.len() == 0 {
        Seq::empty()
    } else if rank_of(s.last()) == k {
        of_rank(s.drop_last(), k).push(s.last())
    } else {
        of_rank(s.drop_last(), k)
    }
}

/// `r` is `s` in display order, entries of equal rank keeping their relative order.
pub open spec fn stably_ordered(r: Seq<ClipboardItem>, s: Seq<ClipboardItem>) -> bool {
    &&& in_display_order(r)
    &&& forall|k: (bool, Timestamp)| #[trigger] of_rank(r, k) == of_rank(s, k)
    &&& r.to_multiset() == s.to_multiset()
}

proof fn lemma_of_rank_append(a: Seq<ClipboardItem>, b: Seq<ClipboardItem>, k: (bool, Timestamp))
    ensures
        of_rank(a + b, k) == of_rank(a, k) + of_rank(b, k),
    decreases b.len(),
{
    if b.len() == 0 {
        assert(a + b =~= a);
    } else {
        lemma_of_rank_append(a, b.drop_last(), k);
        assert((a + b).drop_last() =~= a + b.drop_last());
        assert((a + b).last() == b.last());
    }
}

proof fn lemma_of_rank_single(x: ClipboardItem, k: (bool, Timestamp))
    ensures
        of_rank(seq![x], k) == (if rank_of(x) == k { seq![x] } else { Seq::<ClipboardItem>::empty() }),
{
    assert(seq![x].drop_last() =~= Seq::<ClipboardItem>::empty());
    assert(seq![x].last() == x);
    assert(of_rank(Seq::<ClipboardItem>::empty(), k) =~= Seq::<ClipboardItem>::empty());
    if rank_of(x) == k {
        assert(Seq::<ClipboardItem>::empty().push(x) =~= seq![x]);
    }
}

/// No entry of `s` has rank `k` when `x` is shown before every entry of `s`.
proof fn lemma_of_rank_none(s: Seq<ClipboardItem>, x: ClipboardItem)
    requires
        forall|i: int| 0 <= i < s.len() ==> shown_before(x, #[trigger] s[i]),
    ensures
        of_rank(s, rank_of(x)) == Seq::<ClipboardItem>::empty(),
    decreases s.len(),
{
    if s.len() > 0 {
        assert(shown_before(x, s[s.len() - 1]));
        lemma_of_rank_none(s.drop_last(), x);
        assert forall|i: int| 0 <= i < s.drop_last().len() implies shown_before(x, #[trigger] s.drop_last()[i]) by {
            assert(s.drop_last()[i] == s[i]);
        }
    }
}

/// Places `e` into the ordered list `out`: after every entry it is not shown
/// before, and before the first entry it is shown before.
fn place(out: &mut Vec<ClipboardItem>, e: ClipboardItem, Ghost(done): Ghost<Seq<ClipboardItem>>)
    requires
        stably_ordered(old(out)@, done),
    ensures
        stably_ordered(final(out)@, done.push(e)),
        final(out)@.len() == old(out)@.len() + 1,
{
    let n = out.len();
    let mut p: usize = 0;
    while p < n && !shown_before_exec(&e, &out[p])
        invariant
            n == out.len(),
            p <= n,
            forall|q: int| 0 <= q < p ==> !shown_before(e, #[trigger] out@[q]),
        decreases n - p,
    {
        p = p + 1;
    }
    let ghost s = out@;
    proof {
        assert forall|q: int| p <= q < s.len() implies shown_before(e, #[trigger] s[q]) by {
            if q > p {
                assert(!shown_before(s[q], s[p as int]));
            }
        }
        let tail = s.subrange(p as int, s.len() as int);
        assert forall|i: int| 0 <= i < tail.len() implies shown_before(e, #[trigger] tail[i]) by {
            assert(tail[i] == s[p + i]);
        }
        lemma_of_rank_none(tail, e);
    }
    out.insert(p, e);
    proof {
        let head = s.subrange(0, p as int);
        let tail = s.subrange(p as int, s.len() as int);
        let r = out@;
        assert(r =~= head + seq![e] + tail);
        assert(s =~= head + tail);
        assert forall|k: (bool, Timestamp)| #[trigger] of_rank(r, k) == of_rank(done.push(e), k) by {
            lemma_of_rank_append(head + seq![e], tail, k);
            lemma_of_rank_append(head, seq![e], k);
            lemma_of_rank_append(head, tail, k);
            lemma_of_rank_single(e, k);
            assert(done.push(e).drop_last() =~= done);
            if rank_of(e) == k {
                assert(of_rank(tail, k) =~= Seq::<ClipboardItem>::empty());
            }
        }
        assert forall|i: int, j: int| 0 <= i < j < r.len() implies !shown_before(#[trigger] r[j], #[trigger] r[i]) by {
            if j < p {
                assert(r[i] == s[i] && r[j] == s[j]);
            } else if j == p {
                assert(r[i] == s[i]);
            } else if i < p {
                assert(r[i] == s[i] && r[j] == s[j - 1]);
            } else if i == p {
                assert(r[j] == s[j - 1]);
            } else {
                assert(r[i] == s[i - 1] && r[j] == s[j - 1]);
            }
        }
        assert(r.remove(p as int) =~= s);
        s.to_multiset_ensures();
        r.to_multiset_ensures();
        done.to_multiset_ensures();
        assert(r.to_multiset().count(e) > 0);
        assert(r.to_multiset() =~= s.to_multiset().insert(e));
    }
}

/// Executable form of `shown_before`.
pub fn shown_before_exec(a: &ClipboardItem, b: &ClipboardItem) -> (r: bool)
    ensures
        r == shown_before(*a, *b),
{
    (a.pinned && !b.pinned) || (a.pinned == b.pinned && a.copied_at.after(&b.copied_at))
}

/// Puts the history into display order: pinned entries first, then the rest,
/// each group newest first; entries of equal rank keep their relative order.
pub fn sort_items(items: &mut Vec<ClipboardItem>)
    ensures
        stably_ordered(final(items)@, old(items)@),
{
    let mut rest: Vec<ClipboardItem> = Vec::new();
    std::mem::swap(items, &mut rest);
    let ghost orig = rest@;
    let mut out: Vec<ClipboardItem> = Vec::new();
    proof {
        assert(orig.subrange(0, 0) =~= out@);
    }
    while rest.len() > 0
        invariant
            orig.len() == out@.len() + rest@.len(),
            rest@ == orig.subrange(orig.len() - rest@.len(), orig.len() as int),
            stably_ordered(out@, orig.subrange(0, orig.len() - rest@.len())),
        decreases rest.len(),
    {
        let ghost done = orig.subrange(0, orig.len() - rest@.len());
        let e = rest.remove(0);
        proof {
            assert(orig.subrange(0, orig.len() - rest@.len()) =~= done.push(e));
            assert(rest@ =~= orig.subrange(orig.len() - rest@.len(), orig.len() as int));
        }
        place(&mut out, e, Ghost(done));
    }
    proof {
        assert(orig.subrange(0, orig.len() as int) =~= orig);
    }
    *items = out;
}

proof fn lemma_of_rank_nonempty(s: Seq<ClipboardItem>, k: (bool, Timestamp)) -> (j: int)
    requires
        of_rank(s, k).len() > 0,
    ensures
        0 <= j < s.len(),
        rank_of(s[j]) == k,
    decreases s.len(),
{
    if rank_of(s.last()) == k {
        s.len() - 1
    } else {
        let j = lemma_of_rank_nonempty(s.drop_last(), k);
        j
    }
}

proof fn lemma_same_ranks_equal(a: Seq<ClipboardItem>, b: Seq<ClipboardItem>)
    requires
        in_display_order(a),
        in_display_order(b),
        forall|k: (bool, Timestamp)| #[trigger] of_rank(a, k) == of_rank(b, k),
        a.to_multiset() == b.to_multiset(),
    ensures
        a == b,
    decreases a.len(),
{
    a.to_multiset_ensures();
    b.to_multiset_ensures();
    if a.len() == 0 {
        assert(a =~= b);
    } else {
        let x = a.last();
        let y = b.last();
        let kx = rank_of(x);
        let ky = rank_of(y);
        assert(of_rank(a, kx) == of_rank(a.drop_last(), kx).push(x));
        assert(of_rank(b, ky) == of_rank(b.drop_last(), ky).push(y));
        let j = lemma_of_rank_nonempty(b, kx);
        let i = lemma_of_rank_nonempty(a, ky);
        if j < b.len() - 1 {
            assert(!shown_before(b[b.len() - 1], b[j]));
        }
        if i < a.len() - 1 {
            assert(!shown_before(a[a.len() - 1], a[i]));
        }
        assert(kx == ky);
        assert(of_rank(a, kx).last() == x);
        assert(of_rank(b, kx).last() == y);
        assert(x == y);
        let a2 = a.drop_last();
        let b2 = b.drop_last();
        assert forall|k: (bool, Timestamp)| #[trigger] of_rank(a2, k) == of_rank(b2, k) by {
            if k == kx {
                assert(of_rank(a2, k) =~= of_rank(a, k).drop_last());
                assert(of_rank(b2, k) =~= of_rank(b, k).drop_last());
            } else {
                assert(of_rank(a2, k) == of_rank(a, k));
                assert(of_rank(b2, k) == of_rank(b, k));
            }
        }
        assert(a2.push(x) =~= a);
        assert(b2.push(y) =~= b);
        a2.to_multiset_ensures();
        b2.to_multiset_ensures();
        assert(a2.to_multiset() =~= a.to_multiset().remove(x));
        assert(b2.to_multiset() =~= b.to_multiset().remove(y));
        lemma_same_ranks_equal(a2, b2);
        assert(a =~= b);
    }
}

/// The display order is fully determined: any two lists that are the stable
/// display ordering of the same history are the same list.
pub proof fn law_display_order_unique(s: Seq<ClipboardItem>, r1: Seq<ClipboardItem>, r2: Seq<ClipboardItem>)
    requires
        stably_ordered(r1, s),
        stably_ordered(r2, s),
    ensures
        r1 == r2,
{
    lemma_same_ranks_equal(r1, r2);
}

/// Sorting a history that is already in display order leaves it unchanged.
pub proof fn law_sort_keeps_ordered(s: Seq<ClipboardItem>, r: Seq<ClipboardItem>)
    requires
        in_display_order(s),
        stably_ordered(r, s),
    ensures
        r == s,
{
    lemma_same_ranks_equal(r, s);
}

/// Most unpinned entries the history keeps; pinned entries never count against it.
pub const MAX_UNPINNED: usize = 500;

/// Number of entries of `s` that satisfy `f`.
pub open spec fn count_where(s: Seq<ClipboardItem>, f: spec_fn(ClipboardItem) -> bool) -> nat
    decreases s.len(),
{
    if s.len() == 0 {
        0
    } else {
        count_where(s.drop_last(), f) + (if f(s.last()) { 1nat } else { 0nat })
    }
}

pub open spec fn is_unpinned(x: ClipboardItem) -> bool {
    !x.pinned
}

pub open spec fn is_pinned(x: ClipboardItem) -> bool {
    x.pinned
}

/// Number of unpinned entries.
pub open spec fn count_unpinned(s: Seq<ClipboardItem>) -> nat {
    count_where(s, |x: ClipboardItem| is_unpinned(x))
}

/// Number of pinned entries.
pub open spec fn count_pinned(s: Seq<ClipboardItem>) -> nat {
    count_where(s, |x: ClipboardItem| is_pinned(x))
}

/// No two entries hold the same text.
pub open spec fn distinct_contents(s: Seq<ClipboardItem>) -> bool {
    forall|i: int, j: int| 0 <= i < s.len() && 0 <= j < s.len() && i != j ==> #[trigger] s[i].content@ != #[trigger] s[j].content@
}

/// Index of the first entry whose text is `c`.
pub open spec fn position_of_content(s: Seq<ClipboardItem>, c: Seq<char>) -> Option<int>
    decreases s.len(),
{
    if s.len() == 0 {
        None
    } else if s[0].content@ == c {
        Some(0)
    } else {
        match position_of_content(s.drop_first(), c) {
            Some(i) => Some(i + 1),
            None => None,
        }
    }
}

/// Index of the first entry whose id is `id`.
pub open spec fn position_of_id(s: Seq<ClipboardItem>, id: Seq<char>) -> Option<int>
    decreases s.len(),
{
    if s.len() == 0 {
        None
    } else if s[0].id@ == id {
        Some(0)
    } else {
        match position_of_id(s.drop_first(), id) {
            Some(i) => Some(i + 1),
            None => None,
        }
    }
}

/// Index of the last unpinned entry.
pub open spec fn last_unpinned(s: Seq<ClipboardItem>) -> Option<int>
    decreases s.len(),
{
    if s.len() == 0 {
        None
    } else if !s.last().pinned {
        Some(s.len() - 1)
    } else {
        last_unpinned(s.drop_last())
    }
}

/// `x` copied again at `now`.
pub open spec fn refreshed(x: ClipboardItem, now: Timestamp) -> ClipboardItem {
    ClipboardItem { id: x.id, content: x.content, copied_at: now, pinned: x.pinned }
}

/// The history, before reordering, after clipboard text `new_item` arrives at `now`:
/// text already held moves to the front with its instant refreshed (the new entry
/// itself is dropped); new text goes to the front, and when that makes more than
/// `MAX_UNPINNED` unpinned entries the last unpinned entry is dropped.
pub open spec fn absorb_source(old: Seq<ClipboardItem>, new_item: ClipboardItem, now: Timestamp) -> Seq<ClipboardItem> {
    match position_of_content(old, new_item.content@) {
        Some(p) => seq![refreshed(old[p], now)] + old.remove(p),
        None => capped(seq![new_item] + old),
    }
}

/// `s` with its last unpinned entry dropped when it holds more than
/// `MAX_UNPINNED` unpinned entries; in display order that entry is the oldest
/// unpinned one.
pub open spec fn capped(s: Seq<ClipboardItem>) -> Seq<ClipboardItem> {
    if count_unpinned(s) > MAX_UNPINNED {
        match last_unpinned(s) {
            Some(q) => s.remove(q),
            None => s,
        }
    } else {
        s
    }
}

/// What has to be written back after new clipboard text was taken in.
#[derive(Debug, PartialEq, Eq, Structural)]
pub enum StoreAction {
    /// Write the entry at this index of the history, and the order of all entries.
    SaveItemAndOrder { index: usize },
    /// Rewrite the whole history.
    SaveAll,
}

/// The store action owed after `absorb_at` turned `old` into `r`.
pub open spec fn absorb_action(old: Seq<ClipboardItem>, new_item: ClipboardItem, r: Seq<ClipboardItem>, a: StoreAction) -> bool {
    match position_of_content(old, new_item.content@) {
        Some(p) => match position_of_id(r, old[p].id@) {
            Some(i) => a == (StoreAction::SaveItemAndOrder { index: i as usize }),
            None => false,
        },
        None => a == StoreAction::SaveAll,
    }
}

proof fn lemma_position_of_content(s: Seq<ClipboardItem>, c: Seq<char>, p: int)
    requires
        0 <= p <= s.len(),
        forall|j: int| 0 <= j < p ==> (#[trigger] s[j]).content@ != c,
    ensures
        p < s.len() && s[p].content@ == c ==> position_of_content(s, c) == Some(p),
        p == s.len() ==> position_of_content(s, c).is_none(),
    decreases p,
{
    if s.len() > 0 && p > 0 {
        assert forall|j: int| 0 <= j < p - 1 implies (#[trigger] s.drop_first()[j]).content@ != c by {
            assert(s.drop_first()[j] == s[j + 1]);
        }
        lemma_position_of_content(s.drop_first(), c, p - 1);
    }
}

pub(crate) proof fn lemma_position_of_id(s: Seq<ClipboardItem>, id: Seq<char>, p: int)
    requires
        0 <= p <= s.len(),
        forall|j: int| 0 <= j < p ==> (#[trigger] s[j]).id@ != id,
    ensures
        p < s.len() && s[p].id@ == id ==> position_of_id(s, id) == Some(p),
        p == s.len() ==> position_of_id(s, id).is_none(),
    decreases p,
{
    if s.len() > 0 && p > 0 {
        assert forall|j: int| 0 <= j < p - 1 implies (#[trigger] s.drop_first()[j]).id@ != id by {
            assert(s.drop_first()[j] == s[j + 1]);
        }
        lemma_position_of_id(s.drop_first(), id, p - 1);
    }
}

proof fn lemma_count_prefix(s: Seq<ClipboardItem>, f: spec_fn(ClipboardItem) -> bool, i: int)
    requires
        0 <= i < s.len(),
    ensures
        count_where(s.subrange(0, i + 1), f) == count_where(s.subrange(0, i), f) + (if f(s[i]) { 1nat } else { 0nat }),
{
    assert(s.subrange(0, i + 1).drop_last() =~= s.subrange(0, i));
}

proof fn lemma_last_unpinned(s: Seq<ClipboardItem>, q: int)
    requires
        0 <= q < s.len(),
        !s[q].pinned,
        forall|j: int| q < j < s.len() ==> (#[trigger] s[j]).pinned,
    ensures
        last_unpinned(s) == Some(q),
    decreases s.len(),
{
    if q < s.len() - 1 {
        assert(s.last().pinned);
        assert forall|j: int| q < j < s.drop_last().len() implies (#[trigger] s.drop_last()[j]).pinned by {
            assert(s.drop_last()[j] == s[j]);
        }
        lemma_last_unpinned(s.drop_last(), q);
    }
}

proof fn lemma_no_unpinned(s: Seq<ClipboardItem>)
    requires
        forall|j: int| 0 <= j < s.len() ==> (#[trigger] s[j]).pinned,
    ensures
        last_unpinned(s).is_none(),
        count_unpinned(s) == 0,
    decreases s.len(),
{
    if s.len() > 0 {
        assert(s.last().pinned);
        assert forall|j: int| 0 <= j < s.drop_last().len() implies (#[trigger] s.drop_last()[j]).pinned by {
            assert(s.drop_last()[j] == s[j]);
        }
        lemma_no_unpinned(s.drop_last());
    }
}

/// Drops the last unpinned entry when there are more than `MAX_UNPINNED`
/// unpinned entries.
pub fn enforce_cap(items: &mut Vec<ClipboardItem>)
    ensures
        final(items)@ == capped(old(items)@),
{
    let ghost grown = items@;
    let g = items.len();
    let mut unpinned: usize = 0;
    let mut i: usize = 0;
    while i < g
        invariant
            g == items.len(),
            items@ == grown,
            i <= g,
            unpinned <= i,
            unpinned == count_unpinned(grown.subrange(0, i as int)),
        decreases g - i,
    {
        proof {
            lemma_count_prefix(grown, |x: ClipboardItem| is_unpinned(x), i as int);
        }
        if !items[i].pinned {
            unpinned = unpinned + 1;
        }
        i = i + 1;
    }
    proof {
        assert(grown.subrange(0, g as int) =~= grown);
    }
    if unpinned > MAX_UNPINNED {
        let mut q: usize = g;
        while q > 0 && items[q - 1].pinned
            invariant
                g == items.len(),
                items@ == grown,
                q <= g,
                forall|j: int| q <= j < g ==> (#[trigger] grown[j]).pinned,
            decreases q,
        {
            q = q - 1;
        }
        if q > 0 {
            proof {
                lemma_last_unpinned(grown, q - 1);
            }
            items.remove(q - 1);
        } else {
            proof {
                lemma_no_unpinned(grown);
            }
        }
    }
}

/// Takes clipboard text captured at `now` into the history: text already held
/// moves to the top with a fresh instant instead of being stored twice; new text
/// is added, dropping the oldest unpinned entry when more than `MAX_UNPINNED`
/// unpinned entries would remain. The history is left in display order, and the
/// result says what has to be written back.
pub fn absorb_at(items: &mut Vec<ClipboardItem>, new_item: ClipboardItem, now: Timestamp) -> (action: StoreAction)
    ensures
        stably_ordered(final(items)@, absorb_source(old(items)@, new_item, now)),
        absorb_action(old(items)@, new_item, final(items)@, action),
{
    let ghost old_items = items@;
    let n = items.len();
    let mut pos: usize = 0;
    while pos < n && !(items[pos].content == new_item.content)
        invariant
            n == items.len(),
            items@ == old_items,
            pos <= n,
            forall|j: int| 0 <= j < pos ==> (#[trigger] items@[j]).content@ != new_item.content@,
        decreases n - pos,
    {
        pos = pos + 1;
    }
    proof {
        lemma_position_of_content(old_items, new_item.content@, pos as int);
    }
    if pos < n {
        let mut existing = items.remove(pos);
        existing.copied_at = now;
        let id = existing.id.clone();
        let ghost moved = existing;
        items.insert(0, existing);
        proof {
            assert(items@ =~= seq![moved] + old_items.remove(pos as int));
        }
        sort_items(items);
        let m = items.len();
        let mut k: usize = 0;
        proof {
            items@.to_multiset_ensures();
            (seq![moved] + old_items.remove(pos as int)).to_multiset_ensures();
            assert((seq![moved] + old_items.remove(pos as int))[0] == moved);
            assert(items@.to_multiset().count(moved) > 0);
        }
        while k < m && !(items[k].id == id)
            invariant
                m == items.len(),
                k <= m,
                items@.contains(moved),
                moved.id@ == id@,
                forall|j: int| 0 <= j < k ==> (#[trigger] items@[j]).id@ != id@,
            decreases m - k,
        {
            k = k + 1;
        }
        proof {
            lemma_position_of_id(items@, id@, k as int);
        }
        StoreAction::SaveItemAndOrder { index: k }
    } else {
        items.insert(0, new_item);
        let ghost grown = items@;
        proof {
            assert(grown =~= seq![new_item] + old_items);
        }
        enforce_cap(items);
        sort_items(items);
        StoreAction::SaveAll
    }
}

proof fn lemma_count_append(a: Seq<ClipboardItem>, b: Seq<ClipboardItem>, f: spec_fn(ClipboardItem) -> bool)
    ensures
        count_where(a + b, f) == count_where(a, f) + count_where(b, f),
    decreases b.len(),
{
    if b.len() == 0 {
        assert(a + b =~= a);
    } else {
        lemma_count_append(a, b.drop_last(), f);
        assert((a + b).drop_last() =~= a + b.drop_last());
        assert((a + b).last() == b.last());
    }
}

proof fn lemma_count_single(x: ClipboardItem, f: spec_fn(ClipboardItem) -> bool)
    ensures
        count_where(seq![x], f) == (if f(x) { 1nat } else { 0nat }),
{
    assert(seq![x].drop_last() =~= Seq::<ClipboardItem>::empty());
    assert(seq![x].last() == x);
    assert(count_where(Seq::<ClipboardItem>::empty(), f) == 0);
}

pub(crate) proof fn lemma_count_remove(s: Seq<ClipboardItem>, i: int, f: spec_fn(ClipboardItem) -> bool)
    requires
        0 <= i < s.len(),
    ensures
        count_where(s, f) == count_where(s.remove(i), f) + (if f(s[i]) { 1nat } else { 0nat }),
{
    let a = s.subrange(0, i);
    let b = s.subrange(i + 1, s.len() as int);
    assert(s =~= a + seq![s[i]] + b);
    assert(s.remove(i) =~= a + b);
    lemma_count_append(a + seq![s[i]], b, f);
    lemma_count_append(a, seq![s[i]], f);
    lemma_count_append(a, b, f);
    lemma_count_single(s[i], f);
}

/// Reordering a list does not change how many of its entries satisfy `f`.
pub(crate) proof fn lemma_count_perm(a: Seq<ClipboardItem>, b: Seq<ClipboardItem>, f: spec_fn(ClipboardItem) -> bool)
    requires
        a.to_multiset() == b.to_multiset(),
    ensures
        count_where(a, f) == count_where(b, f),
    decreases a.len(),
{
    a.to_multiset_ensures();
    b.to_multiset_ensures();
    if a.len() == 0 {
        assert(b.len() == 0);
        assert(b =~= Seq::<ClipboardItem>::empty());
    } else {
        let x = a.last();
        assert(a.drop_last().push(x) =~= a);
        a.drop_last().to_multiset_ensures();
        assert(a.to_multiset().count(x) > 0);
        assert(b.contains(x));
        let i = choose|i: int| 0 <= i < b.len() && b[i] == x;
        lemma_count_remove(b, i, f);
        assert(b.remove(i).to_multiset() =~= b.to_multiset().remove(x));
        assert(a.drop_last().to_multiset() =~= a.to_multiset().remove(x));
        lemma_count_perm(a.drop_last(), b.remove(i), f);
    }
}

proof fn lemma_two_copies(s: Seq<ClipboardItem>, i: int, j: int)
    requires
        0 <= i < s.len(),
        0 <= j < s.len(),
        i != j,
        s[i] == s[j],
    ensures
        s.to_multiset().count(s[i]) >= 2,
{
    s.to_multiset_ensures();
    let r = s.remove(i);
    r.to_multiset_ensures();
    let k = if j < i { j } else { j - 1 };
    assert(r[k] == s[i]);
    assert(r.contains(s[i]));
    assert(s.contains(s[i]));
    assert(r.to_multiset().count(s[i]) > 0);
    assert(s.to_multiset().count(s[i]) > 0);
    assert(r.to_multiset() == s.to_multiset().remove(s[i]));
}

proof fn lemma_other_copy(s: Seq<ClipboardItem>, x: ClipboardItem, i: int) -> (j: int)
    requires
        0 <= i < s.len(),
        s[i] == x,
        s.to_multiset().count(x) >= 2,
    ensures
        0 <= j < s.len(),
        j != i,
        s[j] == x,
{
    s.to_multiset_ensures();
    let r = s.remove(i);
    r.to_multiset_ensures();
    assert(r.to_multiset() == s.to_multiset().remove(s[i]));
    assert(r.to_multiset().count(x) > 0);
    assert(r.contains(x));
    let k = choose|k: int| 0 <= k < r.len() && r[k] == x;
    if k < i {
        k
    } else {
        k + 1
    }
}

/// Reordering a list keeps its texts pairwise distinct.
pub(crate) proof fn lemma_distinct_perm(a: Seq<ClipboardItem>, b: Seq<ClipboardItem>)
    requires
        a.to_multiset() == b.to_multiset(),
        distinct_contents(a),
    ensures
        distinct_contents(b),
{
    a.to_multiset_ensures();
    b.to_multiset_ensures();
    assert forall|i: int, j: int| 0 <= i < b.len() && 0 <= j < b.len() && i != j implies #[trigger] b[i].content@ != #[trigger] b[j].content@ by {
        if b[i].content@ == b[j].content@ {
            assert(b.contains(b[i]));
            assert(b.to_multiset().count(b[i]) > 0);
            assert(a.to_multiset().count(b[i]) > 0);
            assert(a.contains(b[i]));
            let ia = choose|ia: int| 0 <= ia < a.len() && a[ia] == b[i];
            if b[i] == b[j] {
                lemma_two_copies(b, i, j);
                let ja = lemma_other_copy(a, b[i], ia);
                assert(a[ia].content@ == a[ja].content@);
            } else {
                assert(b.contains(b[j]));
                assert(b.to_multiset().count(b[j]) > 0);
                assert(a.to_multiset().count(b[j]) > 0);
                assert(a.contains(b[j]));
                let ja = choose|ja: int| 0 <= ja < a.len() && a[ja] == b[j];
                assert(a[ia].content@ == a[ja].content@);
            }
        }
    }
}

proof fn lemma_position_of_content_none(s: Seq<ClipboardItem>, c: Seq<char>)
    requires
        position_of_content(s, c).is_none(),
    ensures
        forall|j: int| 0 <= j < s.len() ==> (#[trigger] s[j]).content@ != c,
    decreases s.len(),
{
    if s.len() > 0 {
        lemma_position_of_content_none(s.drop_first(), c);
        assert forall|j: int| 0 <= j < s.len() implies (#[trigger] s[j]).content@ != c by {
            if j > 0 {
                assert(s[j] == s.drop_first()[j - 1]);
            }
        }
    }
}

pub(crate) proof fn lemma_position_of_content_some(s: Seq<ClipboardItem>, c: Seq<char>)
    requires
        position_of_content(s, c).is_some(),
    ensures
        0 <= position_of_content(s, c).unwrap() < s.len(),
        s[position_of_content(s, c).unwrap()].content@ == c,
    decreases s.len(),
{
    if s[0].content@ != c {
        lemma_position_of_content_some(s.drop_first(), c);
    }
}

pub(crate) proof fn lemma_last_unpinned_props(s: Seq<ClipboardItem>)
    ensures
        last_unpinned(s) matches Some(q) ==> 0 <= q < s.len() && !s[q].pinned,
        last_unpinned(s).is_none() ==> count_unpinned(s) == 0,
    decreases s.len(),
{
    if s.len() > 0 && s.last().pinned {
        lemma_last_unpinned_props(s.drop_last());
        if let Some(q) = last_unpinned(s) {
            assert(s.drop_last()[q] == s[q]);
        }
    }
}

/// Taking in clipboard text never leaves two entries with the same text, as long
/// as there were none before.
pub proof fn law_absorb_keeps_contents_distinct(
    old: Seq<ClipboardItem>,
    new_item: ClipboardItem,
    now: Timestamp,
    r: Seq<ClipboardItem>,
)
    requires
        distinct_contents(old),
        stably_ordered(r, absorb_source(old, new_item, now)),
    ensures
        distinct_contents(r),
{
    let src = absorb_source(old, new_item, now);
    match position_of_content(old, new_item.content@) {
        Some(p) => {
            lemma_position_of_content_some(old, new_item.content@);
            let rest = old.remove(p);
            assert forall|i: int, j: int| 0 <= i < src.len() && 0 <= j < src.len() && i != j implies #[trigger] src[i].content@ != #[trigger] src[j].content@ by {
                let oi = if i == 0 { p } else if i - 1 < p { i - 1 } else { i };
                let oj = if j == 0 { p } else if j - 1 < p { j - 1 } else { j };
                assert(src[i].content@ == old[oi].content@);
                assert(src[j].content@ == old[oj].content@);
            }
        },
        None => {
            lemma_position_of_content_none(old, new_item.content@);
            let grown = seq![new_item] + old;
            assert(distinct_contents(grown)) by {
                assert forall|i: int, j: int| 0 <= i < grown.len() && 0 <= j < grown.len() && i != j implies #[trigger] grown[i].content@ != #[trigger] grown[j].content@ by {
                    if i > 0 {
                        assert(grown[i] == old[i - 1]);
                    }
                    if j > 0 {
                        assert(grown[j] == old[j - 1]);
                    }
                }
            }
            if count_unpinned(grown) > MAX_UNPINNED {
                lemma_last_unpinned_props(grown);
                if let Some(q) = last_unpinned(grown) {
                    let g2 = grown.remove(q);
                    assert forall|i: int, j: int| 0 <= i < g2.len() && 0 <= j < g2.len() && i != j implies #[trigger] g2[i].content@ != #[trigger] g2[j].content@ by {
                        let gi = if i < q { i } else { i + 1 };
                        let gj = if j < q { j } else { j + 1 };
                        assert(g2[i] == grown[gi]);
                        assert(g2[j] == grown[gj]);
                    }
                }
            }
        },
    }
    lemma_distinct_perm(src, r);
}

/// Taking in clipboard text never leaves more than `MAX_UNPINNED` unpinned
/// entries, as long as there were no more than that before.
pub proof fn law_absorb_caps_unpinned(
    old: Seq<ClipboardItem>,
    new_item: ClipboardItem,
    now: Timestamp,
    r: Seq<ClipboardItem>,
)
    requires
        count_unpinned(old) <= MAX_UNPINNED,
        stably_ordered(r, absorb_source(old, new_item, now)),
    ensures
        count_unpinned(r) <= MAX_UNPINNED,
{
    let f = |x: ClipboardItem| is_unpinned(x);
    let src = absorb_source(old, new_item, now);
    match position_of_content(old, new_item.content@) {
        Some(p) => {
            lemma_position_of_content_some(old, new_item.content@);
            lemma_count_remove(old, p, f);
            lemma_count_append(seq![refreshed(old[p], now)], old.remove(p), f);
            lemma_count_single(refreshed(old[p], now), f);
        },
        None => {
            let grown = seq![new_item] + old;
            lemma_count_append(seq![new_item], old, f);
            lemma_count_single(new_item, f);
            if count_unpinned(grown) > MAX_UNPINNED {
                lemma_last_unpinned_props(grown);
                if let Some(q) = last_unpinned(grown) {
                    lemma_count_remove(grown, q, f);
                }
            }
        },
    }
    lemma_count_perm(src, r, f);
}

/// Taking in clipboard text never drops a pinned entry: the number of pinned
/// entries only grows, and only when pinned text that was not held arrives.
pub proof fn law_absorb_keeps_pinned_count(
    old: Seq<ClipboardItem>,
    new_item: ClipboardItem,
    now: Timestamp,
    r: Seq<ClipboardItem>,
)
    requires
        stably_ordered(r, absorb_source(old, new_item, now)),
    ensures
        count_pinned(r) == count_pinned(old) + (if position_of_content(old, new_item.content@).is_none() && new_item.pinned { 1nat } else { 0nat }),
{
    let f = |x: ClipboardItem| is_pinned(x);
    let src = absorb_source(old, new_item, now);
    match position_of_content(old, new_item.content@) {
        Some(p) => {
            lemma_position_of_content_some(old, new_item.content@);
            lemma_count_remove(old, p, f);
            lemma_count_append(seq![refreshed(old[p], now)], old.remove(p), f);
            lemma_count_single(refreshed(old[p], now), f);
        },
        None => {
            let grown = seq![new_item] + old;
            lemma_count_append(seq![new_item], old, f);
            lemma_count_single(new_item, f);
            if count_unpinned(grown) > MAX_UNPINNED {
                lemma_last_unpinned_props(grown);
                if let Some(q) = last_unpinned(grown) {
                    lemma_count_remove(grown, q, f);
                }
            }
        },
    }
    lemma_count_perm(src, r, f);
}

/// Text already held never adds an entry; new text adds one, less the unpinned
/// entry dropped when the cap is passed.
pub proof fn law_absorb_length(
    old: Seq<ClipboardItem>,
    new_item: ClipboardItem,
    now: Timestamp,
    r: Seq<ClipboardItem>,
)
    requires
        stably_ordered(r, absorb_source(old, new_item, now)),
    ensures
        position_of_content(old, new_item.content@).is_some() ==> r.len() == old.len(),
        position_of_content(old, new_item.content@).is_none() ==> r.len() == old.len() + 1
            - (if count_unpinned(seq![new_item] + old) > MAX_UNPINNED { 1int } else { 0int }),
{
    let src = absorb_source(old, new_item, now);
    r.to_multiset_ensures();
    src.to_multiset_ensures();
    match position_of_content(old, new_item.content@) {
        Some(p) => {
            lemma_position_of_content_some(old, new_item.content@);
        },
        None => {
            let grown = seq![new_item] + old;
            if count_unpinned(grown) > MAX_UNPINNED {
                lemma_last_unpinned_props(grown);
            }
        },
    }
}

pub(crate) proof fn lemma_perm_contains(a: Seq<ClipboardItem>, b: Seq<ClipboardItem>, x: ClipboardItem)
    requires
        a.to_multiset() == b.to_multiset(),
        a.contains(x),
    ensures
        b.contains(x),
{
    a.to_multiset_ensures();
    b.to_multiset_ensures();
    assert(a.to_multiset().count(x) > 0);
    assert(b.to_multiset().count(x) > 0);
}

/// Taking in clipboard text never drops a pinned entry: each one is still in the
/// history, with a fresh instant if it was the one holding the repeated text.
pub proof fn law_absorb_keeps_pinned_entries(
    old: Seq<ClipboardItem>,
    new_item: ClipboardItem,
    now: Timestamp,
    r: Seq<ClipboardItem>,
)
    requires
        stably_ordered(r, absorb_source(old, new_item, now)),
    ensures
        forall|i: int| 0 <= i < old.len() && (#[trigger] old[i]).pinned ==>
            if position_of_content(old, new_item.content@) == Some(i) {
                r.contains(refreshed(old[i], now))
            } else {
                r.contains(old[i])
            },
{
    let src = absorb_source(old, new_item, now);
    assert forall|i: int| 0 <= i < old.len() && (#[trigger] old[i]).pinned implies
        if position_of_content(old, new_item.content@) == Some(i) {
            r.contains(refreshed(old[i], now))
        } else {
            r.contains(old[i])
        } by {
        match position_of_content(old, new_item.content@) {
            Some(p) => {
                lemma_position_of_content_some(old, new_item.content@);
                if p == i {
                    assert(src[0] == refreshed(old[i], now));
                    assert(src.contains(refreshed(old[i], now)));
                    lemma_perm_contains(src, r, refreshed(old[i], now));
                } else {
                    let k = if i < p { i + 1 } else { i };
                    assert(src[k] == old[i]);
                    assert(src.contains(old[i]));
                    lemma_perm_contains(src, r, old[i]);
                }
            },
            None => {
                let grown = seq![new_item] + old;
                assert(grown[i + 1] == old[i]);
                if count_unpinned(grown) > MAX_UNPINNED {
                    lemma_last_unpinned_props(grown);
                    if let Some(q) = last_unpinned(grown) {
                        let k = if i + 1 < q { i + 1 } else { i };
                        assert(grown.remove(q)[k] == old[i]);
                        assert(src.contains(old[i]));
                    } else {
                        assert(src.contains(old[i]));
                    }
                } else {
                    assert(src.contains(old[i]));
                }
                lemma_perm_contains(src, r, old[i]);
            },
        }
    }
}

/// Capping keeps the display order and distinct texts, never drops a pinned
/// entry, and brings a history with at most one unpinned entry too many back
/// under the cap; a history within the cap is left alone.
pub proof fn law_capped(s: Seq<ClipboardItem>)
    ensures
        count_unpinned(s) <= MAX_UNPINNED ==> capped(s) == s,
        count_unpinned(s) <= MAX_UNPINNED + 1 ==> count_unpinned(capped(s)) <= MAX_UNPINNED,
        count_pinned(capped(s)) == count_pinned(s),
        in_display_order(s) ==> in_display_order(capped(s)),
        distinct_contents(s) ==> distinct_contents(capped(s)),
{
    lemma_last_unpinned_props(s);
    if count_unpinned(s) > MAX_UNPINNED {
        if let Some(q) = last_unpinned(s) {
            let r = s.remove(q);
            lemma_count_remove(s, q, |x: ClipboardItem| is_unpinned(x));
            lemma_count_remove(s, q, |x: ClipboardItem| is_pinned(x));
            assert forall|i: int, j: int| 0 <= i < r.len() && 0 <= j < r.len() && i != j && distinct_contents(s) implies #[trigger] r[i].content@ != #[trigger] r[j].content@ by {
                let si = if i < q { i } else { i + 1 };
                let sj = if j < q { j } else { j + 1 };
                assert(r[i] == s[si] && r[j] == s[sj]);
            }
            assert forall|i: int, j: int| 0 <= i < j < r.len() && in_display_order(s) implies !shown_before(#[trigger] r[j], #[trigger] r[i]) by {
                let si = if i < q { i } else { i + 1 };
                let sj = if j < q { j } else { j + 1 };
                assert(r[i] == s[si] && r[j] == s[sj]);
            }
        }
    }
}

pub(crate) proof fn lemma_position_of_id_some(s: Seq<ClipboardItem>, id: Seq<char>)
    requires
        position_of_id(s, id).is_some(),
    ensures
        0 <= position_of_id(s, id).unwrap() < s.len(),
        s[position_of_id(s, id).unwrap()].id@ == id,
    decreases s.len(),
{
    if s[0].id@ != id {
        lemma_position_of_id_some(s.drop_first(), id);
    }
}

/// Of two instants, one in a later second is after one in an earlier second,
/// whatever their nanosecond parts; within the same second the larger
/// nanosecond part is after; no instant is after itself, and of two different
/// instants exactly one is after the other.
pub proof fn law_instant_order(t1: Timestamp, t2: Timestamp)
    ensures
        t1.secs > t2.secs ==> t1.is_after(t2) && !t2.is_after(t1),
        t1.secs == t2.secs && t1.nanos > t2.nanos ==> t1.is_after(t2) && !t2.is_after(t1),
        !t1.is_after(t1),
        t1 != t2 ==> (t1.is_after(t2) || t2.is_after(t1)),
{
}

/// Sorting shows pinned entries first and, among entries with the same pin
/// flag, a later instant before an earlier one: a later second always comes
/// first whatever the nanosecond parts, and within one second the larger
/// nanosecond part comes first.
pub proof fn law_sort_newest_first(s: Seq<ClipboardItem>, r: Seq<ClipboardItem>)
    requires
        stably_ordered(r, s),
    ensures
        forall|i: int, j: int| #![trigger r[i], r[j]] 0 <= i < j < r.len() ==> {
            &&& (r[j].pinned ==> r[i].pinned)
            &&& (r[i].pinned == r[j].pinned ==> r[i].copied_at.secs >= r[j].copied_at.secs)
            &&& (r[i].pinned == r[j].pinned && r[i].copied_at.secs == r[j].copied_at.secs
                ==> r[i].copied_at.nanos >= r[j].copied_at.nanos)
        },
{
    assert forall|i: int, j: int| #![trigger r[i], r[j]] 0 <= i < j < r.len() implies {
        &&& (r[j].pinned ==> r[i].pinned)
        &&& (r[i].pinned == r[j].pinned ==> r[i].copied_at.secs >= r[j].copied_at.secs)
        &&& (r[i].pinned == r[j].pinned && r[i].copied_at.secs == r[j].copied_at.secs
            ==> r[i].copied_at.nanos >= r[j].copied_at.nanos)
    } by {
        assert(!shown_before(r[j], r[i]));
    }
}

proof fn lemma_position_of_content_first(s: Seq<ClipboardItem>, c: Seq<char>)
    ensures
        position_of_content(s, c) matches Some(p) ==> 0 <= p < s.len() && s[p].content@ == c
            && forall|j: int| 0 <= j < p ==> (#[trigger] s[j]).content@ != c,
        position_of_content(s, c).is_none() ==> forall|j: int| 0 <= j < s.len() ==> (#[trigger] s[j]).content@ != c,
    decreases s.len(),
{
    if s.len() > 0 {
        lemma_position_of_content_first(s.drop_first(), c);
        assert forall|j: int| 0 < j < s.len() implies s[j] == s.drop_first()[j - 1] by {}
    }
}

proof fn lemma_position_of_id_first(s: Seq<ClipboardItem>, id: Seq<char>)
    ensures
        position_of_id(s, id) matches Some(p) ==> 0 <= p < s.len() && s[p].id@ == id
            && forall|j: int| 0 <= j < p ==> (#[trigger] s[j]).id@ != id,
        position_of_id(s, id).is_none() ==> forall|j: int| 0 <= j < s.len() ==> (#[trigger] s[j]).id@ != id,
    decreases s.len(),
{
    if s.len() > 0 {
        lemma_position_of_id_first(s.drop_first(), id);
        assert forall|j: int| 0 < j < s.len() implies s[j] == s.drop_first()[j - 1] by {}
    }
}

/// Looking up text finds its first occurrence, and finds nothing exactly when
/// no entry holds it; looking up an id likewise.
pub proof fn law_lookup_finds_first(s: Seq<ClipboardItem>, c: Seq<char>, id: Seq<char>)
    ensures
        position_of_content(s, c) matches Some(p) ==> 0 <= p < s.len() && s[p].content@ == c
            && forall|j: int| 0 <= j < p ==> (#[trigger] s[j]).content@ != c,
        position_of_content(s, c).is_none() <==> forall|j: int| 0 <= j < s.len() ==> (#[trigger] s[j]).content@ != c,
        position_of_id(s, id) matches Some(p) ==> 0 <= p < s.len() && s[p].id@ == id
            && forall|j: int| 0 <= j < p ==> (#[trigger] s[j]).id@ != id,
        position_of_id(s, id).is_none() <==> forall|j: int| 0 <= j < s.len() ==> (#[trigger] s[j]).id@ != id,
{
    lemma_position_of_content_first(s, c);
    lemma_position_of_id_first(s, id);
}

proof fn lemma_last_unpinned_is_last(s: Seq<ClipboardItem>)
    ensures
        last_unpinned(s) matches Some(q) ==> forall|j: int| q < j < s.len() ==> (#[trigger] s[j]).pinned,
    decreases s.len(),
{
    if s.len() > 0 && s.last().pinned {
        let d = s.drop_last();
        lemma_last_unpinned_is_last(d);
        lemma_last_unpinned_props(d);
        assert(last_unpinned(s) == last_unpinned(d));
        if let Some(q) = last_unpinned(d) {
            assert forall|j: int| q < j < s.len() implies (#[trigger] s[j]).pinned by {
                if j < s.len() - 1 {
                    assert(s[j] == d[j]);
                }
            }
        }
    }
}

/// In a history in display order with more than `MAX_UNPINNED` unpinned
/// entries, capping drops one unpinned entry copied no later than any other
/// unpinned entry: the oldest unpinned one.
pub proof fn law_cap_drops_oldest_unpinned(s: Seq<ClipboardItem>)
    requires
        in_display_order(s),
        count_unpinned(s) > MAX_UNPINNED,
    ensures
        exists|q: int| #![trigger s[q]] {
            &&& 0 <= q < s.len()
            &&& !s[q].pinned
            &&& capped(s) == s.remove(q)
            &&& forall|k: int| 0 <= k < s.len() && !(#[trigger] s[k]).pinned ==>
                    s[k].copied_at.secs > s[q].copied_at.secs
                    || (s[k].copied_at.secs == s[q].copied_at.secs && s[k].copied_at.nanos >= s[q].copied_at.nanos)
        },
{
    lemma_last_unpinned_props(s);
    lemma_last_unpinned_is_last(s);
    let q = last_unpinned(s).unwrap();
    assert forall|k: int| 0 <= k < s.len() && !(#[trigger] s[k]).pinned implies
        s[k].copied_at.secs > s[q].copied_at.secs
        || (s[k].copied_at.secs == s[q].copied_at.secs && s[k].copied_at.nanos >= s[q].copied_at.nanos) by {
        if k < q {
            assert(!shown_before(s[q], s[k]));
        }
    }
    assert(!s[q].pinned);
}

/// When new text pushes a history in display order past `MAX_UNPINNED`
/// unpinned entries, the entry dropped is an old unpinned entry copied no later
/// than any other old unpinned entry, and the new entry stays.
pub proof fn law_absorb_drops_oldest_unpinned(old: Seq<ClipboardItem>, new_item: ClipboardItem, now: Timestamp)
    requires
        in_display_order(old),
        position_of_content(old, new_item.content@).is_none(),
        count_unpinned(seq![new_item] + old) > MAX_UNPINNED,
    ensures
        exists|k0: int| #![trigger old[k0]] {
            &&& 0 <= k0 < old.len()
            &&& !old[k0].pinned
            &&& absorb_source(old, new_item, now) == seq![new_item] + old.remove(k0)
            &&& forall|k: int| 0 <= k < old.len() && !(#[trigger] old[k]).pinned ==>
                    old[k].copied_at.secs > old[k0].copied_at.secs
                    || (old[k].copied_at.secs == old[k0].copied_at.secs && old[k].copied_at.nanos >= old[k0].copied_at.nanos)
        },
{
    let grown = seq![new_item] + old;
    let f = |x: ClipboardItem| is_unpinned(x);
    lemma_count_append(seq![new_item], old, f);
    lemma_count_single(new_item, f);
    lemma_last_unpinned_props(old);
    let m = last_unpinned(old).unwrap();
    assert(grown[m + 1] == old[m]);
    lemma_last_unpinned_props(grown);
    lemma_last_unpinned_is_last(grown);
    let q = last_unpinned(grown).unwrap();
    assert(q >= m + 1);
    let k0 = q - 1;
    assert(grown[q] == old[k0]);
    assert(grown.remove(q) =~= seq![new_item] + old.remove(k0));
    assert forall|k: int| 0 <= k < old.len() && !(#[trigger] old[k]).pinned implies
        old[k].copied_at.secs > old[k0].copied_at.secs
        || (old[k].copied_at.secs == old[k0].copied_at.secs && old[k].copied_at.nanos >= old[k0].copied_at.nanos) by {
        assert(grown[k + 1] == old[k]);
        if k < k0 {
            assert(!shown_before(old[k0], old[k]));
        }
    }
    assert(!old[k0].pinned);
}

} // verus!
