//! Fuzzy search over the history.

use vstd::prelude::*;
use crate::item::ClipboardItem;
use fuzzy_matcher::FuzzyMatcher;

verus! {

/// The score the skim fuzzy matcher (default settings) gives `choice` for the
/// search `pattern`, or `None` when `choice` does not match.
pub uninterp spec fn skim_score(choice: Seq<char>, pattern: Seq<char>) -> Option<i64>;

/// Scores `choice` against the search `pattern`.
///
/// Trusted: `fuzzy_matcher::skim::SkimMatcherV2::default()` and its
/// `FuzzyMatcher::fuzzy_match`. The result is named by `skim_score`: the matcher's
/// settings are fixed, and its caches only reuse memory, so the score depends on
/// the two texts alone.
#[verifier::external_body]
fn fuzzy_score(choice: &str, pattern: &str) -> (r: Option<i64>)
    ensures
        r == skim_score(choice@, pattern@),
{
    fuzzy_matcher::skim::SkimMatcherV2::default().fuzzy_match(choice, pattern)
}

/// Entry `i` is listed before entry `j` among the matches: pinned entries
/// first, then higher scores, then the earlier position in the history.
pub open spec fn listed_before(items: Seq<ClipboardItem>, scores: Seq<Option<i64>>, i: int, j: int) -> bool {
    let pi = items[i].pinned;
    let pj = items[j].pinned;
    let si = scores[i]->0;
    let sj = scores[j]->0;
    (pi && !pj) || (pi == pj && (si > sj || (si == sj && i < j)))
}

/// `r` lists exactly the entries that have a score, each once, in match order.
pub open spec fn is_match_order(items: Seq<ClipboardItem>, scores: Seq<Option<i64>>, r: Seq<usize>) -> bool {
    &&& forall|a: int| 0 <= a < r.len() ==> (#[trigger] r[a]) < items.len() && scores[r[a] as int].is_some()
    &&& forall|i: int| 0 <= i < items.len() && (#[trigger] scores[i]).is_some() ==> r.contains(i as usize)
    &&& forall|a: int, b: int| 0 <= a < b < r.len() ==> listed_before(items, scores, #[trigger] r[a] as int, #[trigger] r[b] as int)
}

/// The scores of every entry of `items` against the search `query`.
pub open spec fn scores_for(items: Seq<ClipboardItem>, query: Seq<char>) -> Seq<Option<i64>> {
    Seq::new(items.len(), |i: int| skim_score(items[i].content@, query))
}

/// Lists the entries that have a score: pinned ones first, then by falling
/// score, ties in history order.
pub fn order_matches(items: &Vec<ClipboardItem>, scores: &Vec<Option<i64>>) -> (r: Vec<usize>)
    requires
        scores.len() == items.len(),
    ensures
        is_match_order(items@, scores@, r@),
{
    let n = items.len();
    let mut out: Vec<usize> = Vec::new();
    let mut i: usize = 0;
    while i < n
        invariant
            n == items.len(),
            n == scores.len(),
            i <= n,
            forall|a: int| 0 <= a < out@.len() ==> (#[trigger] out@[a]) < i && scores@[out@[a] as int].is_some(),
            forall|j: int| 0 <= j < i && (#[trigger] scores@[j]).is_some() ==> out@.contains(j as usize),
            forall|a: int, b: int| 0 <= a < b < out@.len() ==> listed_before(items@, scores@, #[trigger] out@[a] as int, #[trigger] out@[b] as int),
        decreases n - i,
    {
        match scores[i] {
            None => {},
            Some(sc) => {
                let pi = items[i].pinned;
                let m = out.len();
                let mut p: usize = 0;
                while p < m && !((pi && !items[out[p]].pinned) || (pi == items[out[p]].pinned && sc > scores[out[p]].unwrap()))
                    invariant
                        m == out.len(),
                        n == items.len(),
                        n == scores.len(),
                        i < n,
                        scores@[i as int] == Some(sc),
                        pi == items@[i as int].pinned,
                        p <= m,
                        forall|a: int| 0 <= a < out@.len() ==> (#[trigger] out@[a]) < i && scores@[out@[a] as int].is_some(),
                        forall|q: int| 0 <= q < p ==> listed_before(items@, scores@, #[trigger] out@[q] as int, i as int),
                    decreases m - p,
                {
                    p = p + 1;
                }
                let ghost s = out@;
                proof {
                    assert forall|q: int| p <= q < s.len() implies listed_before(items@, scores@, i as int, #[trigger] s[q] as int) by {
                        if q > p {
                            assert(listed_before(items@, scores@, s[p as int] as int, s[q] as int));
                        }
                    }
                }
                out.insert(p, i);
                proof {
                    let r = out@;
                    assert(r =~= s.subrange(0, p as int).push(i) + s.subrange(p as int, s.len() as int));
                    assert forall|a: int, b: int| 0 <= a < b < r.len() implies listed_before(items@, scores@, #[trigger] r[a] as int, #[trigger] r[b] as int) by {
                        if b < p {
                            assert(r[a] == s[a] && r[b] == s[b]);
                        } else if b == p {
                            assert(r[a] == s[a]);
                        } else if a < p {
                            assert(r[a] == s[a] && r[b] == s[b - 1]);
                        } else if a == p {
                            assert(r[b] == s[b - 1]);
                        } else {
                            assert(r[a] == s[a - 1] && r[b] == s[b - 1]);
                        }
                    }
                    assert forall|j: int| 0 <= j < i + 1 && (#[trigger] scores@[j]).is_some() implies r.contains(j as usize) by {
                        if j == i {
                            assert(r[p as int] == i);
                        } else {
                            assert(s.contains(j as usize));
                            let q = choose|q: int| 0 <= q < s.len() && s[q] == j as usize;
                            if q < p {
                                assert(r[q] == s[q]);
                            } else {
                                assert(r[q + 1] == s[q]);
                            }
                        }
                    }
                    assert forall|a: int| 0 <= a < r.len() implies (#[trigger] r[a]) < i + 1 && scores@[r[a] as int].is_some() by {
                        if a < p {
                            assert(r[a] == s[a]);
                        } else if a > p {
                            assert(r[a] == s[a - 1]);
                        }
                    }
                }
            },
        }
        i = i + 1;
    }
    out
}

/// The entries to show for the search `query`, as indices into `items`: every
/// entry in history order when the query is empty, otherwise the entries the
/// fuzzy matcher scores, in match order.
pub fn compute_filtered(items: &Vec<ClipboardItem>, query: &str) -> (r: Vec<usize>)
    ensures
        query@.len() == 0 ==> r@ == Seq::new(items@.len(), |i: int| i as usize),
        query@.len() > 0 ==> is_match_order(items@, scores_for(items@, query@), r@),
        forall|a: int| 0 <= a < r@.len() ==> #[trigger] r@[a] < items@.len(),
{
    let n = items.len();
    if query.is_empty() {
        let mut all: Vec<usize> = Vec::new();
        let mut i: usize = 0;
        while i < n
            invariant
                n == items.len(),
                i <= n,
                all@ == Seq::new(i as nat, |k: int| k as usize),
            decreases n - i,
        {
            all.push(i);
            proof {
                assert(all@ =~= Seq::new((i + 1) as nat, |k: int| k as usize));
            }
            i = i + 1;
        }
        return all;
    }
    let mut scores: Vec<Option<i64>> = Vec::new();
    let mut i: usize = 0;
    while i < n
        invariant
            n == items.len(),
            i <= n,
            scores@ == scores_for(items@, query@).subrange(0, i as int),
        decreases n - i,
    {
        let sc = fuzzy_score(items[i].content.as_str(), query);
        scores.push(sc);
        proof {
            assert(scores@ =~= scores_for(items@, query@).subrange(0, i + 1));
        }
        i = i + 1;
    }
    proof {
        assert(scores@ =~= scores_for(items@, query@));
    }
    order_matches(items, &scores)
}

/// Among the matches, pinned entries are listed before unpinned ones.
pub proof fn law_matches_pinned_first(items: Seq<ClipboardItem>, scores: Seq<Option<i64>>, r: Seq<usize>)
    requires
        is_match_order(items, scores, r),
    ensures
        forall|a: int, b: int| #![trigger r[a], r[b]] 0 <= a < b < r.len() && items[r[b] as int].pinned ==> items[r[a] as int].pinned,
{
    assert forall|a: int, b: int| #![trigger r[a], r[b]] 0 <= a < b < r.len() && items[r[b] as int].pinned implies items[r[a] as int].pinned by {
        assert(listed_before(items, scores, r[a] as int, r[b] as int));
    }
}

proof fn lemma_sorted_same_members(items: Seq<ClipboardItem>, scores: Seq<Option<i64>>, r1: Seq<usize>, r2: Seq<usize>)
    requires
        forall|a: int, b: int| 0 <= a < b < r1.len() ==> listed_before(items, scores, #[trigger] r1[a] as int, #[trigger] r1[b] as int),
        forall|a: int, b: int| 0 <= a < b < r2.len() ==> listed_before(items, scores, #[trigger] r2[a] as int, #[trigger] r2[b] as int),
        forall|v: usize| r1.contains(v) <==> r2.contains(v),
    ensures
        r1 == r2,
    decreases r1.len() + r2.len(),
{
    if r1.len() == 0 || r2.len() == 0 {
        if r1.len() > 0 {
            assert(r1.contains(r1[0]));
        }
        if r2.len() > 0 {
            assert(r2.contains(r2[0]));
        }
        assert(r1 =~= r2);
    } else {
        let x = r1[0];
        let y = r2[0];
        assert(r1.contains(x));
        assert(r2.contains(y));
        let i = choose|i: int| 0 <= i < r2.len() && r2[i] == x;
        let j = choose|j: int| 0 <= j < r1.len() && r1[j] == y;
        if i > 0 {
            assert(listed_before(items, scores, y as int, x as int));
        }
        if j > 0 {
            assert(listed_before(items, scores, x as int, y as int));
        }
        assert(x == y);
        let t1 = r1.drop_first();
        let t2 = r2.drop_first();
        assert forall|v: usize| t1.contains(v) <==> t2.contains(v) by {
            if t1.contains(v) {
                let k = choose|k: int| 0 <= k < t1.len() && t1[k] == v;
                assert(r1[k + 1] == v);
                assert(listed_before(items, scores, r1[0] as int, r1[k + 1] as int));
                assert(r2.contains(v));
                let k2 = choose|k2: int| 0 <= k2 < r2.len() && r2[k2] == v;
                assert(k2 != 0);
                assert(t2[k2 - 1] == v);
            }
            if t2.contains(v) {
                let k = choose|k: int| 0 <= k < t2.len() && t2[k] == v;
                assert(r2[k + 1] == v);
                assert(listed_before(items, scores, r2[0] as int, r2[k + 1] as int));
                assert(r1.contains(v));
                let k1 = choose|k1: int| 0 <= k1 < r1.len() && r1[k1] == v;
                assert(k1 != 0);
                assert(t1[k1 - 1] == v);
            }
        }
        assert forall|a: int, b: int| 0 <= a < b < t1.len() implies listed_before(items, scores, #[trigger] t1[a] as int, #[trigger] t1[b] as int) by {
            assert(t1[a] == r1[a + 1] && t1[b] == r1[b + 1]);
        }
        assert forall|a: int, b: int| 0 <= a < b < t2.len() implies listed_before(items, scores, #[trigger] t2[a] as int, #[trigger] t2[b] as int) by {
            assert(t2[a] == r2[a + 1] && t2[b] == r2[b + 1]);
        }
        lemma_sorted_same_members(items, scores, t1, t2);
        assert forall|k: int| 0 <= k < r1.len() implies r1[k] == r2[k] by {
            if k > 0 {
                assert(r1[k] == t1[k - 1]);
                assert(r2[k] == t2[k - 1]);
            }
        }
        assert(r1.len() == t1.len() + 1 && r2.len() == t2.len() + 1);
        assert(r1 =~= r2);
    }
}

/// The match order of given scores is unique: two lists that both list the
/// scored entries in match order are the same list.
pub proof fn law_match_order_unique(items: Seq<ClipboardItem>, scores: Seq<Option<i64>>, r1: Seq<usize>, r2: Seq<usize>)
    requires
        is_match_order(items, scores, r1),
        is_match_order(items, scores, r2),
    ensures
        r1 == r2,
{
    assert forall|v: usize| r1.contains(v) <==> r2.contains(v) by {
        if r1.contains(v) {
            let k = choose|k: int| 0 <= k < r1.len() && r1[k] == v;
            assert(scores[v as int].is_some());
        }
        if r2.contains(v) {
            let k = choose|k: int| 0 <= k < r2.len() && r2[k] == v;
            assert(scores[v as int].is_some());
        }
    }
    lemma_sorted_same_members(items, scores, r1, r2);
}

/// Matches are listed pinned first; among matches with the same pin flag a
/// higher score comes first, and equal scores keep history order.
pub proof fn law_matches_by_score(items: Seq<ClipboardItem>, scores: Seq<Option<i64>>, r: Seq<usize>)
    requires
        is_match_order(items, scores, r),
    ensures
        forall|a: int, b: int| #![trigger r[a], r[b]] 0 <= a < b < r.len() ==> {
            &&& (items[r[b] as int].pinned ==> items[r[a] as int].pinned)
            &&& (items[r[a] as int].pinned == items[r[b] as int].pinned
                ==> scores[r[a] as int]->0 >= scores[r[b] as int]->0)
            &&& (items[r[a] as int].pinned == items[r[b] as int].pinned
                && scores[r[a] as int]->0 == scores[r[b] as int]->0 ==> r[a] < r[b])
        },
{
    assert forall|a: int, b: int| #![trigger r[a], r[b]] 0 <= a < b < r.len() implies {
        &&& (items[r[b] as int].pinned ==> items[r[a] as int].pinned)
        &&& (items[r[a] as int].pinned == items[r[b] as int].pinned
            ==> scores[r[a] as int]->0 >= scores[r[b] as int]->0)
        &&& (items[r[a] as int].pinned == items[r[b] as int].pinned
            && scores[r[a] as int]->0 == scores[r[b] as int]->0 ==> r[a] < r[b])
    } by {
        assert(listed_before(items, scores, r[a] as int, r[b] as int));
    }
}

} // verus!
