//! Duplicate resolver: partitions valid corpus items into curated
//! representatives and duplicates by pairwise accumulation.
//!
//! A working list of curated positions is maintained. Each arriving item is
//! compared against every currently curated item; the items within threshold
//! distance, together with the arrival, form a candidate set whose winner —
//! largest file size, ties broken by the first-seen position — becomes the
//! sole curated representative of the set, evicting the rest to duplicates.

use vstd::prelude::*;
use crate::fingerprint::{hamming, lemma_hamming_symmetric, Fingerprint, FINGERPRINT_BITS};

verus! {

/// A valid corpus item handed to the resolver: ordinal id, file size in
/// bytes, and the extracted fingerprint.
pub struct ResolveItem {
    pub id: u64,
    pub size: u64,
    pub fp: Fingerprint,
}

/// The ghost model of a corpus item: what the resolver's contracts speak
/// of. The bits are the item's fingerprint.
pub struct ItemModel {
    pub id: u64,
    pub size: u64,
    pub bits: Seq<bool>,
}

/// The model of one item.
pub open spec fn model_of(item: ResolveItem) -> ItemModel {
    ItemModel { id: item.id, size: item.size, bits: item.fp@ }
}

/// The models of the items, in order.
pub open spec fn models(items: Seq<ResolveItem>) -> Seq<ItemModel> {
    items.map_values(|it: ResolveItem| model_of(it))
}

/// Every fingerprint has the method's fixed length.
pub open spec fn items_valid(items: Seq<ItemModel>) -> bool {
    forall|k: int| 0 <= k < items.len() ==> (#[trigger] items[k]).bits.len() == FINGERPRINT_BITS
}

/// The items at positions `i` and `j` are within threshold distance.
pub open spec fn close(items: Seq<ItemModel>, i: int, j: int, thresh: u32) -> bool {
    hamming(items[i].bits, items[j].bits) <= thresh
}

/// Matches the arrival at position `i`: within threshold distance of it.
pub open spec fn close_pred(items: Seq<ItemModel>, i: int, thresh: u32) -> spec_fn(int) -> bool {
    |j: int| close(items, j, i, thresh)
}

/// Unaffected by the arrival at position `i`: beyond threshold distance.
pub open spec fn far_pred(items: Seq<ItemModel>, i: int, thresh: u32) -> spec_fn(int) -> bool {
    |j: int| !close(items, j, i, thresh)
}

/// The item at position `a` wins a tie-break duel against the one at `b`:
/// larger file size, equal sizes broken in favor of the first-seen position.
pub open spec fn beats(items: Seq<ItemModel>, a: int, b: int) -> bool {
    items[a].size > items[b].size || (items[a].size == items[b].size && a < b)
}

/// The winner among the first `n` candidate positions.
pub open spec fn winner_upto(items: Seq<ItemModel>, cand: Seq<int>, n: int) -> int
    decreases n,
{
    if n <= 1 {
        cand[0]
    } else {
        let b = winner_upto(items, cand, n - 1);
        if beats(items, cand[n - 1], b) {
            cand[n - 1]
        } else {
            b
        }
    }
}

/// The winner of a candidate set: the position with the largest file size,
/// equal sizes broken in favor of the first-seen position.
pub open spec fn winner(items: Seq<ItemModel>, cand: Seq<int>) -> int {
    winner_upto(items, cand, cand.len() as int)
}

/// One arrival. The item at position `i` is compared against every curated
/// position; with no match it is curated itself, otherwise the winner of
/// {arrival} U {matched} replaces the matched positions.
pub open spec fn resolve_step(
    items: Seq<ItemModel>,
    cur: Seq<int>,
    i: int,
    thresh: u32,
) -> Seq<int> {
    let matched = cur.filter(close_pred(items, i, thresh));
    if matched.len() == 0 {
        cur.push(i)
    } else {
        cur.filter(far_pred(items, i, thresh)).push(winner(items, matched.push(i)))
    }
}

/// The curated positions after the first `n` arrivals, in order of their
/// latest confirmation.
pub open spec fn resolve_upto(items: Seq<ItemModel>, thresh: u32, n: int) -> Seq<int>
    decreases n,
{
    if n <= 0 {
        Seq::empty()
    } else {
        resolve_step(items, resolve_upto(items, thresh, n - 1), n - 1, thresh)
    }
}

/// The curated positions of the whole corpus.
pub open spec fn curated_positions(items: Seq<ItemModel>, thresh: u32) -> Seq<int> {
    resolve_upto(items, thresh, items.len() as int)
}

/// The positions `0, 1, ..., n - 1` in order.
pub open spec fn position_range(n: int) -> Seq<int> {
    Seq::new(n as nat, |i: int| i)
}

/// Not curated at the end of the run.
pub open spec fn duplicate_pred(items: Seq<ItemModel>, thresh: u32) -> spec_fn(int) -> bool {
    |i: int| !curated_positions(items, thresh).contains(i)
}

/// The demoted positions of the whole corpus, in position order.
pub open spec fn duplicate_positions(items: Seq<ItemModel>, thresh: u32) -> Seq<int> {
    position_range(items.len() as int).filter(duplicate_pred(items, thresh))
}

/// The ids of the curated representatives.
pub open spec fn curated_ids(items: Seq<ItemModel>, thresh: u32) -> Seq<u64> {
    curated_positions(items, thresh).map_values(|j: int| items[j].id)
}

/// The ids of the demoted duplicates.
pub open spec fn duplicate_ids(items: Seq<ItemModel>, thresh: u32) -> Seq<u64> {
    duplicate_positions(items, thresh).map_values(|j: int| items[j].id)
}

/// Shape of a curated list after `n` arrivals: positions below `n`, no
/// position twice, and any two curated items beyond threshold distance of
/// each other.
pub open spec fn curated_wf(
    items: Seq<ItemModel>,
    thresh: u32,
    cur: Seq<int>,
    n: int,
) -> bool {
    &&& cur.no_duplicates()
    &&& forall|p: int| 0 <= p < cur.len() ==> 0 <= #[trigger] cur[p] < n
    &&& forall|p: int, q: int|
        #![trigger cur[p], cur[q]]
        0 <= p < cur.len() && 0 <= q < cur.len() && p != q ==> !close(
            items,
            cur[p],
            cur[q],
            thresh,
        )
}

/// The winner is one of the candidates.
proof fn lemma_winner_in_cand(items: Seq<ItemModel>, cand: Seq<int>, n: int)
    requires
        1 <= n <= cand.len(),
    ensures
        cand.contains(winner_upto(items, cand, n)),
    decreases n,
{
    if n == 1 {
        assert(cand[0] == winner_upto(items, cand, 1));
    } else {
        lemma_winner_in_cand(items, cand, n - 1);
    }
}

/// A filtered sequence of distinct values keeps its values distinct.
pub proof fn lemma_filter_no_duplicates<A>(s: Seq<A>, pred: spec_fn(A) -> bool)
    requires
        s.no_duplicates(),
    ensures
        s.filter(pred).no_duplicates(),
    decreases s.len(),
{
    reveal(Seq::filter);
    if s.len() > 0 {
        let rest = s.drop_last();
        assert(rest.no_duplicates());
        lemma_filter_no_duplicates(rest, pred);
        if pred(s.last()) {
            let f = rest.filter(pred);
            if f.contains(s.last()) {
                let p = choose|p: int| 0 <= p < f.len() && f[p] == s.last();
                rest.lemma_filter_contains_rev(pred, s.last());
                let q = choose|q: int| 0 <= q < rest.len() && rest[q] == s.last();
                assert(s[q] == s[s.len() - 1]);
                assert(false);
            }
            assert(f.push(s.last()).no_duplicates());
        }
    }
}

/// After each arrival the curated list is well-formed: in range, duplicate
/// free, and pairwise separated by more than the threshold.
proof fn lemma_resolve_upto_wf(items: Seq<ItemModel>, thresh: u32, n: int)
    requires
        items_valid(items),
        0 <= n <= items.len(),
    ensures
        curated_wf(items, thresh, resolve_upto(items, thresh, n), n),
    decreases n,
{
    broadcast use Seq::lemma_filter_pred, Seq::lemma_filter_contains, Seq::lemma_filter_contains_rev;

    if n > 0 {
        lemma_resolve_upto_wf(items, thresh, n - 1);
        let cur = resolve_upto(items, thresh, n - 1);
        let i = n - 1;
        let matched = cur.filter(close_pred(items, i, thresh));
        let next = resolve_upto(items, thresh, n);
        if matched.len() == 0 {
            assert(next == cur.push(i));
            // the arrival matched nothing curated, so it is separated from
            // every curated position
            assert forall|p: int| 0 <= p < cur.len() implies !close(items, cur[p], i, thresh) by {
                if close(items, cur[p], i, thresh) {
                    assert(close_pred(items, i, thresh)(cur[p]));
                    assert(matched.contains(cur[p]));
                }
            }
            assert forall|p: int, q: int|
                #![trigger next[p], next[q]]
                0 <= p < next.len() && 0 <= q < next.len() && p != q implies !close(
                items,
                next[p],
                next[q],
                thresh,
            ) by {
                if p < cur.len() && q < cur.len() {
                } else if q == cur.len() {
                    assert(!close(items, cur[p], i, thresh));
                } else {
                    assert(!close(items, cur[q], i, thresh));
                    lemma_hamming_symmetric(items[i].bits, items[cur[q]].bits);
                }
            }
            assert forall|p: int| 0 <= p < next.len() implies 0 <= #[trigger] next[p] < n by {}
            assert(next.no_duplicates()) by {
                assert forall|p: int, q: int|
                    0 <= p < next.len() && 0 <= q < next.len() && p != q implies next[p]
                    != next[q] by {
                    if p < cur.len() && q < cur.len() {
                        assert(cur[p] != cur[q]);
                    }
                }
            }
        } else {
            let keep = cur.filter(far_pred(items, i, thresh));
            let cand = matched.push(i);
            let w = winner(items, cand);
            assert(next == keep.push(w));
            lemma_winner_in_cand(items, cand, cand.len() as int);
            // the winner is the arrival or one of the matched curated items
            assert(w == i || matched.contains(w));
            assert(matched.contains(w) ==> cur.contains(w));
            // keep holds curated positions, all separated from the arrival
            assert forall|p: int| 0 <= p < keep.len() implies cur.contains(#[trigger] keep[p])
                && !close(items, keep[p], i, thresh) by {
                assert(far_pred(items, i, thresh)(keep[p]));
                assert(keep.contains(keep[p]));
            }
            // bounds
            assert forall|p: int| 0 <= p < next.len() implies 0 <= #[trigger] next[p] < n by {
                if p < keep.len() {
                    let cp = choose|cp: int| 0 <= cp < cur.len() && cur[cp] == keep[p];
                    assert(0 <= cur[cp] < n - 1);
                } else {
                    if w != i {
                        let cp = choose|cp: int| 0 <= cp < cur.len() && cur[cp] == w;
                        assert(0 <= cur[cp] < n - 1);
                    }
                }
            }
            // no duplicates
            lemma_filter_no_duplicates(cur, far_pred(items, i, thresh));
            assert(!keep.contains(w)) by {
                if keep.contains(w) {
                    assert(far_pred(items, i, thresh)(w));
                    if w == i {
                        let cp = choose|cp: int| 0 <= cp < keep.len() && keep[cp] == w;
                        let cq = choose|cq: int| 0 <= cq < cur.len() && cur[cq] == w;
                        assert(0 <= cur[cq] < n - 1);
                    } else {
                        let mp = choose|mp: int| 0 <= mp < matched.len() && matched[mp] == w;
                        assert(close_pred(items, i, thresh)(matched[mp]));
                        assert(close(items, w, i, thresh));
                    }
                }
            }
            assert(next.no_duplicates()) by {
                assert forall|p: int, q: int|
                    0 <= p < next.len() && 0 <= q < next.len() && p != q implies next[p]
                    != next[q] by {
                    if p < keep.len() && q < keep.len() {
                        assert(keep[p] != keep[q]);
                    } else if p < keep.len() {
                        assert(next[q] == w);
                        assert(keep[p] != w);
                    } else if q < keep.len() {
                        assert(next[p] == w);
                        assert(keep[q] != w);
                    }
                }
            }
            // pairwise separation
            assert forall|p: int, q: int|
                #![trigger next[p], next[q]]
                0 <= p < next.len() && 0 <= q < next.len() && p != q implies !close(
                items,
                next[p],
                next[q],
                thresh,
            ) by {
                if p < keep.len() && q < keep.len() {
                    let cp = choose|cp: int| 0 <= cp < cur.len() && cur[cp] == keep[p];
                    let cq = choose|cq: int| 0 <= cq < cur.len() && cur[cq] == keep[q];
                    assert(keep[p] != keep[q]);
                    assert(!close(items, cur[cp], cur[cq], thresh));
                } else {
                    // exactly one of the pair is the winner
                    let kp = if p < keep.len() {
                        p
                    } else {
                        q
                    };
                    assert(next[kp] == keep[kp]);
                    if w == i {
                        assert(!close(items, keep[kp], i, thresh));
                        if q == keep.len() {
                        } else {
                            lemma_hamming_symmetric(items[keep[kp]].bits, items[i].bits);
                        }
                    } else {
                        let cp = choose|cp: int| 0 <= cp < cur.len() && cur[cp] == keep[kp];
                        let cq = choose|cq: int| 0 <= cq < cur.len() && cur[cq] == w;
                        assert(keep[kp] != w);
                        assert(cp != cq);
                        assert(!close(items, cur[cp], cur[cq], thresh));
                        assert(!close(items, cur[cq], cur[cp], thresh));
                    }
                }
            }
        }
    }
}

/// Any two curated representatives of a run are more than the threshold
/// apart, each position is curated at most once, and every curated position
/// is a position of the corpus.
pub proof fn lemma_curated_separated(items: Seq<ItemModel>, thresh: u32)
    requires
        items_valid(items),
    ensures
        curated_wf(items, thresh, curated_positions(items, thresh), items.len() as int),
{
    lemma_resolve_upto_wf(items, thresh, items.len() as int);
}

/// A filter keeps nothing when no element satisfies the predicate.
proof fn lemma_filter_none<A>(s: Seq<A>, pred: spec_fn(A) -> bool)
    requires
        forall|k: int| 0 <= k < s.len() ==> !pred(#[trigger] s[k]),
    ensures
        s.filter(pred) =~= Seq::<A>::empty(),
    decreases s.len(),
{
    reveal(Seq::filter);
    if s.len() > 0 {
        assert(forall|k: int| 0 <= k < s.drop_last().len() ==> s.drop_last()[k] == #[trigger] s[k]);
        lemma_filter_none(s.drop_last(), pred);
    }
}

/// A filter keeps everything when every element satisfies the predicate.
proof fn lemma_filter_all<A>(s: Seq<A>, pred: spec_fn(A) -> bool)
    requires
        forall|k: int| 0 <= k < s.len() ==> pred(#[trigger] s[k]),
    ensures
        s.filter(pred) =~= s,
    decreases s.len(),
{
    reveal(Seq::filter);
    if s.len() > 0 {
        assert(forall|k: int| 0 <= k < s.drop_last().len() ==> s.drop_last()[k] == #[trigger] s[k]);
        lemma_filter_all(s.drop_last(), pred);
        assert(s.filter(pred) =~= s.drop_last().filter(pred).push(s.last()));
    }
}

/// Two predicates that agree on the elements filter alike.
proof fn lemma_filter_congruent<A>(s: Seq<A>, p1: spec_fn(A) -> bool, p2: spec_fn(A) -> bool)
    requires
        forall|k: int| 0 <= k < s.len() ==> p1(#[trigger] s[k]) == p2(s[k]),
    ensures
        s.filter(p1) == s.filter(p2),
    decreases s.len(),
{
    reveal(Seq::filter);
    if s.len() > 0 {
        assert(forall|k: int| 0 <= k < s.drop_last().len() ==> s.drop_last()[k] == #[trigger] s[k]);
        lemma_filter_congruent(s.drop_last(), p1, p2);
        assert(p1(s.last()) == p2(s.last()));
    }
}

/// Partition completeness over the valid items: every position is either
/// curated or duplicate, never both, and both sets hold corpus positions
/// only.
pub proof fn lemma_resolve_partition(items: Seq<ItemModel>, thresh: u32)
    requires
        items_valid(items),
    ensures
        forall|i: int|
            0 <= i < items.len() ==> (curated_positions(items, thresh).contains(i)
                <==> !(#[trigger] duplicate_positions(items, thresh).contains(i))),
        forall|i: int|
            #[trigger] curated_positions(items, thresh).contains(i) ==> 0 <= i < items.len(),
        forall|i: int|
            #[trigger] duplicate_positions(items, thresh).contains(i) ==> 0 <= i < items.len(),
{
    broadcast use Seq::lemma_filter_pred, Seq::lemma_filter_contains, Seq::lemma_filter_contains_rev;

    lemma_curated_separated(items, thresh);
    let n = items.len() as int;
    let cpos = curated_positions(items, thresh);
    let dpos = duplicate_positions(items, thresh);
    let rng = position_range(n);
    assert forall|i: int| 0 <= i < n implies (cpos.contains(i) <==> !(#[trigger] dpos.contains(
        i,
    ))) by {
        if cpos.contains(i) {
            if dpos.contains(i) {
                let k = choose|k: int| 0 <= k < dpos.len() && dpos[k] == i;
                assert(duplicate_pred(items, thresh)(dpos[k]));
            }
        } else {
            assert(duplicate_pred(items, thresh)(rng[i]));
            assert(rng.filter(duplicate_pred(items, thresh)).contains(rng[i]));
        }
    }
    assert forall|i: int| #[trigger] cpos.contains(i) implies 0 <= i < n by {
        let k = choose|k: int| 0 <= k < cpos.len() && cpos[k] == i;
    }
    assert forall|i: int| #[trigger] dpos.contains(i) implies 0 <= i < n by {
        assert(rng.contains(i));
        let k = choose|k: int| 0 <= k < rng.len() && rng[k] == i;
    }
}

/// When every two items are farther apart than the threshold, every item is
/// curated and none is a duplicate.
pub proof fn lemma_resolve_of_separated(items: Seq<ItemModel>, thresh: u32)
    requires
        items_valid(items),
        forall|i: int, j: int|
            0 <= i < items.len() && 0 <= j < items.len() && i != j ==> !close(
                items,
                i,
                j,
                thresh,
            ),
    ensures
        curated_positions(items, thresh) =~= position_range(items.len() as int),
        duplicate_positions(items, thresh) =~= Seq::<int>::empty(),
{
    lemma_resolve_of_separated_upto(items, thresh, items.len() as int);
    let n = items.len() as int;
    let rng = position_range(n);
    assert forall|k: int| 0 <= k < rng.len() implies !duplicate_pred(items, thresh)(
        #[trigger] rng[k],
    ) by {
        assert(curated_positions(items, thresh)[k] == k);
        assert(curated_positions(items, thresh).contains(k));
    }
    lemma_filter_none(rng, duplicate_pred(items, thresh));
}

proof fn lemma_resolve_of_separated_upto(items: Seq<ItemModel>, thresh: u32, n: int)
    requires
        items_valid(items),
        0 <= n <= items.len(),
        forall|i: int, j: int|
            0 <= i < items.len() && 0 <= j < items.len() && i != j ==> !close(
                items,
                i,
                j,
                thresh,
            ),
    ensures
        resolve_upto(items, thresh, n) =~= position_range(n),
    decreases n,
{
    if n > 0 {
        lemma_resolve_of_separated_upto(items, thresh, n - 1);
        let cur = resolve_upto(items, thresh, n - 1);
        let i = n - 1;
        assert forall|k: int| 0 <= k < cur.len() implies !close_pred(items, i, thresh)(
            #[trigger] cur[k],
        ) by {
            assert(cur[k] == k);
        }
        lemma_filter_none(cur, close_pred(items, i, thresh));
    }
}

/// Idempotence: resolving the curated output again changes nothing — every
/// representative stays curated and no duplicate appears, so a second pass
/// yields the same partition.
pub proof fn lemma_resolve_idempotent(items: Seq<ItemModel>, thresh: u32)
    requires
        items_valid(items),
    ensures
        ({
            let sub = curated_positions(items, thresh).map_values(|j: int| items[j]);
            curated_positions(sub, thresh) =~= position_range(sub.len() as int)
                && duplicate_positions(sub, thresh) =~= Seq::<int>::empty()
        }),
{
    lemma_curated_separated(items, thresh);
    let cpos = curated_positions(items, thresh);
    let sub = cpos.map_values(|j: int| items[j]);
    assert(items_valid(sub)) by {
        assert forall|k: int| 0 <= k < sub.len() implies (#[trigger] sub[k]).bits.len() == FINGERPRINT_BITS by {
            assert(sub[k] == items[cpos[k]]);
        }
    }
    assert forall|i: int, j: int|
        0 <= i < sub.len() && 0 <= j < sub.len() && i != j implies !close(sub, i, j, thresh) by {
        assert(sub[i] == items[cpos[i]]);
        assert(sub[j] == items[cpos[j]]);
        assert(cpos[i] != cpos[j]);
        assert(!close(items, cpos[i], cpos[j], thresh));
    }
    lemma_resolve_of_separated(sub, thresh);
}

/// Two thresholds that classify every pair of items alike produce the same
/// partition, and in particular the same curated and duplicate counts. (A
/// threshold change that crosses some pairwise distance can reshape
/// clusters; one that crosses none cannot.)
pub proof fn lemma_resolve_threshold_agreement(items: Seq<ItemModel>, t1: u32, t2: u32)
    requires
        items_valid(items),
        forall|i: int, j: int|
            0 <= i < items.len() && 0 <= j < items.len() ==> (close(items, i, j, t1) <==> close(
                items,
                i,
                j,
                t2,
            )),
    ensures
        curated_positions(items, t1) == curated_positions(items, t2),
        duplicate_positions(items, t1) == duplicate_positions(items, t2),
        curated_ids(items, t1) == curated_ids(items, t2),
        duplicate_ids(items, t1) == duplicate_ids(items, t2),
        curated_ids(items, t1).len() == curated_ids(items, t2).len(),
        duplicate_ids(items, t1).len() == duplicate_ids(items, t2).len(),
{
    lemma_resolve_threshold_agreement_upto(items, t1, t2, items.len() as int);
    lemma_filter_congruent(
        position_range(items.len() as int),
        duplicate_pred(items, t1),
        duplicate_pred(items, t2),
    );
}

proof fn lemma_resolve_threshold_agreement_upto(items: Seq<ItemModel>, t1: u32, t2: u32, n: int)
    requires
        items_valid(items),
        0 <= n <= items.len(),
        forall|i: int, j: int|
            0 <= i < items.len() && 0 <= j < items.len() ==> (close(items, i, j, t1) <==> close(
                items,
                i,
                j,
                t2,
            )),
    ensures
        resolve_upto(items, t1, n) == resolve_upto(items, t2, n),
    decreases n,
{
    if n > 0 {
        lemma_resolve_threshold_agreement_upto(items, t1, t2, n - 1);
        lemma_resolve_upto_wf(items, t1, n - 1);
        let cur = resolve_upto(items, t1, n - 1);
        let i = n - 1;
        assert forall|k: int| 0 <= k < cur.len() implies close_pred(items, i, t1)(
            #[trigger] cur[k],
        ) == close_pred(items, i, t2)(cur[k]) by {
            assert(0 <= cur[k] < items.len());
        }
        assert forall|k: int| 0 <= k < cur.len() implies far_pred(items, i, t1)(
            #[trigger] cur[k],
        ) == far_pred(items, i, t2)(cur[k]) by {
            assert(0 <= cur[k] < items.len());
        }
        lemma_filter_congruent(cur, close_pred(items, i, t1), close_pred(items, i, t2));
        lemma_filter_congruent(cur, far_pred(items, i, t1), far_pred(items, i, t2));
    }
}

/// The winner among the first `n` items taken in position order.
pub open spec fn winner_of_first(items: Seq<ItemModel>, n: int) -> int
    decreases n,
{
    if n <= 1 {
        0
    } else {
        let b = winner_of_first(items, n - 1);
        if beats(items, n - 1, b) {
            n - 1
        } else {
            b
        }
    }
}

/// The overall winner is a position and beats every other position: it has
/// the largest file size, ties broken in favor of the first-seen position.
pub proof fn lemma_winner_of_first_ensures(items: Seq<ItemModel>, n: int)
    requires
        1 <= n <= items.len(),
    ensures
        0 <= winner_of_first(items, n) < n,
        forall|k: int|
            0 <= k < n && k != winner_of_first(items, n) ==> beats(
                items,
                winner_of_first(items, n),
                k,
            ),
    decreases n,
{
    if n > 1 {
        lemma_winner_of_first_ensures(items, n - 1);
        let b = winner_of_first(items, n - 1);
        let w = winner_of_first(items, n);
        assert forall|k: int| 0 <= k < n && k != w implies beats(items, w, k) by {
            if beats(items, n - 1, b) {
                if k != b && k < n - 1 {
                    assert(beats(items, b, k));
                }
            } else {
                if k == n - 1 {
                    assert(0 <= b < n - 1);
                } else {
                    assert(beats(items, b, k));
                }
            }
        }
    }
}

/// Tie-break: when every two items are near-duplicates of each other, the
/// run curates exactly one item — the one with the largest file size, ties
/// broken in favor of the first seen — and demotes all others.
pub proof fn lemma_resolve_clique(items: Seq<ItemModel>, thresh: u32)
    requires
        items_valid(items),
        items.len() >= 1,
        forall|i: int, j: int|
            0 <= i < items.len() && 0 <= j < items.len() && i != j ==> close(items, i, j, thresh),
    ensures
        curated_positions(items, thresh) =~= seq![
            winner_of_first(items, items.len() as int),
        ],
{
    lemma_resolve_clique_upto(items, thresh, items.len() as int);
}

proof fn lemma_resolve_clique_upto(items: Seq<ItemModel>, thresh: u32, n: int)
    requires
        items_valid(items),
        1 <= n <= items.len(),
        forall|i: int, j: int|
            0 <= i < items.len() && 0 <= j < items.len() && i != j ==> close(items, i, j, thresh),
    ensures
        resolve_upto(items, thresh, n) =~= seq![winner_of_first(items, n)],
    decreases n,
{
    reveal(Seq::filter);
    if n == 1 {
        let cur = resolve_upto(items, thresh, 0);
        assert(cur =~= Seq::<int>::empty());
        assert(cur.filter(close_pred(items, 0, thresh)).len() == 0);
        assert(resolve_upto(items, thresh, 1) =~= cur.push(0));
    } else {
        lemma_resolve_clique_upto(items, thresh, n - 1);
        lemma_winner_of_first_ensures(items, n - 1);
        let b = winner_of_first(items, n - 1);
        let cur = resolve_upto(items, thresh, n - 1);
        assert(cur =~= seq![b]);
        let i = n - 1;
        let cp = close_pred(items, i, thresh);
        let fpd = far_pred(items, i, thresh);
        assert(cp(b)) by {
            assert(0 <= b < n - 1);
            assert(close(items, b, i, thresh));
        }
        assert forall|k: int| 0 <= k < cur.len() implies cp(#[trigger] cur[k]) by {
            assert(cur[k] == b);
        }
        assert forall|k: int| 0 <= k < cur.len() implies !fpd(#[trigger] cur[k]) by {
            assert(cur[k] == b);
        }
        lemma_filter_all(cur, cp);
        lemma_filter_none(cur, fpd);
        let matched = cur.filter(cp);
        let cand = matched.push(i);
        assert(cand =~= seq![b, i]);
        assert(cand[0] == b && cand[1] == i && cand.len() == 2);
        assert(winner_upto(items, cand, 1) == b);
        assert(winner(items, cand) == if beats(items, i, b) {
            i
        } else {
            b
        });
        assert(winner_of_first(items, n) == if beats(items, n - 1, b) {
            n - 1
        } else {
            b
        });
        assert(resolve_upto(items, thresh, n) =~= cur.filter(fpd).push(winner(items, cand)));
    }
}

/// The final partition of the valid items: ids of the curated
/// representatives, and ids of the demoted duplicates.
pub struct ResolvedPartition {
    pub curated: Vec<u64>,
    pub duplicate: Vec<u64>,
}

/// The machine-sized positions mirror the spec-level positions.
pub open spec fn positions_match(v: Seq<usize>, s: Seq<int>) -> bool {
    v.len() == s.len() && forall|p: int| 0 <= p < v.len() ==> (#[trigger] v[p]) as int == s[p]
}

fn beats_exec(items: &Vec<ResolveItem>, a: usize, b: usize) -> (r: bool)
    requires
        a < items@.len(),
        b < items@.len(),
    ensures
        r == beats(models(items@), a as int, b as int),
{
    proof {
        assert(models(items@)[a as int] == model_of(items@[a as int]));
        assert(models(items@)[b as int] == model_of(items@[b as int]));
    }
    items[a].size > items[b].size || (items[a].size == items[b].size && a < b)
}

/// Partitions the items into curated representatives and duplicates, taking
/// arrivals in the order given.
pub fn resolve(items: &Vec<ResolveItem>, thresh: u32) -> (r: ResolvedPartition)
    requires
        items_valid(models(items@)),
    ensures
        r.curated@ == curated_ids(models(items@), thresh),
        r.duplicate@ == duplicate_ids(models(items@), thresh),
{
    let ghost im = models(items@);
    let n = items.len();
    let mut cur: Vec<usize> = Vec::new();
    let mut i: usize = 0;
    while i < n
        invariant
            im == models(items@),
            items_valid(im),
            n == items@.len(),
            i <= n,
            positions_match(cur@, resolve_upto(im, thresh, i as int)),
        decreases n - i,
    {
        let ghost scur = resolve_upto(im, thresh, i as int);
        let ghost cp = close_pred(im, i as int, thresh);
        let ghost fpd = far_pred(im, i as int, thresh);
        proof {
            lemma_resolve_upto_wf(im, thresh, i as int);
        }
        let m = cur.len();
        let mut matched: Vec<usize> = Vec::new();
        let mut keep: Vec<usize> = Vec::new();
        let mut p: usize = 0;
        while p < m
            invariant
                im == models(items@),
                items_valid(im),
                n == items@.len(),
                i < n,
                m == cur@.len(),
                p <= m,
                positions_match(cur@, scur),
                curated_wf(im, thresh, scur, i as int),
                cp == close_pred(im, i as int, thresh),
                fpd == far_pred(im, i as int, thresh),
                positions_match(matched@, scur.take(p as int).filter(cp)),
                positions_match(keep@, scur.take(p as int).filter(fpd)),
            decreases m - p,
        {
            let j = cur[p];
            proof {
                assert(cur@[p as int] as int == scur[p as int]);
                assert(0 <= scur[p as int] < i);
                assert(im[j as int] == model_of(items@[j as int]));
                assert(im[i as int] == model_of(items@[i as int]));
                assert(items@[j as int].fp.valid());
                assert(items@[i as int].fp.valid());
            }
            let d = items[j].fp.distance(&items[i].fp);
            proof {
                broadcast use Seq::lemma_filter_push;

                assert(scur.take(p as int + 1) =~= scur.take(p as int).push(scur[p as int]));
                assert(cp(scur[p as int]) == close(im, j as int, i as int, thresh));
                assert(fpd(scur[p as int]) == !close(im, j as int, i as int, thresh));
                assert((d <= thresh) == close(im, j as int, i as int, thresh));
                assert(scur.take(p as int).push(scur[p as int]).filter(cp) == if cp(
                    scur[p as int],
                ) {
                    scur.take(p as int).filter(cp).push(scur[p as int])
                } else {
                    scur.take(p as int).filter(cp)
                });
                assert(scur.take(p as int).push(scur[p as int]).filter(fpd) == if fpd(
                    scur[p as int],
                ) {
                    scur.take(p as int).filter(fpd).push(scur[p as int])
                } else {
                    scur.take(p as int).filter(fpd)
                });
            }
            if d <= thresh {
                matched.push(j);
            } else {
                keep.push(j);
            }
            p = p + 1;
        }
        proof {
            assert(scur.take(m as int) =~= scur);
        }
        let ghost smatched = scur.filter(cp);
        if matched.len() == 0 {
            cur.push(i);
            proof {
                assert(resolve_upto(im, thresh, i as int + 1) == resolve_step(
                    im,
                    scur,
                    i as int,
                    thresh,
                ));
                assert(resolve_step(im, scur, i as int, thresh) == scur.push(i as int));
            }
        } else {
            let ghost cand = smatched.push(i as int);
            proof {
                // every matched position is a corpus position
                assert forall|k: int| 0 <= k < smatched.len() implies 0 <= #[trigger] smatched[k]
                    < n by {
                    assert(smatched.contains(smatched[k]));
                    scur.lemma_filter_contains_rev(cp, smatched[k]);
                    let q = choose|q: int| 0 <= q < scur.len() && scur[q] == smatched[k];
                    assert(0 <= scur[q] < i);
                }
            }
            let mm = matched.len();
            let mut w: usize = matched[0];
            let mut q: usize = 1;
            proof {
                assert(matched@[0] as int == smatched[0]);
                assert(cand[0] == smatched[0]);
                assert(w as int == winner_upto(im, cand, 1));
            }
            while q < mm
                invariant
                    im == models(items@),
                    items_valid(im),
                    n == items@.len(),
                    i < n,
                    1 <= q <= mm,
                    mm == matched@.len(),
                    positions_match(matched@, smatched),
                    cand == smatched.push(i as int),
                    forall|k: int| 0 <= k < smatched.len() ==> 0 <= #[trigger] smatched[k] < n,
                    w < n,
                    w as int == winner_upto(im, cand, q as int),
                decreases mm - q,
            {
                proof {
                    assert(matched@[q as int] as int == smatched[q as int]);
                    assert(cand[q as int] == smatched[q as int]);
                }
                if beats_exec(items, matched[q], w) {
                    w = matched[q];
                }
                q = q + 1;
            }
            proof {
                assert(cand[mm as int] == i as int);
                assert(cand.len() == mm + 1);
            }
            if beats_exec(items, i, w) {
                w = i;
            }
            proof {
                assert(w as int == winner_upto(im, cand, mm as int + 1));
                assert(w as int == winner(im, cand));
            }
            cur = keep;
            cur.push(w);
            proof {
                assert(smatched.len() != 0);
                assert(resolve_upto(im, thresh, i as int + 1) == resolve_step(
                    im,
                    scur,
                    i as int,
                    thresh,
                ));
                assert(resolve_step(im, scur, i as int, thresh) == scur.filter(fpd).push(
                    winner(im, cand),
                ));
            }
        }
        i = i + 1;
    }
    let ghost cpos = curated_positions(im, thresh);
    proof {
        lemma_resolve_upto_wf(im, thresh, n as int);
        assert(positions_match(cur@, cpos));
    }

    let mut curated: Vec<u64> = Vec::new();
    let cl = cur.len();
    let mut p: usize = 0;
    while p < cl
        invariant
            im == models(items@),
            n == items@.len(),
            cl == cur@.len(),
            p <= cl,
            positions_match(cur@, cpos),
            curated_wf(im, thresh, cpos, n as int),
            curated@.len() == p,
            forall|k: int| 0 <= k < p ==> curated@[k] == im[cpos[k]].id,
        decreases cl - p,
    {
        let j = cur[p];
        proof {
            assert(cur@[p as int] as int == cpos[p as int]);
            assert(0 <= cpos[p as int] < n);
            assert(im[j as int] == model_of(items@[j as int]));
        }
        curated.push(items[j].id);
        p = p + 1;
    }
    proof {
        assert(curated@ =~= curated_ids(im, thresh));
    }

    let ghost dpred = duplicate_pred(im, thresh);
    let ghost idof = |j: int| im[j].id;
    let mut duplicate: Vec<u64> = Vec::new();
    let mut i2: usize = 0;
    while i2 < n
        invariant
            im == models(items@),
            n == items@.len(),
            i2 <= n,
            positions_match(cur@, cpos),
            cpos == curated_positions(im, thresh),
            dpred == duplicate_pred(im, thresh),
            idof == (|j: int| im[j].id),
            duplicate@ == position_range(n as int).take(i2 as int).filter(dpred).map_values(idof),
        decreases n - i2,
    {
        let cl2 = cur.len();
        let mut found = false;
        let mut p2: usize = 0;
        while p2 < cl2
            invariant
                cl2 == cur@.len(),
                p2 <= cl2,
                positions_match(cur@, cpos),
                i2 < n,
                found <==> exists|k: int| 0 <= k < p2 && cpos[k] == i2 as int,
            decreases cl2 - p2,
        {
            if cur[p2] == i2 {
                proof {
                    assert(cpos[p2 as int] == i2 as int);
                }
                found = true;
            }
            proof {
                assert(cur@[p2 as int] as int == cpos[p2 as int]);
            }
            p2 = p2 + 1;
        }
        proof {
            assert(found == cpos.contains(i2 as int));
            assert(dpred(i2 as int) == !found);
            broadcast use Seq::lemma_filter_push;

            let rng = position_range(n as int);
            assert(rng.take(i2 as int + 1) =~= rng.take(i2 as int).push(i2 as int));
            assert(rng.take(i2 as int).push(i2 as int).filter(dpred) == if dpred(i2 as int) {
                rng.take(i2 as int).filter(dpred).push(i2 as int)
            } else {
                rng.take(i2 as int).filter(dpred)
            });
        }
        if !found {
            duplicate.push(items[i2].id);
            proof {
                assert(im[i2 as int] == model_of(items@[i2 as int]));
                let rng = position_range(n as int);
                assert(duplicate@ =~= rng.take(i2 as int + 1).filter(dpred).map_values(idof));
            }
        }
        i2 = i2 + 1;
    }
    proof {
        assert(position_range(n as int).take(n as int) =~= position_range(n as int));
        assert(duplicate@ == duplicate_ids(im, thresh));
    }
    ResolvedPartition { curated, duplicate }
}

} // verus!
