//! Similarity index: fingerprints keyed by item id, with ranked
//! nearest-neighbor queries by Hamming distance.
//!
//! The realization here is a brute-force exact scan, adequate up to roughly
//! a hundred thousand items; any other backend must honor the same ranked
//! query contract: ascending distance, ties broken by ascending id.

use vstd::prelude::*;
use vstd::seq_lib::lemma_multiset_commutative;
use crate::fingerprint::{hamming, Fingerprint, FINGERPRINT_BITS};

verus! {

/// One registered fingerprint with its caller-chosen id.
struct IndexEntry {
    id: u64,
    fp: Fingerprint,
}

/// The ghost model of a registered entry: what the index's contracts speak
/// of. The bits are the registered fingerprint.
pub struct EntryModel {
    pub id: u64,
    pub bits: Seq<bool>,
}

/// Ranked-match order on `(id, distance)` pairs: ascending distance, ties
/// broken by ascending id.
pub open spec fn pair_le(a: (u64, u32), b: (u64, u32)) -> bool {
    a.1 < b.1 || (a.1 == b.1 && a.0 <= b.0)
}

/// The sequence is sorted in ranked-match order.
pub open spec fn ranked_ascending(s: Seq<(u64, u32)>) -> bool {
    forall|i: int, j: int| 0 <= i < j < s.len() ==> pair_le(s[i], s[j])
}

/// The `(id, distance)` pair an entry contributes for a query.
pub open spec fn ranked_pair(e: EntryModel, q: Seq<bool>) -> (u64, u32) {
    (e.id, hamming(q, e.bits) as u32)
}

/// All pairs the entries contribute for a query, in registration order.
pub open spec fn all_pairs(entries: Seq<EntryModel>, q: Seq<bool>) -> Seq<(u64, u32)> {
    entries.map_values(|e: EntryModel| ranked_pair(e, q))
}

/// `x` placed before the first element it precedes in ranked-match order.
pub open spec fn insert_ranked(x: (u64, u32), s: Seq<(u64, u32)>) -> Seq<(u64, u32)>
    decreases s.len(),
{
    if s.len() == 0 {
        seq![x]
    } else if pair_le(x, s[0]) {
        seq![x] + s
    } else {
        seq![s[0]] + insert_ranked(x, s.drop_first())
    }
}

/// Insertion sort of the first `n` pairs, in ranked-match order.
pub open spec fn rank_sorted_upto(s: Seq<(u64, u32)>, n: int) -> Seq<(u64, u32)>
    decreases n,
{
    if n <= 0 {
        Seq::empty()
    } else {
        insert_ranked(s[n - 1], rank_sorted_upto(s, n - 1))
    }
}

/// The pairs rearranged into ranked-match order: ascending distance, ties
/// broken by ascending id.
pub open spec fn rank_sorted(s: Seq<(u64, u32)>) -> Seq<(u64, u32)> {
    rank_sorted_upto(s, s.len() as int)
}

proof fn lemma_insert_ranked_len(x: (u64, u32), s: Seq<(u64, u32)>)
    ensures
        insert_ranked(x, s).len() == s.len() + 1,
    decreases s.len(),
{
    if s.len() > 0 && !pair_le(x, s[0]) {
        lemma_insert_ranked_len(x, s.drop_first());
    }
}

/// Every element of the insertion's result is the inserted pair or one of
/// the original pairs.
proof fn lemma_insert_ranked_elems(x: (u64, u32), s: Seq<(u64, u32)>)
    ensures
        forall|j: int|
            0 <= j < insert_ranked(x, s).len() ==> (#[trigger] insert_ranked(x, s)[j]) == x
                || s.contains(insert_ranked(x, s)[j]),
    decreases s.len(),
{
    if s.len() == 0 {
    } else if pair_le(x, s[0]) {
    } else {
        lemma_insert_ranked_elems(x, s.drop_first());
        let r = insert_ranked(x, s);
        let rest = insert_ranked(x, s.drop_first());
        assert forall|j: int| 0 <= j < r.len() implies (#[trigger] r[j]) == x || s.contains(
            r[j],
        ) by {
            if j == 0 {
                assert(s[0] == r[0]);
                assert(s.contains(s[0]));
            } else {
                assert(r[j] == rest[j - 1]);
                if rest[j - 1] == x {
                } else {
                    let k = choose|k: int|
                        0 <= k < s.drop_first().len() && s.drop_first()[k] == rest[j - 1];
                    assert(s[k + 1] == rest[j - 1]);
                }
            }
        }
    }
}

/// Inserting at the first position whose element `x` precedes is a splice.
proof fn lemma_insert_ranked_splice(x: (u64, u32), s: Seq<(u64, u32)>, p: int)
    requires
        0 <= p <= s.len(),
        forall|j: int| 0 <= j < p ==> !pair_le(x, #[trigger] s[j]),
        p < s.len() ==> pair_le(x, s[p]),
    ensures
        insert_ranked(x, s) =~= s.take(p) + seq![x] + s.skip(p),
    decreases s.len(),
{
    if s.len() == 0 {
    } else if pair_le(x, s[0]) {
        assert(p == 0);
    } else {
        assert(!pair_le(x, s[0]));
        assert(p >= 1);
        lemma_insert_ranked_splice(x, s.drop_first(), p - 1);
        assert(s.drop_first().take(p - 1) =~= s.take(p).drop_first());
        assert(s.drop_first().skip(p - 1) =~= s.skip(p));
    }
}

proof fn lemma_insert_ranked_sorted(x: (u64, u32), s: Seq<(u64, u32)>)
    requires
        ranked_ascending(s),
    ensures
        ranked_ascending(insert_ranked(x, s)),
    decreases s.len(),
{
    if s.len() == 0 {
    } else if pair_le(x, s[0]) {
        let r = seq![x] + s;
        assert forall|i: int, j: int| 0 <= i < j < r.len() implies pair_le(r[i], r[j]) by {
            if i == 0 {
                if j > 1 {
                    assert(pair_le(s[0], s[j - 1]));
                }
            } else {
                assert(pair_le(s[i - 1], s[j - 1]));
            }
        }
    } else {
        assert(ranked_ascending(s.drop_first())) by {
            assert forall|i: int, j: int|
                0 <= i < j < s.drop_first().len() implies pair_le(
                s.drop_first()[i],
                s.drop_first()[j],
            ) by {
                assert(pair_le(s[i + 1], s[j + 1]));
            }
        }
        lemma_insert_ranked_sorted(x, s.drop_first());
        lemma_insert_ranked_elems(x, s.drop_first());
        lemma_insert_ranked_len(x, s.drop_first());
        let rest = insert_ranked(x, s.drop_first());
        let r = seq![s[0]] + rest;
        assert forall|i: int, j: int| 0 <= i < j < r.len() implies pair_le(r[i], r[j]) by {
            if i == 0 {
                assert(r[j] == rest[j - 1]);
                if rest[j - 1] == x {
                    assert(pair_le(s[0], x));
                } else {
                    assert(s.drop_first().contains(rest[j - 1]));
                    let k = choose|k: int|
                        0 <= k < s.drop_first().len() && s.drop_first()[k] == rest[j - 1];
                    assert(s[k + 1] == rest[j - 1]);
                    assert(pair_le(s[0], s[k + 1]));
                }
            } else {
                assert(pair_le(rest[i - 1], rest[j - 1]));
            }
        }
    }
}

/// The insertion's result is a permutation of the original pairs plus the
/// inserted one.
proof fn lemma_insert_ranked_multiset(x: (u64, u32), s: Seq<(u64, u32)>)
    ensures
        insert_ranked(x, s).to_multiset() =~= s.push(x).to_multiset(),
    decreases s.len(),
{
    broadcast use vstd::multiset::group_multiset_axioms;

    if s.len() == 0 {
        assert(insert_ranked(x, s) =~= s.push(x));
    } else if pair_le(x, s[0]) {
        lemma_multiset_commutative(seq![x], s);
        lemma_multiset_commutative(s, seq![x]);
        assert(s.push(x) =~= s + seq![x]);
    } else {
        lemma_insert_ranked_multiset(x, s.drop_first());
        let rest = insert_ranked(x, s.drop_first());
        lemma_multiset_commutative(seq![s[0]], rest);
        lemma_multiset_commutative(seq![s[0]], s.drop_first().push(x));
        assert(s.push(x) =~= seq![s[0]] + s.drop_first().push(x));
    }
}

proof fn lemma_rank_sorted_upto_ensures(s: Seq<(u64, u32)>, n: int)
    requires
        0 <= n <= s.len(),
    ensures
        rank_sorted_upto(s, n).to_multiset() =~= s.take(n).to_multiset(),
        ranked_ascending(rank_sorted_upto(s, n)),
        rank_sorted_upto(s, n).len() == n,
    decreases n,
{
    if n == 0 {
        assert(s.take(0) =~= Seq::empty());
    } else {
        lemma_rank_sorted_upto_ensures(s, n - 1);
        let prev = rank_sorted_upto(s, n - 1);
        lemma_insert_ranked_len(s[n - 1], prev);
        lemma_insert_ranked_sorted(s[n - 1], prev);
        lemma_insert_ranked_multiset(s[n - 1], prev);
        prev.to_multiset_ensures();
        s.take(n - 1).to_multiset_ensures();
        assert(s.take(n) =~= s.take(n - 1).push(s[n - 1]));
    }
}

/// A ranked sort returns the input pairs rearranged: the same multiset of
/// pairs, sorted in ranked-match order.
pub proof fn lemma_rank_sorted_ensures(s: Seq<(u64, u32)>)
    ensures
        rank_sorted(s).to_multiset() =~= s.to_multiset(),
        ranked_ascending(rank_sorted(s)),
        rank_sorted(s).len() == s.len(),
{
    lemma_rank_sorted_upto_ensures(s, s.len() as int);
    assert(s.take(s.len() as int) =~= s);
}

/// A pair is among the sorted pairs exactly when it is among the inputs.
pub proof fn lemma_rank_sorted_contains(s: Seq<(u64, u32)>, x: (u64, u32))
    ensures
        rank_sorted(s).contains(x) <==> s.contains(x),
{
    lemma_rank_sorted_ensures(s);
    rank_sorted(s).to_multiset_ensures();
    s.to_multiset_ensures();
    assert(rank_sorted(s).to_multiset().count(x) == s.to_multiset().count(x));
}

/// Within threshold distance of the query.
pub open spec fn within_pred(thresh: u32) -> spec_fn((u64, u32)) -> bool {
    |p: (u64, u32)| p.1 <= thresh
}

/// A filter of a ranked-ascending sequence stays ranked-ascending.
pub proof fn lemma_filter_preserves_ranked(s: Seq<(u64, u32)>, pred: spec_fn((u64, u32)) -> bool)
    requires
        ranked_ascending(s),
    ensures
        ranked_ascending(s.filter(pred)),
    decreases s.len(),
{
    reveal(Seq::filter);
    if s.len() > 0 {
        let rest = s.drop_last();
        assert(ranked_ascending(rest)) by {
            assert forall|i: int, j: int| 0 <= i < j < rest.len() implies pair_le(
                rest[i],
                rest[j],
            ) by {
                assert(pair_le(s[i], s[j]));
            }
        }
        lemma_filter_preserves_ranked(rest, pred);
        if pred(s.last()) {
            let f = rest.filter(pred);
            let r = f.push(s.last());
            assert forall|i: int, j: int| 0 <= i < j < r.len() implies pair_le(r[i], r[j]) by {
                if j == r.len() - 1 {
                    assert(f.contains(f[i]));
                    rest.lemma_filter_contains_rev(pred, f[i]);
                    let k = choose|k: int| 0 <= k < rest.len() && rest[k] == f[i];
                    assert(pair_le(s[k], s[s.len() - 1]));
                }
            }
        }
    }
}

/// Radius-query law: filtering a full ranked query to the pairs within the
/// threshold yields a ranked list holding exactly the entries within the
/// threshold, with their distances.
pub proof fn lemma_ranked_query_exact(entries: Seq<EntryModel>, q: Seq<bool>, thresh: u32)
    ensures
        ranked_ascending(rank_sorted(all_pairs(entries, q)).filter(within_pred(thresh))),
        forall|pr: (u64, u32)|
            #[trigger] rank_sorted(all_pairs(entries, q)).filter(within_pred(thresh)).contains(pr)
                <==> (pr.1 <= thresh && exists|k: int|
                0 <= k < entries.len() && (#[trigger] entries[k]).id == pr.0 && hamming(
                    q,
                    entries[k].bits,
                ) as u32 == pr.1),
{
    broadcast use Seq::lemma_filter_pred, Seq::lemma_filter_contains, Seq::lemma_filter_contains_rev;

    let pairs = all_pairs(entries, q);
    let sorted = rank_sorted(pairs);
    let f = sorted.filter(within_pred(thresh));
    lemma_rank_sorted_ensures(pairs);
    lemma_filter_preserves_ranked(sorted, within_pred(thresh));
    assert forall|pr: (u64, u32)| #[trigger] f.contains(pr) implies (pr.1 <= thresh
        && exists|k: int|
        0 <= k < entries.len() && (#[trigger] entries[k]).id == pr.0 && hamming(q, entries[k].bits)
            as u32 == pr.1) by {
        let fi = choose|fi: int| 0 <= fi < f.len() && f[fi] == pr;
        assert(within_pred(thresh)(f[fi]));
        assert(sorted.contains(pr));
        lemma_rank_sorted_contains(pairs, pr);
        let k = choose|k: int| 0 <= k < pairs.len() && pairs[k] == pr;
        assert(pairs[k] == ranked_pair(entries[k], q));
    }
    assert forall|pr: (u64, u32)|
        (pr.1 <= thresh && exists|k: int|
            0 <= k < entries.len() && (#[trigger] entries[k]).id == pr.0 && hamming(
                q,
                entries[k].bits,
            ) as u32 == pr.1) implies #[trigger] f.contains(pr) by {
        let k = choose|k: int|
            0 <= k < entries.len() && entries[k].id == pr.0 && hamming(q, entries[k].bits) as u32
                == pr.1;
        assert(pairs[k] == ranked_pair(entries[k], q));
        assert(pairs[k] == pr);
        assert(pairs.contains(pr));
        lemma_rank_sorted_contains(pairs, pr);
        let si = choose|si: int| 0 <= si < sorted.len() && sorted[si] == pr;
        assert(within_pred(thresh)(sorted[si]));
        assert(sorted.filter(within_pred(thresh)).contains(sorted[si]));
    }
}

fn pair_le_exec(a: (u64, u32), b: (u64, u32)) -> (r: bool)
    ensures
        r == pair_le(a, b),
{
    a.1 < b.1 || (a.1 == b.1 && a.0 <= b.0)
}

/// Stores fingerprints keyed by item id; the metric is Hamming distance.
/// Ids are unique and never overwritten; they may have gaps, since
/// undecodable corpus items are skipped, not remapped.
pub struct SimilarityIndex {
    entries: Vec<IndexEntry>,
}

impl View for SimilarityIndex {
    type V = Seq<EntryModel>;

    closed spec fn view(&self) -> Seq<EntryModel> {
        self.entries@.map_values(|e: IndexEntry| EntryModel { id: e.id, bits: e.fp@ })
    }
}

impl SimilarityIndex {
    /// Every registered fingerprint has the method's fixed length and every
    /// id is registered at most once.
    pub open spec fn wf(&self) -> bool {
        &&& forall|i: int| 0 <= i < self@.len() ==> (#[trigger] self@[i]).bits.len()
            == FINGERPRINT_BITS
        &&& forall|i: int, j: int|
            0 <= i < j < self@.len() ==> (#[trigger] self@[i]).id != (#[trigger] self@[j]).id
    }

    /// The id is registered.
    pub open spec fn spec_contains(&self, id: u64) -> bool {
        exists|i: int| 0 <= i < self@.len() && (#[trigger] self@[i]).id == id
    }

    /// An empty index.
    pub fn new() -> (r: Self)
        ensures
            r@ =~= Seq::<EntryModel>::empty(),
            r.wf(),
    {
        let r = SimilarityIndex { entries: Vec::new() };
        proof {
            assert(r@ =~= Seq::<EntryModel>::empty());
        }
        r
    }

    /// Number of registered fingerprints.
    pub fn len(&self) -> (n: usize)
        ensures
            n == self@.len(),
    {
        proof {
            assert(self@.len() == self.entries@.len());
        }
        self.entries.len()
    }

    /// Pre-sizes storage; must precede bulk `add` calls to avoid incremental
    /// reallocation. Registered contents are unchanged.
    pub fn reserve(&mut self, capacity: usize)
        ensures
            final(self)@ == old(self)@,
    {
        self.entries.reserve(capacity);
    }

    /// Registers a fingerprint under a caller-chosen unique id. Registering
    /// an id twice is a programming error, excluded by precondition.
    pub fn add(&mut self, id: u64, fp: Fingerprint)
        requires
            old(self).wf(),
            fp.valid(),
            !old(self).spec_contains(id),
        ensures
            final(self)@ == old(self)@.push(EntryModel { id, bits: fp@ }),
            final(self).wf(),
    {
        let ghost fpv = fp@;
        self.entries.push(IndexEntry { id, fp });
        proof {
            assert(self@ =~= old(self)@.push(EntryModel { id, bits: fpv }));
            let s = self@;
            assert forall|i: int, j: int| 0 <= i < j < s.len() implies (#[trigger] s[i]).id != (
            #[trigger] s[j]).id by {
                assert(s[i] == old(self)@[i]);
                if j < s.len() - 1 {
                    assert(s[j] == old(self)@[j]);
                }
            }
        }
    }

    /// Whether the id is registered.
    pub fn contains(&self, id: u64) -> (r: bool)
        ensures
            r == self.spec_contains(id),
    {
        let n = self.entries.len();
        let mut i: usize = 0;
        while i < n
            invariant
                n == self@.len(),
                i <= n,
                forall|j: int| 0 <= j < i ==> (#[trigger] self@[j]).id != id,
            decreases n - i,
        {
            proof {
                assert(self@[i as int].id == self.entries@[i as int].id);
            }
            if self.entries[i].id == id {
                return true;
            }
            i = i + 1;
        }
        false
    }

    /// The fingerprint registered under the id; `None` when the id is
    /// absent.
    pub fn get(&self, id: u64) -> (r: Option<&Fingerprint>)
        ensures
            match r {
                Some(fp) => exists|i: int|
                    0 <= i < self@.len() && (#[trigger] self@[i]).id == id && self@[i].bits == fp@,
                None => !self.spec_contains(id),
            },
    {
        let n = self.entries.len();
        let mut i: usize = 0;
        while i < n
            invariant
                n == self@.len(),
                i <= n,
                forall|j: int| 0 <= j < i ==> (#[trigger] self@[j]).id != id,
            decreases n - i,
        {
            proof {
                assert(self@[i as int].id == self.entries@[i as int].id);
                assert(self@[i as int].bits == self.entries@[i as int].fp@);
            }
            if self.entries[i].id == id {
                return Some(&self.entries[i].fp);
            }
            i = i + 1;
        }
        None
    }

    /// Ranked query: up to `k` nearest neighbors of `q` by Hamming distance,
    /// ascending distance, ties broken by ascending id. `k` at least the
    /// index size realizes a full radius scan.
    pub fn query(&self, q: &Fingerprint, k: usize) -> (r: Vec<(u64, u32)>)
        requires
            self.wf(),
            q.valid(),
        ensures
            r@ == rank_sorted(all_pairs(self@, q@)).take(
                if k <= self@.len() {
                    k as int
                } else {
                    self@.len() as int
                },
            ),
    {
        let n = self.entries.len();
        proof {
            assert(self@.len() == self.entries@.len());
        }
        let mut pairs: Vec<(u64, u32)> = Vec::new();
        let mut i: usize = 0;
        while i < n
            invariant
                self.wf(),
                q.valid(),
                n == self@.len(),
                n == self.entries@.len(),
                i <= n,
                pairs@.len() == i,
                forall|j: int| 0 <= j < i ==> pairs@[j] == ranked_pair(self@[j], q@),
            decreases n - i,
        {
            proof {
                assert(self@[i as int].bits == self.entries@[i as int].fp@);
                assert(self@[i as int].id == self.entries@[i as int].id);
                assert(self.entries@[i as int].fp.valid());
            }
            let d = q.distance(&self.entries[i].fp);
            proof {
                crate::fingerprint::lemma_hamming_bounds(q@, self@[i as int].bits);
            }
            pairs.push((self.entries[i].id, d));
            i = i + 1;
        }
        assert(pairs@ =~= all_pairs(self@, q@));

        let mut sorted: Vec<(u64, u32)> = Vec::new();
        let mut i: usize = 0;
        while i < n
            invariant
                n == pairs@.len(),
                i <= n,
                sorted@ == rank_sorted_upto(pairs@, i as int),
                sorted@.len() == i,
            decreases n - i,
        {
            let x = pairs[i];
            let ghost prev = sorted@;
            let mut p: usize = 0;
            while p < sorted.len() && !pair_le_exec(x, sorted[p])
                invariant
                    sorted@ == prev,
                    p <= sorted@.len(),
                    forall|j: int| 0 <= j < p ==> !pair_le(x, #[trigger] sorted@[j]),
                decreases sorted@.len() - p,
            {
                p = p + 1;
            }
            proof {
                lemma_insert_ranked_splice(x, prev, p as int);
            }
            sorted.insert(p, x);
            proof {
                assert(sorted@ =~= prev.take(p as int) + seq![x] + prev.skip(p as int));
            }
            i = i + 1;
        }
        assert(sorted@ == rank_sorted(all_pairs(self@, q@)));

        if k < sorted.len() {
            sorted.truncate(k);
            assert(sorted@ =~= rank_sorted(all_pairs(self@, q@)).take(k as int));
        } else {
            proof {
                lemma_rank_sorted_ensures(all_pairs(self@, q@));
                assert(sorted@ =~= sorted@.take(sorted@.len() as int));
            }
        }
        sorted
    }
}

} // verus!
