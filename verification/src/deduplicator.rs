//! De-duplication: extracts fingerprints, orders the valid items by
//! descending file size, and resolves them into curated representatives,
//! duplicates, and deprecated files.
//!
//! Consumption order is fixed: extraction may run in any fashion, but the
//! resolver takes the valid items largest-first (ties in file order), which
//! pins the tie-break behavior of the whole run.

use vstd::prelude::*;
use crate::cli::Method;
use crate::corpus::{deprecated_ids, extract_corpus, valid_count, valid_models, CorpusFile};
use crate::errors::EngineError;
use crate::fingerprint::FINGERPRINT_BITS;
use crate::resolver::{
    curated_ids, duplicate_ids, items_valid, model_of, models, ItemModel, ResolveItem,
    ResolvedPartition,
};
use vstd::seq_lib::lemma_multiset_commutative;

verus! {

/// `x` placed after every item at least as large: a stable insertion for a
/// descending-size order.
pub open spec fn insert_by_size(x: ItemModel, s: Seq<ItemModel>) -> Seq<ItemModel>
    decreases s.len(),
{
    if s.len() == 0 {
        seq![x]
    } else if s[0].size >= x.size {
        seq![s[0]] + insert_by_size(x, s.drop_first())
    } else {
        seq![x] + s
    }
}

/// Stable insertion sort of the first `n` items by descending size.
pub open spec fn sort_by_size_upto(s: Seq<ItemModel>, n: int) -> Seq<ItemModel>
    decreases n,
{
    if n <= 0 {
        Seq::empty()
    } else {
        insert_by_size(s[n - 1], sort_by_size_upto(s, n - 1))
    }
}

/// The items rearranged into descending file-size order; items of equal
/// size keep their relative order (the sort is stable).
pub open spec fn sort_by_size(s: Seq<ItemModel>) -> Seq<ItemModel> {
    sort_by_size_upto(s, s.len() as int)
}

/// Sizes never increase along the sequence.
pub open spec fn size_descending(s: Seq<ItemModel>) -> bool {
    forall|i: int, j: int| 0 <= i < j < s.len() ==> (#[trigger] s[i]).size >= (#[trigger] s[j]).size
}

proof fn lemma_insert_by_size_len(x: ItemModel, s: Seq<ItemModel>)
    ensures
        insert_by_size(x, s).len() == s.len() + 1,
    decreases s.len(),
{
    if s.len() > 0 && s[0].size >= x.size {
        lemma_insert_by_size_len(x, s.drop_first());
    }
}

/// Inserting at the first position holding a smaller item is a splice.
proof fn lemma_insert_by_size_splice(x: ItemModel, s: Seq<ItemModel>, p: int)
    requires
        0 <= p <= s.len(),
        forall|j: int| 0 <= j < p ==> (#[trigger] s[j]).size >= x.size,
        p < s.len() ==> s[p].size < x.size,
    ensures
        insert_by_size(x, s) =~= s.take(p) + seq![x] + s.skip(p),
    decreases s.len(),
{
    if s.len() == 0 {
    } else if s[0].size >= x.size {
        assert(p >= 1);
        lemma_insert_by_size_splice(x, s.drop_first(), p - 1);
        assert(s.drop_first().take(p - 1) =~= s.take(p).drop_first());
        assert(s.drop_first().skip(p - 1) =~= s.skip(p));
    } else {
        assert(p == 0);
    }
}

/// Every element of the insertion's result is the inserted item or one of
/// the original items.
proof fn lemma_insert_by_size_elems(x: ItemModel, s: Seq<ItemModel>)
    ensures
        forall|j: int|
            0 <= j < insert_by_size(x, s).len() ==> (#[trigger] insert_by_size(x, s)[j]) == x
                || s.contains(insert_by_size(x, s)[j]),
    decreases s.len(),
{
    if s.len() == 0 {
    } else if s[0].size >= x.size {
        lemma_insert_by_size_elems(x, s.drop_first());
        let r = insert_by_size(x, s);
        let rest = insert_by_size(x, s.drop_first());
        assert forall|j: int| 0 <= j < r.len() implies (#[trigger] r[j]) == x || s.contains(
            r[j],
        ) by {
            if j == 0 {
                assert(s.contains(s[0]));
            } else {
                assert(r[j] == rest[j - 1]);
                if rest[j - 1] != x {
                    let k = choose|k: int|
                        0 <= k < s.drop_first().len() && s.drop_first()[k] == rest[j - 1];
                    assert(s[k + 1] == rest[j - 1]);
                }
            }
        }
    }
}

proof fn lemma_insert_by_size_sorted(x: ItemModel, s: Seq<ItemModel>)
    requires
        size_descending(s),
    ensures
        size_descending(insert_by_size(x, s)),
    decreases s.len(),
{
    if s.len() == 0 {
    } else if s[0].size >= x.size {
        assert(size_descending(s.drop_first())) by {
            assert forall|i: int, j: int|
                0 <= i < j < s.drop_first().len() implies (#[trigger] s.drop_first()[i]).size >= (
            #[trigger] s.drop_first()[j]).size by {
                assert(s[i + 1].size >= s[j + 1].size);
            }
        }
        lemma_insert_by_size_sorted(x, s.drop_first());
        lemma_insert_by_size_elems(x, s.drop_first());
        lemma_insert_by_size_len(x, s.drop_first());
        let rest = insert_by_size(x, s.drop_first());
        let r = seq![s[0]] + rest;
        assert forall|i: int, j: int| 0 <= i < j < r.len() implies (#[trigger] r[i]).size >= (
        #[trigger] r[j]).size by {
            if i == 0 {
                assert(r[j] == rest[j - 1]);
                if rest[j - 1] == x {
                } else {
                    let k = choose|k: int|
                        0 <= k < s.drop_first().len() && s.drop_first()[k] == rest[j - 1];
                    assert(s[0].size >= s[k + 1].size);
                }
            } else {
                assert(rest[i - 1].size >= rest[j - 1].size);
            }
        }
    } else {
        let r = seq![x] + s;
        assert forall|i: int, j: int| 0 <= i < j < r.len() implies (#[trigger] r[i]).size >= (
        #[trigger] r[j]).size by {
            if i == 0 {
                if j > 1 {
                    assert(s[0].size >= s[j - 1].size);
                }
            } else {
                assert(s[i - 1].size >= s[j - 1].size);
            }
        }
    }
}

/// The insertion's result is a permutation of the original items plus the
/// inserted one.
proof fn lemma_insert_by_size_multiset(x: ItemModel, s: Seq<ItemModel>)
    ensures
        insert_by_size(x, s).to_multiset() =~= s.push(x).to_multiset(),
    decreases s.len(),
{
    broadcast use vstd::multiset::group_multiset_axioms;

    if s.len() == 0 {
        assert(insert_by_size(x, s) =~= s.push(x));
    } else if s[0].size >= x.size {
        lemma_insert_by_size_multiset(x, s.drop_first());
        let rest = insert_by_size(x, s.drop_first());
        lemma_multiset_commutative(seq![s[0]], rest);
        lemma_multiset_commutative(seq![s[0]], s.drop_first().push(x));
        assert(s.push(x) =~= seq![s[0]] + s.drop_first().push(x));
    } else {
        lemma_multiset_commutative(seq![x], s);
        lemma_multiset_commutative(s, seq![x]);
        assert(s.push(x) =~= s + seq![x]);
    }
}

proof fn lemma_sort_by_size_upto_ensures(s: Seq<ItemModel>, n: int)
    requires
        0 <= n <= s.len(),
    ensures
        sort_by_size_upto(s, n).to_multiset() =~= s.take(n).to_multiset(),
        size_descending(sort_by_size_upto(s, n)),
        sort_by_size_upto(s, n).len() == n,
    decreases n,
{
    if n == 0 {
        assert(s.take(0) =~= Seq::<ItemModel>::empty());
    } else {
        lemma_sort_by_size_upto_ensures(s, n - 1);
        let prev = sort_by_size_upto(s, n - 1);
        lemma_insert_by_size_len(s[n - 1], prev);
        lemma_insert_by_size_sorted(s[n - 1], prev);
        lemma_insert_by_size_multiset(s[n - 1], prev);
        prev.to_multiset_ensures();
        s.take(n - 1).to_multiset_ensures();
        assert(s.take(n) =~= s.take(n - 1).push(s[n - 1]));
    }
}

/// The sort returns the items rearranged: same multiset, descending size,
/// same length.
pub proof fn lemma_sort_by_size_ensures(s: Seq<ItemModel>)
    ensures
        sort_by_size(s).to_multiset() =~= s.to_multiset(),
        size_descending(sort_by_size(s)),
        sort_by_size(s).len() == s.len(),
{
    lemma_sort_by_size_upto_ensures(s, s.len() as int);
    assert(s.take(s.len() as int) =~= s);
}

/// An item is among the sorted items exactly when it is among the inputs.
pub proof fn lemma_sort_by_size_contains(s: Seq<ItemModel>, x: ItemModel)
    ensures
        sort_by_size(s).contains(x) <==> s.contains(x),
{
    lemma_sort_by_size_ensures(s);
    sort_by_size(s).to_multiset_ensures();
    s.to_multiset_ensures();
    assert(sort_by_size(s).to_multiset().count(x) == s.to_multiset().count(x));
}

/// Valid items stay valid under sorting.
proof fn lemma_sort_by_size_valid(s: Seq<ItemModel>)
    requires
        items_valid(s),
    ensures
        items_valid(sort_by_size(s)),
{
    let r = sort_by_size(s);
    assert forall|k: int| 0 <= k < r.len() implies (#[trigger] r[k]).bits.len()
        == FINGERPRINT_BITS by {
        assert(r.contains(r[k]));
        lemma_sort_by_size_contains(s, r[k]);
        let j = choose|j: int| 0 <= j < s.len() && s[j] == r[k];
    }
}

/// Reorders the valid items into descending file-size order; items of equal
/// size keep their relative (first-seen) order.
fn sort_items_by_size(items: Vec<ResolveItem>) -> (r: Vec<ResolveItem>)
    ensures
        models(r@) == sort_by_size(models(items@)),
{
    let ghost im = models(items@);
    let mut rest = items;
    let mut sorted: Vec<ResolveItem> = Vec::new();
    let mut i: usize = 0;
    let n = rest.len();
    while i < n
        invariant
            i <= n,
            n == im.len(),
            rest@.len() == n - i,
            models(rest@) == im.skip(i as int),
            models(sorted@) == sort_by_size_upto(im, i as int),
        decreases n - i,
    {
        proof {
            assert(models(rest@)[0] == model_of(rest@[0]));
            assert(im.skip(i as int)[0] == im[i as int]);
        }
        let ghost prev_rest = rest@;
        let x = rest.remove(0);
        proof {
            assert(models(rest@) =~= im.skip(i as int + 1)) by {
                assert(models(rest@).len() == models(prev_rest).len() - 1);
                assert forall|k: int| 0 <= k < models(rest@).len() implies models(rest@)[k]
                    == im.skip(i as int + 1)[k] by {
                    assert(models(rest@)[k] == model_of(rest@[k]));
                    assert(rest@[k] == prev_rest[k + 1]);
                    assert(models(prev_rest)[k + 1] == model_of(prev_rest[k + 1]));
                }
            }
            assert(model_of(x) == im[i as int]);
        }
        let ghost acc = models(sorted@);
        let sl = sorted.len();
        let mut p: usize = 0;
        while p < sl && sorted[p].size >= x.size
            invariant
                sl == sorted@.len(),
                acc == models(sorted@),
                p <= sl,
                forall|j: int| 0 <= j < p ==> (#[trigger] acc[j]).size >= model_of(x).size,
            decreases sl - p,
        {
            proof {
                assert(acc[p as int] == model_of(sorted@[p as int]));
            }
            p = p + 1;
        }
        proof {
            if p < sl {
                assert(acc[p as int] == model_of(sorted@[p as int]));
                assert(acc[p as int].size < model_of(x).size);
            }
            lemma_insert_by_size_splice(model_of(x), acc, p as int);
        }
        let ghost prev_sorted = sorted@;
        sorted.insert(p, x);
        proof {
            assert(models(sorted@) =~= insert_by_size(model_of(x), acc)) by {
                assert(sorted@ == prev_sorted.insert(p as int, x));
                assert forall|k: int| 0 <= k < models(sorted@).len() implies models(sorted@)[k]
                    == (acc.take(p as int) + seq![model_of(x)] + acc.skip(p as int))[k] by {
                    assert(models(sorted@)[k] == model_of(sorted@[k]));
                    if k < p as int {
                        assert(sorted@[k] == prev_sorted[k]);
                    } else if k > p as int {
                        assert(sorted@[k] == prev_sorted[k - 1]);
                    }
                }
                lemma_insert_by_size_len(model_of(x), acc);
            }
            assert(sort_by_size_upto(im, i as int + 1) == insert_by_size(
                im[i as int],
                sort_by_size_upto(im, i as int),
            ));
        }
        i = i + 1;
    }
    proof {
        assert(models(sorted@) == sort_by_size(im));
    }
    sorted
}

/// Exactly one of the three holds.
pub open spec fn exactly_one3(a: bool, b: bool, c: bool) -> bool {
    (a || b || c) && !(a && b) && !(a && c) && !(b && c)
}

/// Partition completeness: every file of the corpus lands in exactly one of
/// the three buckets of a run — curated, duplicate, or deprecated — and the
/// three id sets cover the whole input.
pub proof fn lemma_curate_partition(files: Seq<CorpusFile>, thresh: u32)
    requires
        files.len() <= usize::MAX,
        items_valid(valid_models(files)),
    ensures
        forall|i: int|
            0 <= i < files.len() ==> #[trigger] exactly_one3(
                curated_ids(sort_by_size(valid_models(files)), thresh).contains(i as u64),
                duplicate_ids(sort_by_size(valid_models(files)), thresh).contains(i as u64),
                deprecated_ids(files).contains(i as u64),
            ),
{
    broadcast use Seq::lemma_filter_pred, Seq::lemma_filter_contains, Seq::lemma_filter_contains_rev;

    let vm = valid_models(files);
    let sm = sort_by_size(vm);
    let n = files.len() as int;
    let rng = crate::resolver::position_range(n);
    let vp = crate::corpus::valid_positions(files);
    let dp = crate::corpus::deprecated_positions(files);
    crate::corpus::lemma_valid_models_wf(files);
    lemma_sort_by_size_valid(vm);
    lemma_sort_by_size_ensures(vm);
    crate::resolver::lemma_resolve_partition(sm, thresh);
    crate::resolver::lemma_curated_separated(sm, thresh);
    let cpos = crate::resolver::curated_positions(sm, thresh);
    let dpos = crate::resolver::duplicate_positions(sm, thresh);

    // the sorted items carry the same models, hence pairwise-distinct ids
    assert(vm.no_duplicates()) by {
        assert forall|p: int, q: int|
            0 <= p < vm.len() && 0 <= q < vm.len() && p != q implies vm[p] != vm[q] by {
            if p < q {
                assert(vm[p].id != vm[q].id);
            } else {
                assert(vm[q].id != vm[p].id);
            }
        }
    }
    vm.lemma_multiset_has_no_duplicates();
    assert(sm.to_multiset() == vm.to_multiset());
    sm.lemma_multiset_has_no_duplicates_conv();
    assert(sm.no_duplicates());
    assert forall|p: int, q: int|
        0 <= p < sm.len() && 0 <= q < sm.len() && p != q implies (#[trigger] sm[p]).id != (
    #[trigger] sm[q]).id by {
        assert(sm[p] != sm[q]);
        assert(sm.contains(sm[p]));
        assert(sm.contains(sm[q]));
        lemma_sort_by_size_contains(vm, sm[p]);
        lemma_sort_by_size_contains(vm, sm[q]);
        let a = choose|a: int| 0 <= a < vm.len() && vm[a] == sm[p];
        let b = choose|b: int| 0 <= b < vm.len() && vm[b] == sm[q];
        assert(a != b);
        if a < b {
            assert(vm[a].id != vm[b].id);
        } else {
            assert(vm[b].id != vm[a].id);
        }
    }

    assert forall|i: int| 0 <= i < n implies #[trigger] exactly_one3(
        curated_ids(sm, thresh).contains(i as u64),
        duplicate_ids(sm, thresh).contains(i as u64),
        deprecated_ids(files).contains(i as u64),
    ) by {
        let id = i as u64;
        let c = curated_ids(sm, thresh).contains(id);
        let d = duplicate_ids(sm, thresh).contains(id);
        let dep = deprecated_ids(files).contains(id);

        // deprecated membership is exactly undecodability of file i
        assert(dep == !(crate::corpus::file_fingerprint(files[i]) is Some)) by {
            if dep {
                let k = choose|k: int|
                    0 <= k < dp.len() && #[trigger] dp[k] as u64 == id;
                assert(dp.contains(dp[k]));
                assert(rng.contains(dp[k]));
                let rk = choose|rk: int| 0 <= rk < rng.len() && rng[rk] == dp[k];
                assert(dp[k] == i);
                assert(crate::corpus::deprecated_pred(files)(dp[k]));
            }
            if !(crate::corpus::file_fingerprint(files[i]) is Some) {
                assert(crate::corpus::deprecated_pred(files)(rng[i]));
                assert(dp.contains(rng[i]));
                let k = choose|k: int| 0 <= k < dp.len() && dp[k] == i;
                assert(deprecated_ids(files)[k] == id);
                assert(deprecated_ids(files).contains(id));
            }
        }

        // a model with this id exists among the valid items exactly when
        // file i decodes
        let has_model = exists|t: int| 0 <= t < sm.len() && (#[trigger] sm[t]).id == id;
        assert(has_model == (crate::corpus::file_fingerprint(files[i]) is Some)) by {
            if has_model {
                let t = choose|t: int| 0 <= t < sm.len() && (#[trigger] sm[t]).id == id;
                assert(sm.contains(sm[t]));
                lemma_sort_by_size_contains(vm, sm[t]);
                let a = choose|a: int| 0 <= a < vm.len() && vm[a] == sm[t];
                assert(vm[a] == crate::corpus::corpus_model_at(files, vp[a]));
                assert(vp.contains(vp[a]));
                assert(rng.contains(vp[a]));
                let rk = choose|rk: int| 0 <= rk < rng.len() && rng[rk] == vp[a];
                assert(0 <= vp[a] < n);
                assert(vp[a] as u64 == id);
                assert(vp[a] == i);
                assert(crate::corpus::decode_pred(files)(vp[a]));
            }
            if crate::corpus::file_fingerprint(files[i]) is Some {
                assert(crate::corpus::decode_pred(files)(rng[i]));
                assert(vp.contains(rng[i]));
                let a = choose|a: int| 0 <= a < vp.len() && vp[a] == i;
                assert(vm[a] == crate::corpus::corpus_model_at(files, i));
                assert(vm[a].id == id);
                lemma_sort_by_size_contains(vm, vm[a]);
                let t = choose|t: int| 0 <= t < sm.len() && sm[t] == vm[a];
            }
        }

        if crate::corpus::file_fingerprint(files[i]) is Some {
            let t = choose|t: int| 0 <= t < sm.len() && (#[trigger] sm[t]).id == id;
            // the only position carrying this id
            assert(c == cpos.contains(t)) by {
                if c {
                    let k = choose|k: int|
                        0 <= k < cpos.len() && #[trigger] curated_ids(sm, thresh)[k] == id;
                    assert(curated_ids(sm, thresh)[k] == sm[cpos[k]].id);
                    assert(0 <= cpos[k] < sm.len());
                    assert(cpos[k] == t);
                    assert(cpos.contains(cpos[k]));
                }
                if cpos.contains(t) {
                    let k = choose|k: int| 0 <= k < cpos.len() && cpos[k] == t;
                    assert(curated_ids(sm, thresh)[k] == id);
                    assert(curated_ids(sm, thresh).contains(id));
                }
            }
            assert(d == dpos.contains(t)) by {
                if d {
                    let k = choose|k: int|
                        0 <= k < dpos.len() && #[trigger] duplicate_ids(sm, thresh)[k] == id;
                    assert(duplicate_ids(sm, thresh)[k] == sm[dpos[k]].id);
                    assert(dpos.contains(dpos[k]));
                    assert(0 <= dpos[k] < sm.len());
                    assert(dpos[k] == t);
                }
                if dpos.contains(t) {
                    let k = choose|k: int| 0 <= k < dpos.len() && dpos[k] == t;
                    assert(duplicate_ids(sm, thresh)[k] == id);
                    assert(duplicate_ids(sm, thresh).contains(id));
                }
            }
            assert(cpos.contains(t) <==> !dpos.contains(t));
        } else {
            assert(!c) by {
                if c {
                    let k = choose|k: int|
                        0 <= k < cpos.len() && #[trigger] curated_ids(sm, thresh)[k] == id;
                    assert(curated_ids(sm, thresh)[k] == sm[cpos[k]].id);
                    assert(0 <= cpos[k] < sm.len());
                }
            }
            assert(!d) by {
                if d {
                    let k = choose|k: int|
                        0 <= k < dpos.len() && #[trigger] duplicate_ids(sm, thresh)[k] == id;
                    assert(duplicate_ids(sm, thresh)[k] == sm[dpos[k]].id);
                    assert(dpos.contains(dpos[k]));
                    assert(0 <= dpos[k] < sm.len());
                }
            }
        }
    }
}

/// All valid items of the corpus are pairwise within threshold distance.
pub open spec fn valid_clique(files: Seq<CorpusFile>, thresh: u32) -> bool {
    forall|i: int, j: int|
        0 <= i < valid_models(files).len() && 0 <= j < valid_models(files).len() && i != j
            ==> crate::fingerprint::hamming(
            (#[trigger] valid_models(files)[i]).bits,
            (#[trigger] valid_models(files)[j]).bits,
        ) <= thresh
}

/// The sorted valid items are pairwise distinct models, because their ids
/// are.
proof fn lemma_sorted_no_duplicates(files: Seq<CorpusFile>)
    requires
        files.len() <= usize::MAX,
    ensures
        sort_by_size(valid_models(files)).no_duplicates(),
{
    let vm = valid_models(files);
    let sm = sort_by_size(vm);
    crate::corpus::lemma_valid_models_wf(files);
    lemma_sort_by_size_ensures(vm);
    assert(vm.no_duplicates()) by {
        assert forall|p: int, q: int|
            0 <= p < vm.len() && 0 <= q < vm.len() && p != q implies vm[p] != vm[q] by {
            if p < q {
                assert(vm[p].id != vm[q].id);
            } else {
                assert(vm[q].id != vm[p].id);
            }
        }
    }
    vm.lemma_multiset_has_no_duplicates();
    assert(sm.to_multiset() == vm.to_multiset());
    sm.lemma_multiset_has_no_duplicates_conv();
}

/// With descending sizes the first item already beats every later one, so
/// it is the overall winner.
proof fn lemma_winner_of_first_sorted(s: Seq<ItemModel>, n: int)
    requires
        1 <= n <= s.len(),
        size_descending(s),
    ensures
        crate::resolver::winner_of_first(s, n) == 0,
    decreases n,
{
    if n > 1 {
        lemma_winner_of_first_sorted(s, n - 1);
        assert(s[0].size >= s[n - 1].size);
    }
}

/// Tie-break at run level: when every two valid items of the corpus are
/// near-duplicates of each other, the run curates exactly one item — one of
/// maximal file size, the first seen among equals — and demotes all other
/// valid items, whatever order the files were listed in.
pub proof fn lemma_curate_clique(files: Seq<CorpusFile>, thresh: u32)
    requires
        files.len() <= usize::MAX,
        items_valid(valid_models(files)),
        valid_count(files) >= 1,
        valid_clique(files, thresh),
    ensures
        curated_ids(sort_by_size(valid_models(files)), thresh) =~= seq![
            sort_by_size(valid_models(files))[0].id,
        ],
        forall|k: int|
            0 <= k < valid_models(files).len() ==> sort_by_size(valid_models(files))[0].size >= (
            #[trigger] valid_models(files)[k]).size,
{
    let vm = valid_models(files);
    let sm = sort_by_size(vm);
    lemma_sort_by_size_valid(vm);
    lemma_sort_by_size_ensures(vm);
    lemma_sorted_no_duplicates(files);
    assert forall|p: int, q: int|
        0 <= p < sm.len() && 0 <= q < sm.len() && p != q implies crate::resolver::close(
        sm,
        p,
        q,
        thresh,
    ) by {
        assert(sm.contains(sm[p]));
        assert(sm.contains(sm[q]));
        lemma_sort_by_size_contains(vm, sm[p]);
        lemma_sort_by_size_contains(vm, sm[q]);
        let a = choose|a: int| 0 <= a < vm.len() && vm[a] == sm[p];
        let b = choose|b: int| 0 <= b < vm.len() && vm[b] == sm[q];
        assert(sm[p] != sm[q]);
        assert(a != b);
        assert(crate::fingerprint::hamming(vm[a].bits, vm[b].bits) <= thresh);
    }
    crate::resolver::lemma_resolve_clique(sm, thresh);
    lemma_winner_of_first_sorted(sm, sm.len() as int);
    assert(crate::resolver::curated_positions(sm, thresh) =~= seq![0int]);
    assert(curated_ids(sm, thresh) =~= seq![sm[0].id]);
    assert forall|k: int| 0 <= k < vm.len() implies sm[0].size >= (#[trigger] vm[k]).size by {
        lemma_sort_by_size_contains(vm, vm[k]);
        let t = choose|t: int| 0 <= t < sm.len() && sm[t] == vm[k];
        if t > 0 {
            assert(sm[0].size >= sm[t].size);
        }
    }
}

/// Threshold agreement at run level: two thresholds that classify every
/// pair of valid items alike produce the same partition, in particular the
/// same curated and duplicate counts. (A threshold change that crosses some
/// pairwise distance can reshape clusters; one that crosses none cannot.)
pub proof fn lemma_curate_threshold_agreement(files: Seq<CorpusFile>, t1: u32, t2: u32)
    requires
        files.len() <= usize::MAX,
        items_valid(valid_models(files)),
        forall|i: int, j: int|
            0 <= i < valid_models(files).len() && 0 <= j < valid_models(files).len() && i != j
                ==> (crate::fingerprint::hamming(
                (#[trigger] valid_models(files)[i]).bits,
                (#[trigger] valid_models(files)[j]).bits,
            ) <= t1 <==> crate::fingerprint::hamming(
                valid_models(files)[i].bits,
                valid_models(files)[j].bits,
            ) <= t2),
    ensures
        curated_ids(sort_by_size(valid_models(files)), t1) == curated_ids(
            sort_by_size(valid_models(files)),
            t2,
        ),
        duplicate_ids(sort_by_size(valid_models(files)), t1) == duplicate_ids(
            sort_by_size(valid_models(files)),
            t2,
        ),
{
    let vm = valid_models(files);
    let sm = sort_by_size(vm);
    lemma_sort_by_size_valid(vm);
    lemma_sort_by_size_ensures(vm);
    lemma_sorted_no_duplicates(files);
    assert forall|p: int, q: int|
        0 <= p < sm.len() && 0 <= q < sm.len() implies (crate::resolver::close(sm, p, q, t1)
        <==> crate::resolver::close(sm, p, q, t2)) by {
        if p != q {
            assert(sm.contains(sm[p]));
            assert(sm.contains(sm[q]));
            lemma_sort_by_size_contains(vm, sm[p]);
            lemma_sort_by_size_contains(vm, sm[q]);
            let a = choose|a: int| 0 <= a < vm.len() && vm[a] == sm[p];
            let b = choose|b: int| 0 <= b < vm.len() && vm[b] == sm[q];
            assert(sm[p] != sm[q]);
            assert(a != b);
            assert(crate::fingerprint::hamming(vm[a].bits, vm[b].bits) <= t1
                <==> crate::fingerprint::hamming(vm[a].bits, vm[b].bits) <= t2);
        } else {
            crate::fingerprint::lemma_hamming_self_zero(sm[p].bits);
        }
    }
    crate::resolver::lemma_resolve_threshold_agreement(sm, t1, t2);
}

/// Configuration of a de-duplication run.
pub struct DeDuplicator {
    /// Source file or directory.
    pub input: String,
    /// Where results are staged; reporting only, without it.
    pub output: Option<String>,
    /// Walk the source directory recursively.
    pub recursive: bool,
    /// Move staged results instead of copying them.
    pub mv: bool,
    /// Fingerprint method.
    pub method: Method,
    /// Largest Hamming distance still counted as a duplicate: the smaller,
    /// the lower the tolerance.
    pub thresh: u32,
    /// List the deprecated files in the run summary.
    pub show_deprecated: bool,
}

/// Outcome of a de-duplication run: three disjoint id sets covering the
/// whole corpus.
pub struct DedupReport {
    /// Ids of the curated representatives.
    pub curated: Vec<u64>,
    /// Ids of the demoted near-duplicates.
    pub duplicate: Vec<u64>,
    /// Ids of the unreadable or undecodable files.
    pub deprecated: Vec<u64>,
}

impl DeDuplicator {
    /// Partitions a corpus into curated, duplicate, and deprecated ids. Ids
    /// are file positions. Fatal only when fewer than 2 files yield a
    /// fingerprint.
    pub fn curate(&self, files: &Vec<CorpusFile>) -> (r: Result<DedupReport, EngineError>)
        ensures
            match r {
                Ok(rep) => valid_count(files@) >= 2 && rep.curated@ == curated_ids(
                    sort_by_size(valid_models(files@)),
                    self.thresh,
                ) && rep.duplicate@ == duplicate_ids(sort_by_size(valid_models(files@)), self.thresh)
                    && rep.deprecated@ == deprecated_ids(files@),
                Err(e) => e is InsufficientCorpus && valid_count(files@) < 2,
            },
    {
        let (valid, deprecated) = extract_corpus(files);
        proof {
            assert(models(valid@).len() == valid@.len());
            assert(valid_models(files@).len() == crate::corpus::valid_positions(files@).len());
            assert(valid_count(files@) == valid@.len());
        }
        if valid.len() < 2 {
            return Err(EngineError::InsufficientCorpus);
        }
        let sorted = sort_items_by_size(valid);
        proof {
            lemma_sort_by_size_valid(valid_models(files@));
        }
        let part = crate::resolver::resolve(&sorted, self.thresh);
        let ResolvedPartition { curated, duplicate } = part;
        Ok(DedupReport { curated, duplicate, deprecated })
    }
}

} // verus!
