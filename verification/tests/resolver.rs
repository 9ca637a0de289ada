use ilytix::fingerprint::{Fingerprint, FINGERPRINT_BITS};
use ilytix::resolver::{resolve, ResolveItem};

fn fp(n_ones: usize) -> Fingerprint {
    let mut v = vec![false; FINGERPRINT_BITS];
    for b in v.iter_mut().take(n_ones) {
        *b = true;
    }
    Fingerprint::from_bits(v).unwrap()
}

fn item(id: u64, size: u64, n_ones: usize) -> ResolveItem {
    ResolveItem { id, size, fp: fp(n_ones) }
}

fn sorted(mut v: Vec<u64>) -> Vec<u64> {
    v.sort();
    v
}

#[test]
fn lone_items_all_stay_curated() {
    // pairwise distances 100 and 150 and 50, threshold 3: no duplicates
    let items = vec![item(0, 10, 0), item(1, 20, 100), item(2, 30, 150)];
    let r = resolve(&items, 3);
    assert_eq!(r.curated, vec![0u64, 1, 2]);
    assert_eq!(r.duplicate, Vec::<u64>::new());
}

#[test]
fn near_duplicates_leave_one_representative() {
    // distances: 0-1: 2, 0-2: 3, 1-2: 1 — all within threshold 3
    let items = vec![item(0, 10, 0), item(1, 5, 2), item(2, 99, 3)];
    let r = resolve(&items, 3);
    assert_eq!(r.curated, vec![2u64]);
    assert_eq!(sorted(r.duplicate), vec![0u64, 1]);
}

#[test]
fn partition_covers_every_item_exactly_once() {
    let items = vec![
        item(0, 10, 0),
        item(1, 20, 1),
        item(2, 30, 128),
        item(3, 40, 129),
        item(4, 50, 255),
    ];
    let r = resolve(&items, 3);
    let mut all = r.curated.clone();
    all.extend(r.duplicate.iter().copied());
    assert_eq!(sorted(all), vec![0u64, 1, 2, 3, 4]);
    for id in &r.curated {
        assert!(!r.duplicate.contains(id));
    }
}

#[test]
fn tie_break_curates_the_largest_file() {
    // three mutually near-duplicate items of sizes 300, 100 and 200 bytes:
    // whatever the arrival order, the 300-byte one is curated
    let a = (1u64, 300u64);
    let b = (2u64, 100u64);
    let c = (3u64, 200u64);
    let orders = vec![
        vec![a, b, c],
        vec![a, c, b],
        vec![b, a, c],
        vec![b, c, a],
        vec![c, a, b],
        vec![c, b, a],
    ];
    for order in orders {
        let items: Vec<ResolveItem> = order.iter().map(|&(id, size)| item(id, size, 0)).collect();
        let r = resolve(&items, 3);
        assert_eq!(r.curated, vec![1u64]);
        assert_eq!(sorted(r.duplicate), vec![2u64, 3]);
    }
}

#[test]
fn equal_sizes_curate_the_first_seen() {
    let items = vec![item(8, 77, 0), item(9, 77, 1)];
    let r = resolve(&items, 3);
    assert_eq!(r.curated, vec![8u64]);
    assert_eq!(r.duplicate, vec![9u64]);
}

#[test]
fn resolving_twice_yields_the_same_partition() {
    let items = vec![item(0, 10, 0), item(1, 20, 2), item(2, 30, 128)];
    let r1 = resolve(&items, 3);
    let r2 = resolve(&items, 3);
    assert_eq!(r1.curated, r2.curated);
    assert_eq!(r1.duplicate, r2.duplicate);
}

#[test]
fn resolving_the_curated_set_changes_nothing() {
    let items = vec![
        item(0, 10, 0),
        item(1, 20, 2),
        item(2, 30, 128),
        item(3, 5, 130),
    ];
    let r1 = resolve(&items, 3);
    let again: Vec<ResolveItem> = items
        .iter()
        .filter(|it| r1.curated.contains(&it.id))
        .map(|it| ResolveItem {
            id: it.id,
            size: it.size,
            fp: Fingerprint::from_bits(it.fp.bits().clone()).unwrap(),
        })
        .collect();
    let r2 = resolve(&again, 3);
    assert_eq!(r2.curated, r1.curated);
    assert_eq!(r2.duplicate, Vec::<u64>::new());
}

#[test]
fn thresholds_that_split_no_pair_agree() {
    // pairwise distances are 0 or far above both thresholds
    let items = vec![item(0, 10, 0), item(1, 20, 0), item(2, 30, 128)];
    let r1 = resolve(&items, 3);
    let r2 = resolve(&items, 10);
    assert_eq!(r1.curated, r2.curated);
    assert_eq!(r1.duplicate, r2.duplicate);
}

#[test]
fn resolving_nothing_yields_empty_sets() {
    let items: Vec<ResolveItem> = Vec::new();
    let r = resolve(&items, 3);
    assert_eq!(r.curated, Vec::<u64>::new());
    assert_eq!(r.duplicate, Vec::<u64>::new());
}

