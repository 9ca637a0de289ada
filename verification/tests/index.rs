use ilytix::fingerprint::{Fingerprint, FINGERPRINT_BITS};
use ilytix::SimilarityIndex;

fn fp(n_ones: usize) -> Fingerprint {
    let mut v = vec![false; FINGERPRINT_BITS];
    for b in v.iter_mut().take(n_ones) {
        *b = true;
    }
    Fingerprint::from_bits(v).unwrap()
}

#[test]
fn add_contains_get_len() {
    let mut index = SimilarityIndex::new();
    assert_eq!(index.len(), 0);
    assert!(!index.contains(7));
    index.reserve(4);
    index.add(7, fp(1));
    index.add(9, fp(5));
    assert_eq!(index.len(), 2);
    assert!(index.contains(7));
    assert!(index.contains(9));
    assert!(!index.contains(8));
    let got = index.get(9).unwrap();
    assert_eq!(got.distance(&fp(5)), 0);
    assert!(index.get(8).is_none());
}

#[test]
fn query_ranks_by_ascending_distance() {
    let mut index = SimilarityIndex::new();
    index.add(10, fp(2));
    index.add(20, fp(0));
    index.add(30, fp(1));
    let r = index.query(&fp(0), 3);
    assert_eq!(r, vec![(20u64, 0u32), (30, 1), (10, 2)]);
}

#[test]
fn query_breaks_distance_ties_by_ascending_id() {
    let mut index = SimilarityIndex::new();
    index.add(7, fp(4));
    index.add(5, fp(4));
    index.add(6, fp(9));
    let r = index.query(&fp(4), 3);
    assert_eq!(r, vec![(5u64, 0u32), (7, 0), (6, 5)]);
}

#[test]
fn query_returns_at_most_k() {
    let mut index = SimilarityIndex::new();
    index.add(1, fp(3));
    index.add(2, fp(6));
    index.add(3, fp(250));
    let r = index.query(&fp(0), 2);
    assert_eq!(r, vec![(1u64, 3u32), (2, 6)]);
    let all = index.query(&fp(0), 100);
    assert_eq!(all.len(), 3);
}

#[test]
fn an_empty_index_answers_with_nothing() {
    let index = SimilarityIndex::new();
    assert_eq!(index.len(), 0);
    let r = index.query(&fp(0), 10);
    assert_eq!(r, Vec::<(u64, u32)>::new());
}
