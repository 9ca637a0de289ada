//! Corpus intake: per-file plain values as handed in by the caller, and the
//! extraction step that turns them into resolver items.
//!
//! Reading files from disk is the caller's business; the library receives
//! each file's bytes (or the mark that reading failed) together with its
//! path and size, and derives fingerprints. Files that yield no fingerprint
//! are deprecated: they never reach the resolver or the index.

use vstd::prelude::*;
use crate::fingerprint::{fingerprint_from_bytes, fingerprint_of_bytes};
use crate::resolver::{items_valid, model_of, models, position_range, ItemModel, ResolveItem};

verus! {

/// The readable content of a corpus file, or the mark that reading it
/// failed (an I/O-level failure, as opposed to bytes that fail to decode).
pub enum ImageData {
    Unreadable,
    Bytes(Vec<u8>),
}

/// One corpus file as handed in by the caller: its path, its size in bytes,
/// and its content.
pub struct CorpusFile {
    pub path: String,
    pub size: u64,
    pub data: ImageData,
}

/// The fingerprint extraction derives from content: `None` when the
/// content is unreadable or its bytes are not a decodable image.
pub open spec fn data_fingerprint(d: ImageData) -> Option<Seq<bool>> {
    match d {
        ImageData::Unreadable => None,
        ImageData::Bytes(b) => fingerprint_of_bytes(b@),
    }
}

/// The fingerprint extraction derives for a file.
pub open spec fn file_fingerprint(f: CorpusFile) -> Option<Seq<bool>> {
    data_fingerprint(f.data)
}

/// The file at the position yields a fingerprint.
pub open spec fn decode_pred(files: Seq<CorpusFile>) -> spec_fn(int) -> bool {
    |i: int| file_fingerprint(files[i]) is Some
}

/// The file at the position yields no fingerprint.
pub open spec fn deprecated_pred(files: Seq<CorpusFile>) -> spec_fn(int) -> bool {
    |i: int| !(file_fingerprint(files[i]) is Some)
}

/// Positions of the files that yield a fingerprint, in file order.
pub open spec fn valid_positions(files: Seq<CorpusFile>) -> Seq<int> {
    position_range(files.len() as int).filter(decode_pred(files))
}

/// Positions of the files that yield none, in file order.
pub open spec fn deprecated_positions(files: Seq<CorpusFile>) -> Seq<int> {
    position_range(files.len() as int).filter(deprecated_pred(files))
}

/// Ordinal ids of the deprecated files. Ids are file positions, so they may
/// leave gaps in the valid items: deprecated files are skipped, not
/// remapped.
pub open spec fn deprecated_ids(files: Seq<CorpusFile>) -> Seq<u64> {
    deprecated_positions(files).map_values(|i: int| i as u64)
}

/// The model of the valid item a file yields: ordinal id, size, bits.
pub open spec fn corpus_model_at(files: Seq<CorpusFile>, i: int) -> ItemModel {
    ItemModel { id: i as u64, size: files[i].size, bits: file_fingerprint(files[i]).unwrap() }
}

/// The models of all valid items, in file order.
pub open spec fn valid_models(files: Seq<CorpusFile>) -> Seq<ItemModel> {
    valid_positions(files).map_values(|i: int| corpus_model_at(files, i))
}

/// Count of files that yield a fingerprint.
pub open spec fn valid_count(files: Seq<CorpusFile>) -> int {
    valid_positions(files).len() as int
}

/// The ordinal ids of the valid items are pairwise distinct, and each is a
/// file position.
pub proof fn lemma_valid_models_wf(files: Seq<CorpusFile>)
    requires
        files.len() <= usize::MAX,
    ensures
        forall|p: int|
            0 <= p < valid_models(files).len() ==> (#[trigger] valid_models(files)[p]).id
                < files.len(),
        forall|p: int, q: int|
            0 <= p < q < valid_models(files).len() ==> (#[trigger] valid_models(files)[p]).id != (
            #[trigger] valid_models(files)[q]).id,
{
    broadcast use Seq::lemma_filter_contains_rev;

    let n = files.len() as int;
    let rng = position_range(n);
    let vp = valid_positions(files);
    let vm = valid_models(files);
    assert(rng.no_duplicates());
    crate::resolver::lemma_filter_no_duplicates(rng, decode_pred(files));
    assert forall|p: int| 0 <= p < vm.len() implies 0 <= #[trigger] vp[p] < n by {
        assert(vp.contains(vp[p]));
        let k = choose|k: int| 0 <= k < rng.len() && rng[k] == vp[p];
    }
    assert forall|p: int| 0 <= p < vm.len() implies (#[trigger] vm[p]).id < files.len() by {
        assert(vm[p] == corpus_model_at(files, vp[p]));
    }
    assert forall|p: int, q: int| 0 <= p < q < vm.len() implies (#[trigger] vm[p]).id != (
    #[trigger] vm[q]).id by {
        assert(vm[p] == corpus_model_at(files, vp[p]));
        assert(vm[q] == corpus_model_at(files, vp[q]));
        assert(vp[p] != vp[q]);
        assert(0 <= vp[p] < n && 0 <= vp[q] < n);
        assert(vp[p] as u64 != vp[q] as u64);
    }
}

/// Extraction: derives a fingerprint for every readable, decodable file and
/// routes the rest into the deprecated bucket. Valid items carry their file
/// position as id, in file order; deprecated ids likewise.
pub fn extract_corpus(files: &Vec<CorpusFile>) -> (r: (Vec<ResolveItem>, Vec<u64>))
    ensures
        models(r.0@) == valid_models(files@),
        r.1@ == deprecated_ids(files@),
        items_valid(models(r.0@)),
{
    let ghost fs = files@;
    let n = files.len();
    let mut valid: Vec<ResolveItem> = Vec::new();
    let mut deprecated: Vec<u64> = Vec::new();
    let mut i: usize = 0;
    while i < n
        invariant
            fs == files@,
            n == fs.len(),
            i <= n,
            models(valid@) == position_range(i as int).filter(decode_pred(fs)).map_values(
                |k: int| corpus_model_at(fs, k),
            ),
            deprecated@ == position_range(i as int).filter(deprecated_pred(fs)).map_values(
                |k: int| k as u64,
            ),
            items_valid(models(valid@)),
        decreases n - i,
    {
        proof {
            broadcast use Seq::lemma_filter_push;

            let rng = position_range(i as int);
            assert(position_range(i as int + 1) =~= rng.push(i as int));
            assert(rng.push(i as int).filter(decode_pred(fs)) == if decode_pred(fs)(i as int) {
                rng.filter(decode_pred(fs)).push(i as int)
            } else {
                rng.filter(decode_pred(fs))
            });
            assert(rng.push(i as int).filter(deprecated_pred(fs)) == if deprecated_pred(fs)(
                i as int,
            ) {
                rng.filter(deprecated_pred(fs)).push(i as int)
            } else {
                rng.filter(deprecated_pred(fs))
            });
        }
        let extracted = match &files[i].data {
            ImageData::Unreadable => None,
            ImageData::Bytes(b) => fingerprint_from_bytes(b),
        };
        match extracted {
            Some(fp) => {
                proof {
                    assert(file_fingerprint(fs[i as int]) == Some(fp@));
                }
                let item = ResolveItem { id: i as u64, size: files[i].size, fp };
                let ghost prev = valid@;
                valid.push(item);
                proof {
                    assert(models(valid@) =~= models(prev).push(model_of(item)));
                    assert(model_of(item) == corpus_model_at(fs, i as int));
                    assert(models(valid@) =~= position_range(i as int + 1).filter(
                        decode_pred(fs),
                    ).map_values(|k: int| corpus_model_at(fs, k)));
                    assert forall|k: int| 0 <= k < models(valid@).len() implies (#[trigger] models(
                        valid@,
                    )[k]).bits.len() == crate::fingerprint::FINGERPRINT_BITS by {
                        assert(models(valid@)[k] == model_of(valid@[k]));
                    }
                }
            },
            None => {
                proof {
                    assert(file_fingerprint(fs[i as int]) is None);
                }
                deprecated.push(i as u64);
                proof {
                    assert(deprecated@ =~= position_range(i as int + 1).filter(
                        deprecated_pred(fs),
                    ).map_values(|k: int| k as u64));
                }
            },
        }
        i = i + 1;
    }
    proof {
        assert(models(valid@) =~= valid_models(fs));
        assert(deprecated@ =~= deprecated_ids(fs));
    }
    (valid, deprecated)
}

} // verus!
