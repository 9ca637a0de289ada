//! Similarity retrieval: builds an index over a corpus and ranks all corpus
//! items within threshold distance of one externally supplied query image.

use vstd::prelude::*;
use crate::cli::Method;
use crate::corpus::{
    data_fingerprint, deprecated_ids, extract_corpus, lemma_valid_models_wf, valid_count,
    valid_models, CorpusFile, ImageData,
};
use crate::errors::EngineError;
use crate::fingerprint::fingerprint_from_bytes;
use crate::index::{
    all_pairs, lemma_rank_sorted_ensures, rank_sorted, within_pred, EntryModel, SimilarityIndex,
};
use crate::resolver::{model_of, models, ItemModel};

verus! {

/// What a retrieval query is matched against.
#[derive(Clone, Copy, Debug, PartialEq, Eq, Structural)]
pub enum Kind {
    Image,
    Text,
}

/// The index entries a sequence of valid items yields.
pub open spec fn entry_models(ms: Seq<ItemModel>) -> Seq<EntryModel> {
    ms.map_values(|m: ItemModel| EntryModel { id: m.id, bits: m.bits })
}

/// The ranked matches of a query against a corpus: all valid items within
/// threshold distance, ascending by distance, ties by ascending id.
pub open spec fn retrieval_matches(
    files: Seq<CorpusFile>,
    qbits: Seq<bool>,
    thresh: u32,
) -> Seq<(u64, u32)> {
    rank_sorted(all_pairs(entry_models(valid_models(files)), qbits)).filter(within_pred(thresh))
}

/// Outcome of a retrieval run.
pub struct MatchReport {
    /// Matched corpus items: id and Hamming distance from the query,
    /// ascending distance, ties by ascending id.
    pub matches: Vec<(u64, u32)>,
    /// Ids of the unreadable or undecodable corpus files.
    pub deprecated: Vec<u64>,
}

/// Configuration of a retrieval run.
pub struct Retrival {
    /// Corpus file or directory.
    pub input: String,
    /// Path of the query image.
    pub query: String,
    /// What the query is matched against.
    pub kind: Kind,
    /// Where results are staged; reporting only, without it.
    pub output: Option<String>,
    /// Walk the corpus directory recursively.
    pub recursive: bool,
    /// Move staged results instead of copying them.
    pub mv: bool,
    /// Fingerprint method.
    pub method: Method,
    /// Largest Hamming distance still counted as a match: the smaller, the
    /// lower the tolerance.
    pub thresh: u32,
    /// List every matched path in the run summary.
    pub verbose: bool,
}

impl Retrival {
    /// Fingerprints the corpus, indexes the valid items under their ordinal
    /// ids, fingerprints the query image, and ranks the corpus items within
    /// threshold distance of it. A corpus with fewer than 2 valid items is
    /// fatal; so is an undecodable query image — distinct from per-item
    /// decode failures, which only deprecate the item.
    pub fn search(&self, files: &Vec<CorpusFile>, query: &ImageData) -> (r: Result<
        MatchReport,
        EngineError,
    >)
        requires
            self.kind is Image,
        ensures
            match r {
                Ok(rep) => {
                    &&& valid_count(files@) >= 2
                    &&& data_fingerprint(*query) matches Some(qb) && rep.matches@
                        == retrieval_matches(files@, qb, self.thresh)
                    &&& rep.deprecated@ == deprecated_ids(files@)
                },
                Err(e) => {
                    ||| (e is InsufficientCorpus && valid_count(files@) < 2)
                    ||| (e is QueryUndecodable && valid_count(files@) >= 2 && data_fingerprint(
                        *query,
                    ) is None)
                },
            },
    {
        let nf = files.len();
        let (valid, deprecated) = extract_corpus(files);
        proof {
            assert(files@.len() == nf);
            assert(models(valid@).len() == valid@.len());
            assert(valid_models(files@).len() == crate::corpus::valid_positions(files@).len());
            assert(valid_count(files@) == valid@.len());
        }
        if valid.len() < 2 {
            return Err(EngineError::InsufficientCorpus);
        }
        let qfp = match query {
            ImageData::Unreadable => None,
            ImageData::Bytes(b) => fingerprint_from_bytes(b),
        };
        let qfp = match qfp {
            Some(f) => f,
            None => {
                return Err(EngineError::QueryUndecodable);
            },
        };
        let ghost vm = valid_models(files@);
        let ghost em = entry_models(vm);
        proof {
            lemma_valid_models_wf(files@);
        }
        let mut index = SimilarityIndex::new();
        let nv = valid.len();
        index.reserve(nv);
        let mut rest = valid;
        let mut i: usize = 0;
        while i < nv
            invariant
                vm == valid_models(files@),
                em == entry_models(vm),
                nv == vm.len(),
                i <= nv,
                models(rest@) == vm.skip(i as int),
                rest@.len() == nv - i,
                index@ == em.take(i as int),
                index.wf(),
                crate::resolver::items_valid(vm),
                forall|p: int, q: int|
                    0 <= p < q < vm.len() ==> (#[trigger] vm[p]).id != (#[trigger] vm[q]).id,
            decreases nv - i,
        {
            proof {
                assert(models(rest@)[0] == model_of(rest@[0]));
                assert(vm.skip(i as int)[0] == vm[i as int]);
            }
            let ghost prev_rest = rest@;
            let item = rest.remove(0);
            proof {
                assert(models(rest@) =~= vm.skip(i as int + 1)) by {
                    assert forall|k: int| 0 <= k < models(rest@).len() implies models(rest@)[k]
                        == vm.skip(i as int + 1)[k] by {
                        assert(models(rest@)[k] == model_of(rest@[k]));
                        assert(rest@[k] == prev_rest[k + 1]);
                        assert(models(prev_rest)[k + 1] == model_of(prev_rest[k + 1]));
                    }
                }
                assert(model_of(item) == vm[i as int]);
                // the arriving id is fresh: ids are pairwise distinct
                assert(!index.spec_contains(item.id)) by {
                    if index.spec_contains(item.id) {
                        let j = choose|j: int|
                            0 <= j < index@.len() && (#[trigger] index@[j]).id == item.id;
                        assert(index@[j] == em[j]);
                        assert(em[j].id == vm[j].id);
                        assert(vm[j].id != vm[i as int].id);
                    }
                }
                assert(item.fp.valid()) by {
                    assert(vm[i as int].bits == item.fp@);
                    assert(crate::resolver::items_valid(vm));
                }
            }
            let ghost prev_index = index@;
            index.add(item.id, item.fp);
            proof {
                assert(index@ =~= em.take(i as int + 1)) by {
                    assert(index@ == prev_index.push(
                        EntryModel { id: item.id, bits: item.fp@ },
                    ));
                    assert(em[i as int] == EntryModel { id: vm[i as int].id, bits: vm[i as int].bits });
                }
            }
            i = i + 1;
        }
        proof {
            assert(index@ =~= em);
        }
        let total = index.len();
        let ranked = index.query(&qfp, total);
        proof {
            lemma_rank_sorted_ensures(all_pairs(em, qfp@));
            assert(ranked@ =~= rank_sorted(all_pairs(em, qfp@)));
        }
        let nr = ranked.len();
        let ghost wpred = within_pred(self.thresh);
        let mut matches: Vec<(u64, u32)> = Vec::new();
        let mut k: usize = 0;
        while k < nr
            invariant
                nr == ranked@.len(),
                k <= nr,
                wpred == within_pred(self.thresh),
                matches@ == ranked@.take(k as int).filter(wpred),
            decreases nr - k,
        {
            proof {
                broadcast use Seq::lemma_filter_push;

                assert(ranked@.take(k as int + 1) =~= ranked@.take(k as int).push(
                    ranked@[k as int],
                ));
                assert(wpred(ranked@[k as int]) == (ranked@[k as int].1 <= self.thresh));
                assert(ranked@.take(k as int).push(ranked@[k as int]).filter(wpred) == if wpred(
                    ranked@[k as int],
                ) {
                    ranked@.take(k as int).filter(wpred).push(ranked@[k as int])
                } else {
                    ranked@.take(k as int).filter(wpred)
                });
            }
            let pair = ranked[k];
            if pair.1 <= self.thresh {
                matches.push(pair);
            }
            k = k + 1;
        }
        proof {
            assert(ranked@.take(nr as int) =~= ranked@);
            assert(matches@ == retrieval_matches(files@, qfp@, self.thresh));
        }
        Ok(MatchReport { matches, deprecated })
    }
}

} // verus!
