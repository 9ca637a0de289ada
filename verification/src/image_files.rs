//! Integrity classification: pure per-file classification with no
//! cross-item reasoning.
//!
//! The codec probe (decode attempt, dimensions, extension-versus-format
//! comparison) is a collaborator at the library's boundary; it hands in one
//! plain record per file, and the classification into buckets is done here.

use vstd::prelude::*;

verus! {

/// The facts the codec probe reports for one file.
pub enum FileOutcome {
    /// The file could not be opened or read.
    Unreadable,
    /// The bytes decode to no image.
    Undecodable,
    /// The file decoded: its dimensions, whether the path's extension names
    /// the actual format, and the file name the actual format would give.
    Decoded { width: u32, height: u32, suffix_ok: bool, rectified_name: String },
}

/// One probed file: its (canonical) path and what the probe found.
pub struct FileRecord {
    pub path: String,
    pub outcome: FileOutcome,
}

/// Width of a decoded record; zero otherwise.
pub open spec fn width_of(r: FileRecord) -> u32 {
    match r.outcome {
        FileOutcome::Decoded { width, .. } => width,
        _ => 0,
    }
}

/// Height of a decoded record; zero otherwise.
pub open spec fn height_of(r: FileRecord) -> u32 {
    match r.outcome {
        FileOutcome::Decoded { height, .. } => height,
        _ => 0,
    }
}

/// Rectified file name of a decoded record; the path otherwise.
pub open spec fn rectified_of(r: FileRecord) -> String {
    match r.outcome {
        FileOutcome::Decoded { rectified_name, .. } => rectified_name,
        _ => r.path,
    }
}

/// The record decoded and its extension names the actual format.
pub open spec fn suffix_ok_of(r: FileRecord) -> bool {
    match r.outcome {
        FileOutcome::Decoded { suffix_ok, .. } => suffix_ok,
        _ => false,
    }
}

/// The decoded dimensions meet the size filter. A zero minimum filters
/// nothing.
pub open spec fn meets_min(r: FileRecord, min_width: u32, min_height: u32) -> bool {
    width_of(r) >= min_width && height_of(r) >= min_height
}

/// Intact: decoded, correctly named, large enough.
pub open spec fn valid_pred(min_width: u32, min_height: u32) -> spec_fn(FileRecord) -> bool {
    |r: FileRecord| r.outcome is Decoded && suffix_ok_of(r) && meets_min(r, min_width, min_height)
}

/// Intact but filtered out by the size filter.
pub open spec fn valid_filtered_pred(min_width: u32, min_height: u32) -> spec_fn(
    FileRecord,
) -> bool {
    |r: FileRecord| r.outcome is Decoded && suffix_ok_of(r) && !meets_min(r, min_width, min_height)
}

/// Decoded under a wrong extension, large enough.
pub open spec fn incorrect_pred(min_width: u32, min_height: u32) -> spec_fn(FileRecord) -> bool {
    |r: FileRecord| r.outcome is Decoded && !suffix_ok_of(r) && meets_min(r, min_width, min_height)
}

/// Decoded under a wrong extension and filtered out by the size filter.
pub open spec fn incorrect_filtered_pred(min_width: u32, min_height: u32) -> spec_fn(
    FileRecord,
) -> bool {
    |r: FileRecord| r.outcome is Decoded && !suffix_ok_of(r) && !meets_min(
        r,
        min_width,
        min_height,
    )
}

/// Unreadable at the I/O level.
pub open spec fn unreadable_pred() -> spec_fn(FileRecord) -> bool {
    |r: FileRecord| r.outcome is Unreadable
}

/// Readable bytes that decode to no image.
pub open spec fn undecodable_pred() -> spec_fn(FileRecord) -> bool {
    |r: FileRecord| r.outcome is Undecodable
}

/// Entry of a valid bucket: path with dimensions.
pub open spec fn sized_entry(r: FileRecord) -> (String, u32, u32) {
    (r.path, width_of(r), height_of(r))
}

/// Entry of an incorrect-suffix bucket: path with the rectified name and
/// dimensions.
pub open spec fn rectified_entry(r: FileRecord) -> (String, (String, u32, u32)) {
    (r.path, (rectified_of(r), width_of(r), height_of(r)))
}

/// Entry of a deprecated bucket: the path.
pub open spec fn path_entry(r: FileRecord) -> String {
    r.path
}

proof fn lemma_take_filter_step<A>(s: Seq<A>, pred: spec_fn(A) -> bool, i: int)
    requires
        0 <= i < s.len(),
    ensures
        s.take(i + 1).filter(pred) == if pred(s[i]) {
            s.take(i).filter(pred).push(s[i])
        } else {
            s.take(i).filter(pred)
        },
{
    broadcast use Seq::lemma_filter_push;

    assert(s.take(i + 1) =~= s.take(i).push(s[i]));
}

/// The classified corpus: every probed file in exactly one bucket.
pub struct ImageFiles {
    /// Unreadable files (I/O-level failures), by path.
    pub map_deprecated_ioerr: Vec<String>,
    /// Readable files whose bytes decode to no image, by path.
    pub map_deprecated_imerr: Vec<String>,
    /// Decoded files whose extension names the wrong format: path with the
    /// rectified name and dimensions.
    pub map_incorrect_suffix: Vec<(String, (String, u32, u32))>,
    /// Intact files: path with dimensions.
    pub v_valid: Vec<(String, u32, u32)>,
    /// Intact files excluded by the size filter.
    pub v_valid_filtered: Vec<(String, u32, u32)>,
    /// Wrongly named files excluded by the size filter.
    pub map_incorrect_suffix_filtered: Vec<(String, (String, u32, u32))>,
}

impl ImageFiles {
    /// The bucket sizes fit machine arithmetic.
    pub open spec fn wf(&self) -> bool {
        self.map_deprecated_ioerr@.len() + self.map_deprecated_imerr@.len()
            + self.map_incorrect_suffix@.len() + self.v_valid@.len() + self.v_valid_filtered@.len()
            + self.map_incorrect_suffix_filtered@.len() <= usize::MAX
    }

    /// Classifies the probed files into the six buckets: each record lands
    /// in exactly one, by its outcome and the size filter.
    pub fn new(records: &Vec<FileRecord>, min_width: u32, min_height: u32) -> (r: ImageFiles)
        ensures
            r.v_valid@ == records@.filter(valid_pred(min_width, min_height)).map_values(
                |rec: FileRecord| sized_entry(rec),
            ),
            r.v_valid_filtered@ == records@.filter(
                valid_filtered_pred(min_width, min_height),
            ).map_values(|rec: FileRecord| sized_entry(rec)),
            r.map_incorrect_suffix@ == records@.filter(
                incorrect_pred(min_width, min_height),
            ).map_values(|rec: FileRecord| rectified_entry(rec)),
            r.map_incorrect_suffix_filtered@ == records@.filter(
                incorrect_filtered_pred(min_width, min_height),
            ).map_values(|rec: FileRecord| rectified_entry(rec)),
            r.map_deprecated_ioerr@ == records@.filter(unreadable_pred()).map_values(
                |rec: FileRecord| path_entry(rec),
            ),
            r.map_deprecated_imerr@ == records@.filter(undecodable_pred()).map_values(
                |rec: FileRecord| path_entry(rec),
            ),
            r.v_valid@.len() + r.v_valid_filtered@.len() + r.map_incorrect_suffix@.len()
                + r.map_incorrect_suffix_filtered@.len() + r.map_deprecated_ioerr@.len()
                + r.map_deprecated_imerr@.len() == records@.len(),
            r.wf(),
    {
        let ghost rs = records@;
        let ghost vp = valid_pred(min_width, min_height);
        let ghost vfp = valid_filtered_pred(min_width, min_height);
        let ghost ip = incorrect_pred(min_width, min_height);
        let ghost ifp = incorrect_filtered_pred(min_width, min_height);
        let ghost urp = unreadable_pred();
        let ghost udp = undecodable_pred();
        let n = records.len();
        let mut v_valid: Vec<(String, u32, u32)> = Vec::new();
        let mut v_valid_filtered: Vec<(String, u32, u32)> = Vec::new();
        let mut map_incorrect_suffix: Vec<(String, (String, u32, u32))> = Vec::new();
        let mut map_incorrect_suffix_filtered: Vec<(String, (String, u32, u32))> = Vec::new();
        let mut map_deprecated_ioerr: Vec<String> = Vec::new();
        let mut map_deprecated_imerr: Vec<String> = Vec::new();
        let mut i: usize = 0;
        while i < n
            invariant
                rs == records@,
                n == rs.len(),
                i <= n,
                vp == valid_pred(min_width, min_height),
                vfp == valid_filtered_pred(min_width, min_height),
                ip == incorrect_pred(min_width, min_height),
                ifp == incorrect_filtered_pred(min_width, min_height),
                urp == unreadable_pred(),
                udp == undecodable_pred(),
                v_valid@ == rs.take(i as int).filter(vp).map_values(
                    |rec: FileRecord| sized_entry(rec),
                ),
                v_valid_filtered@ == rs.take(i as int).filter(vfp).map_values(
                    |rec: FileRecord| sized_entry(rec),
                ),
                map_incorrect_suffix@ == rs.take(i as int).filter(ip).map_values(
                    |rec: FileRecord| rectified_entry(rec),
                ),
                map_incorrect_suffix_filtered@ == rs.take(i as int).filter(ifp).map_values(
                    |rec: FileRecord| rectified_entry(rec),
                ),
                map_deprecated_ioerr@ == rs.take(i as int).filter(urp).map_values(
                    |rec: FileRecord| path_entry(rec),
                ),
                map_deprecated_imerr@ == rs.take(i as int).filter(udp).map_values(
                    |rec: FileRecord| path_entry(rec),
                ),
                v_valid@.len() + v_valid_filtered@.len() + map_incorrect_suffix@.len()
                    + map_incorrect_suffix_filtered@.len() + map_deprecated_ioerr@.len()
                    + map_deprecated_imerr@.len() == i,
            decreases n - i,
        {
            proof {
                lemma_take_filter_step(rs, vp, i as int);
                lemma_take_filter_step(rs, vfp, i as int);
                lemma_take_filter_step(rs, ip, i as int);
                lemma_take_filter_step(rs, ifp, i as int);
                lemma_take_filter_step(rs, urp, i as int);
                lemma_take_filter_step(rs, udp, i as int);
            }
            match &records[i].outcome {
                FileOutcome::Unreadable => {
                    map_deprecated_ioerr.push(records[i].path.clone());
                    proof {
                        assert(map_deprecated_ioerr@ =~= rs.take(i as int + 1).filter(
                            urp,
                        ).map_values(|rec: FileRecord| path_entry(rec)));
                    }
                },
                FileOutcome::Undecodable => {
                    map_deprecated_imerr.push(records[i].path.clone());
                    proof {
                        assert(map_deprecated_imerr@ =~= rs.take(i as int + 1).filter(
                            udp,
                        ).map_values(|rec: FileRecord| path_entry(rec)));
                    }
                },
                FileOutcome::Decoded { width, height, suffix_ok, rectified_name } => {
                    let meets = *width >= min_width && *height >= min_height;
                    proof {
                        assert(meets == meets_min(rs[i as int], min_width, min_height));
                        assert(*suffix_ok == suffix_ok_of(rs[i as int]));
                    }
                    if *suffix_ok {
                        if meets {
                            v_valid.push((records[i].path.clone(), *width, *height));
                            proof {
                                assert(v_valid@ =~= rs.take(i as int + 1).filter(vp).map_values(
                                    |rec: FileRecord| sized_entry(rec),
                                ));
                            }
                        } else {
                            v_valid_filtered.push((records[i].path.clone(), *width, *height));
                            proof {
                                assert(v_valid_filtered@ =~= rs.take(i as int + 1).filter(
                                    vfp,
                                ).map_values(|rec: FileRecord| sized_entry(rec)));
                            }
                        }
                    } else {
                        if meets {
                            map_incorrect_suffix.push(
                                (records[i].path.clone(), (rectified_name.clone(), *width, *height)),
                            );
                            proof {
                                assert(map_incorrect_suffix@ =~= rs.take(i as int + 1).filter(
                                    ip,
                                ).map_values(|rec: FileRecord| rectified_entry(rec)));
                            }
                        } else {
                            map_incorrect_suffix_filtered.push(
                                (records[i].path.clone(), (rectified_name.clone(), *width, *height)),
                            );
                            proof {
                                assert(map_incorrect_suffix_filtered@ =~= rs.take(
                                    i as int + 1,
                                ).filter(ifp).map_values(|rec: FileRecord| rectified_entry(rec)));
                            }
                        }
                    }
                },
            }
            i = i + 1;
        }
        proof {
            assert(rs.take(n as int) =~= rs);
        }
        ImageFiles {
            map_deprecated_ioerr,
            map_deprecated_imerr,
            map_incorrect_suffix,
            v_valid,
            v_valid_filtered,
            map_incorrect_suffix_filtered,
        }
    }

    /// Some file was unreadable or undecodable.
    pub fn has_deprecated(&self) -> (r: bool)
        ensures
            r == (self.map_deprecated_imerr@.len() + self.map_deprecated_ioerr@.len() > 0),
    {
        !self.map_deprecated_imerr.is_empty() || !self.map_deprecated_ioerr.is_empty()
    }

    /// Every file is intact and accurately named: nothing was deprecated,
    /// wrongly named, or excluded by the size filter.
    pub fn is_ok(&self) -> (r: bool)
        ensures
            r == (self.map_deprecated_imerr@.len() + self.map_deprecated_ioerr@.len()
                + self.map_incorrect_suffix@.len() + self.v_valid_filtered@.len()
                + self.map_incorrect_suffix_filtered@.len() == 0),
    {
        self.map_deprecated_imerr.is_empty() && self.map_deprecated_ioerr.is_empty()
            && self.map_incorrect_suffix.is_empty() && self.v_valid_filtered.is_empty()
            && self.map_incorrect_suffix_filtered.is_empty()
    }

    /// Count of all probed files, over all buckets.
    pub fn ntotal(&self) -> (n: usize)
        requires
            self.wf(),
        ensures
            n == self.map_deprecated_imerr@.len() + self.map_deprecated_ioerr@.len()
                + self.map_incorrect_suffix@.len() + self.map_incorrect_suffix_filtered@.len()
                + self.v_valid@.len() + self.v_valid_filtered@.len(),
    {
        self.map_deprecated_imerr.len() + self.map_deprecated_ioerr.len()
            + self.map_incorrect_suffix.len() + self.map_incorrect_suffix_filtered.len()
            + self.v_valid.len() + self.v_valid_filtered.len()
    }
}

} // verus!
