//! Integrity-check command: configuration of a sanitizer run. The run
//! itself probes files through the codec and stages results, which is the
//! binary's business; the classification it feeds lives in
//! [`crate::image_files`].

use vstd::prelude::*;

verus! {

/// Configuration of an integrity-check run.
pub struct Args {
    /// Source file or directory.
    pub input: String,
    /// Where results are staged; reporting only, without it.
    pub output: Option<String>,
    /// Walk the source directory recursively.
    pub recursive: bool,
    /// Move staged results instead of copying them.
    pub mv: bool,
    /// Smallest accepted width; zero filters nothing.
    pub min_width: u32,
    /// Smallest accepted height; zero filters nothing.
    pub min_height: u32,
}

} // verus!
