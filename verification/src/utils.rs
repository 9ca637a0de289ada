//! Run-summary lines. Styled terminal output is the caller's business; the
//! logger composes the plain text of each line.

use vstd::prelude::*;
use vstd::string::StringExecFns;

verus! {

/// Composes the plain text of run-summary lines.
pub struct Logger;

impl Logger {
    /// One success line: the marker, then the parts separated by single
    /// spaces.
    pub fn success(&self, t1: &str, t2: &str, prompt: &str) -> (r: String)
        ensures
            r@ == "[ok] "@ + t1@ + " "@ + t2@ + " "@ + prompt@,
    {
        let mut s = String::from_str("[ok] ");
        s.append(t1);
        s.append(" ");
        s.append(t2);
        s.append(" ");
        s.append(prompt);
        s
    }

    /// One warning line: the marker, then the parts separated by single
    /// spaces.
    pub fn warn(&self, t1: &str, t2: &str, prompt: &str) -> (r: String)
        ensures
            r@ == "[warn] "@ + t1@ + " "@ + t2@ + " "@ + prompt@,
    {
        let mut s = String::from_str("[warn] ");
        s.append(t1);
        s.append(" ");
        s.append(t2);
        s.append(" ");
        s.append(prompt);
        s
    }

    /// One failure line: the marker, then the parts separated by single
    /// spaces. The caller decides whether the run ends on it.
    pub fn fail(&self, t1: &str, t2: &str, prompt: &str) -> (r: String)
        ensures
            r@ == "[fail] "@ + t1@ + " "@ + t2@ + " "@ + prompt@,
    {
        let mut s = String::from_str("[fail] ");
        s.append(t1);
        s.append(" ");
        s.append(t2);
        s.append(" ");
        s.append(prompt);
        s
    }
}

} // verus!
