//! Build provenance carried by the binaries.

use vstd::prelude::*;

verus! {

/// The source revision a binary was built from.
pub struct VersionInfo {
    pub commit_date: &'static str,
    pub commit: &'static str,
}

impl VersionInfo {
    /// Wraps the revision stamps the build embeds.
    pub fn new(commit_date: &'static str, commit: &'static str) -> (r: VersionInfo)
        ensures
            r.commit_date@ == commit_date@,
            r.commit@ == commit@,
    {
        VersionInfo { commit_date, commit }
    }
}

} // verus!
