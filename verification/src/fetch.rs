//! The shape of the upstream dump status feed: which table jobs a dump run
//! consists of, whether each is done, and where its files live. Fetching is
//! the caller's business; this module holds the records and the decisions
//! made over them.

use vstd::prelude::*;

use crate::text::str_eq;

verus! {

/// The first slash at or after `i`, if any.
pub open spec fn spec_slash_pos(s: Seq<char>, i: int) -> Option<int>
    decreases s.len() - i,
{
    if i < 0 || i >= s.len() {
        None
    } else if s[i] == '/' {
        Some(i)
    } else {
        spec_slash_pos(s, i + 1)
    }
}

/// The date segment of a feed-relative URL: the text between its second and
/// third slash, or from the second slash to the end.
pub open spec fn spec_url_date(s: Seq<char>) -> Option<Seq<char>> {
    match spec_slash_pos(s, 0) {
        Some(p1) => match spec_slash_pos(s, p1 + 1) {
            Some(p2) => {
                let p3 = match spec_slash_pos(s, p2 + 1) {
                    Some(p) => p,
                    None => s.len() as int,
                };
                Some(s.subrange(p2 + 1, p3))
            },
            None => None,
        },
        None => None,
    }
}

/// A found slash sits within the string, at or after where the scan began.
pub proof fn lemma_slash_pos_range(s: Seq<char>, i: int)
    requires
        spec_slash_pos(s, i) is Some,
    ensures
        i <= spec_slash_pos(s, i).unwrap() < s.len(),
    decreases s.len() - i,
{
    if s[i] != '/' {
        lemma_slash_pos_range(s, i + 1);
    }
}

/// Finds the first slash at or after `i`.
fn slash_pos(s: &str, i: usize) -> (r: Option<usize>)
    requires
        i <= s@.len(),
    ensures
        r is Some <==> spec_slash_pos(s@, i as int) is Some,
        r is Some ==> spec_slash_pos(s@, i as int).unwrap() == r.unwrap() as int,
    decreases s@.len() - i,
{
    if i >= s.unicode_len() {
        return None;
    }
    if s.get_char(i) == '/' {
        return Some(i);
    }
    slash_pos(s, i + 1)
}

/// Extracts the date segment of a feed-relative URL.
pub fn url_date_segment(s: &str) -> (r: Option<String>)
    ensures
        r is Some <==> spec_url_date(s@) is Some,
        r is Some ==> r.unwrap()@ == spec_url_date(s@).unwrap(),
{
    let len = s.unicode_len();
    let p1 = match slash_pos(s, 0) {
        Some(p) => p,
        None => {
            return None;
        },
    };
    proof {
        lemma_slash_pos_range(s@, 0);
        assert(p1 < len);
    }
    let p2 = match slash_pos(s, p1 + 1) {
        Some(p) => p,
        None => {
            return None;
        },
    };
    proof {
        lemma_slash_pos_range(s@, p1 as int + 1);
        assert(p2 < len);
    }
    let p3 = match slash_pos(s, p2 + 1) {
        Some(p) => {
            proof {
                lemma_slash_pos_range(s@, p2 as int + 1);
            }
            p
        },
        None => s.unicode_len(),
    };
    Some(s.substring_char(p2 + 1, p3).to_owned())
}

/// One downloadable file of a dump job.
pub struct DumpFileInfo {
    pub size: i64,
    pub url: String,
    pub md5: String,
    pub sha1: String,
}

/// A named file entry of a dump job.
pub struct DumpFile {
    pub name: String,
    pub info: DumpFileInfo,
}

/// One table-export job of a dump run.
pub struct JobStatus {
    pub status: String,
    pub updated: String,
    pub files: Vec<DumpFile>,
}

impl JobStatus {
    /// Whether the upstream marks this job finished.
    pub fn done(&self) -> (r: bool)
        ensures
            r == (self.status@ == "done"@),
    {
        str_eq(self.status.as_str(), "done")
    }
}

/// The five table jobs a build needs.
pub struct Jobs {
    pub redirect_table: JobStatus,
    pub page_table: JobStatus,
    pub pageprops_table: JobStatus,
    pub pagelinks_table: JobStatus,
    pub linktarget_table: JobStatus,
}

/// All five jobs of a dump run are marked done.
pub open spec fn spec_jobs_done(jobs: Jobs) -> bool {
    &&& jobs.redirect_table.status@ == "done"@
    &&& jobs.page_table.status@ == "done"@
    &&& jobs.pageprops_table.status@ == "done"@
    &&& jobs.pagelinks_table.status@ == "done"@
    &&& jobs.linktarget_table.status@ == "done"@
}

impl Jobs {
    /// The five jobs, in build order.
    pub fn all(&self) -> (r: Vec<&JobStatus>)
        ensures
            r@.len() == 5,
            r@[0] == &self.redirect_table,
            r@[1] == &self.page_table,
            r@[2] == &self.pageprops_table,
            r@[3] == &self.pagelinks_table,
            r@[4] == &self.linktarget_table,
    {
        let mut r: Vec<&JobStatus> = Vec::new();
        r.push(&self.redirect_table);
        r.push(&self.page_table);
        r.push(&self.pageprops_table);
        r.push(&self.pagelinks_table);
        r.push(&self.linktarget_table);
        r
    }

    /// Whether every job of the dump run is finished.
    pub fn done(&self) -> (r: bool)
        ensures
            r == spec_jobs_done(*self),
    {
        self.redirect_table.done() && self.page_table.done() && self.pageprops_table.done()
            && self.pagelinks_table.done() && self.linktarget_table.done()
    }
}

/// The status of one dump run.
pub struct DumpStatus {
    pub jobs: Jobs,
    pub version: String,
    pub dump_date: String,
}

/// The status feed's top level, keyed by wiki.
pub struct DumpWikis {
    pub enwiki: DumpStatus,
}

/// The whole status feed.
pub struct DumpIndex {
    pub wikis: DumpWikis,
}

/// Turns a feed-relative URL into an absolute one on the dump mirror.
pub fn absolute_dump_url(rel_url: &str) -> (r: String)
    ensures
        r@ == "https://dumps.wikimedia.org"@ + rel_url@,
{
    let mut r = String::new();
    r.append("https://dumps.wikimedia.org");
    r.append(rel_url);
    r
}

} // verus!
