//! Filesystem layout of a data root: the shared query log, the per-dump
//! dataset directories and the dump downloads, all derived from one base
//! path. Paths are plain strings; opening and creating them is the caller's
//! business.

use vstd::prelude::*;

verus! {

/// `base`, a separator, and `name`.
pub open spec fn spec_joined(base: Seq<char>, name: Seq<char>) -> Seq<char> {
    base + "/"@ + name
}

/// Joins one path component onto a base path.
fn join_path(base: &str, name: &str) -> (r: String)
    ensures
        r@ == spec_joined(base@, name@),
{
    let mut r = base.to_owned();
    r.append("/");
    r.append(name);
    r
}

/// The data root everything else hangs off.
pub struct Paths {
    pub base: String,
}

impl Paths {
    /// A layout rooted at the given base directory.
    pub fn with_base(base: &str) -> (r: Paths)
        ensures
            r.base@ == base@,
    {
        Paths { base: base.to_owned() }
    }

    /// The shared, cross-dataset query-log database.
    pub fn path_master_database(&self) -> (r: String)
        ensures
            r@ == spec_joined(self.base@, "master.db"@),
    {
        join_path(self.base.as_str(), "master.db")
    }

    /// The dump downloads for one dump date.
    pub fn dump_paths(&self, date: &str) -> (r: DumpPaths)
        ensures
            r.base@ == spec_joined(self.base@, "dumps"@),
            r.date@ == date@,
    {
        DumpPaths::new(self.base.clone(), date)
    }

    /// The dataset directory for one dump date.
    pub fn db_paths(&self, date: &str) -> (r: DBPaths)
        ensures
            r.base@ == spec_joined(self.base@, date@),
            r.date@ == date@,
    {
        DBPaths::new(self.base.clone(), date)
    }
}

/// Where the downloaded dump files of one date live.
pub struct DumpPaths {
    pub base: String,
    pub date: String,
}

impl DumpPaths {
    /// The dump directory under the given data root.
    pub fn new(base: String, date: &str) -> (r: DumpPaths)
        ensures
            r.base@ == spec_joined(base@, "dumps"@),
            r.date@ == date@,
    {
        let base = join_path(base.as_str(), "dumps");
        DumpPaths { base, date: date.to_owned() }
    }

    /// The dump file for one table: `enwiki-<date>-<table>.sql.gz`.
    pub fn dump_path(&self, table: &str) -> (r: String)
        ensures
            r@ == spec_joined(self.base@, "enwiki-"@ + self.date@ + "-"@ + table@ + ".sql.gz"@),
    {
        let mut basename = String::new();
        basename.append("enwiki-");
        basename.append(self.date.as_str());
        basename.append("-");
        basename.append(table);
        basename.append(".sql.gz");
        join_path(self.base.as_str(), basename.as_str())
    }

    /// The page table dump.
    pub fn page(&self) -> (r: String)
        ensures
            r@ == spec_joined(self.base@, "enwiki-"@ + self.date@ + "-"@ + "page"@ + ".sql.gz"@),
    {
        self.dump_path("page")
    }

    /// The page-links table dump.
    pub fn pagelinks(&self) -> (r: String)
        ensures
            r@ == spec_joined(
                self.base@,
                "enwiki-"@ + self.date@ + "-"@ + "pagelinks"@ + ".sql.gz"@,
            ),
    {
        self.dump_path("pagelinks")
    }

    /// The redirect table dump.
    pub fn redirect(&self) -> (r: String)
        ensures
            r@ == spec_joined(
                self.base@,
                "enwiki-"@ + self.date@ + "-"@ + "redirect"@ + ".sql.gz"@,
            ),
    {
        self.dump_path("redirect")
    }

    /// The link-target table dump.
    pub fn link_targets(&self) -> (r: String)
        ensures
            r@ == spec_joined(
                self.base@,
                "enwiki-"@ + self.date@ + "-"@ + "linktarget"@ + ".sql.gz"@,
            ),
    {
        self.dump_path("linktarget")
    }
}

/// Where one dataset's built files live: written by the build tool, read by
/// the query engine.
pub struct DBPaths {
    pub base: String,
    pub date: String,
}

impl DBPaths {
    /// The dataset directory for one dump date under the given data root.
    pub fn new(base: String, date: &str) -> (r: DBPaths)
        ensures
            r.base@ == spec_joined(base@, date@),
            r.date@ == date@,
    {
        let base = join_path(base.as_str(), date);
        DBPaths { base, date: date.to_owned() }
    }

    /// A file under the dataset directory.
    pub fn path_for(&self, basename: &str) -> (r: String)
        ensures
            r@ == spec_joined(self.base@, basename@),
    {
        join_path(self.base.as_str(), basename)
    }

    /// The build-progress ledger.
    pub fn db_status_path(&self) -> (r: String)
        ensures
            r@ == spec_joined(self.base@, "status.json"@),
    {
        self.path_for("status.json")
    }

    /// The adjacency file.
    pub fn vertex_al_path(&self) -> (r: String)
        ensures
            r@ == spec_joined(self.base@, "vertex-al"@),
    {
        self.path_for("vertex-al")
    }

    /// The adjacency offset index.
    pub fn vertex_al_ix_path(&self) -> (r: String)
        ensures
            r@ == spec_joined(self.base@, "vertex-al-ix"@),
    {
        self.path_for("vertex-al-ix")
    }

    /// The dense redirect array.
    pub fn redirects_path(&self) -> (r: String)
        ensures
            r@ == spec_joined(self.base@, "redirects"@),
    {
        self.path_for("redirects")
    }

    /// The dataset's relational store.
    pub fn graph_db(&self) -> (r: String)
        ensures
            r@ == spec_joined(self.base@, "graph.db"@),
    {
        self.path_for("graph.db")
    }

    /// The sitemap output directory.
    pub fn sitemaps_path(&self) -> (r: String)
        ensures
            r@ == spec_joined(self.base@, "sitemaps"@),
    {
        self.path_for("sitemaps")
    }

    /// The top-graph JSON output.
    pub fn topgraph_path(&self) -> (r: String)
        ensures
            r@ == spec_joined(self.base@, "topgraph.json"@),
    {
        self.path_for("topgraph.json")
    }
}

} // verus!
