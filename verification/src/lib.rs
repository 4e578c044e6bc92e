//! Shortest-path engine over an encyclopedia link graph.
//!
//! Articles are vertices identified by small integer ids; hyperlinks are
//! directed edges. The crate builds a compact on-disk adjacency store from
//! dump tables, and answers shortest-path queries with a bidirectional
//! breadth-first search that returns every shortest path.

use vstd::prelude::*;
use vstd::bytes::*;
use vstd::slice::*;

pub mod bfs;
pub mod dbstatus;
pub mod dump;
pub mod edge_db;
pub mod edge_db_builder;
pub mod errors;
pub mod fetch;
pub mod languages;
pub mod paths;
pub mod querylog;
pub mod redirect;
pub mod resolver;
pub mod sitemap;
pub mod sql_parse;
pub mod text;
pub mod version;

verus! {

/// An article: the dump's page id, its title (space-separated, case
/// preserved) and whether the page is a redirect stub.
pub struct Vertex {
    pub id: u32,
    pub title: String,
    pub is_redirect: bool,
}

impl Clone for Vertex {
    fn clone(&self) -> (r: Self)
        ensures
            r.id == self.id,
            r.title@ == self.title@,
            r.is_redirect == self.is_redirect,
    {
        Vertex { id: self.id, title: self.title.clone(), is_redirect: self.is_redirect }
    }
}

/// A directed link between two resolved (non-redirect) article ids.
#[derive(Clone, Copy, Debug, PartialEq, Eq, Structural)]
pub struct Edge {
    pub source_vertex_id: u32,
    pub dest_vertex_id: u32,
}

/// The eight bytes of one edge record: source id then destination id, both
/// little-endian.
pub open spec fn spec_edge_bytes(e: Edge) -> Seq<u8> {
    spec_u32_to_le_bytes(e.source_vertex_id) + spec_u32_to_le_bytes(e.dest_vertex_id)
}

impl Edge {
    /// Decodes one edge record from the head of `buf`.
    pub fn from_bytes(buf: &[u8]) -> (r: Edge)
        requires
            buf@.len() >= 8,
        ensures
            spec_u32_to_le_bytes(r.source_vertex_id) == buf@.subrange(0, 4),
            spec_u32_to_le_bytes(r.dest_vertex_id) == buf@.subrange(4, 8),
    {
        proof {
            lemma_auto_spec_u32_to_from_le_bytes();
        }
        let source_vertex_id = u32_from_le_bytes(slice_subrange(buf, 0, 4));
        let dest_vertex_id = u32_from_le_bytes(slice_subrange(buf, 4, 8));
        Edge { source_vertex_id, dest_vertex_id }
    }

    /// Encodes this edge as its eight-byte record.
    pub fn to_bytes(&self) -> (r: Vec<u8>)
        ensures
            r@ == spec_edge_bytes(*self),
    {
        let mut r = u32_to_le_bytes(self.source_vertex_id);
        let mut d = u32_to_le_bytes(self.dest_vertex_id);
        r.append(&mut d);
        proof {
            assert(r@ =~= spec_edge_bytes(*self));
        }
        r
    }
}

/// A link row joined against the link-target table: the source page id and
/// the destination page's title, not yet resolved to an id.
#[derive(Debug, PartialEq, Eq, Hash)]
pub struct WPPageLink {
    pub source_page_id: u32,
    pub dest_page_title: String,
}

impl Clone for WPPageLink {
    fn clone(&self) -> (r: Self)
        ensures
            r.source_page_id == self.source_page_id,
            r.dest_page_title@ == self.dest_page_title@,
    {
        WPPageLink {
            source_page_id: self.source_page_id,
            dest_page_title: self.dest_page_title.clone(),
        }
    }
}

/// The query facade: the vertex table and the adjacency store of the
/// dataset being served.
pub struct GraphDB {
    pub vertexes: Vec<Vertex>,
    pub edge_db: edge_db::EdgeDB,
}

impl GraphDB {
    /// The vertex table rows.
    pub open spec fn spec_vertexes(self) -> Seq<Vertex> {
        self.vertexes@
    }

    /// A servable dataset: sound adjacency store whose two sides agree, and
    /// a vertex table without duplicate ids or titles.
    pub open spec fn wf(self) -> bool {
        &&& self.edge_db.wf()
        &&& self.edge_db.consistent()
        &&& crate::resolver::unique_titles(self.spec_vertexes())
        &&& forall|i: int, j: int|
            0 <= i < self.spec_vertexes().len() && 0 <= j < self.spec_vertexes().len() && i != j
                ==> (#[trigger] self.spec_vertexes()[i]).id != (
            #[trigger] self.spec_vertexes()[j]).id
    }

    /// Wraps an already-loaded vertex table and adjacency store.
    pub fn new(vertexes: Vec<Vertex>, edge_db: edge_db::EdgeDB) -> (r: GraphDB)
        ensures
            r.spec_vertexes() == vertexes@,
            r.edge_db == edge_db,
    {
        GraphDB { vertexes, edge_db }
    }

    /// The vertex with the given title, by exact match.
    pub fn find_vertex_by_title(&self, title: &str) -> (r: Option<Vertex>)
        ensures
            (r is Some) == exists|i: int|
                0 <= i < self.spec_vertexes().len() && (#[trigger] self.spec_vertexes()[i]).title@
                    == title@,
            r is Some ==> exists|i: int|
                #![auto]
                0 <= i < self.spec_vertexes().len() && self.spec_vertexes()[i].title@ == title@
                    && r.unwrap().id == self.spec_vertexes()[i].id && r.unwrap().title@
                    == self.spec_vertexes()[i].title@ && r.unwrap().is_redirect
                    == self.spec_vertexes()[i].is_redirect,
    {
        let n = self.vertexes.len();
        let mut i: usize = 0;
        while i < n
            invariant
                n == self.spec_vertexes().len(),
                i <= n,
                forall|j: int|
                    0 <= j < i ==> (#[trigger] self.spec_vertexes()[j]).title@ != title@,
            decreases n - i,
        {
            if crate::text::str_eq(self.vertexes[i].title.as_str(), title) {
                return Some(self.vertexes[i].clone());
            }
            i += 1;
        }
        None
    }

    /// The vertex with the given id, by exact match.
    pub fn find_vertex_by_id(&self, id: u32) -> (r: Option<Vertex>)
        ensures
            (r is Some) == exists|i: int|
                0 <= i < self.spec_vertexes().len() && (#[trigger] self.spec_vertexes()[i]).id
                    == id,
            r is Some ==> exists|i: int|
                #![auto]
                0 <= i < self.spec_vertexes().len() && self.spec_vertexes()[i].id == id
                    && r.unwrap().id == id && r.unwrap().title@ == self.spec_vertexes()[i].title@
                    && r.unwrap().is_redirect == self.spec_vertexes()[i].is_redirect,
    {
        let n = self.vertexes.len();
        let mut i: usize = 0;
        while i < n
            invariant
                n == self.spec_vertexes().len(),
                i <= n,
                forall|j: int| 0 <= j < i ==> (#[trigger] self.spec_vertexes()[j]).id != id,
            decreases n - i,
        {
            if self.vertexes[i].id == id {
                return Some(self.vertexes[i].clone());
            }
            i += 1;
        }
        None
    }

    /// All shortest paths between two article ids over this dataset: a path
    /// exists exactly when the answer is nonempty, every returned path is a
    /// shortest one with no repeated vertex, every shortest path is
    /// returned, and none twice.
    pub fn bfs(&self, src: u32, dest: u32) -> (paths: Vec<Vec<u32>>)
        requires
            self.wf(),
            src != 0,
            dest != 0,
        ensures
            src == dest ==> paths@.len() == 1 && paths@[0]@ == seq![src],
            forall|i: int|
                0 <= i < paths@.len() ==> bfs::valid_search_path(
                    self.edge_db,
                    src,
                    dest,
                    #[trigger] paths@[i]@,
                ),
            forall|i: int, j: int|
                0 <= i < paths@.len() && 0 <= j < paths@.len() ==> (#[trigger] paths@[i]@).len()
                    == (#[trigger] paths@[j]@).len(),
            forall|i: int, j: int|
                0 <= i < paths@.len() && 0 <= j < paths@.len() && i != j ==> (
                #[trigger] paths@[i]@) != (#[trigger] paths@[j]@),
            (exists|q: Seq<u32>|
                #[trigger] bfs::valid_search_path(self.edge_db, src, dest, q)) <==> paths@.len()
                > 0,
            forall|i: int, q: Seq<u32>|
                0 <= i < paths@.len() && #[trigger] bfs::valid_search_path(
                    self.edge_db,
                    src,
                    dest,
                    q,
                ) ==> (#[trigger] paths@[i]@).len() <= q.len(),
            forall|q: Seq<u32>|
                paths@.len() > 0 && #[trigger] bfs::valid_search_path(self.edge_db, src, dest, q)
                    && q.len() == paths@[0]@.len() ==> exists|i: int|
                    0 <= i < paths@.len() && (#[trigger] paths@[i]@) == q,
            forall|i: int| 0 <= i < paths@.len() ==> (#[trigger] paths@[i]@).no_duplicates(),
    {
        bfs::breadth_first_search(src, dest, &self.edge_db)
    }
}

} // verus!
