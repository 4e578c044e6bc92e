//! The redirect map: a dense array indexed by source page id whose entry is
//! the destination page id, with zero meaning "no redirect". On disk it is
//! the same array as 32-bit little-endian words.

use vstd::prelude::*;
use vstd::bytes::*;
use vstd::slice::*;

use crate::Vertex;
use crate::text::str_eq;

verus! {

/// Dense redirect table for page ids `0 ..= max_page_id`.
pub struct RedirectMap {
    table: Vec<u32>,
}

impl RedirectMap {
    /// The table entries by source page id.
    pub closed spec fn view(self) -> Seq<u32> {
        self.table@
    }

    /// The redirect recorded for `from`: none for a zero entry or an id
    /// outside the table.
    pub open spec fn spec_get(self, from: u32) -> Option<u32> {
        if from < self@.len() && self@[from as int] != 0 {
            Some(self@[from as int])
        } else {
            None
        }
    }

    /// An empty map covering ids up to and including `max_page_id`.
    pub fn new(max_page_id: u32) -> (r: RedirectMap)
        requires
            max_page_id < u32::MAX,
        ensures
            r@.len() == max_page_id + 1,
            forall|i: int| 0 <= i < r@.len() ==> r@[i] == 0u32,
    {
        let len = max_page_id as usize + 1;
        let mut table: Vec<u32> = Vec::new();
        let mut i: usize = 0;
        while i < len
            invariant
                i <= len,
                table@.len() == i,
                forall|j: int| 0 <= j < i ==> table@[j] == 0u32,
            decreases len - i,
        {
            table.push(0);
            i += 1;
        }
        RedirectMap { table }
    }

    /// How many source ids the table covers.
    pub fn len(&self) -> (r: usize)
        ensures
            r == self@.len(),
    {
        self.table.len()
    }

    /// The redirect destination for `from`, if one is recorded.
    pub fn get(&self, from: u32) -> (r: Option<u32>)
        ensures
            r == self.spec_get(from),
    {
        let from_ix = from as usize;
        if from_ix >= self.table.len() {
            return None;
        }
        let to = self.table[from_ix];
        if to == 0 {
            None
        } else {
            Some(to)
        }
    }

    /// Records `from -> to`; an id outside the table is ignored, as the
    /// build logs and drops such rows.
    pub fn set(&mut self, from: u32, to: u32)
        ensures
            final(self)@.len() == old(self)@.len(),
            from < old(self)@.len() ==> final(self)@ == old(self)@.update(from as int, to),
            from >= old(self)@.len() ==> final(self)@ == old(self)@,
    {
        let from_ix = from as usize;
        if from_ix >= self.table.len() {
            return ;
        }
        self.table[from_ix] = to;
    }

    /// The on-disk image: each entry as 32-bit little-endian words in id
    /// order.
    pub fn to_bytes(&self) -> (r: Vec<u8>)
        requires
            4 * self@.len() <= usize::MAX,
        ensures
            r@.len() == 4 * self@.len(),
            forall|i: int|
                0 <= i < self@.len() ==> spec_u32_from_le_bytes(
                    #[trigger] r@.subrange(4 * i, 4 * i + 4),
                ) == self@[i],
    {
        let n = self.table.len();
        let mut r: Vec<u8> = Vec::new();
        let mut i: usize = 0;
        while i < n
            invariant
                n == self@.len(),
                4 * n <= usize::MAX,
                i <= n,
                r@.len() == 4 * i,
                forall|j: int|
                    0 <= j < i ==> spec_u32_from_le_bytes(
                        #[trigger] r@.subrange(4 * j, 4 * j + 4),
                    ) == self@[j],
            decreases n - i,
        {
            let ghost prev = r@;
            let mut b = u32_to_le_bytes(self.table[i]);
            proof {
                lemma_auto_spec_u32_to_from_le_bytes();
            }
            r.append(&mut b);
            proof {
                assert forall|j: int| 0 <= j < i + 1 implies spec_u32_from_le_bytes(
                    #[trigger] r@.subrange(4 * j, 4 * j + 4),
                ) == self@[j] by {
                    if j < i {
                        assert(r@.subrange(4 * j, 4 * j + 4) =~= prev.subrange(4 * j, 4 * j + 4));
                    } else {
                        assert(r@.subrange(4 * j, 4 * j + 4) =~= spec_u32_to_le_bytes(
                            self@[i as int],
                        ));
                    }
                }
            }
            i += 1;
        }
        r
    }

    /// Reads a table back from its on-disk image.
    pub fn from_bytes(data: &[u8]) -> (r: RedirectMap)
        requires
            data@.len() % 4 == 0,
        ensures
            r@.len() == data@.len() / 4,
            forall|i: int|
                0 <= i < r@.len() ==> r@[i] == spec_u32_from_le_bytes(
                    #[trigger] data@.subrange(4 * i, 4 * i + 4),
                ),
    {
        let dlen = data.len();
        let n = dlen / 4;
        proof {
            assert(4 * n == dlen);
        }
        let mut table: Vec<u32> = Vec::new();
        let mut i: usize = 0;
        while i < n
            invariant
                data@.len() % 4 == 0,
                dlen == data@.len(),
                n == data@.len() / 4,
                4 * n == dlen,
                i <= n,
                table@.len() == i,
                forall|j: int|
                    0 <= j < i ==> table@[j] == spec_u32_from_le_bytes(
                        #[trigger] data@.subrange(4 * j, 4 * j + 4),
                    ),
            decreases n - i,
        {
            let w = u32_from_le_bytes(slice_subrange(data, 4 * i, 4 * i + 4));
            table.push(w);
            i += 1;
        }
        RedirectMap { table }
    }
}

/// The id of the vertex carrying a title, if any.
pub open spec fn spec_vertex_id_by_title(vs: Seq<Vertex>, t: Seq<char>) -> Option<u32> {
    if exists|i: int| 0 <= i < vs.len() && (#[trigger] vs[i]).title@ == t {
        let i = choose|i: int| 0 <= i < vs.len() && (#[trigger] vs[i]).title@ == t;
        Some(vs[i].id)
    } else {
        None
    }
}

/// The table after the given redirect rows are applied in order: a row whose
/// destination title has a vertex writes that vertex's id at the source
/// slot; a row whose title has no vertex, or whose source id is outside the
/// table, changes nothing.
pub open spec fn spec_redirects_after(
    table: Seq<u32>,
    rows: Seq<(u32, Seq<char>)>,
    vs: Seq<Vertex>,
) -> Seq<u32>
    decreases rows.len(),
{
    if rows.len() == 0 {
        table
    } else {
        let prev = spec_redirects_after(table, rows.drop_last(), vs);
        match spec_vertex_id_by_title(vs, rows.last().1) {
            Some(id) => if rows.last().0 < prev.len() {
                prev.update(rows.last().0 as int, id)
            } else {
                prev
            },
            None => prev,
        }
    }
}

/// Finds the vertex carrying a title.
fn vertex_id_by_title(vertexes: &Vec<Vertex>, t: &str) -> (r: Option<u32>)
    requires
        crate::resolver::unique_titles(vertexes@),
    ensures
        r == spec_vertex_id_by_title(vertexes@, t@),
{
    let n = vertexes.len();
    let mut i: usize = 0;
    while i < n
        invariant
            crate::resolver::unique_titles(vertexes@),
            n == vertexes@.len(),
            i <= n,
            forall|j: int| 0 <= j < i ==> (#[trigger] vertexes@[j]).title@ != t@,
        decreases n - i,
    {
        if str_eq(vertexes[i].title.as_str(), t) {
            proof {
                assert(vertexes@[i as int].title@ == t@);
                assert(exists|w: int|
                    0 <= w < vertexes@.len() && (#[trigger] vertexes@[w]).title@ == t@);
                let w = choose|w: int|
                    0 <= w < vertexes@.len() && (#[trigger] vertexes@[w]).title@ == t@;
                assert(vertexes@[w].title@ == vertexes@[i as int].title@);
                assert(w == i as int) by {
                    if w != i as int {
                        assert(0 <= w < vertexes@.len());
                        assert((i as int) < vertexes@.len());
                        assert(vertexes@[w].title@ != vertexes@[i as int].title@);
                    }
                }
            }
            return Some(vertexes[i].id);
        }
        i += 1;
    }
    None
}

impl RedirectMap {
    /// Applies parsed redirect rows to the map: each row's destination title
    /// is resolved to its vertex id and written at the row's source slot.
    /// Rows whose title has no vertex are dropped; the count of applied rows
    /// comes back for the build log.
    pub fn apply_rows(
        &mut self,
        rows: &Vec<(u32, String)>,
        vertexes: &Vec<Vertex>,
    ) -> (count: u32)
        requires
            crate::resolver::unique_titles(vertexes@),
            rows@.len() <= u32::MAX,
        ensures
            final(self)@ == spec_redirects_after(
                old(self)@,
                rows@.map_values(|r: (u32, String)| (r.0, r.1@)),
                vertexes@,
            ),
            count <= rows@.len(),
    {
        let ghost grows = rows@.map_values(|r: (u32, String)| (r.0, r.1@));
        let n = rows.len();
        let mut count: u32 = 0;
        let mut i: usize = 0;
        while i < n
            invariant
                crate::resolver::unique_titles(vertexes@),
                n == rows@.len(),
                n <= u32::MAX,
                grows == rows@.map_values(|r: (u32, String)| (r.0, r.1@)),
                i <= n,
                count <= i,
                self@ == spec_redirects_after(old(self)@, grows.take(i as int), vertexes@),
            decreases n - i,
        {
            proof {
                assert(grows.take(i + 1).drop_last() =~= grows.take(i as int));
                assert(grows.take(i + 1).last() == grows[i as int]);
                assert(grows[i as int] == (rows@[i as int].0, rows@[i as int].1@));
            }
            let from = rows[i].0;
            match vertex_id_by_title(vertexes, rows[i].1.as_str()) {
                Some(dest) => {
                    self.set(from, dest);
                    count += 1;
                },
                None => {},
            }
            i += 1;
        }
        proof {
            assert(grows.take(n as int) =~= grows);
        }
        count
    }
}

/// Law: the redirect file round-trips: writing a table and reading the
/// bytes back yields the same table.
pub proof fn lemma_redirect_round_trip(table: Seq<u32>, bytes: Seq<u8>, back: Seq<u32>)
    requires
        bytes.len() == 4 * table.len(),
        forall|i: int|
            0 <= i < table.len() ==> spec_u32_from_le_bytes(
                #[trigger] bytes.subrange(4 * i, 4 * i + 4),
            ) == table[i],
        back.len() == bytes.len() / 4,
        forall|i: int|
            0 <= i < back.len() ==> back[i] == spec_u32_from_le_bytes(
                #[trigger] bytes.subrange(4 * i, 4 * i + 4),
            ),
    ensures
        back == table,
{
    assert(bytes.len() / 4 == table.len());
    assert(back.len() == table.len());
    assert forall|i: int| 0 <= i < back.len() implies back[i] == table[i] by {
        assert(spec_u32_from_le_bytes(bytes.subrange(4 * i, 4 * i + 4)) == table[i]);
    }
    assert(back =~= table);
}

} // verus!
