//! Build-side edge store: an append log of raw edges, two copies sorted by
//! source and by destination, and the linear merge that turns the two sorted
//! copies into per-vertex adjacency records.

use vstd::prelude::*;
use vstd::bytes::*;

use rayon::slice::ParallelSliceMut;

use crate::Edge;
use crate::edge_db::{wf_record, all_nonzero, word_at, store_offset, ADJACENCY_MAGIC};
use crate::text::u32_to_string;

verus! {

/// Which key a sorted edge file is ordered by.
pub enum EdgeSort {
    Incoming,
    Outgoing,
}

/// The key an edge is sorted by: destination id for the incoming file,
/// source id for the outgoing file.
pub open spec fn spec_edge_key(e: Edge, by_dest: bool) -> u32 {
    if by_dest {
        e.dest_vertex_id
    } else {
        e.source_vertex_id
    }
}

/// `l` is ordered, ascending, by the chosen key.
pub open spec fn sorted_by_key(l: Seq<Edge>, by_dest: bool) -> bool {
    forall|i: int, j: int|
        0 <= i <= j < l.len() ==> spec_edge_key(#[trigger] l[i], by_dest) <= spec_edge_key(
            #[trigger] l[j],
            by_dest,
        )
}

/// The sort key of one edge.
fn edge_key(e: &Edge, by_dest: bool) -> (r: u32)
    ensures
        r == spec_edge_key(*e, by_dest),
{
    if by_dest {
        e.dest_vertex_id
    } else {
        e.source_vertex_id
    }
}

/// Relies on rayon's par_sort_unstable_by_key: sorts the slice in place by
/// the key the closure computes; the sort is unstable, so only the multiset
/// of elements is promised.
#[verifier::external_body]
fn par_sort_edges_by_key(edges: &mut Vec<Edge>, by_dest: bool)
    ensures
        sorted_by_key(final(edges)@, by_dest),
        final(edges)@.to_multiset() == old(edges)@.to_multiset(),
{
    edges.as_mut_slice().par_sort_unstable_by_key(|e: &Edge| edge_key(e, by_dest));
}

/// Appends one 32-bit word, little-endian, to a byte buffer.
fn push_word(al: &mut Vec<u8>, w: u32)
    requires
        old(al)@.len() + 4 <= usize::MAX,
    ensures
        final(al)@ == old(al)@ + spec_u32_to_le_bytes(w),
{
    let mut b = u32_to_le_bytes(w);
    al.append(&mut b);
    proof {
        assert(final(al)@ =~= old(al)@ + spec_u32_to_le_bytes(w));
    }
}

/// The byte image of a sequence of 32-bit words, little-endian.
pub open spec fn words_bytes(ws: Seq<u32>) -> Seq<u8>
    decreases ws.len(),
{
    if ws.len() == 0 {
        Seq::<u8>::empty()
    } else {
        spec_u32_to_le_bytes(ws[0]) + words_bytes(ws.drop_first())
    }
}

/// Reading the byte image back word by word gives the words.
pub proof fn lemma_words_bytes(ws: Seq<u32>)
    ensures
        words_bytes(ws).len() == 4 * ws.len(),
        forall|k: int| 0 <= k < ws.len() ==> #[trigger] word_at(words_bytes(ws), k) == ws[k],
    decreases ws.len(),
{
    lemma_auto_spec_u32_to_from_le_bytes();
    if ws.len() > 0 {
        lemma_words_bytes(ws.drop_first());
        let head = spec_u32_to_le_bytes(ws[0]);
        let rest = words_bytes(ws.drop_first());
        assert forall|k: int| 0 <= k < ws.len() implies #[trigger] word_at(words_bytes(ws), k)
            == ws[k] by {
            if k == 0 {
                assert(words_bytes(ws).subrange(0, 4) =~= head);
            } else {
                assert(words_bytes(ws).subrange(4 * k, 4 * k + 4) =~= rest.subrange(
                    4 * (k - 1),
                    4 * (k - 1) + 4,
                ));
                assert(word_at(rest, k - 1) == ws.drop_first()[k - 1]);
            }
        }
    }
}

/// Appending a word extends the byte image by that word's bytes.
pub proof fn lemma_words_bytes_push(ws: Seq<u32>, w: u32)
    ensures
        words_bytes(ws.push(w)) == words_bytes(ws) + spec_u32_to_le_bytes(w),
    decreases ws.len(),
{
    if ws.len() == 0 {
        assert(ws.push(w).drop_first() =~= Seq::<u32>::empty());
        assert(ws.push(w)[0] == w);
        assert(words_bytes(ws.push(w)) == spec_u32_to_le_bytes(w) + words_bytes(
            ws.push(w).drop_first(),
        ));
        assert(spec_u32_to_le_bytes(w) + Seq::<u8>::empty() =~= spec_u32_to_le_bytes(w));
        assert(words_bytes(ws) + spec_u32_to_le_bytes(w) =~= spec_u32_to_le_bytes(w));
    } else {
        lemma_words_bytes_push(ws.drop_first(), w);
        assert(ws.push(w).drop_first() =~= ws.drop_first().push(w));
        assert(ws.push(w)[0] == ws[0]);
        assert(words_bytes(ws.push(w)) == spec_u32_to_le_bytes(ws[0]) + words_bytes(
            ws.drop_first().push(w),
        ));
        assert(words_bytes(ws.push(w)) =~= words_bytes(ws) + spec_u32_to_le_bytes(w));
    }
}

/// The words of one adjacency record: magic, outgoing ids, terminator,
/// incoming ids, terminator.
pub open spec fn record_words(out: Seq<u32>, inc: Seq<u32>) -> Seq<u32> {
    seq![ADJACENCY_MAGIC] + out + seq![0u32] + inc + seq![0u32]
}

/// A buffer that starts with the byte image of a record's words holds a
/// well-formed record.
pub proof fn lemma_record_from_words(data: Seq<u8>, out: Seq<u32>, inc: Seq<u32>)
    requires
        all_nonzero(out),
        all_nonzero(inc),
        words_bytes(record_words(out, inc)).len() <= data.len(),
        data.subrange(0, words_bytes(record_words(out, inc)).len() as int) == words_bytes(
            record_words(out, inc),
        ),
    ensures
        wf_record(data, out, inc),
{
    let rw = record_words(out, inc);
    let wb = words_bytes(rw);
    lemma_words_bytes(rw);
    assert(rw.len() == out.len() + inc.len() + 3);
    assert forall|k: int| 0 <= k < rw.len() implies #[trigger] word_at(data, k) == rw[k] by {
        assert(4 * k + 4 <= wb.len());
        assert(data.subrange(4 * k, 4 * k + 4) =~= wb.subrange(4 * k, 4 * k + 4));
        assert(word_at(wb, k) == rw[k]);
    }
    assert(word_at(data, 0) == rw[0]);
    assert(rw[0] == ADJACENCY_MAGIC);
    assert forall|j: int| 0 <= j < out.len() implies word_at(data, 1 + j) == out[j] by {
        assert(word_at(data, 1 + j) == rw[1 + j]);
        assert(rw[1 + j] == out[j]);
    }
    assert(rw[1 + out.len() as int] == 0u32);
    assert forall|j: int| 0 <= j < inc.len() implies word_at(data, 2 + out.len() as int + j)
        == inc[j] by {
        assert(word_at(data, 2 + out.len() as int + j) == rw[2 + out.len() as int + j]);
        assert(rw[2 + out.len() as int + j] == inc[j]);
    }
    assert(rw[2 + out.len() as int + inc.len() as int] == 0u32);
}

/// Build-side flat edge store: the raw append log and the two copies that
/// are later sorted in place.
pub struct EdgeProcDB {
    edges: Vec<Edge>,
    outgoing: Vec<Edge>,
    incoming: Vec<Edge>,
    fails: Vec<String>,
}

impl EdgeProcDB {
    /// The raw append log.
    pub closed spec fn spec_edges(self) -> Seq<Edge> {
        self.edges@
    }

    /// The copy to be sorted by source id.
    pub closed spec fn spec_outgoing(self) -> Seq<Edge> {
        self.outgoing@
    }

    /// The copy to be sorted by destination id.
    pub closed spec fn spec_incoming(self) -> Seq<Edge> {
        self.incoming@
    }

    /// The failure log: one line per link that could not be resolved.
    pub closed spec fn spec_fails(self) -> Seq<Seq<char>> {
        self.fails@.map_values(|s: String| s@)
    }

    /// An empty store.
    pub fn new() -> (r: EdgeProcDB)
        ensures
            r.spec_edges().len() == 0,
            r.spec_outgoing().len() == 0,
            r.spec_incoming().len() == 0,
            r.spec_fails().len() == 0,
    {
        EdgeProcDB { edges: Vec::new(), outgoing: Vec::new(), incoming: Vec::new(), fails: Vec::new() }
    }

    /// Drops everything written so far.
    pub fn truncate(self) -> (r: EdgeProcDB)
        ensures
            r.spec_edges().len() == 0,
            r.spec_outgoing().len() == 0,
            r.spec_incoming().len() == 0,
            r.spec_fails().len() == 0,
    {
        EdgeProcDB { edges: Vec::new(), outgoing: Vec::new(), incoming: Vec::new(), fails: Vec::new() }
    }

    /// Appends one resolved edge to the raw log.
    pub fn write_edge(&mut self, edge: &Edge)
        ensures
            final(self).spec_edges() == old(self).spec_edges().push(*edge),
            final(self).spec_outgoing() == old(self).spec_outgoing(),
            final(self).spec_incoming() == old(self).spec_incoming(),
            final(self).spec_fails() == old(self).spec_fails(),
    {
        self.edges.push(*edge);
    }

    /// Records a link whose destination title could not be resolved, as the
    /// line `source,title`.
    pub fn write_fail(&mut self, source_vertex_id: u32, dest_page_title: String)
        ensures
            final(self).spec_edges() == old(self).spec_edges(),
            final(self).spec_outgoing() == old(self).spec_outgoing(),
            final(self).spec_incoming() == old(self).spec_incoming(),
            final(self).spec_fails() == old(self).spec_fails().push(
                crate::text::spec_digits(source_vertex_id as nat) + ","@ + dest_page_title@,
            ),
    {
        let mut line = u32_to_string(source_vertex_id);
        line.append(",");
        line.append(dest_page_title.as_str());
        self.fails.push(line);
        proof {
            assert(final(self).spec_fails() =~= old(self).spec_fails().push(
                final(self).fails@.last()@,
            ));
        }
    }

    /// Seeds the two sort copies from the raw log, which is consumed.
    pub fn make_sort_files(&mut self)
        ensures
            final(self).spec_outgoing() == old(self).spec_edges(),
            final(self).spec_incoming() == old(self).spec_edges(),
            final(self).spec_edges().len() == 0,
            final(self).spec_fails() == old(self).spec_fails(),
    {
        let mut copy: Vec<Edge> = Vec::new();
        let n = self.edges.len();
        let mut i: usize = 0;
        while i < n
            invariant
                n == self.edges@.len(),
                i <= n,
                copy@ == self.edges@.take(i as int),
            decreases n - i,
        {
            copy.push(self.edges[i]);
            proof {
                assert(copy@ =~= self.edges@.take(i + 1));
            }
            i += 1;
        }
        proof {
            assert(copy@ =~= self.edges@);
        }
        self.outgoing = copy;
        let mut moved: Vec<Edge> = Vec::new();
        core::mem::swap(&mut moved, &mut self.edges);
        self.incoming = moved;
    }

    /// Returns the raw log bytes as written to the edges file: eight bytes
    /// per edge, source id then destination id, little-endian.
    pub fn edges_bytes(&self) -> (r: Vec<u8>)
        requires
            8 * self.spec_edges().len() <= usize::MAX,
        ensures
            r@.len() == 8 * self.spec_edges().len(),
            forall|k: int|
                0 <= k < self.spec_edges().len() ==> word_at(r@, 2 * k)
                    == self.spec_edges()[k].source_vertex_id && word_at(r@, 2 * k + 1)
                    == self.spec_edges()[k].dest_vertex_id,
    {
        let mut r: Vec<u8> = Vec::new();
        let n = self.edges.len();
        let mut i: usize = 0;
        while i < n
            invariant
                n == self.edges@.len(),
                i <= n,
                r@.len() == 8 * i,
                8 * n <= usize::MAX,
                forall|k: int|
                    0 <= k < i ==> word_at(r@, 2 * k) == self.edges@[k].source_vertex_id && word_at(
                        r@,
                        2 * k + 1,
                    ) == self.edges@[k].dest_vertex_id,
            decreases n - i,
        {
            let e = self.edges[i];
            let ghost prev = r@;
            proof {
                lemma_auto_spec_u32_to_from_le_bytes();
            }
            assert(8 * i + 8 <= 8 * n);
            push_word(&mut r, e.source_vertex_id);
            assert(r@.len() == 8 * i + 4);
            push_word(&mut r, e.dest_vertex_id);
            proof {
                lemma_auto_spec_u32_to_from_le_bytes();
                assert forall|k: int| 0 <= k < i + 1 implies word_at(r@, 2 * k)
                    == self.edges@[k].source_vertex_id && word_at(r@, 2 * k + 1)
                    == self.edges@[k].dest_vertex_id by {
                    if k < i {
                        assert(r@.subrange(4 * (2 * k), 4 * (2 * k) + 4) =~= prev.subrange(
                            4 * (2 * k),
                            4 * (2 * k) + 4,
                        ));
                        assert(r@.subrange(4 * (2 * k + 1), 4 * (2 * k + 1) + 4) =~= prev.subrange(
                            4 * (2 * k + 1),
                            4 * (2 * k + 1) + 4,
                        ));
                    } else {
                        assert(r@.subrange(4 * (2 * k), 4 * (2 * k) + 4) =~= spec_u32_to_le_bytes(
                            e.source_vertex_id,
                        ));
                        assert(r@.subrange(4 * (2 * k + 1), 4 * (2 * k + 1) + 4)
                            =~= spec_u32_to_le_bytes(e.dest_vertex_id));
                    }
                }
            }
            i += 1;
        }
        r
    }

    /// Makes everything written so far durable. The in-memory store has no
    /// buffering, so there is nothing left to do; the state is unchanged.
    pub fn flush(&mut self)
        ensures
            *final(self) == *old(self),
    {
    }

    /// Sorts one copy in place by its key.
    pub fn write_sorted_by(&mut self, sort_by: EdgeSort)
        ensures
            final(self).spec_edges() == old(self).spec_edges(),
            final(self).spec_fails() == old(self).spec_fails(),
            match sort_by {
                EdgeSort::Outgoing => {
                    &&& sorted_by_key(final(self).spec_outgoing(), false)
                    &&& final(self).spec_outgoing().to_multiset() == old(
                        self,
                    ).spec_outgoing().to_multiset()
                    &&& final(self).spec_incoming() == old(self).spec_incoming()
                },
                EdgeSort::Incoming => {
                    &&& sorted_by_key(final(self).spec_incoming(), true)
                    &&& final(self).spec_incoming().to_multiset() == old(
                        self,
                    ).spec_incoming().to_multiset()
                    &&& final(self).spec_outgoing() == old(self).spec_outgoing()
                },
            },
    {
        match sort_by {
            EdgeSort::Outgoing => par_sort_edges_by_key(&mut self.outgoing, false),
            EdgeSort::Incoming => par_sort_edges_by_key(&mut self.incoming, true),
        }
    }
}

/// The destination ids of the edges in `l` whose source is `v`, in file
/// order.
pub open spec fn dests_of(l: Seq<Edge>, v: u32) -> Seq<u32>
    decreases l.len(),
{
    if l.len() == 0 {
        Seq::<u32>::empty()
    } else {
        let rest = dests_of(l.drop_last(), v);
        if l.last().source_vertex_id == v {
            rest.push(l.last().dest_vertex_id)
        } else {
            rest
        }
    }
}

/// The source ids of the edges in `l` whose destination is `v`, in file
/// order.
pub open spec fn sources_of(l: Seq<Edge>, v: u32) -> Seq<u32>
    decreases l.len(),
{
    if l.len() == 0 {
        Seq::<u32>::empty()
    } else {
        let rest = sources_of(l.drop_last(), v);
        if l.last().dest_vertex_id == v {
            rest.push(l.last().source_vertex_id)
        } else {
            rest
        }
    }
}

/// A suffix with no edge keyed `v` adds nothing to the selection for `v`.
pub proof fn lemma_selection_stops(l: Seq<Edge>, n: int, v: u32, by_dest: bool)
    requires
        0 <= n <= l.len(),
        forall|k: int| n <= k < l.len() ==> spec_edge_key(#[trigger] l[k], by_dest) != v,
    ensures
        by_dest ==> sources_of(l, v) == sources_of(l.take(n), v),
        !by_dest ==> dests_of(l, v) == dests_of(l.take(n), v),
    decreases l.len() - n,
{
    if n < l.len() {
        lemma_selection_stops(l.drop_last(), n, v, by_dest);
        assert(l.drop_last() =~= l.take(l.len() - 1));
        assert(l.take(n) =~= l.drop_last().take(n));
    } else {
        assert(l.take(n) =~= l);
    }
}

/// An id is selected for `v` exactly when the matching edge is in the file.
pub proof fn lemma_dests_of_contains(l: Seq<Edge>, v: u32, d: u32)
    ensures
        dests_of(l, v).contains(d) <==> l.contains(
            Edge { source_vertex_id: v, dest_vertex_id: d },
        ),
    decreases l.len(),
{
    let e = Edge { source_vertex_id: v, dest_vertex_id: d };
    if l.len() == 0 {
    } else {
        lemma_dests_of_contains(l.drop_last(), v, d);
        assert(l.contains(e) <==> (l.drop_last().contains(e) || l.last() == e)) by {
            if l.contains(e) {
                let k = choose|k: int| 0 <= k < l.len() && l[k] == e;
                if k < l.len() - 1 {
                    assert(l.drop_last()[k] == e);
                }
            }
            if l.drop_last().contains(e) {
                let k = choose|k: int| 0 <= k < l.drop_last().len() && l.drop_last()[k] == e;
                assert(l[k] == e);
            }
        }
        let rest = dests_of(l.drop_last(), v);
        if l.last().source_vertex_id == v {
            assert(dests_of(l, v).contains(d) <==> (rest.contains(d) || l.last().dest_vertex_id
                == d)) by {
                if dests_of(l, v).contains(d) {
                    let k = choose|k: int| 0 <= k < dests_of(l, v).len() && dests_of(l, v)[k] == d;
                    if k < rest.len() {
                        assert(rest[k] == d);
                    }
                }
                if rest.contains(d) {
                    let k = choose|k: int| 0 <= k < rest.len() && rest[k] == d;
                    assert(dests_of(l, v)[k] == d);
                }
                if l.last().dest_vertex_id == d {
                    assert(dests_of(l, v).last() == d);
                }
            }
        }
    }
}

/// An id is selected for `v` exactly when the matching edge is in the file.
pub proof fn lemma_sources_of_contains(l: Seq<Edge>, v: u32, s: u32)
    ensures
        sources_of(l, v).contains(s) <==> l.contains(
            Edge { source_vertex_id: s, dest_vertex_id: v },
        ),
    decreases l.len(),
{
    let e = Edge { source_vertex_id: s, dest_vertex_id: v };
    if l.len() == 0 {
    } else {
        lemma_sources_of_contains(l.drop_last(), v, s);
        assert(l.contains(e) <==> (l.drop_last().contains(e) || l.last() == e)) by {
            if l.contains(e) {
                let k = choose|k: int| 0 <= k < l.len() && l[k] == e;
                if k < l.len() - 1 {
                    assert(l.drop_last()[k] == e);
                }
            }
            if l.drop_last().contains(e) {
                let k = choose|k: int| 0 <= k < l.drop_last().len() && l.drop_last()[k] == e;
                assert(l[k] == e);
            }
        }
        let rest = sources_of(l.drop_last(), v);
        if l.last().dest_vertex_id == v {
            assert(sources_of(l, v).contains(s) <==> (rest.contains(s) || l.last().source_vertex_id
                == s)) by {
                if sources_of(l, v).contains(s) {
                    let k = choose|k: int|
                        0 <= k < sources_of(l, v).len() && sources_of(l, v)[k] == s;
                    if k < rest.len() {
                        assert(rest[k] == s);
                    }
                }
                if rest.contains(s) {
                    let k = choose|k: int| 0 <= k < rest.len() && rest[k] == s;
                    assert(sources_of(l, v)[k] == s);
                }
                if l.last().source_vertex_id == s {
                    assert(sources_of(l, v).last() == s);
                }
            }
        }
    }
}

/// An adjacency list ready to be written for the next vertex in id order.
pub struct AdjacencySet {
    pub adjacency_list: crate::edge_db::AdjacencyList,
}

/// Walks the vertex-id range in order, merging the two sorted edge files
/// into one adjacency set per vertex.
pub struct AdjacencySetIterator<'a> {
    outgoing_source: &'a Vec<Edge>,
    incoming_source: &'a Vec<Edge>,
    outgoing_i: usize,
    incoming_i: usize,
    vertex_id: u32,
    max_page_id: u32,
}

impl<'a> AdjacencySetIterator<'a> {
    /// The sorted-by-source edge file.
    pub closed spec fn spec_outgoing_source(self) -> Seq<Edge> {
        self.outgoing_source@
    }

    /// The sorted-by-destination edge file.
    pub closed spec fn spec_incoming_source(self) -> Seq<Edge> {
        self.incoming_source@
    }

    /// The next vertex id to be merged.
    pub closed spec fn spec_vertex_id(self) -> u32 {
        self.vertex_id
    }

    /// The cursor into the sorted-by-source file.
    pub closed spec fn spec_outgoing_i(self) -> int {
        self.outgoing_i as int
    }

    /// The cursor into the sorted-by-destination file.
    pub closed spec fn spec_incoming_i(self) -> int {
        self.incoming_i as int
    }

    /// The highest vertex id that will be merged.
    pub closed spec fn spec_max_page_id(self) -> u32 {
        self.max_page_id
    }

    /// Cursor soundness: both files are sorted, and each cursor splits its
    /// file into edges already consumed (key below the current vertex) and
    /// edges still ahead (key at or above it).
    pub closed spec fn wf(self) -> bool {
        &&& sorted_by_key(self.outgoing_source@, false)
        &&& sorted_by_key(self.incoming_source@, true)
        &&& self.outgoing_i <= self.outgoing_source@.len()
        &&& self.incoming_i <= self.incoming_source@.len()
        &&& forall|k: int|
            0 <= k < self.outgoing_i ==> (#[trigger] self.outgoing_source@[k]).source_vertex_id
                < self.vertex_id
        &&& forall|k: int|
            self.outgoing_i <= k < self.outgoing_source@.len() ==> (
            #[trigger] self.outgoing_source@[k]).source_vertex_id >= self.vertex_id
        &&& forall|k: int|
            0 <= k < self.incoming_i ==> (#[trigger] self.incoming_source@[k]).dest_vertex_id
                < self.vertex_id
        &&& forall|k: int|
            self.incoming_i <= k < self.incoming_source@.len() ==> (
            #[trigger] self.incoming_source@[k]).dest_vertex_id >= self.vertex_id
    }

    /// The adjacency set of the current vertex, advancing both cursors past
    /// its edges; `None` once the vertex range is exhausted.
    pub fn next(&mut self) -> (r: Option<AdjacencySet>)
        requires
            old(self).wf(),
            old(self).spec_max_page_id() < u32::MAX,
        ensures
            final(self).wf(),
            final(self).spec_outgoing_source() == old(self).spec_outgoing_source(),
            final(self).spec_incoming_source() == old(self).spec_incoming_source(),
            final(self).spec_max_page_id() == old(self).spec_max_page_id(),
            old(self).spec_vertex_id() > old(self).spec_max_page_id() ==> r is None
                && *final(self) == *old(self),
            old(self).spec_vertex_id() <= old(self).spec_max_page_id() ==> {
                &&& r is Some
                &&& r.unwrap().adjacency_list.outgoing@ == dests_of(
                    old(self).spec_outgoing_source(),
                    old(self).spec_vertex_id(),
                )
                &&& r.unwrap().adjacency_list.incoming@ == sources_of(
                    old(self).spec_incoming_source(),
                    old(self).spec_vertex_id(),
                )
                &&& final(self).spec_vertex_id() == old(self).spec_vertex_id() + 1
                &&& final(self).spec_outgoing_i() == old(self).spec_outgoing_i()
                    + r.unwrap().adjacency_list.outgoing@.len()
                &&& final(self).spec_incoming_i() == old(self).spec_incoming_i()
                    + r.unwrap().adjacency_list.incoming@.len()
            },
    {
        if self.vertex_id > self.max_page_id {
            return None;
        }
        let v = self.vertex_id;
        let ghost osrc = self.outgoing_source@;
        let ghost isrc = self.incoming_source@;
        let ghost ostart = self.outgoing_i as int;
        let ghost istart = self.incoming_i as int;
        let mut outgoing: Vec<u32> = Vec::new();
        let mut incoming: Vec<u32> = Vec::new();
        proof {
            lemma_selection_stops(osrc.take(ostart), 0, v, false);
            assert(osrc.take(ostart).take(0) =~= Seq::<Edge>::empty());
            assert(dests_of(Seq::<Edge>::empty(), v) =~= Seq::<u32>::empty());
            lemma_selection_stops(isrc.take(istart), 0, v, true);
            assert(isrc.take(istart).take(0) =~= Seq::<Edge>::empty());
            assert(sources_of(Seq::<Edge>::empty(), v) =~= Seq::<u32>::empty());
        }
        loop
            invariant_except_break
                self.outgoing_source@ == osrc,
                self.incoming_source@ == isrc,
                self.vertex_id == v,
                self.max_page_id == old(self).max_page_id,
                self.incoming_i == old(self).incoming_i,
                sorted_by_key(osrc, false),
                ostart <= self.outgoing_i <= osrc.len(),
                forall|k: int|
                    0 <= k < ostart ==> (#[trigger] osrc[k]).source_vertex_id < v,
                forall|k: int|
                    ostart <= k < self.outgoing_i ==> (#[trigger] osrc[k]).source_vertex_id == v,
                forall|k: int|
                    self.outgoing_i <= k < osrc.len() ==> (#[trigger] osrc[k]).source_vertex_id
                        >= v,
                outgoing@ == dests_of(osrc.take(self.outgoing_i as int), v),
                outgoing@.len() == self.outgoing_i - ostart,
                incoming@.len() == 0,
            ensures
                self.outgoing_source@ == osrc,
                self.incoming_source@ == isrc,
                self.vertex_id == v,
                self.max_page_id == old(self).max_page_id,
                self.incoming_i == old(self).incoming_i,
                ostart <= self.outgoing_i <= osrc.len(),
                forall|k: int|
                    ostart <= k < self.outgoing_i ==> (#[trigger] osrc[k]).source_vertex_id == v,
                forall|k: int|
                    self.outgoing_i <= k < osrc.len() ==> (#[trigger] osrc[k]).source_vertex_id
                        >= v + 1,
                outgoing@ == dests_of(osrc, v),
                outgoing@.len() == self.outgoing_i - ostart,
                incoming@.len() == 0,
            decreases osrc.len() - self.outgoing_i,
        {
            if self.outgoing_i >= self.outgoing_source.len() {
                proof {
                    lemma_selection_stops(osrc, self.outgoing_i as int, v, false);
                    assert(osrc.take(self.outgoing_i as int) =~= osrc);
                    assert(outgoing@ =~= dests_of(osrc, v));
                }
                break;
            }
            let current_edge = self.outgoing_source[self.outgoing_i];
            if current_edge.source_vertex_id != v {
                proof {
                    assert forall|k: int|
                        self.outgoing_i <= k < osrc.len() implies (
                    #[trigger] osrc[k]).source_vertex_id > v by {
                        assert(spec_edge_key(osrc[self.outgoing_i as int], false) <= spec_edge_key(
                            osrc[k],
                            false,
                        ));
                    }
                    lemma_selection_stops(osrc, self.outgoing_i as int, v, false);
                    assert(outgoing@ =~= dests_of(osrc, v));
                }
                break;
            }
            proof {
                let t0 = osrc.take(self.outgoing_i as int);
                let t1 = osrc.take(self.outgoing_i as int + 1);
                assert(t1.drop_last() =~= t0);
                assert(t1.last() == osrc[self.outgoing_i as int]);
                assert(dests_of(t1, v) == dests_of(t0, v).push(current_edge.dest_vertex_id));
            }
            outgoing.push(current_edge.dest_vertex_id);
            self.outgoing_i += 1;
        }
        loop
            invariant_except_break
                self.outgoing_source@ == osrc,
                self.incoming_source@ == isrc,
                self.vertex_id == v,
                self.max_page_id == old(self).max_page_id,
                sorted_by_key(isrc, true),
                istart <= self.incoming_i <= isrc.len(),
                forall|k: int|
                    0 <= k < istart ==> (#[trigger] isrc[k]).dest_vertex_id < v,
                forall|k: int|
                    istart <= k < self.incoming_i ==> (#[trigger] isrc[k]).dest_vertex_id == v,
                forall|k: int|
                    self.incoming_i <= k < isrc.len() ==> (#[trigger] isrc[k]).dest_vertex_id
                        >= v,
                incoming@ == sources_of(isrc.take(self.incoming_i as int), v),
                incoming@.len() == self.incoming_i - istart,
                outgoing@ == dests_of(osrc, v),
                self.outgoing_i - ostart == outgoing@.len(),
                ostart <= self.outgoing_i <= osrc.len(),
                forall|k: int|
                    ostart <= k < self.outgoing_i ==> (#[trigger] osrc[k]).source_vertex_id == v,
                forall|k: int|
                    self.outgoing_i <= k < osrc.len() ==> (#[trigger] osrc[k]).source_vertex_id
                        >= v + 1,
            ensures
                self.outgoing_source@ == osrc,
                self.incoming_source@ == isrc,
                self.vertex_id == v,
                self.max_page_id == old(self).max_page_id,
                istart <= self.incoming_i <= isrc.len(),
                forall|k: int|
                    istart <= k < self.incoming_i ==> (#[trigger] isrc[k]).dest_vertex_id == v,
                forall|k: int|
                    self.incoming_i <= k < isrc.len() ==> (#[trigger] isrc[k]).dest_vertex_id
                        >= v + 1,
                incoming@ == sources_of(isrc, v),
                incoming@.len() == self.incoming_i - istart,
                outgoing@ == dests_of(osrc, v),
                self.outgoing_i - ostart == outgoing@.len(),
                ostart <= self.outgoing_i <= osrc.len(),
                forall|k: int|
                    ostart <= k < self.outgoing_i ==> (#[trigger] osrc[k]).source_vertex_id == v,
                forall|k: int|
                    self.outgoing_i <= k < osrc.len() ==> (#[trigger] osrc[k]).source_vertex_id
                        >= v + 1,
            decreases isrc.len() - self.incoming_i,
        {
            if self.incoming_i >= self.incoming_source.len() {
                proof {
                    lemma_selection_stops(isrc, self.incoming_i as int, v, true);
                    assert(isrc.take(self.incoming_i as int) =~= isrc);
                    assert(incoming@ =~= sources_of(isrc, v));
                }
                break;
            }
            let current_edge = self.incoming_source[self.incoming_i];
            if current_edge.dest_vertex_id != v {
                proof {
                    assert forall|k: int|
                        self.incoming_i <= k < isrc.len() implies (
                    #[trigger] isrc[k]).dest_vertex_id > v by {
                        assert(spec_edge_key(isrc[self.incoming_i as int], true) <= spec_edge_key(
                            isrc[k],
                            true,
                        ));
                    }
                    lemma_selection_stops(isrc, self.incoming_i as int, v, true);
                    assert(incoming@ =~= sources_of(isrc, v));
                }
                break;
            }
            proof {
                let t0 = isrc.take(self.incoming_i as int);
                let t1 = isrc.take(self.incoming_i as int + 1);
                assert(t1.drop_last() =~= t0);
                assert(t1.last() == isrc[self.incoming_i as int]);
                assert(sources_of(t1, v) == sources_of(t0, v).push(current_edge.source_vertex_id));
            }
            incoming.push(current_edge.source_vertex_id);
            self.incoming_i += 1;
        }
        self.vertex_id = self.vertex_id + 1;
        Some(
            AdjacencySet {
                adjacency_list: crate::edge_db::AdjacencyList { outgoing, incoming },
            },
        )
    }
}

/// Appends one vertex's adjacency record to the adjacency file image and
/// returns the record's byte offset, or zero when the vertex has no
/// neighbours and gets no record.
pub fn write_adjacency_set(adjacency_set: &AdjacencySet, al: &mut Vec<u8>) -> (offset: u64)
    requires
        all_nonzero(adjacency_set.adjacency_list.outgoing@),
        all_nonzero(adjacency_set.adjacency_list.incoming@),
        old(al)@.len() + 4 * (adjacency_set.adjacency_list.outgoing@.len()
            + adjacency_set.adjacency_list.incoming@.len() + 3) <= usize::MAX,
    ensures
        ({
            let out = adjacency_set.adjacency_list.outgoing@;
            let inc = adjacency_set.adjacency_list.incoming@;
            if out.len() == 0 && inc.len() == 0 {
                &&& offset == 0
                &&& final(al)@ == old(al)@
            } else {
                &&& offset == old(al)@.len()
                &&& final(al)@.len() == old(al)@.len() + 4 * (out.len() + inc.len() + 3)
                &&& final(al)@.subrange(0, old(al)@.len() as int) == old(al)@
                &&& wf_record(final(al)@.skip(old(al)@.len() as int), out, inc)
            }
        }),
{
    let ghost out: Seq<u32> = adjacency_set.adjacency_list.outgoing@;
    let ghost inc: Seq<u32> = adjacency_set.adjacency_list.incoming@;
    let ghost base = old(al)@;
    if adjacency_set.adjacency_list.is_empty() {
        return 0;
    }
    let al_position = al.len() as u64;
    proof {
        lemma_auto_spec_u32_to_from_le_bytes();
        assert(seq![ADJACENCY_MAGIC] =~= Seq::<u32>::empty().push(ADJACENCY_MAGIC));
        lemma_words_bytes_push(Seq::<u32>::empty(), ADJACENCY_MAGIC);
        assert(Seq::<u8>::empty() + spec_u32_to_le_bytes(ADJACENCY_MAGIC) =~= spec_u32_to_le_bytes(
            ADJACENCY_MAGIC,
        ));
        assert(words_bytes(seq![ADJACENCY_MAGIC]) =~= spec_u32_to_le_bytes(ADJACENCY_MAGIC));
    }
    push_word(al, ADJACENCY_MAGIC);
    proof {
        assert(al@ =~= base + words_bytes(seq![ADJACENCY_MAGIC]));
    }
    let out_len = adjacency_set.adjacency_list.outgoing.len();
    let inc_len = adjacency_set.adjacency_list.incoming.len();
    let mut i: usize = 0;
    while i < out_len
        invariant
            out == adjacency_set.adjacency_list.outgoing@,
            inc == adjacency_set.adjacency_list.incoming@,
            out_len == out.len(),
            inc_len == inc.len(),
            base.len() + 4 * (out.len() + inc.len() + 3) <= usize::MAX,
            i <= out_len,
            al@ == base + words_bytes(seq![ADJACENCY_MAGIC] + out.take(i as int)),
            al@.len() == base.len() + 4 + 4 * i,
        decreases out_len - i,
    {
        let ghost ws = seq![ADJACENCY_MAGIC] + out.take(i as int);
        let w = adjacency_set.adjacency_list.outgoing[i];
        push_word(al, w);
        proof {
            lemma_auto_spec_u32_to_from_le_bytes();
            lemma_words_bytes_push(ws, w);
            assert(ws.push(w) =~= seq![ADJACENCY_MAGIC] + out.take(i + 1));
            assert(al@ =~= base + words_bytes(ws.push(w)));
            lemma_words_bytes(ws.push(w));
        }
        i += 1;
    }
    proof {
        assert(out.take(out_len as int) =~= out);
    }
    let ghost ws1 = seq![ADJACENCY_MAGIC] + out;
    push_word(al, 0);
    proof {
        lemma_auto_spec_u32_to_from_le_bytes();
        lemma_words_bytes_push(ws1, 0u32);
        assert(al@ =~= base + words_bytes(ws1.push(0u32)));
        lemma_words_bytes(ws1.push(0u32));
    }
    let ghost ws2 = seq![ADJACENCY_MAGIC] + out + seq![0u32];
    proof {
        assert(ws1.push(0u32) =~= ws2);
    }
    let mut j: usize = 0;
    while j < inc_len
        invariant
            out == adjacency_set.adjacency_list.outgoing@,
            inc == adjacency_set.adjacency_list.incoming@,
            out_len == out.len(),
            inc_len == inc.len(),
            ws2 == seq![ADJACENCY_MAGIC] + out + seq![0u32],
            base.len() + 4 * (out.len() + inc.len() + 3) <= usize::MAX,
            j <= inc_len,
            al@ == base + words_bytes(ws2 + inc.take(j as int)),
            al@.len() == base.len() + 4 * (out.len() + 2) + 4 * j,
        decreases inc_len - j,
    {
        let ghost ws = ws2 + inc.take(j as int);
        let w = adjacency_set.adjacency_list.incoming[j];
        push_word(al, w);
        proof {
            lemma_auto_spec_u32_to_from_le_bytes();
            lemma_words_bytes_push(ws, w);
            assert(ws.push(w) =~= ws2 + inc.take(j + 1));
            assert(al@ =~= base + words_bytes(ws.push(w)));
            lemma_words_bytes(ws.push(w));
        }
        j += 1;
    }
    proof {
        assert(inc.take(inc_len as int) =~= inc);
    }
    let ghost ws3 = ws2 + inc;
    push_word(al, 0);
    proof {
        lemma_auto_spec_u32_to_from_le_bytes();
        lemma_words_bytes_push(ws3, 0u32);
        assert(al@ =~= base + words_bytes(ws3.push(0u32)));
        assert(ws3.push(0u32) =~= record_words(out, inc));
        let rw = record_words(out, inc);
        lemma_words_bytes(rw);
        assert(al@.skip(base.len() as int) =~= words_bytes(rw));
        assert(al@.skip(base.len() as int).subrange(0, words_bytes(rw).len() as int)
            =~= words_bytes(rw));
        lemma_record_from_words(al@.skip(base.len() as int), out, inc);
        assert(al@.subrange(0, base.len() as int) =~= base);
    }
    al_position
}

impl EdgeProcDB {
    /// A cursor pair over the two sorted copies, positioned at vertex zero.
    pub fn iter(&self, max_page_id: u32) -> (r: AdjacencySetIterator)
        requires
            sorted_by_key(self.spec_outgoing(), false),
            sorted_by_key(self.spec_incoming(), true),
        ensures
            r.wf(),
            r.spec_outgoing_source() == self.spec_outgoing(),
            r.spec_incoming_source() == self.spec_incoming(),
            r.spec_vertex_id() == 0,
            r.spec_outgoing_i() == 0,
            r.spec_incoming_i() == 0,
            r.spec_max_page_id() == max_page_id,
    {
        AdjacencySetIterator {
            outgoing_source: &self.outgoing,
            incoming_source: &self.incoming,
            outgoing_i: 0,
            incoming_i: 0,
            vertex_id: 0,
            max_page_id,
        }
    }
}

/// Appends one 64-bit word, little-endian, to a byte buffer.
fn push_qword(buf: &mut Vec<u8>, w: u64)
    requires
        old(buf)@.len() + 8 <= usize::MAX,
    ensures
        final(buf)@ == old(buf)@ + spec_u64_to_le_bytes(w),
{
    let mut b = u64_to_le_bytes(w);
    buf.append(&mut b);
    proof {
        assert(final(buf)@ =~= old(buf)@ + spec_u64_to_le_bytes(w));
    }
}

/// Every edge endpoint is a real vertex id: non-zero and within range.
pub open spec fn edge_ids_ok(l: Seq<Edge>, max_page_id: u32) -> bool {
    forall|k: int|
        0 <= k < l.len() ==> 1 <= (#[trigger] l[k]).source_vertex_id <= max_page_id && 1 <= l[
            k].dest_vertex_id <= max_page_id
}

/// Ids selected from a file of real vertex ids are never zero.
pub proof fn lemma_selection_nonzero(l: Seq<Edge>, v: u32, max_page_id: u32)
    requires
        edge_ids_ok(l, max_page_id),
    ensures
        all_nonzero(dests_of(l, v)),
        all_nonzero(sources_of(l, v)),
    decreases l.len(),
{
    if l.len() > 0 {
        assert(edge_ids_ok(l.drop_last(), max_page_id)) by {
            assert forall|k: int| 0 <= k < l.drop_last().len() implies 1 <= (
            #[trigger] l.drop_last()[k]).source_vertex_id <= max_page_id && 1
                <= l.drop_last()[k].dest_vertex_id <= max_page_id by {
                assert(l.drop_last()[k] == l[k]);
            }
        }
        lemma_selection_nonzero(l.drop_last(), v, max_page_id);
        let rest_d = dests_of(l.drop_last(), v);
        let rest_s = sources_of(l.drop_last(), v);
        assert forall|j: int| 0 <= j < dests_of(l, v).len() implies dests_of(l, v)[j] != 0 by {
            if l.last().source_vertex_id == v && j == rest_d.len() {
                assert(l.last() == l[l.len() - 1]);
            }
        }
        assert forall|j: int| 0 <= j < sources_of(l, v).len() implies sources_of(l, v)[j] != 0 by {
            if l.last().dest_vertex_id == v && j == rest_s.len() {
                assert(l.last() == l[l.len() - 1]);
            }
        }
    }
}

/// A well-formed record at the head of a buffer survives appending to the
/// buffer.
pub proof fn lemma_wf_record_extend(d1: Seq<u8>, d2: Seq<u8>, out: Seq<u32>, inc: Seq<u32>)
    requires
        wf_record(d1, out, inc),
        d1.len() <= d2.len(),
        d2.subrange(0, d1.len() as int) == d1,
    ensures
        wf_record(d2, out, inc),
{
    assert forall|k: int| 0 <= k && 4 * k + 4 <= d1.len() implies #[trigger] word_at(d2, k)
        == word_at(d1, k) by {
        assert(d2.subrange(4 * k, 4 * k + 4) =~= d1.subrange(4 * k, 4 * k + 4));
    }
}

/// One vertex's slot in a built store: a zero entry for an isolated vertex,
/// else an in-range offset to its well-formed record.
pub open spec fn vertex_entry_ok(
    al: Seq<u8>,
    ix: Seq<u8>,
    out_sorted: Seq<Edge>,
    in_sorted: Seq<Edge>,
    u: u32,
) -> bool {
    let off = store_offset(ix, u as int);
    let out = dests_of(out_sorted, u);
    let inc = sources_of(in_sorted, u);
    if out.len() == 0 && inc.len() == 0 {
        off == 0
    } else {
        &&& off != 0
        &&& off + 4 * (out.len() + inc.len() + 3) <= al.len()
        &&& wf_record(al.skip(off as int), out, inc)
    }
}

/// What the adjacency writer guarantees of the two file images it builds.
pub open spec fn built_store_ok(
    al: Seq<u8>,
    ix: Seq<u8>,
    out_sorted: Seq<Edge>,
    in_sorted: Seq<Edge>,
    max_page_id: u32,
) -> bool {
    &&& ix.len() == 8 * (max_page_id + 1)
    &&& al.len() >= 4
    &&& al.len() % 4 == 0
    &&& forall|u: u32| u <= max_page_id ==> #[trigger] vertex_entry_ok(
        al,
        ix,
        out_sorted,
        in_sorted,
        u,
    )
}

/// Walks the vertex range, appends one adjacency record per connected
/// vertex to the adjacency image, and records each record's offset (or zero)
/// in the index image. A leading pad word keeps every real record off
/// offset zero, which the index reserves for absent vertices.
pub fn build_adjacency_data(db: &EdgeProcDB, max_page_id: u32) -> (r: (Vec<u8>, Vec<u8>))
    requires
        sorted_by_key(db.spec_outgoing(), false),
        sorted_by_key(db.spec_incoming(), true),
        edge_ids_ok(db.spec_outgoing(), max_page_id),
        edge_ids_ok(db.spec_incoming(), max_page_id),
        max_page_id < u32::MAX,
        4 + 4 * (db.spec_outgoing().len() + db.spec_incoming().len()) + 12 * (max_page_id + 1)
            <= usize::MAX,
        8 * (max_page_id + 1) <= usize::MAX,
    ensures
        built_store_ok(r.0@, r.1@, db.spec_outgoing(), db.spec_incoming(), max_page_id),
{
    let ghost out_sorted = db.spec_outgoing();
    let ghost in_sorted = db.spec_incoming();
    let mut al: Vec<u8> = Vec::new();
    let mut ix: Vec<u8> = Vec::new();
    proof {
        lemma_auto_spec_u32_to_from_le_bytes();
    }
    push_word(&mut al, ADJACENCY_MAGIC);
    let mut it = db.iter(max_page_id);
    let mut v: u32 = 0;
    while v <= max_page_id
        invariant
            sorted_by_key(out_sorted, false),
            sorted_by_key(in_sorted, true),
            edge_ids_ok(out_sorted, max_page_id),
            edge_ids_ok(in_sorted, max_page_id),
            max_page_id < u32::MAX,
            4 + 4 * (out_sorted.len() + in_sorted.len()) + 12 * (max_page_id + 1) <= usize::MAX,
            8 * (max_page_id + 1) <= usize::MAX,
            it.wf(),
            it.spec_outgoing_source() == out_sorted,
            it.spec_incoming_source() == in_sorted,
            it.spec_max_page_id() == max_page_id,
            it.spec_vertex_id() == v,
            v <= max_page_id + 1,
            it.spec_outgoing_i() <= out_sorted.len(),
            it.spec_incoming_i() <= in_sorted.len(),
            ix@.len() == 8 * v,
            al@.len() >= 4,
            al@.len() % 4 == 0,
            al@.len() <= 4 + 4 * (it.spec_outgoing_i() + it.spec_incoming_i()) + 12 * v,
            forall|u: u32| u < v ==> #[trigger] vertex_entry_ok(al@, ix@, out_sorted, in_sorted, u),
        decreases max_page_id + 1 - v,
    {
        let aset_opt = it.next();
        let aset = aset_opt.unwrap();
        let ghost out = dests_of(out_sorted, v);
        let ghost inc = sources_of(in_sorted, v);
        proof {
            lemma_selection_nonzero(out_sorted, v, max_page_id);
            lemma_selection_nonzero(in_sorted, v, max_page_id);
        }
        let ghost al_before = al@;
        let ghost ix_before = ix@;
        let offset = write_adjacency_set(&aset, &mut al);
        proof {
            lemma_auto_spec_u64_to_from_le_bytes();
        }
        push_qword(&mut ix, offset);
        proof {
            assert(ix@.subrange(8 * v as int, 8 * v as int + 8) =~= spec_u64_to_le_bytes(offset));
            assert(store_offset(ix@, v as int) == offset);
            if out.len() == 0 && inc.len() == 0 {
                assert(vertex_entry_ok(al@, ix@, out_sorted, in_sorted, v));
            } else {
                assert(al@.skip(offset as int) =~= al@.skip(al_before.len() as int));
                assert(vertex_entry_ok(al@, ix@, out_sorted, in_sorted, v));
            }
            assert forall|u: u32| u < v + 1 implies #[trigger] vertex_entry_ok(
                al@,
                ix@,
                out_sorted,
                in_sorted,
                u,
            ) by {
                if u < v {
                    assert(vertex_entry_ok(al_before, ix_before, out_sorted, in_sorted, u));
                    assert(ix@.subrange(8 * u as int, 8 * u as int + 8) =~= ix_before.subrange(
                        8 * u as int,
                        8 * u as int + 8,
                    ));
                    let uoff = store_offset(ix_before, u as int);
                    let uout = dests_of(out_sorted, u);
                    let uinc = sources_of(in_sorted, u);
                    if !(uout.len() == 0 && uinc.len() == 0) {
                        assert(al@.subrange(0, al_before.len() as int) =~= al_before);
                        assert(al_before.skip(uoff as int) =~= al@.skip(uoff as int).subrange(
                            0,
                            al_before.len() - uoff,
                        ));
                        lemma_wf_record_extend(
                            al_before.skip(uoff as int),
                            al@.skip(uoff as int),
                            uout,
                            uinc,
                        );
                    }
                }
            }
        }
        v += 1;
    }
    (al, ix)
}

/// Law: a built index holds one entry per vertex id, so its length is
/// `(max_page_id + 1) * 8`, and every entry is zero or points strictly
/// inside the adjacency image.
pub proof fn lemma_index_in_bounds(
    al: Seq<u8>,
    ix: Seq<u8>,
    out_sorted: Seq<Edge>,
    in_sorted: Seq<Edge>,
    max_page_id: u32,
)
    requires
        built_store_ok(al, ix, out_sorted, in_sorted, max_page_id),
    ensures
        ix.len() == 8 * (max_page_id + 1),
        forall|u: u32|
            u <= max_page_id ==> #[trigger] store_offset(ix, u as int) == 0 || store_offset(
                ix,
                u as int,
            ) < al.len(),
{
    assert forall|u: u32| u <= max_page_id implies #[trigger] store_offset(ix, u as int) == 0
        || store_offset(ix, u as int) < al.len() by {
        assert(vertex_entry_ok(al, ix, out_sorted, in_sorted, u));
    }
}

/// Law: a store whose images a build produced is well formed, and reading
/// any vertex yields exactly the ids selected from the two sorted files.
pub proof fn lemma_built_store_reads(
    db: crate::edge_db::EdgeDB,
    out_sorted: Seq<Edge>,
    in_sorted: Seq<Edge>,
    max_page_id: u32,
)
    requires
        built_store_ok(db.al_bytes(), db.ix_bytes(), out_sorted, in_sorted, max_page_id),
        edge_ids_ok(out_sorted, max_page_id),
        edge_ids_ok(in_sorted, max_page_id),
    ensures
        db.wf(),
        forall|v: u32| #[trigger] db.spec_outgoing(v as int) == dests_of(out_sorted, v),
        forall|v: u32| #[trigger] db.spec_incoming(v as int) == sources_of(in_sorted, v),
{
    let al = db.al_bytes();
    let ix = db.ix_bytes();
    assert(db.n_slots() == max_page_id + 1);
    assert(db.sizes_ok());
    assert forall|v: int| 0 <= v < db.n_slots() implies #[trigger] db.offset_at(v) + 4
        <= al.len() by {
        let u = v as u32;
        assert(vertex_entry_ok(al, ix, out_sorted, in_sorted, u));
    }
    assert forall|v: int|
        0 <= v < db.n_slots() && #[trigger] db.offset_at(v) != 0 implies exists|
        oi: (Seq<u32>, Seq<u32>),
    | wf_record(al.skip(db.offset_at(v) as int), oi.0, oi.1) by {
        let u = v as u32;
        assert(vertex_entry_ok(al, ix, out_sorted, in_sorted, u));
        let w: (Seq<u32>, Seq<u32>) = (dests_of(out_sorted, u), sources_of(in_sorted, u));
        if !(w.0.len() == 0 && w.1.len() == 0) {
            assert(wf_record(al.skip(db.offset_at(v) as int), w.0, w.1));
        } else {
            assert(db.offset_at(v) == 0);
        }
    }
    assert(db.wf());
    assert forall|v: u32|
        #[trigger] db.spec_outgoing(v as int) == dests_of(out_sorted, v) && db.spec_incoming(
            v as int,
        ) == sources_of(in_sorted, v) by {
        if v <= max_page_id {
            assert(vertex_entry_ok(al, ix, out_sorted, in_sorted, v));
            let out = dests_of(out_sorted, v);
            let inc = sources_of(in_sorted, v);
            if out.len() == 0 && inc.len() == 0 {
                assert(db.offset_at(v as int) == 0);
                assert(out =~= Seq::<u32>::empty());
                assert(inc =~= Seq::<u32>::empty());
            } else {
                assert(db.offset_at(v as int) != 0);
                crate::edge_db::lemma_spec_record_of(
                    al.skip(db.offset_at(v as int) as int),
                    out,
                    inc,
                );
            }
        } else {
            assert forall|k: int|
                0 <= k < out_sorted.len() implies spec_edge_key(#[trigger] out_sorted[k], false)
                != v by {}
            lemma_selection_stops(out_sorted, 0, v, false);
            assert(out_sorted.take(0) =~= Seq::<Edge>::empty());
            assert(dests_of(Seq::<Edge>::empty(), v) =~= Seq::<u32>::empty());
            assert forall|k: int|
                0 <= k < in_sorted.len() implies spec_edge_key(#[trigger] in_sorted[k], true)
                != v by {}
            lemma_selection_stops(in_sorted, 0, v, true);
            assert(in_sorted.take(0) =~= Seq::<Edge>::empty());
            assert(sources_of(Seq::<Edge>::empty(), v) =~= Seq::<u32>::empty());
        }
    }
    assert forall|v: u32| #[trigger] db.spec_incoming(v as int) == sources_of(in_sorted, v) by {
        assert(db.spec_outgoing(v as int) == dests_of(out_sorted, v));
    }
}

/// Law: building a store from an edge file and reading it back yields
/// exactly the edges that were put in: a destination is listed for a vertex
/// iff that edge exists, an origin is listed iff that edge exists, and so
/// the two sides of the store agree.
pub proof fn lemma_store_round_trip(
    db: crate::edge_db::EdgeDB,
    raw: Seq<Edge>,
    out_sorted: Seq<Edge>,
    in_sorted: Seq<Edge>,
    max_page_id: u32,
)
    requires
        built_store_ok(db.al_bytes(), db.ix_bytes(), out_sorted, in_sorted, max_page_id),
        edge_ids_ok(out_sorted, max_page_id),
        edge_ids_ok(in_sorted, max_page_id),
        out_sorted.to_multiset() == raw.to_multiset(),
        in_sorted.to_multiset() == raw.to_multiset(),
    ensures
        db.wf(),
        forall|v: u32, d: u32| #[trigger] db.spec_outgoing(v as int).contains(d) <==> raw.contains(
            (Edge { source_vertex_id: v, dest_vertex_id: d }),
        ),
        forall|s: u32, v: u32| #[trigger] db.spec_incoming(v as int).contains(s) <==> raw.contains(
            (Edge { source_vertex_id: s, dest_vertex_id: v }),
        ),
        db.consistent(),
{
    lemma_built_store_reads(db, out_sorted, in_sorted, max_page_id);
    broadcast use vstd::seq_lib::group_to_multiset_ensures;
    assert forall|v: u32, d: u32| #[trigger] db.spec_outgoing(v as int).contains(d)
        <==> raw.contains((Edge { source_vertex_id: v, dest_vertex_id: d })) by {
        let e = Edge { source_vertex_id: v, dest_vertex_id: d };
        lemma_dests_of_contains(out_sorted, v, d);
        assert(db.spec_outgoing(v as int) == dests_of(out_sorted, v));
        vstd::seq_lib::to_multiset_contains(out_sorted, e);
        vstd::seq_lib::to_multiset_contains(raw, e);
        assert(out_sorted.to_multiset().count(e) == raw.to_multiset().count(e));
        assert(out_sorted.contains(e) <==> raw.contains(e));
    }
    assert forall|s: u32, v: u32| #[trigger] db.spec_incoming(v as int).contains(s)
        <==> raw.contains((Edge { source_vertex_id: s, dest_vertex_id: v })) by {
        let e = Edge { source_vertex_id: s, dest_vertex_id: v };
        lemma_sources_of_contains(in_sorted, v, s);
        assert(db.spec_incoming(v as int) == sources_of(in_sorted, v));
        vstd::seq_lib::to_multiset_contains(in_sorted, e);
        vstd::seq_lib::to_multiset_contains(raw, e);
        assert(in_sorted.to_multiset().count(e) == raw.to_multiset().count(e));
        assert(in_sorted.contains(e) <==> raw.contains(e));
    }
    assert forall|u: u32, v: u32| #[trigger] db.spec_incoming(v as int).contains(u)
        <==> #[trigger] db.spec_outgoing(u as int).contains(v) by {
        let e = Edge { source_vertex_id: u, dest_vertex_id: v };
        assert(db.spec_incoming(v as int).contains(u) <==> raw.contains(e));
        assert(db.spec_outgoing(u as int).contains(v) <==> raw.contains(e));
    }
}

} // verus!
