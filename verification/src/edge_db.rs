//! Read-only adjacency store: a memory-mapped adjacency file holding one
//! record per vertex, and a dense index file of 64-bit little-endian byte
//! offsets into it.
//!
//! An adjacency record is framed as the magic word, the outgoing neighbour
//! ids, a zero terminator, the incoming neighbour ids, and a second zero
//! terminator, all 32-bit little-endian. An index entry of zero means the
//! vertex has no record.

use vstd::prelude::*;
use vstd::bytes::*;
use vstd::slice::*;

verus! {

/// Marker word that opens every adjacency record.
pub const ADJACENCY_MAGIC: u32 = 0xCAFECAFE;

/// The bytes a mapped file holds, from start to end.
pub uninterp spec fn mmap_bytes(m: memmap2::Mmap) -> Seq<u8>;

#[verifier::external_type_specification]
#[verifier::external_body]
pub struct ExMmap(memmap2::Mmap);

/// Relies on memmap2::Mmap::deref: a mapped file reads as a byte slice,
/// whose length is the mapped length.
#[verifier::external_body]
pub(crate) fn mmap_len(m: &memmap2::Mmap) -> (r: usize)
    ensures
        r == mmap_bytes(*m).len(),
{
    m.len()
}

/// Relies on memmap2::Mmap::deref: slicing the map yields the mapped bytes
/// of that range.
#[verifier::external_body]
pub(crate) fn mmap_slice<'a>(m: &'a memmap2::Mmap, start: usize, end: usize) -> (r: &'a [u8])
    requires
        start <= end <= mmap_bytes(*m).len(),
    ensures
        r@ == mmap_bytes(*m).subrange(start as int, end as int),
{
    &m[start..end]
}

/// The `k`-th 32-bit little-endian word of `data`.
pub open spec fn word_at(data: Seq<u8>, k: int) -> u32 {
    spec_u32_from_le_bytes(data.subrange(4 * k, 4 * k + 4))
}

/// No vertex id in a neighbour list is zero: zero is the record terminator.
pub open spec fn all_nonzero(l: Seq<u32>) -> bool {
    forall|j: int| 0 <= j < l.len() ==> l[j] != 0
}

/// `data` starts with a well-formed adjacency record whose neighbour lists
/// are `out` and `inc`.
pub open spec fn wf_record(data: Seq<u8>, out: Seq<u32>, inc: Seq<u32>) -> bool {
    &&& all_nonzero(out)
    &&& all_nonzero(inc)
    &&& 4 * (out.len() + inc.len() + 3) <= data.len()
    &&& word_at(data, 0) == ADJACENCY_MAGIC
    &&& forall|j: int| 0 <= j < out.len() ==> word_at(data, 1 + j) == out[j]
    &&& word_at(data, 1 + out.len() as int) == 0u32
    &&& forall|j: int|
        0 <= j < inc.len() ==> word_at(data, 2 + out.len() as int + j) == inc[j]
    &&& word_at(data, 2 + out.len() as int + inc.len() as int) == 0u32
}

/// The index entry for vertex `v`: a byte offset into the adjacency file.
pub open spec fn store_offset(ix: Seq<u8>, v: int) -> u64 {
    spec_u64_from_le_bytes(ix.subrange(8 * v, 8 * v + 8))
}

/// The neighbour lists of the record at the head of `data`; meaningful only
/// where such a record exists, and then unique by `lemma_record_unique`.
pub open spec fn spec_record(data: Seq<u8>) -> (Seq<u32>, Seq<u32>) {
    choose|r: (Seq<u32>, Seq<u32>)| wf_record(data, r.0, r.1)
}

/// A well-formed record determines its neighbour lists: the terminators
/// leave no choice of where each list ends.
pub proof fn lemma_record_unique(
    data: Seq<u8>,
    o1: Seq<u32>,
    i1: Seq<u32>,
    o2: Seq<u32>,
    i2: Seq<u32>,
)
    requires
        wf_record(data, o1, i1),
        wf_record(data, o2, i2),
    ensures
        o1 == o2,
        i1 == i2,
{
    if o1.len() < o2.len() {
        assert(word_at(data, 1 + o1.len() as int) == 0u32);
        assert(word_at(data, 1 + o1.len() as int) == o2[o1.len() as int]);
        assert(false);
    }
    if o2.len() < o1.len() {
        assert(word_at(data, 1 + o2.len() as int) == 0u32);
        assert(word_at(data, 1 + o2.len() as int) == o1[o2.len() as int]);
        assert(false);
    }
    assert(o1 =~= o2);
    if i1.len() < i2.len() {
        assert(word_at(data, 2 + o1.len() as int + i1.len() as int) == 0u32);
        assert(word_at(data, 2 + o2.len() as int + i1.len() as int) == i2[i1.len() as int]);
        assert(false);
    }
    if i2.len() < i1.len() {
        assert(word_at(data, 2 + o2.len() as int + i2.len() as int) == 0u32);
        assert(word_at(data, 2 + o1.len() as int + i2.len() as int) == i1[i2.len() as int]);
        assert(false);
    }
    assert(i1 =~= i2);
}

/// A well-formed record pins down what `spec_record` denotes.
pub proof fn lemma_spec_record_of(data: Seq<u8>, out: Seq<u32>, inc: Seq<u32>)
    requires
        wf_record(data, out, inc),
    ensures
        spec_record(data) == (out, inc),
{
    let w: (Seq<u32>, Seq<u32>) = (out, inc);
    assert(wf_record(data, w.0, w.1));
    let r = spec_record(data);
    assert(wf_record(data, r.0, r.1));
    lemma_record_unique(data, r.0, r.1, out, inc);
    assert(r =~~= w);
}

/// Ids read back from a sound store are never zero: zero is the record
/// terminator, not a vertex.
pub proof fn lemma_adjacency_nonzero(db: EdgeDB, v: u32)
    requires
        db.wf(),
    ensures
        all_nonzero(db.spec_outgoing(v as int)),
        all_nonzero(db.spec_incoming(v as int)),
{
    let vi = v as int;
    if 0 <= vi < db.n_slots() && db.offset_at(vi) != 0 {
        let data = db.al_bytes().skip(db.offset_at(vi) as int);
        assert(exists|oi: (Seq<u32>, Seq<u32>)| wf_record(data, oi.0, oi.1));
        let r = spec_record(data);
        assert(wf_record(data, r.0, r.1));
    }
}

/// The two neighbour lists of one vertex.
#[derive(Debug)]
pub struct AdjacencyList {
    pub outgoing: Vec<u32>,
    pub incoming: Vec<u32>,
}

impl AdjacencyList {
    /// Decodes the record at the head of `data`.
    pub fn read(data: &[u8]) -> (r: AdjacencyList)
        requires
            exists|oi: (Seq<u32>, Seq<u32>)| wf_record(data@, oi.0, oi.1),
        ensures
            wf_record(data@, r.outgoing@, r.incoming@),
    {
        let ghost g: (Seq<u32>, Seq<u32>) = choose|oi: (Seq<u32>, Seq<u32>)|
            wf_record(data@, oi.0, oi.1);
        let dlen = data.len();
        let mut outgoing: Vec<u32> = Vec::new();
        let mut incoming: Vec<u32> = Vec::new();
        let mut i: usize = 0;
        loop
            invariant_except_break
                wf_record(data@, g.0, g.1),
                dlen == data@.len(),
                i <= g.0.len(),
                outgoing@ == g.0.take(i as int),
                incoming@.len() == 0,
            ensures
                outgoing@ == g.0,
                incoming@.len() == 0,
                wf_record(data@, g.0, g.1),
            decreases g.0.len() - i,
        {
            assert(4 + 4 * i + 4 <= dlen);
            let pos = 4 + 4 * i;
            let w = u32_from_le_bytes(slice_subrange(data, pos, pos + 4));
            proof {
                assert(data@.subrange(pos as int, pos as int + 4) =~= data@.subrange(
                    4 * (1 + i as int),
                    4 * (1 + i as int) + 4,
                ));
            }
            if w == 0 {
                proof {
                    if i < g.0.len() {
                        assert(word_at(data@, 1 + i as int) == g.0[i as int]);
                        assert(false);
                    }
                    assert(outgoing@ =~= g.0);
                }
                break;
            }
            proof {
                if i == g.0.len() {
                    assert(word_at(data@, 1 + i as int) == 0u32);
                    assert(false);
                }
                assert(g.0.take(i as int).push(g.0[i as int]) =~= g.0.take(i as int + 1));
            }
            outgoing.push(w);
            i += 1;
        }
        let olen = outgoing.len();
        let mut j: usize = 0;
        loop
            invariant_except_break
                wf_record(data@, g.0, g.1),
                outgoing@ == g.0,
                olen == g.0.len(),
                dlen == data@.len(),
                j <= g.1.len(),
                incoming@ == g.1.take(j as int),
            ensures
                outgoing@ == g.0,
                incoming@ == g.1,
                wf_record(data@, g.0, g.1),
            decreases g.1.len() - j,
        {
            assert(8 + 4 * olen + 4 * j + 4 <= dlen);
            let pos = 8 + 4 * olen + 4 * j;
            let w = u32_from_le_bytes(slice_subrange(data, pos, pos + 4));
            proof {
                assert(data@.subrange(pos as int, pos as int + 4) =~= data@.subrange(
                    4 * (2 + olen as int + j as int),
                    4 * (2 + olen as int + j as int) + 4,
                ));
            }
            if w == 0 {
                proof {
                    if j < g.1.len() {
                        assert(word_at(data@, 2 + olen as int + j as int) == g.1[j as int]);
                        assert(false);
                    }
                    assert(incoming@ =~= g.1);
                }
                break;
            }
            proof {
                if j == g.1.len() {
                    assert(word_at(data@, 2 + olen as int + j as int) == 0u32);
                    assert(false);
                }
                assert(g.1.take(j as int).push(g.1[j as int]) =~= g.1.take(j as int + 1));
            }
            incoming.push(w);
            j += 1;
        }
        AdjacencyList { outgoing, incoming }
    }

    /// True when the vertex has neither outgoing nor incoming neighbours.
    pub fn is_empty(&self) -> (r: bool)
        ensures
            r == (self.outgoing@.len() == 0 && self.incoming@.len() == 0),
    {
        self.incoming.len() == 0 && self.outgoing.len() == 0
    }
}

/// The query-side adjacency store: both files mapped read-only.
pub struct EdgeDB {
    vertex_al: memmap2::Mmap,
    vertex_al_ix: memmap2::Mmap,
}

impl EdgeDB {
    /// The adjacency file's bytes.
    pub closed spec fn al_bytes(self) -> Seq<u8> {
        mmap_bytes(self.vertex_al)
    }

    /// The index file's bytes.
    pub closed spec fn ix_bytes(self) -> Seq<u8> {
        mmap_bytes(self.vertex_al_ix)
    }

    /// How many vertex slots the index file holds.
    pub open spec fn n_slots(self) -> int {
        self.ix_bytes().len() as int / 8
    }

    /// The byte offset recorded for vertex `v`.
    pub open spec fn offset_at(self, v: int) -> u64 {
        store_offset(self.ix_bytes(), v)
    }

    /// Both files are non-empty and whole multiples of their record sizes.
    pub open spec fn sizes_ok(self) -> bool {
        &&& self.al_bytes().len() > 0
        &&& self.al_bytes().len() % 4 == 0
        &&& self.ix_bytes().len() > 0
        &&& self.ix_bytes().len() % 8 == 0
    }

    /// Every index entry stays within the adjacency file.
    pub open spec fn offsets_ok(self) -> bool {
        forall|v: int|
            0 <= v < self.n_slots() ==> #[trigger] self.offset_at(v) + 4 <= self.al_bytes().len()
    }

    /// Every non-zero index entry points at a well-formed record.
    pub open spec fn records_ok(self) -> bool {
        forall|v: int|
            0 <= v < self.n_slots() && #[trigger] self.offset_at(v) != 0 ==> exists|
                oi: (Seq<u32>, Seq<u32>),
            | wf_record(self.al_bytes().skip(self.offset_at(v) as int), oi.0, oi.1)
    }

    /// A sound store: sizes, offsets and records all in order.
    pub open spec fn wf(self) -> bool {
        &&& self.sizes_ok()
        &&& self.offsets_ok()
        &&& self.records_ok()
    }

    /// The neighbour lists stored for vertex `v`: empty outside the index
    /// range and for a zero index entry.
    pub open spec fn spec_adjacency(self, v: int) -> (Seq<u32>, Seq<u32>) {
        if 0 <= v < self.n_slots() && self.offset_at(v) != 0 {
            spec_record(self.al_bytes().skip(self.offset_at(v) as int))
        } else {
            (Seq::<u32>::empty(), Seq::<u32>::empty())
        }
    }

    /// The outgoing neighbours of `v`.
    pub open spec fn spec_outgoing(self, v: int) -> Seq<u32> {
        self.spec_adjacency(v).0
    }

    /// The incoming neighbours of `v`.
    pub open spec fn spec_incoming(self, v: int) -> Seq<u32> {
        self.spec_adjacency(v).1
    }

    /// The store holds a link from `u` to `v`.
    pub open spec fn has_edge(self, u: u32, v: u32) -> bool {
        self.spec_outgoing(u as int).contains(v)
    }

    /// The outgoing and incoming sides tell the same story: `u` lists `v`
    /// as outgoing exactly when `v` lists `u` as incoming.
    pub open spec fn consistent(self) -> bool {
        forall|u: u32, v: u32|
            #[trigger] self.spec_incoming(v as int).contains(u) <==> #[trigger] self.spec_outgoing(
                u as int,
            ).contains(v)
    }

    /// Wraps two mapped files as a store.
    pub fn new(vertex_al: memmap2::Mmap, vertex_al_ix: memmap2::Mmap) -> (r: EdgeDB)
        ensures
            r.al_bytes() == mmap_bytes(vertex_al),
            r.ix_bytes() == mmap_bytes(vertex_al_ix),
    {
        EdgeDB { vertex_al, vertex_al_ix }
    }

    /// The neighbour lists of `vertex_id`; empty for ids outside the index
    /// and for vertices without a record.
    pub fn read_edges(&self, vertex_id: u32) -> (r: AdjacencyList)
        requires
            self.wf(),
        ensures
            r.outgoing@ == self.spec_outgoing(vertex_id as int),
            r.incoming@ == self.spec_incoming(vertex_id as int),
    {
        let ix_len = mmap_len(&self.vertex_al_ix);
        let vid = vertex_id as usize;
        if vid >= ix_len / 8 {
            return AdjacencyList { outgoing: Vec::new(), incoming: Vec::new() };
        }
        let index_offset = 8 * vid;
        let entry = mmap_slice(&self.vertex_al_ix, index_offset, index_offset + 8);
        let offset64 = u64_from_le_bytes(entry);
        proof {
            assert(offset64 == self.offset_at(vid as int));
        }
        if offset64 == 0 {
            return AdjacencyList { outgoing: Vec::new(), incoming: Vec::new() };
        }
        let al_len = mmap_len(&self.vertex_al);
        assert(offset64 + 4 <= al_len);
        let offset = offset64 as usize;
        let data = mmap_slice(&self.vertex_al, offset, al_len);
        let r = AdjacencyList::read(data);
        proof {
            let g = self.spec_adjacency(vid as int);
            lemma_record_unique(data@, r.outgoing@, r.incoming@, g.0, g.1);
        }
        r
    }

    /// Size integrity of the two files, as checked once at open.
    pub fn check_sizes(&self) -> (r: bool)
        ensures
            r == self.sizes_ok(),
    {
        let al_size = mmap_len(&self.vertex_al);
        let al_ix_size = mmap_len(&self.vertex_al_ix);
        al_size > 0 && al_ix_size > 0 && al_size % 4 == 0 && al_ix_size % 8 == 0
    }

    /// Index integrity: every entry points within the adjacency file,
    /// leaving room for at least the magic word.
    pub fn check_ix(&self) -> (r: bool)
        requires
            self.sizes_ok(),
        ensures
            r == self.offsets_ok(),
    {
        let al_len = mmap_len(&self.vertex_al);
        let ix_len = mmap_len(&self.vertex_al_ix);
        let max_sz = (al_len - 4) as u64;
        let n = ix_len / 8;
        let mut v: usize = 0;
        while v < n
            invariant
                self.sizes_ok(),
                n == self.n_slots(),
                al_len == self.al_bytes().len(),
                ix_len == self.ix_bytes().len(),
                max_sz == al_len - 4,
                v <= n,
                forall|k: int| 0 <= k < v ==> #[trigger] self.offset_at(k) + 4 <= al_len,
            decreases n - v,
        {
            let entry = mmap_slice(&self.vertex_al_ix, 8 * v, 8 * v + 8);
            let value = u64_from_le_bytes(entry);
            if value > max_sz {
                proof {
                    assert(value == self.offset_at(v as int));
                    assert(self.offset_at(v as int) + 4 > al_len);
                }
                return false;
            }
            v += 1;
        }
        true
    }

    /// Record integrity: every non-zero index entry points at a framed
    /// record, magic word first and both terminators inside the file.
    pub fn check_records(&self) -> (r: bool)
        requires
            self.sizes_ok(),
            self.offsets_ok(),
        ensures
            r == self.records_ok(),
    {
        let al_len = mmap_len(&self.vertex_al);
        let ix_len = mmap_len(&self.vertex_al_ix);
        let n = ix_len / 8;
        let mut v: usize = 0;
        while v < n
            invariant
                self.sizes_ok(),
                self.offsets_ok(),
                n == self.n_slots(),
                al_len == self.al_bytes().len(),
                ix_len == self.ix_bytes().len(),
                v <= n,
                forall|k: int|
                    0 <= k < v && #[trigger] self.offset_at(k) != 0 ==> exists|
                        oi: (Seq<u32>, Seq<u32>),
                    | wf_record(self.al_bytes().skip(self.offset_at(k) as int), oi.0, oi.1),
            decreases n - v,
        {
            let entry = mmap_slice(&self.vertex_al_ix, 8 * v, 8 * v + 8);
            let offset64 = u64_from_le_bytes(entry);
            proof {
                assert(offset64 == self.offset_at(v as int));
            }
            if offset64 != 0 {
                let offset = offset64 as usize;
                let data = mmap_slice(&self.vertex_al, offset, al_len);
                if !check_record_head(data) {
                    return false;
                }
            }
            v += 1;
        }
        true
    }

    /// Runs every integrity check the reader's contracts rest on: sizes,
    /// index bounds, and record framing.
    pub fn check_db(&self) -> (r: bool)
        ensures
            r == (self.sizes_ok() && self.offsets_ok() && self.records_ok()),
            r ==> self.wf(),
    {
        if !self.check_sizes() {
            return false;
        }
        if !self.check_ix() {
            return false;
        }
        self.check_records()
    }

}

/// Scans the record frame at the head of `data`: the magic word, a run of
/// non-zero words, a terminator, another run, another terminator. Exactly
/// the buffers holding such a frame pass.
fn check_record_head(data: &[u8]) -> (r: bool)
    ensures
        r == exists|oi: (Seq<u32>, Seq<u32>)| wf_record(data@, oi.0, oi.1),
{
    let dlen = data.len();
    if dlen < 12 {
        proof {
            assert forall|oi: (Seq<u32>, Seq<u32>)| !wf_record(data@, oi.0, oi.1) by {}
        }
        return false;
    }
    let magic = u32_from_le_bytes(slice_subrange(data, 0, 4));
    proof {
        assert(data@.subrange(0, 4) =~= data@.subrange(4 * 0int, 4 * 0int + 4));
    }
    if magic != ADJACENCY_MAGIC {
        proof {
            assert forall|oi: (Seq<u32>, Seq<u32>)| !wf_record(data@, oi.0, oi.1) by {
                if wf_record(data@, oi.0, oi.1) {
                    assert(word_at(data@, 0) == ADJACENCY_MAGIC);
                }
            }
        }
        return false;
    }
    let mut terms: usize = 0;
    let mut k: usize = 1;
    let ghost mut out: Seq<u32> = Seq::empty();
    let ghost mut inc: Seq<u32> = Seq::empty();
    while terms < 2
        invariant_except_break
            dlen == data@.len(),
            dlen >= 12,
            word_at(data@, 0) == ADJACENCY_MAGIC,
            terms <= 1,
            1 <= k,
            4 * k <= dlen + 4,
            all_nonzero(out),
            all_nonzero(inc),
            terms == 0 ==> k == 1 + out.len() && inc.len() == 0 && forall|j: int|
                0 <= j < out.len() ==> word_at(data@, 1 + j) == out[j],
            terms == 1 ==> k == 2 + out.len() + inc.len() && word_at(data@, 1 + out.len() as int)
                == 0u32 && (forall|j: int|
                0 <= j < out.len() ==> word_at(data@, 1 + j) == out[j]) && (forall|j: int|
                0 <= j < inc.len() ==> word_at(data@, 2 + out.len() as int + j) == inc[j]),
        ensures
            dlen == data@.len(),
            wf_record(data@, out, inc),
        decreases 2 - terms, dlen - 4 * k + 4,
    {
        if k > (dlen - 4) / 4 {
            proof {
                assert(4 * k + 4 > dlen);
                lemma_scan_refutes(data@, out, inc, terms as int);
            }
            return false;
        }
        proof {
            assert(4 * k + 4 <= dlen);
        }
        let w = u32_from_le_bytes(slice_subrange(data, 4 * k, 4 * k + 4));
        proof {
            assert(data@.subrange(4 * k as int, 4 * k as int + 4) =~= data@.subrange(
                4 * (k as int),
                4 * (k as int) + 4,
            ));
        }
        if w == 0 {
            terms += 1;
            if terms == 2 {
                proof {
                    assert(wf_record(data@, out, inc)) by {
                        assert(word_at(data@, 2 + out.len() as int + inc.len() as int) == 0u32);
                        assert(4 * (out.len() + inc.len() + 3) <= dlen);
                    }
                }
                k += 1;
                break;
            }
        } else {
            proof {
                if terms == 0 {
                    out = out.push(w);
                    assert forall|j: int| 0 <= j < out.len() implies word_at(data@, 1 + j)
                        == out[j] by {
                        if j < out.len() - 1 {
                            assert(word_at(data@, 1 + j) == out.drop_last()[j]);
                        }
                    }
                } else {
                    inc = inc.push(w);
                    assert forall|j: int| 0 <= j < inc.len() implies word_at(
                        data@,
                        2 + out.len() as int + j,
                    ) == inc[j] by {
                        if j < inc.len() - 1 {
                            assert(word_at(data@, 2 + out.len() as int + j)
                                == inc.drop_last()[j]);
                        }
                    }
                }
            }
        }
        k += 1;
    }
    proof {
        assert(exists|oi: (Seq<u32>, Seq<u32>)| wf_record(data@, oi.0, oi.1)) by {
            let w: (Seq<u32>, Seq<u32>) = (out, inc);
            assert(wf_record(data@, w.0, w.1));
        }
    }
    true
}

/// A scan that runs off the end refutes every candidate record: whatever
/// a well-formed record's lists were, they would have to extend the words
/// scanned so far and still fit the buffer.
proof fn lemma_scan_refutes(
    data: Seq<u8>,
    out: Seq<u32>,
    inc: Seq<u32>,
    terms: int,
)
    requires
        all_nonzero(out),
        all_nonzero(inc),
        terms == 0 || terms == 1,
        terms == 0 ==> inc.len() == 0 && (forall|j: int|
            0 <= j < out.len() ==> word_at(data, 1 + j) == out[j]) && 4 * (1 + out.len())
            + 4 > data.len(),
        terms == 1 ==> word_at(data, 1 + out.len() as int) == 0u32 && (forall|j: int|
            0 <= j < out.len() ==> word_at(data, 1 + j) == out[j]) && (forall|j: int|
            0 <= j < inc.len() ==> word_at(data, 2 + out.len() as int + j) == inc[j]) && 4 * (2
            + out.len() + inc.len()) + 4 > data.len(),
    ensures
        forall|oi: (Seq<u32>, Seq<u32>)| !wf_record(data, oi.0, oi.1),
{
    assert forall|oi: (Seq<u32>, Seq<u32>)| !wf_record(data, oi.0, oi.1) by {
        if wf_record(data, oi.0, oi.1) {
            let o2 = oi.0;
            let i2 = oi.1;
            if terms == 0 {
                // the candidate's first terminator would sit inside the
                // scanned run of non-zero words, or past the buffer
                if o2.len() < out.len() {
                    assert(word_at(data, 1 + o2.len() as int) == out[o2.len() as int]);
                    assert(word_at(data, 1 + o2.len() as int) == 0u32);
                } else {
                    assert(4 * (o2.len() + i2.len() + 3) <= data.len());
                }
            } else {
                if o2.len() < out.len() {
                    assert(word_at(data, 1 + o2.len() as int) == out[o2.len() as int]);
                    assert(word_at(data, 1 + o2.len() as int) == 0u32);
                } else if o2.len() > out.len() {
                    assert(word_at(data, 1 + out.len() as int) == o2[out.len() as int]);
                } else {
                    if i2.len() < inc.len() {
                        assert(word_at(data, 2 + o2.len() as int + i2.len() as int) == 0u32);
                        assert(word_at(data, 2 + out.len() as int + i2.len() as int)
                            == inc[i2.len() as int]);
                    } else {
                        assert(4 * (o2.len() + i2.len() + 3) <= data.len());
                    }
                }
            }
            assert(false);
        }
    }
}

} // verus!
