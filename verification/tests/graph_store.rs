//! The build pipeline end to end: raw edges in, sorted copies, adjacency
//! and index images, and reading everything back through the mapped store.

use wikiwalk::Edge;
use wikiwalk::edge_db::{AdjacencyList, EdgeDB, ADJACENCY_MAGIC};
use wikiwalk::edge_db_builder::{
    build_adjacency_data, write_adjacency_set, AdjacencySet, EdgeProcDB, EdgeSort,
};

fn edge(s: u32, d: u32) -> Edge {
    Edge { source_vertex_id: s, dest_vertex_id: d }
}

fn mmap_of(bytes: &[u8]) -> memmap2::Mmap {
    let mut m = memmap2::MmapMut::map_anon(bytes.len().max(1)).expect("anon map");
    m[..bytes.len()].copy_from_slice(bytes);
    m.make_read_only().expect("make read only")
}

fn build_edge_db(edges: &[(u32, u32)], max_page_id: u32) -> EdgeDB {
    let mut db = EdgeProcDB::new();
    for (s, d) in edges {
        db.write_edge(&edge(*s, *d));
    }
    db.make_sort_files();
    db.write_sorted_by(EdgeSort::Outgoing);
    db.write_sorted_by(EdgeSort::Incoming);
    let (al, ix) = build_adjacency_data(&db, max_page_id);
    EdgeDB::new(mmap_of(&al), mmap_of(&ix))
}

#[test]
fn adjacency_record_round_trip() {
    let mut al: Vec<u8> = Vec::new();
    let aset = AdjacencySet {
        adjacency_list: AdjacencyList { outgoing: vec![2, 3], incoming: vec![9] },
    };
    let offset = write_adjacency_set(&aset, &mut al);
    assert_eq!(offset, 0);
    assert_eq!(al.len(), 4 * 6);
    assert_eq!(&al[0..4], &ADJACENCY_MAGIC.to_le_bytes());
    let back = AdjacencyList::read(&al);
    assert_eq!(back.outgoing, vec![2, 3]);
    assert_eq!(back.incoming, vec![9]);
    assert!(!back.is_empty());
}

#[test]
fn empty_adjacency_set_writes_nothing() {
    let mut al: Vec<u8> = vec![1, 2, 3, 4];
    let aset = AdjacencySet {
        adjacency_list: AdjacencyList { outgoing: vec![], incoming: vec![] },
    };
    let offset = write_adjacency_set(&aset, &mut al);
    assert_eq!(offset, 0);
    assert_eq!(al, vec![1, 2, 3, 4]);
    let empty = AdjacencyList { outgoing: vec![], incoming: vec![] };
    assert!(empty.is_empty());
}

#[test]
fn edge_codec_round_trip() {
    let e = edge(0x01020304, 0xCAFEBABE);
    let bytes = e.to_bytes();
    assert_eq!(bytes.len(), 8);
    let back = Edge::from_bytes(&bytes);
    assert_eq!(back, e);
}

#[test]
fn sorting_preserves_edge_multiset() {
    let input = vec![(5, 1), (1, 5), (3, 3), (1, 2), (5, 1)];
    let mut db = EdgeProcDB::new();
    for (s, d) in &input {
        db.write_edge(&edge(*s, *d));
    }
    let raw = db.edges_bytes();
    assert_eq!(raw.len(), 8 * input.len());
    db.make_sort_files();
    db.write_sorted_by(EdgeSort::Outgoing);
    db.write_sorted_by(EdgeSort::Incoming);
    // The same five edges must come back out of the merge, redistributed
    // per vertex: count them through the built store.
    let gdb = build_edge_db(&input, 6);
    let mut seen: Vec<(u32, u32)> = Vec::new();
    for v in 0..=6u32 {
        let al = gdb.read_edges(v);
        for d in al.outgoing {
            seen.push((v, d));
        }
    }
    let mut expected = input.clone();
    expected.sort_unstable();
    seen.sort_unstable();
    assert_eq!(seen, expected);
}

#[test]
fn build_then_read_back_yields_input_edges() {
    // A small synthetic graph, read back edge for edge on both sides.
    let edges = vec![(1, 2), (1, 3), (2, 4), (3, 4), (4, 1)];
    let max_page_id = 5u32;
    let db = build_edge_db(&edges, max_page_id);
    assert!(db.check_db());
    for v in 0..=max_page_id {
        let al = db.read_edges(v);
        let mut expected_out: Vec<u32> = edges
            .iter()
            .filter(|(s, _)| *s == v)
            .map(|(_, d)| *d)
            .collect();
        let mut expected_in: Vec<u32> = edges
            .iter()
            .filter(|(_, d)| *d == v)
            .map(|(s, _)| *s)
            .collect();
        let mut got_out = al.outgoing.clone();
        let mut got_in = al.incoming.clone();
        expected_out.sort_unstable();
        expected_in.sort_unstable();
        got_out.sort_unstable();
        got_in.sort_unstable();
        assert_eq!(got_out, expected_out, "outgoing of {v}");
        assert_eq!(got_in, expected_in, "incoming of {v}");
    }
}

#[test]
fn index_has_one_entry_per_vertex_and_bounded_offsets() {
    let edges = vec![(1, 2), (3, 1)];
    let max_page_id = 7u32;
    let mut db = EdgeProcDB::new();
    for (s, d) in &edges {
        db.write_edge(&edge(*s, *d));
    }
    db.make_sort_files();
    db.write_sorted_by(EdgeSort::Outgoing);
    db.write_sorted_by(EdgeSort::Incoming);
    let (al, ix) = build_adjacency_data(&db, max_page_id);
    assert_eq!(ix.len(), 8 * (max_page_id as usize + 1));
    for v in 0..=max_page_id as usize {
        let entry = u64::from_le_bytes(ix[8 * v..8 * v + 8].try_into().unwrap());
        assert!(entry == 0 || entry < al.len() as u64, "offset of {v}");
    }
    // vertex 0 never exists, vertices without edges get entry 0
    let e0 = u64::from_le_bytes(ix[0..8].try_into().unwrap());
    assert_eq!(e0, 0);
    let e5 = u64::from_le_bytes(ix[40..48].try_into().unwrap());
    assert_eq!(e5, 0);
}

#[test]
fn isolated_vertex_reads_empty() {
    let edges = vec![(1, 2)];
    let db = build_edge_db(&edges, 4);
    let al = db.read_edges(3);
    assert!(al.is_empty());
    // out-of-range ids also come back empty rather than failing
    let far = db.read_edges(4_000_000);
    assert!(far.is_empty());
}

#[test]
fn truncate_drops_written_edges() {
    let mut db = EdgeProcDB::new();
    db.write_edge(&edge(1, 2));
    db.write_fail(7, String::from("Missing Page"));
    let db = db.truncate();
    let raw = db.edges_bytes();
    assert_eq!(raw.len(), 0);
}

#[test]
fn size_checks_reject_bad_files() {
    let db = EdgeDB::new(mmap_of(&[0u8; 7]), mmap_of(&[0u8; 16]));
    assert!(!db.check_sizes());
    let db2 = EdgeDB::new(mmap_of(&[0u8; 8]), mmap_of(&[0u8; 12]));
    assert!(!db2.check_sizes());
    let db3 = EdgeDB::new(mmap_of(&[0u8; 8]), mmap_of(&[0u8; 16]));
    assert!(db3.check_sizes());
}

#[test]
fn record_check_rejects_missing_magic() {
    // index points into the file, but no magic word is there
    let mut al = vec![0u8; 12];
    al[0..4].copy_from_slice(&ADJACENCY_MAGIC.to_le_bytes());
    let mut ix = vec![0u8; 8];
    ix[0..8].copy_from_slice(&4u64.to_le_bytes());
    let db = EdgeDB::new(mmap_of(&al), mmap_of(&ix));
    assert!(db.check_sizes());
    assert!(db.check_ix());
    assert!(!db.check_records());
    assert!(!db.check_db());
    // a record frame in place passes
    let edges = vec![(1u32, 2u32)];
    let good = build_edge_db(&edges, 2);
    assert!(good.check_db());
}

#[test]
fn index_check_rejects_oversize_offset() {
    // an index entry pointing past the adjacency file must be refused
    let al = vec![0u8; 8];
    let mut ix = vec![0u8; 16];
    ix[8..16].copy_from_slice(&100u64.to_le_bytes());
    let db = EdgeDB::new(mmap_of(&al), mmap_of(&ix));
    assert!(db.check_sizes());
    assert!(!db.check_ix());
    assert!(!db.check_db());
}
