//! Path queries over small synthetic graphs.

use wikiwalk::Edge;
use wikiwalk::bfs::breadth_first_search;
use wikiwalk::edge_db::EdgeDB;
use wikiwalk::edge_db_builder::{build_adjacency_data, EdgeProcDB, EdgeSort};

fn mmap_of(bytes: &[u8]) -> memmap2::Mmap {
    let mut m = memmap2::MmapMut::map_anon(bytes.len().max(1)).expect("anon map");
    m[..bytes.len()].copy_from_slice(bytes);
    m.make_read_only().expect("make read only")
}

fn build_edge_db(edges: &[(u32, u32)], max_page_id: u32) -> EdgeDB {
    let mut db = EdgeProcDB::new();
    for (s, d) in edges {
        db.write_edge(&Edge { source_vertex_id: *s, dest_vertex_id: *d });
    }
    db.make_sort_files();
    db.write_sorted_by(EdgeSort::Outgoing);
    db.write_sorted_by(EdgeSort::Incoming);
    let (al, ix) = build_adjacency_data(&db, max_page_id);
    EdgeDB::new(mmap_of(&al), mmap_of(&ix))
}

fn sorted(mut paths: Vec<Vec<u32>>) -> Vec<Vec<u32>> {
    paths.sort();
    paths
}

#[test]
fn chain_has_single_path_and_no_way_back() {
    // A=1, B=2, C=3 with A->B, B->C
    let db = build_edge_db(&[(1, 2), (2, 3)], 3);
    let forward = breadth_first_search(1, 3, &db);
    assert_eq!(forward, vec![vec![1, 2, 3]]);
    let backward = breadth_first_search(3, 1, &db);
    assert!(backward.is_empty());
}

#[test]
fn diamond_returns_both_shortest_paths() {
    // A=1, B=2, C=3, D=4 with A->B, A->C, B->D, C->D
    let db = build_edge_db(&[(1, 2), (1, 3), (2, 4), (3, 4)], 4);
    let paths = sorted(breadth_first_search(1, 4, &db));
    assert_eq!(paths, vec![vec![1, 2, 4], vec![1, 3, 4]]);
}

#[test]
fn two_cycle_short_queries() {
    // A=1, B=2 with A->B, B->A
    let db = build_edge_db(&[(1, 2), (2, 1)], 2);
    assert_eq!(breadth_first_search(1, 1, &db), vec![vec![1]]);
    assert_eq!(breadth_first_search(1, 2, &db), vec![vec![1, 2]]);
}

#[test]
fn unequal_diamond_returns_only_the_short_path() {
    // A=1, B=2, C=3, D=4, E=5 with A->B->D and A->C->E->D
    let db = build_edge_db(&[(1, 2), (2, 4), (1, 3), (3, 5), (5, 4)], 5);
    let paths = breadth_first_search(1, 4, &db);
    assert_eq!(paths, vec![vec![1, 2, 4]]);
}

#[test]
fn disconnected_components_have_no_path() {
    // 1->2 and 3->4 in separate components
    let db = build_edge_db(&[(1, 2), (3, 4)], 4);
    assert!(breadth_first_search(1, 4, &db).is_empty());
    assert!(breadth_first_search(2, 3, &db).is_empty());
}

#[test]
fn isolated_vertex_reaches_nothing() {
    let db = build_edge_db(&[(1, 2)], 5);
    assert!(db.read_edges(4).is_empty());
    assert!(breadth_first_search(4, 1, &db).is_empty());
    assert!(breadth_first_search(1, 4, &db).is_empty());
}

#[test]
fn self_loop_still_yields_single_vertex_path() {
    let db = build_edge_db(&[(1, 1), (1, 2)], 2);
    assert_eq!(breadth_first_search(1, 1, &db), vec![vec![1]]);
}

#[test]
fn all_returned_paths_share_one_length() {
    // two routes of length 3 and one of length 4 between 1 and 6
    let db = build_edge_db(&[(1, 2), (2, 6), (1, 3), (3, 6), (1, 4), (4, 5), (5, 6)], 6);
    let paths = breadth_first_search(1, 6, &db);
    assert_eq!(paths.len(), 2);
    for p in &paths {
        assert_eq!(p.len(), 3);
        assert_eq!(p[0], 1);
        assert_eq!(*p.last().unwrap(), 6);
    }
}

#[test]
fn search_is_symmetric_on_path_lengths_and_reversal() {
    // on a graph whose edges all come in both directions, the search is
    // symmetric; with one-way edges it cannot be
    let edges = [
        (1, 2),
        (2, 1),
        (2, 6),
        (6, 2),
        (1, 3),
        (3, 1),
        (3, 6),
        (6, 3),
        (4, 1),
        (1, 4),
        (6, 4),
        (4, 6),
    ];
    let db = build_edge_db(&edges, 6);
    let forward = sorted(breadth_first_search(1, 6, &db));
    let mut reversed: Vec<Vec<u32>> = breadth_first_search(6, 1, &db)
        .into_iter()
        .map(|mut p| {
            p.reverse();
            p
        })
        .collect();
    reversed.sort();
    // every backward path is the reverse of some forward path, and the
    // multiset of lengths agrees
    let flens: Vec<usize> = forward.iter().map(|p| p.len()).collect();
    let rlens: Vec<usize> = reversed.iter().map(|p| p.len()).collect();
    assert_eq!(flens, rlens);
    for p in &reversed {
        assert!(forward.contains(p), "missing reverse of {p:?}");
    }
}

#[test]
fn longer_chain_via_graphdb_facade() {
    let db = build_edge_db(&[(1, 2), (2, 3), (3, 4)], 4);
    let gdb = wikiwalk::GraphDB::new(
        vec![
            wikiwalk::Vertex { id: 1, title: String::from("Alpha"), is_redirect: false },
            wikiwalk::Vertex { id: 2, title: String::from("Beta"), is_redirect: false },
            wikiwalk::Vertex { id: 3, title: String::from("Gamma"), is_redirect: false },
            wikiwalk::Vertex { id: 4, title: String::from("Delta"), is_redirect: false },
        ],
        db,
    );
    let v = gdb.find_vertex_by_title("Gamma").expect("find Gamma");
    assert_eq!(v.id, 3);
    assert!(!v.is_redirect);
    assert!(gdb.find_vertex_by_title("Missing").is_none());
    let by_id = gdb.find_vertex_by_id(2).expect("find id 2");
    assert_eq!(by_id.title, "Beta");
    assert!(gdb.find_vertex_by_id(9).is_none());
    assert_eq!(gdb.bfs(1, 4), vec![vec![1, 2, 3, 4]]);
}
