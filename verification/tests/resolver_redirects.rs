//! Link resolution: titles to ids, redirects rewritten, missing rows dropped.

use wikiwalk::{Edge, Vertex, WPPageLink};
use wikiwalk::bfs::breadth_first_search;
use wikiwalk::edge_db::EdgeDB;
use wikiwalk::edge_db_builder::{build_adjacency_data, EdgeProcDB, EdgeSort};
use wikiwalk::redirect::RedirectMap;
use wikiwalk::resolver::lookup_batch;
use wikiwalk::dbstatus::parse_dump_date;

fn vertex(id: u32, title: &str, is_redirect: bool) -> Vertex {
    Vertex { id, title: String::from(title), is_redirect }
}

fn link(source: u32, title: &str) -> WPPageLink {
    WPPageLink { source_page_id: source, dest_page_title: String::from(title) }
}

fn mmap_of(bytes: &[u8]) -> memmap2::Mmap {
    let mut m = memmap2::MmapMut::map_anon(bytes.len().max(1)).expect("anon map");
    m[..bytes.len()].copy_from_slice(bytes);
    m.make_read_only().expect("make read only")
}

#[test]
fn redirect_map_get_set() {
    let mut rm = RedirectMap::new(10);
    assert_eq!(rm.len(), 11);
    assert_eq!(rm.get(3), None);
    rm.set(3, 7);
    assert_eq!(rm.get(3), Some(7));
    // out-of-range ids are ignored on write and unknown on read
    rm.set(100, 9);
    assert_eq!(rm.get(100), None);
    // zero means "no redirect"
    rm.set(3, 0);
    assert_eq!(rm.get(3), None);
}

#[test]
fn redirect_file_round_trip() {
    let mut rm = RedirectMap::new(4);
    rm.set(1, 4);
    rm.set(2, 3);
    let bytes = rm.to_bytes();
    assert_eq!(bytes.len(), 4 * 5);
    let back = RedirectMap::from_bytes(&bytes);
    assert_eq!(back.len(), 5);
    assert_eq!(back.get(1), Some(4));
    assert_eq!(back.get(2), Some(3));
    assert_eq!(back.get(0), None);
}

#[test]
fn redirect_rows_apply_by_destination_title() {
    let vertexes = vec![vertex(1, "Alpha", false), vertex(2, "Beta", false), vertex(9, "R", true)];
    let mut rm = RedirectMap::new(10);
    let rows = vec![
        (9, String::from("Beta")),
        (5, String::from("No Such Page")),
        (200, String::from("Alpha")),
    ];
    let applied = rm.apply_rows(&rows, &vertexes);
    // the out-of-range source slot is silently dropped by the map itself,
    // so two rows resolve but only one lands in the table
    assert_eq!(applied, 2);
    assert_eq!(rm.get(9), Some(2));
    assert_eq!(rm.get(5), None);
    assert_eq!(rm.get(200), None);
}

#[test]
fn dump_dates_name_real_days() {
    assert_eq!(parse_dump_date("20240601"), Some((2024, 6, 1)));
    assert_eq!(parse_dump_date("20240229"), Some((2024, 2, 29)));
    assert_eq!(parse_dump_date("20230229"), None);
    assert_eq!(parse_dump_date("20241301"), None);
    assert_eq!(parse_dump_date("20240632"), None);
    assert_eq!(parse_dump_date("2024060"), None);
    assert_eq!(parse_dump_date("2024-6-1"), None);
    assert_eq!(parse_dump_date("current"), None);
}

#[test]
fn plain_titles_resolve_to_their_ids() {
    let vertexes = vec![vertex(1, "Alpha", false), vertex(2, "Beta", false)];
    let rm = RedirectMap::new(10);
    let q = vec![link(1, "Beta"), link(2, "Alpha"), link(1, "Missing")];
    let batch = lookup_batch(&q, &vertexes, &rm);
    assert_eq!(
        batch.edges,
        vec![
            Edge { source_vertex_id: 1, dest_vertex_id: 2 },
            Edge { source_vertex_id: 2, dest_vertex_id: 1 },
        ]
    );
    assert!(batch.redirect_failures.is_empty());
}

#[test]
fn redirect_titles_are_rewritten_to_their_target() {
    // R (id 9) redirects to B (id 2): a link to "R" becomes an edge to 2,
    // and 9 never appears as an endpoint.
    let vertexes = vec![vertex(2, "B", false), vertex(9, "R", true)];
    let mut rm = RedirectMap::new(10);
    rm.set(9, 2);
    let q = vec![link(1, "R")];
    let batch = lookup_batch(&q, &vertexes, &rm);
    assert_eq!(batch.edges, vec![Edge { source_vertex_id: 1, dest_vertex_id: 2 }]);
    for e in &batch.edges {
        assert_ne!(e.dest_vertex_id, 9);
    }
    assert!(batch.redirect_failures.is_empty());
}

#[test]
fn redirect_to_deleted_page_is_dropped_with_a_failure_row() {
    // R (id 9) is marked as a redirect but has no recorded target
    let vertexes = vec![vertex(2, "B", false), vertex(9, "R", true)];
    let rm = RedirectMap::new(10);
    let q = vec![link(1, "R"), link(1, "B")];
    let batch = lookup_batch(&q, &vertexes, &rm);
    assert_eq!(batch.edges, vec![Edge { source_vertex_id: 1, dest_vertex_id: 2 }]);
    assert_eq!(batch.redirect_failures.len(), 1);
    assert_eq!(batch.redirect_failures[0].id, 9);
    assert_eq!(batch.redirect_failures[0].title, "R");
}

#[test]
fn rewritten_graph_routes_through_the_redirect_target() {
    // A=1 -> R (redirect => B=2), B -> C=3: the stored edge is A->B and the
    // path goes through B; R=9 never appears.
    let vertexes = vec![
        vertex(1, "A", false),
        vertex(2, "B", false),
        vertex(3, "C", false),
        vertex(9, "R", true),
    ];
    let mut rm = RedirectMap::new(10);
    rm.set(9, 2);
    let q = vec![link(1, "R"), link(2, "C")];
    let batch = lookup_batch(&q, &vertexes, &rm);
    assert_eq!(
        batch.edges,
        vec![
            Edge { source_vertex_id: 1, dest_vertex_id: 2 },
            Edge { source_vertex_id: 2, dest_vertex_id: 3 },
        ]
    );
    let mut db = EdgeProcDB::new();
    for e in &batch.edges {
        db.write_edge(e);
    }
    db.make_sort_files();
    db.write_sorted_by(EdgeSort::Outgoing);
    db.write_sorted_by(EdgeSort::Incoming);
    let (al, ix) = build_adjacency_data(&db, 9);
    let edb = EdgeDB::new(mmap_of(&al), mmap_of(&ix));
    let paths = breadth_first_search(1, 3, &edb);
    assert_eq!(paths, vec![vec![1, 2, 3]]);
    for p in &paths {
        assert!(!p.contains(&9));
    }
    assert!(edb.read_edges(9).is_empty());
}

#[test]
fn title_map_reports_resolved_ids_for_the_cache() {
    let vertexes = vec![vertex(2, "B", false), vertex(9, "R", true)];
    let mut rm = RedirectMap::new(10);
    rm.set(9, 2);
    let batch = lookup_batch(&vec![], &vertexes, &rm);
    assert_eq!(batch.title_map.get("B"), Some(&2));
    assert_eq!(batch.title_map.get("R"), Some(&2));
    assert_eq!(batch.title_map.get("X"), None);
}
