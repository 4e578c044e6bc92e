//! Titles, languages, filesystem layout, dump feed records, the build
//! ledger, and the dump line framing.

use std::io::Write;

use wikiwalk::dbstatus::{BuildPhase, DBStatus};
use wikiwalk::dump::dump_insert_lines;
use wikiwalk::errors::WikiwalkError;
use wikiwalk::fetch::{absolute_dump_url, url_date_segment, DumpFile, DumpFileInfo, JobStatus, Jobs};
use wikiwalk::languages::WikiLanguage;
use wikiwalk::paths::Paths;
use wikiwalk::querylog::{make_path_record, paths_json};
use wikiwalk::text::{canonicalize_title, str_eq, u32_to_string};
use wikiwalk::version::VersionInfo;

#[test]
fn string_helpers() {
    assert!(str_eq("Graph", "Graph"));
    assert!(!str_eq("Graph", "Graphs"));
    assert!(!str_eq("Graph", "graph"));
    assert_eq!(canonicalize_title("Graph_theory_(math)"), "Graph theory (math)");
    assert_eq!(canonicalize_title("NoUnderscores"), "NoUnderscores");
    assert_eq!(u32_to_string(0), "0");
    assert_eq!(u32_to_string(907), "907");
    assert_eq!(u32_to_string(u32::MAX), "4294967295");
}

#[test]
fn language_codes_round_trip() {
    let langs = [
        WikiLanguage::English,
        WikiLanguage::Cebuano,
        WikiLanguage::German,
        WikiLanguage::French,
        WikiLanguage::Swedish,
        WikiLanguage::Dutch,
        WikiLanguage::Russian,
        WikiLanguage::Spanish,
        WikiLanguage::Italian,
        WikiLanguage::Polish,
        WikiLanguage::EgyptianArabic,
        WikiLanguage::Chinese,
        WikiLanguage::Japanese,
        WikiLanguage::Ukrainian,
        WikiLanguage::Vietnamese,
    ];
    for l in langs {
        assert_eq!(WikiLanguage::from_wp_code(l.wp_code()), Some(l));
    }
    assert_eq!(WikiLanguage::from_wp_code("en"), Some(WikiLanguage::English));
    assert_eq!(WikiLanguage::wp_code(&WikiLanguage::EgyptianArabic), "arz");
    assert_eq!(WikiLanguage::from_wp_code("tlh"), None);
    assert_eq!(WikiLanguage::from_wp_code(""), None);
}

#[test]
fn filesystem_layout() {
    let paths = Paths::with_base("/data/wikiwalk");
    assert_eq!(paths.path_master_database(), "/data/wikiwalk/master.db");
    let dumps = paths.dump_paths("20240601");
    assert_eq!(dumps.base, "/data/wikiwalk/dumps");
    assert_eq!(dumps.page(), "/data/wikiwalk/dumps/enwiki-20240601-page.sql.gz");
    assert_eq!(dumps.pagelinks(), "/data/wikiwalk/dumps/enwiki-20240601-pagelinks.sql.gz");
    assert_eq!(dumps.redirect(), "/data/wikiwalk/dumps/enwiki-20240601-redirect.sql.gz");
    assert_eq!(dumps.link_targets(), "/data/wikiwalk/dumps/enwiki-20240601-linktarget.sql.gz");
    let db = paths.db_paths("20240601");
    assert_eq!(db.base, "/data/wikiwalk/20240601");
    assert_eq!(db.db_status_path(), "/data/wikiwalk/20240601/status.json");
    assert_eq!(db.vertex_al_path(), "/data/wikiwalk/20240601/vertex-al");
    assert_eq!(db.vertex_al_ix_path(), "/data/wikiwalk/20240601/vertex-al-ix");
    assert_eq!(db.redirects_path(), "/data/wikiwalk/20240601/redirects");
    assert_eq!(db.graph_db(), "/data/wikiwalk/20240601/graph.db");
    assert_eq!(db.sitemaps_path(), "/data/wikiwalk/20240601/sitemaps");
    assert_eq!(db.topgraph_path(), "/data/wikiwalk/20240601/topgraph.json");
    assert_eq!(db.path_for("extra"), "/data/wikiwalk/20240601/extra");
}

fn job(status: &str) -> JobStatus {
    JobStatus {
        status: String::from(status),
        updated: String::from("2024-06-01 00:00:00"),
        files: vec![DumpFile {
            name: String::from("enwiki-20240601-redirect.sql.gz"),
            info: DumpFileInfo {
                size: 167307929,
                url: String::from("/enwiki/20240601/enwiki-20240601-redirect.sql.gz"),
                md5: String::from("SECRET-REDACTED"),
                sha1: String::from("SECRET-REDACTED"),
            },
        }],
    }
}

#[test]
fn dump_jobs_status() {
    let jobs = Jobs {
        redirect_table: job("done"),
        page_table: job("done"),
        pageprops_table: job("done"),
        pagelinks_table: job("done"),
        linktarget_table: job("done"),
    };
    assert!(jobs.done());
    assert_eq!(jobs.all().len(), 5);
    let waiting = Jobs {
        redirect_table: job("done"),
        page_table: job("waiting"),
        pageprops_table: job("done"),
        pagelinks_table: job("done"),
        linktarget_table: job("done"),
    };
    assert!(!waiting.done());
    assert!(!job("in-progress").done());
    assert_eq!(
        absolute_dump_url("/enwiki/20240601/enwiki-20240601-redirect.sql.gz"),
        "https://dumps.wikimedia.org/enwiki/20240601/enwiki-20240601-redirect.sql.gz"
    );
    // the dump date is the second path segment of each file URL
    assert_eq!(
        url_date_segment("/enwiki/20240601/enwiki-20240601-redirect.sql.gz"),
        Some(String::from("20240601"))
    );
    assert_eq!(url_date_segment("/enwiki/20240601"), Some(String::from("20240601")));
    assert_eq!(url_date_segment("no-slashes"), None);
    assert_eq!(url_date_segment("/one-slash-only"), None);
}

#[test]
fn build_ledger_phases_run_in_order() {
    let mut s = DBStatus::new(String::from("20240601"));
    assert_eq!(s.next_phase(), Some(BuildPhase::LoadVertexes));
    s.mark_complete(BuildPhase::LoadVertexes);
    assert_eq!(s.next_phase(), Some(BuildPhase::ResolveRedirects));
    s.mark_complete(BuildPhase::ResolveRedirects);
    assert_eq!(s.next_phase(), Some(BuildPhase::ResolveEdges));
    s.mark_complete(BuildPhase::ResolveEdges);
    assert_eq!(s.next_phase(), Some(BuildPhase::SortEdges));
    s.mark_complete(BuildPhase::SortEdges);
    assert_eq!(s.next_phase(), Some(BuildPhase::WriteAdjacency));
    s.mark_complete(BuildPhase::WriteAdjacency);
    assert_eq!(s.next_phase(), None);
    // marking a phase twice changes nothing
    s.mark_complete(BuildPhase::SortEdges);
    assert_eq!(s.next_phase(), None);
}

#[test]
fn build_ledger_renders_its_file() {
    let mut s = DBStatus::new(String::from("20240601"));
    s.mark_complete(BuildPhase::LoadVertexes);
    s.vertex_count = 42;
    s.edge_count = 907;
    let text = s.to_json();
    assert_eq!(
        text,
        "{\"dump_date\":\"20240601\",\"vertexes_loaded\":true,\
         \"redirects_resolved\":false,\"edges_resolved\":false,\
         \"edges_sorted\":false,\"build_complete\":false,\
         \"vertex_count\":42,\"edge_count\":907}"
    );
}

#[test]
fn dump_lines_are_inflated_and_filtered() {
    let text = "-- comment\nINSERT INTO `page` VALUES (1,0,'A');\nDROP TABLE x;\nINSERT INTO `page` VALUES (2,0,'B');\n";
    let mut enc = flate2::write::GzEncoder::new(Vec::new(), flate2::Compression::default());
    enc.write_all(text.as_bytes()).expect("compress");
    let gz = enc.finish().expect("finish gzip");
    let lines = dump_insert_lines(&gz).expect("inflate");
    assert_eq!(lines.len(), 2);
    assert_eq!(lines[0], b"INSERT INTO `page` VALUES (1,0,'A');".to_vec());
    assert_eq!(lines[1], b"INSERT INTO `page` VALUES (2,0,'B');".to_vec());
    // a corrupt stream yields nothing
    assert!(dump_insert_lines(&[1, 2, 3]).is_none());
}

#[test]
fn site_path_urls() {
    assert_eq!(wikiwalk::sitemap::path_url(42, 907), "https://wikiwalk.app/paths/42/907");
    assert_eq!(wikiwalk::sitemap::path_url(0, 1), "https://wikiwalk.app/paths/0/1");
}

#[test]
fn query_rows_render_their_paths() {
    assert_eq!(paths_json(&vec![]), "[]");
    assert_eq!(paths_json(&vec![vec![1, 2, 3]]), "[[1,2,3]]");
    assert_eq!(paths_json(&vec![vec![1, 2], vec![1, 3]]), "[[1,2],[1,3]]");
    let record = make_path_record(1, 3, String::from("1717200000"), 12, &vec![vec![1, 2, 3]]);
    assert_eq!(record.source_page_id, 1);
    assert_eq!(record.target_page_id, 3);
    assert_eq!(record.timestamp, "1717200000");
    assert_eq!(record.duration_ms, 12);
    assert_eq!(record.paths_json, "[[1,2,3]]");
}

#[test]
fn error_messages_and_version() {
    let e = WikiwalkError::DatabaseError(String::from("no such table"));
    assert_eq!(e.message(), "database error: no such table");
    let v = VersionInfo::new("2024-06-01", "0123abc");
    assert_eq!(v.commit_date, "2024-06-01");
    assert_eq!(v.commit, "0123abc");
}
