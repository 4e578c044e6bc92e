//! The dump statement grammar: tuples, field shapes, escapes, and the typed
//! rows the build reads; checked against an independent parser for the same
//! dumps.

use parse_mediawiki_sql::field_types::PageNamespace;
use parse_mediawiki_sql::iterate_sql_insertions;
use parse_mediawiki_sql::schemas::Page;

use wikiwalk::sql_parse::{page_row, pagelink_row, parse_insert_tuples, redirect_row, SqlValue};

fn text(v: &SqlValue) -> &[u8] {
    match v {
        SqlValue::Text(t) => t,
        _ => panic!("expected a string field"),
    }
}

#[test]
fn tuples_fields_and_escapes() {
    let line = b"INSERT INTO `page` VALUES (10,0,'Title_A',NULL,-7,0.5067),(12,2,'B\\'s \\\\ c',1,2,3);";
    let rows = parse_insert_tuples(line).expect("parse");
    assert_eq!(rows.len(), 2);
    assert_eq!(rows[0].len(), 6);
    assert!(matches!(rows[0][0], SqlValue::Int(10)));
    assert!(matches!(rows[0][1], SqlValue::Int(0)));
    assert_eq!(text(&rows[0][2]), b"Title_A");
    assert!(matches!(rows[0][3], SqlValue::Null));
    assert!(matches!(rows[0][4], SqlValue::Int(-7)));
    // a float is carried through as its raw bytes
    assert!(matches!(&rows[0][5], SqlValue::Raw(raw) if raw == b"0.5067"));
    // backslash escapes inside strings
    assert_eq!(text(&rows[1][2]), b"B's \\ c");
}

#[test]
fn malformed_lines_are_rejected() {
    assert!(parse_insert_tuples(b"DROP TABLE x;").is_none());
    assert!(parse_insert_tuples(b"INSERT INTO `t` VALUES (1,").is_none());
    assert!(parse_insert_tuples(b"INSERT INTO `t` VALUES (1,'unterminated").is_none());
    assert!(parse_insert_tuples(b"INSERT INTO `t` VALUES (,1);").is_none());
    // an integer too large for the field type stays raw rather than wrapping
    let rows = parse_insert_tuples(b"INSERT INTO `t` VALUES (99999999999999999999);")
        .expect("parse");
    assert!(matches!(&rows[0][0], SqlValue::Raw(raw) if raw == b"99999999999999999999"));
}

#[test]
fn typed_rows_read_their_fields() {
    let line =
        b"INSERT INTO `page` VALUES (10,0,'Alpha',1,0,0.5,'x',NULL,1,2,NULL,NULL),(11,0,'Beta',0,0,0.5,'x',NULL,1,2,NULL,NULL);";
    let rows = parse_insert_tuples(line).expect("parse");
    let p0 = page_row(&rows[0]).expect("page row");
    assert_eq!(p0.id, 10);
    assert_eq!(p0.namespace, 0);
    assert_eq!(p0.title, b"Alpha".to_vec());
    assert!(p0.is_redirect);
    let p1 = page_row(&rows[1]).expect("page row");
    assert!(!p1.is_redirect);

    let rline = b"INSERT INTO `redirect` VALUES (10,0,'Beta',NULL,NULL);";
    let rrows = parse_insert_tuples(rline).expect("parse");
    let r0 = redirect_row(&rrows[0]).expect("redirect row");
    assert_eq!(r0.from, 10);
    assert_eq!(r0.namespace, 0);
    assert_eq!(r0.title, b"Beta".to_vec());

    let lline = b"INSERT INTO `pagelinks` VALUES (10,0,'Beta',0),(10,4,'Talk',0);";
    let lrows = parse_insert_tuples(lline).expect("parse");
    let l0 = pagelink_row(&lrows[0]).expect("link row");
    assert_eq!(l0.from, 10);
    assert_eq!(l0.namespace, 0);
    assert_eq!(l0.title, b"Beta".to_vec());
    assert_eq!(l0.from_namespace, 0);
    let l1 = pagelink_row(&lrows[1]).expect("link row");
    assert_eq!(l1.namespace, 4);

    // a tuple with the wrong field shapes is refused
    assert!(page_row(&rrows[0]).is_none());
}

#[test]
fn agrees_with_the_reference_dump_parser() {
    let line = b"INSERT INTO `page` VALUES (10,0,'AccessibleComputing',1,0,0.33167112649574004,'20240501012708','20240501012708',1002250816,111,'wikitext',NULL),(12,0,'Anarchism',0,0,0.786172332974311,'20240531232416','20240531232418',1226663815,110759,'wikitext',NULL);";
    let mut expected = Vec::new();
    let mut iter = iterate_sql_insertions::<Page>(line);
    for page in &mut iter {
        if page.namespace == PageNamespace(0) {
            expected.push((page.id.0, page.title.0.clone(), page.is_redirect));
        }
    }
    assert_eq!(expected.len(), 2);

    let rows = parse_insert_tuples(line).expect("parse");
    let mut got = Vec::new();
    for row in &rows {
        let p = page_row(row).expect("page row");
        if p.namespace == 0 {
            got.push((p.id, String::from_utf8(p.title.clone()).expect("utf-8"), p.is_redirect));
        }
    }
    assert_eq!(got, expected);
}
