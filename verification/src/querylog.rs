//! The query log: one row per answered path query, with the result set
//! rendered as JSON exactly as it is stored.

use vstd::prelude::*;

use crate::text::{spec_digits, u32_to_string};

verus! {

/// One logged query: the endpoints, when it ran, how long it took, and the
/// JSON text of the paths it returned.
pub struct PathRecord {
    pub source_page_id: u32,
    pub target_page_id: u32,
    pub timestamp: String,
    pub duration_ms: u32,
    pub paths_json: String,
}

/// The ids of one path, comma separated, in decimal.
pub open spec fn spec_ids_json(p: Seq<u32>) -> Seq<char>
    decreases p.len(),
{
    if p.len() == 0 {
        Seq::<char>::empty()
    } else if p.len() == 1 {
        spec_digits(p[0] as nat)
    } else {
        spec_ids_json(p.drop_last()) + ","@ + spec_digits(p.last() as nat)
    }
}

/// The rows of a path set, each bracketed, comma separated.
pub open spec fn spec_rows_json(ps: Seq<Seq<u32>>) -> Seq<char>
    decreases ps.len(),
{
    if ps.len() == 0 {
        Seq::<char>::empty()
    } else if ps.len() == 1 {
        "["@ + spec_ids_json(ps[0]) + "]"@
    } else {
        spec_rows_json(ps.drop_last()) + ","@ + "["@ + spec_ids_json(ps.last()) + "]"@
    }
}

/// The JSON text of a whole path set.
pub open spec fn spec_paths_json(ps: Seq<Seq<u32>>) -> Seq<char> {
    "["@ + spec_rows_json(ps) + "]"@
}

/// Renders one path's ids, comma separated.
fn ids_json(p: &Vec<u32>) -> (r: String)
    ensures
        r@ == spec_ids_json(p@),
{
    let mut r = String::new();
    let n = p.len();
    let mut i: usize = 0;
    while i < n
        invariant
            n == p@.len(),
            i <= n,
            r@ == spec_ids_json(p@.take(i as int)),
        decreases n - i,
    {
        if i > 0 {
            r.append(",");
        }
        let d = u32_to_string(p[i]);
        r.append(d.as_str());
        proof {
            assert(p@.take(i + 1).drop_last() =~= p@.take(i as int));
            assert(p@.take(i + 1).last() == p@[i as int]);
            if i == 0 {
                assert(p@.take(1).len() == 1);
                assert(p@.take(1)[0] == p@[0]);
            }
        }
        i += 1;
    }
    proof {
        assert(p@.take(n as int) =~= p@);
    }
    r
}

/// Renders a path set as JSON: a bracketed list of bracketed id lists.
pub fn paths_json(paths: &Vec<Vec<u32>>) -> (r: String)
    ensures
        r@ == spec_paths_json(paths@.map_values(|p: Vec<u32>| p@)),
{
    let ghost rows = paths@.map_values(|p: Vec<u32>| p@);
    let mut body = String::new();
    let n = paths.len();
    let mut i: usize = 0;
    while i < n
        invariant
            n == paths@.len(),
            rows == paths@.map_values(|p: Vec<u32>| p@),
            i <= n,
            body@ == spec_rows_json(rows.take(i as int)),
        decreases n - i,
    {
        if i > 0 {
            body.append(",");
        }
        body.append("[");
        let ids = ids_json(&paths[i]);
        body.append(ids.as_str());
        body.append("]");
        proof {
            assert(rows.take(i + 1).drop_last() =~= rows.take(i as int));
            assert(rows.take(i + 1).last() == rows[i as int]);
            assert(rows[i as int] == paths@[i as int]@);
            if i == 0 {
                assert(rows.take(1).len() == 1);
                assert(rows.take(1)[0] == rows[0]);
            }
        }
        i += 1;
    }
    proof {
        assert(rows.take(n as int) =~= rows);
    }
    let mut r = String::new();
    r.append("[");
    r.append(body.as_str());
    r.append("]");
    r
}

/// Builds the row the query facade logs for one answered query.
pub fn make_path_record(
    source_page_id: u32,
    target_page_id: u32,
    timestamp: String,
    duration_ms: u32,
    paths: &Vec<Vec<u32>>,
) -> (r: PathRecord)
    ensures
        r.source_page_id == source_page_id,
        r.target_page_id == target_page_id,
        r.timestamp@ == timestamp@,
        r.duration_ms == duration_ms,
        r.paths_json@ == spec_paths_json(paths@.map_values(|p: Vec<u32>| p@)),
{
    let paths_json = paths_json(paths);
    PathRecord { source_page_id, target_page_id, timestamp, duration_ms, paths_json }
}

} // verus!
