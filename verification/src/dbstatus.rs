//! The build-progress ledger: one flag per phase, persisted between runs so
//! that a restarted build skips what is already done. Reading and writing
//! the ledger file is the caller's business; this module holds the record,
//! the phase order, and its exact file rendering.

use vstd::prelude::*;

use crate::text::{spec_digits, u32_to_string};

verus! {

/// The phases of a build, in the order they run.
#[derive(Debug, Clone, Copy, PartialEq, Eq, Structural)]
pub enum BuildPhase {
    LoadVertexes,
    ResolveRedirects,
    ResolveEdges,
    SortEdges,
    WriteAdjacency,
}

/// The persisted build state of one dataset.
pub struct DBStatus {
    pub dump_date: String,
    pub vertexes_loaded: bool,
    pub redirects_resolved: bool,
    pub edges_resolved: bool,
    pub edges_sorted: bool,
    pub build_complete: bool,
    pub vertex_count: u32,
    pub edge_count: u32,
}

/// Which phase comes next given the recorded flags: the first phase in
/// order whose flag is not yet set.
pub open spec fn spec_next_phase(s: DBStatus) -> Option<BuildPhase> {
    if !s.vertexes_loaded {
        Some(BuildPhase::LoadVertexes)
    } else if !s.redirects_resolved {
        Some(BuildPhase::ResolveRedirects)
    } else if !s.edges_resolved {
        Some(BuildPhase::ResolveEdges)
    } else if !s.edges_sorted {
        Some(BuildPhase::SortEdges)
    } else if !s.build_complete {
        Some(BuildPhase::WriteAdjacency)
    } else {
        None
    }
}

impl DBStatus {
    /// A fresh ledger for the given dump date: nothing done yet.
    pub fn new(dump_date: String) -> (r: DBStatus)
        ensures
            r.dump_date@ == dump_date@,
            !r.vertexes_loaded,
            !r.redirects_resolved,
            !r.edges_resolved,
            !r.edges_sorted,
            !r.build_complete,
            r.vertex_count == 0,
            r.edge_count == 0,
    {
        DBStatus {
            dump_date,
            vertexes_loaded: false,
            redirects_resolved: false,
            edges_resolved: false,
            edges_sorted: false,
            build_complete: false,
            vertex_count: 0,
            edge_count: 0,
        }
    }

    /// The next phase a resumed build must run, or nothing when the build
    /// is complete.
    pub fn next_phase(&self) -> (r: Option<BuildPhase>)
        ensures
            r == spec_next_phase(*self),
    {
        if !self.vertexes_loaded {
            Some(BuildPhase::LoadVertexes)
        } else if !self.redirects_resolved {
            Some(BuildPhase::ResolveRedirects)
        } else if !self.edges_resolved {
            Some(BuildPhase::ResolveEdges)
        } else if !self.edges_sorted {
            Some(BuildPhase::SortEdges)
        } else if !self.build_complete {
            Some(BuildPhase::WriteAdjacency)
        } else {
            None
        }
    }

    /// Records one phase as durably finished; no flag is ever cleared.
    pub fn mark_complete(&mut self, phase: BuildPhase)
        ensures
            final(self).dump_date@ == old(self).dump_date@,
            final(self).vertex_count == old(self).vertex_count,
            final(self).edge_count == old(self).edge_count,
            final(self).vertexes_loaded == (old(self).vertexes_loaded || phase
                == BuildPhase::LoadVertexes),
            final(self).redirects_resolved == (old(self).redirects_resolved || phase
                == BuildPhase::ResolveRedirects),
            final(self).edges_resolved == (old(self).edges_resolved || phase
                == BuildPhase::ResolveEdges),
            final(self).edges_sorted == (old(self).edges_sorted || phase == BuildPhase::SortEdges),
            final(self).build_complete == (old(self).build_complete || phase
                == BuildPhase::WriteAdjacency),
    {
        match phase {
            BuildPhase::LoadVertexes => self.vertexes_loaded = true,
            BuildPhase::ResolveRedirects => self.redirects_resolved = true,
            BuildPhase::ResolveEdges => self.edges_resolved = true,
            BuildPhase::SortEdges => self.edges_sorted = true,
            BuildPhase::WriteAdjacency => self.build_complete = true,
        }
    }
}

/// The file rendering of a boolean.
pub open spec fn spec_json_bool(b: bool) -> Seq<char> {
    if b {
        "true"@
    } else {
        "false"@
    }
}

/// The exact text of a ledger file for the given state.
pub open spec fn spec_status_json(s: DBStatus) -> Seq<char> {
    "{\"dump_date\":\""@ + s.dump_date@ + "\",\"vertexes_loaded\":"@ + spec_json_bool(
        s.vertexes_loaded,
    ) + ",\"redirects_resolved\":"@ + spec_json_bool(s.redirects_resolved)
        + ",\"edges_resolved\":"@ + spec_json_bool(s.edges_resolved) + ",\"edges_sorted\":"@
        + spec_json_bool(s.edges_sorted) + ",\"build_complete\":"@ + spec_json_bool(
        s.build_complete,
    ) + ",\"vertex_count\":"@ + spec_digits(s.vertex_count as nat) + ",\"edge_count\":"@
        + spec_digits(s.edge_count as nat) + "}"@
}

/// A date string is plain text for the ledger: digits only, so it needs no
/// escaping inside the file.
pub open spec fn spec_all_digits(s: Seq<char>) -> bool {
    forall|i: int| 0 <= i < s.len() ==> '0' <= #[trigger] s[i] <= '9'
}

impl DBStatus {
    /// Renders the ledger as its file text.
    pub fn to_json(&self) -> (r: String)
        requires
            spec_all_digits(self.dump_date@),
        ensures
            r@ == spec_status_json(*self),
    {
        let mut r = String::new();
        r.append("{\"dump_date\":\"");
        r.append(self.dump_date.as_str());
        r.append("\",\"vertexes_loaded\":");
        r.append(if self.vertexes_loaded { "true" } else { "false" });
        r.append(",\"redirects_resolved\":");
        r.append(if self.redirects_resolved { "true" } else { "false" });
        r.append(",\"edges_resolved\":");
        r.append(if self.edges_resolved { "true" } else { "false" });
        r.append(",\"edges_sorted\":");
        r.append(if self.edges_sorted { "true" } else { "false" });
        r.append(",\"build_complete\":");
        r.append(if self.build_complete { "true" } else { "false" });
        r.append(",\"vertex_count\":");
        let vc = u32_to_string(self.vertex_count);
        r.append(vc.as_str());
        r.append(",\"edge_count\":");
        let ec = u32_to_string(self.edge_count);
        r.append(ec.as_str());
        r.append("}");
        r
    }
}

/// A leap year in the proleptic Gregorian calendar.
pub open spec fn spec_is_leap_year(y: int) -> bool {
    y % 4 == 0 && (y % 100 != 0 || y % 400 == 0)
}

/// How many days the given month of the given year has.
pub open spec fn spec_days_in_month(y: int, m: int) -> int {
    if m == 2 {
        if spec_is_leap_year(y) {
            29
        } else {
            28
        }
    } else if m == 4 || m == 6 || m == 9 || m == 11 {
        30
    } else {
        31
    }
}

/// The numeric value of a digit character.
pub open spec fn spec_digit_value(c: char) -> int {
    c as int - 48
}

/// A dump date names a real calendar day: eight digits whose month and day
/// are in range for the year.
pub open spec fn spec_valid_dump_date(s: Seq<char>) -> bool {
    &&& s.len() == 8
    &&& spec_all_digits(s)
    &&& {
        let y = 1000 * spec_digit_value(s[0]) + 100 * spec_digit_value(s[1]) + 10
            * spec_digit_value(s[2]) + spec_digit_value(s[3]);
        let m = 10 * spec_digit_value(s[4]) + spec_digit_value(s[5]);
        let d = 10 * spec_digit_value(s[6]) + spec_digit_value(s[7]);
        1 <= m <= 12 && 1 <= d <= spec_days_in_month(y, m)
    }
}

/// Reads one digit character.
fn digit_value(c: char) -> (r: Option<u32>)
    ensures
        r is Some <==> '0' <= c <= '9',
        r is Some ==> r.unwrap() == spec_digit_value(c),
{
    if c >= '0' && c <= '9' {
        Some(c as u32 - 48)
    } else {
        None
    }
}

/// Parses a dump date of the form year, month, day as eight digits, and
/// rejects anything that is not a real calendar day. Dataset directories
/// are named this way, so this also decides which directories the cleaner
/// may touch.
pub fn parse_dump_date(s: &str) -> (r: Option<(u32, u32, u32)>)
    ensures
        r is Some <==> spec_valid_dump_date(s@),
        r is Some ==> {
            let y = 1000 * spec_digit_value(s@[0]) + 100 * spec_digit_value(s@[1]) + 10
                * spec_digit_value(s@[2]) + spec_digit_value(s@[3]);
            let m = 10 * spec_digit_value(s@[4]) + spec_digit_value(s@[5]);
            let d = 10 * spec_digit_value(s@[6]) + spec_digit_value(s@[7]);
            r.unwrap().0 == y && r.unwrap().1 == m && r.unwrap().2 == d
        },
{
    if s.unicode_len() != 8 {
        return None;
    }
    let mut digits: Vec<u32> = Vec::new();
    let mut i: usize = 0;
    while i < 8
        invariant
            s@.len() == 8,
            i <= 8,
            digits@.len() == i,
            forall|j: int|
                0 <= j < i ==> '0' <= #[trigger] s@[j] <= '9' && digits@[j] == spec_digit_value(
                    s@[j],
                ),
        decreases 8 - i,
    {
        match digit_value(s.get_char(i)) {
            Some(d) => digits.push(d),
            None => {
                return None;
            },
        }
        i += 1;
    }
    proof {
        assert forall|j: int| 0 <= j < 8 implies 0 <= #[trigger] digits@[j] <= 9 by {
            assert('0' <= s@[j] <= '9');
        }
    }
    let y = 1000 * digits[0] + 100 * digits[1] + 10 * digits[2] + digits[3];
    let m = 10 * digits[4] + digits[5];
    let d = 10 * digits[6] + digits[7];
    if m < 1 || m > 12 {
        return None;
    }
    let leap = y % 4 == 0 && (y % 100 != 0 || y % 400 == 0);
    let days: u32 = if m == 2 {
        if leap {
            29
        } else {
            28
        }
    } else if m == 4 || m == 6 || m == 9 || m == 11 {
        30
    } else {
        31
    };
    if d < 1 || d > days {
        return None;
    }
    Some((y, m, d))
}

} // verus!
