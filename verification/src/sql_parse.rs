//! The dump grammar: one statement line holds `INSERT INTO ... VALUES`
//! followed by parenthesised tuples of fields, comma separated. A field is
//! `NULL`, a number, or a single-quoted string whose escapes are introduced
//! by a backslash. The parsers here are written against the spec grammar
//! below and return exactly what it denotes.

use vstd::prelude::*;

verus! {

/// One parsed field.
pub enum SqlValue {
    Int(i64),
    Text(Vec<u8>),
    Null,
    Raw(Vec<u8>),
}

/// The mathematical shape of one parsed field.
pub enum SqlValueModel {
    Int(i64),
    Text(Seq<u8>),
    Null,
    Raw(Seq<u8>),
}

impl View for SqlValue {
    type V = SqlValueModel;

    open spec fn view(&self) -> SqlValueModel {
        match self {
            SqlValue::Int(v) => SqlValueModel::Int(*v),
            SqlValue::Text(t) => SqlValueModel::Text(t@),
            SqlValue::Null => SqlValueModel::Null,
            SqlValue::Raw(t) => SqlValueModel::Raw(t@),
        }
    }
}

/// What one escape introducer stands for, if it is legal.
pub open spec fn spec_unescape(b: u8) -> Option<u8> {
    if b == 48 {
        Some(0u8)  // \0
    } else if b == 98 {
        Some(8u8)  // \b
    } else if b == 116 {
        Some(9u8)  // \t
    } else if b == 110 {
        Some(10u8)  // \n
    } else if b == 114 {
        Some(13u8)  // \r
    } else if b == 90 {
        Some(26u8)  // \Z
    } else if b == 92 {
        Some(92u8)  // backslash
    } else if b == 39 {
        Some(39u8)  // single quote
    } else if b == 34 {
        Some(34u8)  // double quote
    } else {
        None
    }
}

/// The body of a quoted string starting at `i` (just past the opening
/// quote): its unescaped bytes and the position just past the closing
/// quote. A bare double quote or an unknown escape is a parse error.
pub open spec fn spec_scan_text(s: Seq<u8>, i: int) -> Option<(Seq<u8>, int)>
    decreases s.len() - i,
{
    if i < 0 || i >= s.len() {
        None
    } else if s[i] == 39 {
        Some((Seq::<u8>::empty(), i + 1))
    } else if s[i] == 34 {
        None
    } else if s[i] == 92 {
        if i + 1 < s.len() {
            match spec_unescape(s[i + 1]) {
                Some(b) => match spec_scan_text(s, i + 2) {
                    Some(r) => Some((seq![b] + r.0, r.1)),
                    None => None,
                },
                None => None,
            }
        } else {
            None
        }
    } else {
        match spec_scan_text(s, i + 1) {
            Some(r) => Some((seq![s[i]] + r.0, r.1)),
            None => None,
        }
    }
}

/// The end of an unquoted token: the first comma or closing parenthesis at
/// or after `i`, if any.
pub open spec fn spec_token_end(s: Seq<u8>, i: int) -> Option<int>
    decreases s.len() - i,
{
    if i < 0 || i >= s.len() {
        None
    } else if s[i] == 44 || s[i] == 41 {
        Some(i)
    } else {
        spec_token_end(s, i + 1)
    }
}

/// The numeric value of a run of decimal digit bytes.
pub open spec fn spec_uint_value(t: Seq<u8>, k: int) -> int
    decreases k,
{
    if k <= 0 {
        0
    } else {
        10 * spec_uint_value(t, k - 1) + (t[k - 1] - 48)
    }
}

/// All of `t` is decimal digits.
pub open spec fn spec_all_digit_bytes(t: Seq<u8>) -> bool {
    forall|k: int| 0 <= k < t.len() ==> 48 <= #[trigger] t[k] <= 57
}

/// What an unquoted token denotes: the null marker, a signed integer that
/// fits the integer field type, or the raw bytes of anything else (floats,
/// timestamps, and integers too large to represent).
pub open spec fn spec_token_value(t: Seq<u8>) -> SqlValueModel {
    if t == seq![78u8, 85u8, 76u8, 76u8] {
        SqlValueModel::Null
    } else if t.len() > 0 && spec_all_digit_bytes(t) && spec_uint_value(t, t.len() as int)
        <= i64::MAX {
        SqlValueModel::Int(spec_uint_value(t, t.len() as int) as i64)
    } else if t.len() > 1 && t[0] == 45 && spec_all_digit_bytes(t.skip(1)) && spec_uint_value(
        t.skip(1),
        t.len() - 1,
    ) <= i64::MAX {
        SqlValueModel::Int((-spec_uint_value(t.skip(1), t.len() - 1)) as i64)
    } else {
        SqlValueModel::Raw(t)
    }
}

/// One field starting at `i`: a quoted string or an unquoted token, with
/// the position of the delimiter (or just past the closing quote) that
/// follows it. An empty token is a parse error.
pub open spec fn spec_parse_value(s: Seq<u8>, i: int) -> Option<(SqlValueModel, int)> {
    if i < 0 || i >= s.len() {
        None
    } else if s[i] == 39 {
        match spec_scan_text(s, i + 1) {
            Some(r) => Some((SqlValueModel::Text(r.0), r.1)),
            None => None,
        }
    } else {
        match spec_token_end(s, i) {
            Some(j) => if j > i {
                Some((spec_token_value(s.subrange(i, j)), j))
            } else {
                None
            },
            None => None,
        }
    }
}

/// The fields of one tuple starting at `i` (just past the opening
/// parenthesis), and the position just past the closing parenthesis.
pub open spec fn spec_parse_fields(s: Seq<u8>, i: int) -> Option<(Seq<SqlValueModel>, int)>
    decreases s.len() - i,
{
    match spec_parse_value(s, i) {
        Some((v, j)) => {
            if j < s.len() && s[j] == 44 && j + 1 > i {
                match spec_parse_fields(s, j + 1) {
                    Some((rest, end)) => Some((seq![v] + rest, end)),
                    None => None,
                }
            } else if j < s.len() && s[j] == 41 {
                Some((seq![v], j + 1))
            } else {
                None
            }
        },
        None => None,
    }
}

/// The tuple list starting at `i`, which must sit on an opening
/// parenthesis; tuples are separated by commas and the list ends at a
/// semicolon or at the end of the line.
pub open spec fn spec_parse_tuples(s: Seq<u8>, i: int) -> Option<Seq<Seq<SqlValueModel>>>
    decreases s.len() - i,
{
    if i < 0 || i >= s.len() || s[i] != 40 {
        None
    } else {
        match spec_parse_fields(s, i + 1) {
            Some((row, end)) => {
                if end == s.len() || (end < s.len() && s[end] == 59) {
                    Some(seq![row])
                } else if end + 1 < s.len() && s[end] == 44 && s[end + 1] == 40 && end + 1 > i {
                    match spec_parse_tuples(s, end + 1) {
                        Some(rest) => Some(seq![row] + rest),
                        None => None,
                    }
                } else {
                    None
                }
            },
            None => None,
        }
    }
}

/// The position of the first opening parenthesis, where the tuples begin.
pub open spec fn spec_first_paren(s: Seq<u8>, i: int) -> Option<int>
    decreases s.len() - i,
{
    if i < 0 || i >= s.len() {
        None
    } else if s[i] == 40 {
        Some(i)
    } else {
        spec_first_paren(s, i + 1)
    }
}

/// What a whole statement line denotes: the parsed tuples after the first
/// opening parenthesis.
pub open spec fn spec_parse_insert(s: Seq<u8>) -> Option<Seq<Seq<SqlValueModel>>> {
    match spec_first_paren(s, 0) {
        Some(p) => spec_parse_tuples(s, p),
        None => None,
    }
}

/// A scanned string body always ends past where it began.
pub proof fn lemma_scan_text_advances(s: Seq<u8>, i: int)
    requires
        spec_scan_text(s, i) is Some,
    ensures
        spec_scan_text(s, i).unwrap().1 > i,
    decreases s.len() - i,
{
    if s[i] == 39 {
    } else if s[i] == 92 {
        lemma_scan_text_advances(s, i + 2);
    } else {
        lemma_scan_text_advances(s, i + 1);
    }
}

/// Decodes one escape introducer.
fn unescape_byte(b: u8) -> (r: Option<u8>)
    ensures
        r == spec_unescape(b),
{
    if b == 48 {
        Some(0)
    } else if b == 98 {
        Some(8)
    } else if b == 116 {
        Some(9)
    } else if b == 110 {
        Some(10)
    } else if b == 114 {
        Some(13)
    } else if b == 90 {
        Some(26)
    } else if b == 92 {
        Some(92)
    } else if b == 39 {
        Some(39)
    } else if b == 34 {
        Some(34)
    } else {
        None
    }
}

/// Scans a quoted string body, unescaping as the grammar says.
fn scan_text(s: &[u8], i: usize) -> (r: Option<(Vec<u8>, usize)>)
    ensures
        r is Some <==> spec_scan_text(s@, i as int) is Some,
        r is Some ==> spec_scan_text(s@, i as int).unwrap().0 == r.unwrap().0@
            && spec_scan_text(s@, i as int).unwrap().1 == r.unwrap().1 as int,
    decreases s@.len() - i,
{
    if i >= s.len() {
        return None;
    }
    let b = s[i];
    if b == 39 {
        let empty: Vec<u8> = Vec::new();
        return Some((empty, i + 1));
    }
    if b == 34 {
        return None;
    }
    if b == 92 {
        if i + 1 < s.len() {
            match unescape_byte(s[i + 1]) {
                Some(e) => match scan_text(s, i + 2) {
                    Some((mut rest, j)) => {
                        let mut out: Vec<u8> = Vec::new();
                        out.push(e);
                        let ghost grest = rest@;
                        out.append(&mut rest);
                        proof {
                            assert(out@ =~= seq![e] + grest);
                        }
                        Some((out, j))
                    },
                    None => None,
                },
                None => None,
            }
        } else {
            None
        }
    } else {
        match scan_text(s, i + 1) {
            Some((mut rest, j)) => {
                let mut out: Vec<u8> = Vec::new();
                out.push(b);
                let ghost grest = rest@;
                out.append(&mut rest);
                proof {
                    assert(out@ =~= seq![b] + grest);
                }
                Some((out, j))
            },
            None => None,
        }
    }
}

/// Finds the delimiter that ends an unquoted token.
fn token_end(s: &[u8], i: usize) -> (r: Option<usize>)
    ensures
        r is Some <==> spec_token_end(s@, i as int) is Some,
        r is Some ==> spec_token_end(s@, i as int).unwrap() == r.unwrap() as int && i <= r.unwrap()
            <= s@.len(),
    decreases s@.len() - i,
{
    if i >= s.len() {
        return None;
    }
    if s[i] == 44 || s[i] == 41 {
        return Some(i);
    }
    token_end(s, i + 1)
}

/// The value of a digit prefix never exceeds the value of the whole run.
proof fn lemma_uint_value_monotone(t: Seq<u8>, k: int)
    requires
        0 <= k <= t.len(),
        spec_all_digit_bytes(t),
    ensures
        0 <= spec_uint_value(t, k),
        forall|k2: int| 0 <= k2 <= k ==> #[trigger] spec_uint_value(t, k2) <= spec_uint_value(t, k),
    decreases k,
{
    if k > 0 {
        lemma_uint_value_monotone(t, k - 1);
        assert(48 <= t[k - 1] <= 57);
        assert(spec_uint_value(t, k - 1) <= spec_uint_value(t, k));
    }
}

/// Classifies an unquoted token and computes its value.
fn token_value(t: &[u8]) -> (r: SqlValue)
    ensures
        r@ == spec_token_value(t@),
{
    let n = t.len();
    if n == 4 && t[0] == 78 && t[1] == 85 && t[2] == 76 && t[3] == 76 {
        proof {
            assert(t@ =~= seq![78u8, 85u8, 76u8, 76u8]);
        }
        return SqlValue::Null;
    }
    proof {
        assert(t@ != seq![78u8, 85u8, 76u8, 76u8]) by {
            if t@ == seq![78u8, 85u8, 76u8, 76u8] {
                assert(t@.len() == 4);
                assert(t@[0] == 78u8 && t@[1] == 85u8 && t@[2] == 76u8 && t@[3] == 76u8);
            }
        }
    }
    let negative = n > 1 && t[0] == 45;
    let start: usize = if negative {
        1
    } else {
        0
    };
    let ghost body = if negative {
        t@.skip(1)
    } else {
        t@
    };
    let blen = n - start;
    if blen == 0 {
        return SqlValue::Raw(vstd::slice::slice_to_vec(t));
    }
    let mut k: usize = 0;
    let mut val: u64 = 0;
    let i64_max: u64 = 0x7FFF_FFFF_FFFF_FFFF;
    while k < blen
        invariant
            n == t@.len(),
            t@ != seq![78u8, 85u8, 76u8, 76u8],
            negative ==> n > 1 && t@[0] == 45u8,
            negative == (n > 1 && t@[0] == 45u8),
            start == (if negative {
                1int
            } else {
                0int
            }),
            blen == n - start,
            blen > 0,
            body == (if negative {
                t@.skip(1)
            } else {
                t@
            }),
            body.len() == blen,
            forall|k2: int| 0 <= k2 < body.len() ==> body[k2] == t@[start + k2],
            i64_max == i64::MAX,
            k <= blen,
            forall|k2: int| 0 <= k2 < k ==> 48 <= #[trigger] body[k2] <= 57,
            val == spec_uint_value(body, k as int),
            val <= i64_max,
        decreases blen - k,
    {
        let b = t[start + k];
        if b < 48 || b > 57 {
            proof {
                assert(body[k as int] == b);
                assert(!spec_all_digit_bytes(body)) by {
                    if spec_all_digit_bytes(body) {
                        assert(48 <= body[k as int] <= 57);
                    }
                }
                assert(!spec_all_digit_bytes(t@)) by {
                    if spec_all_digit_bytes(t@) {
                        assert(48 <= t@[start + k] <= 57);
                    }
                }
                if negative {
                    assert(!spec_all_digit_bytes(t@.skip(1))) by {
                        if spec_all_digit_bytes(t@.skip(1)) {
                            assert(48 <= t@.skip(1)[k as int] <= 57);
                            assert(t@.skip(1)[k as int] == body[k as int]);
                        }
                    }
                }
            }
            return SqlValue::Raw(vstd::slice::slice_to_vec(t));
        }
        let d = (b - 48) as u64;
        if val > (i64_max - d) / 10 {
            proof {
                assert(10 * val + d > i64_max);
                assert(spec_uint_value(body, k as int + 1) == 10 * val + d);
                // any longer prefix is at least as large, if all digits
                if spec_all_digit_bytes(body) {
                    lemma_uint_value_monotone(body, body.len() as int);
                    assert(spec_uint_value(body, k as int + 1) <= spec_uint_value(
                        body,
                        body.len() as int,
                    ));
                }
                if !negative && spec_all_digit_bytes(t@) {
                    assert(spec_uint_value(t@, t@.len() as int) > i64::MAX);
                }
                if negative {
                    assert(!spec_all_digit_bytes(t@)) by {
                        if spec_all_digit_bytes(t@) {
                            assert(48 <= t@[0] <= 57);
                        }
                    }
                    if spec_all_digit_bytes(t@.skip(1)) {
                        assert(spec_uint_value(t@.skip(1), t@.len() - 1) > i64::MAX);
                    }
                }
            }
            return SqlValue::Raw(vstd::slice::slice_to_vec(t));
        }
        val = 10 * val + d;
        k += 1;
    }
    proof {
        assert(spec_all_digit_bytes(body));
        if negative {
            assert(spec_token_value(t@) == SqlValueModel::Int((-spec_uint_value(
                t@.skip(1),
                t@.len() - 1,
            )) as i64)) by {
                assert(t@[0] == 45);
                assert(!spec_all_digit_bytes(t@)) by {
                    if spec_all_digit_bytes(t@) {
                        assert(48 <= t@[0] <= 57);
                    }
                }
                assert(body == t@.skip(1));
                assert(spec_all_digit_bytes(t@.skip(1)));
                assert(spec_uint_value(t@.skip(1), t@.len() - 1) == val);
            }
        } else {
            assert(t@.len() > 0 && spec_all_digit_bytes(t@));
        }
    }
    if negative {
        let v = -(val as i64);
        SqlValue::Int(v)
    } else {
        SqlValue::Int(val as i64)
    }
}

/// Parses one field.
fn parse_value(s: &[u8], i: usize) -> (r: Option<(SqlValue, usize)>)
    ensures
        r is Some <==> spec_parse_value(s@, i as int) is Some,
        r is Some ==> spec_parse_value(s@, i as int).unwrap().0 == r.unwrap().0@
            && spec_parse_value(s@, i as int).unwrap().1 == r.unwrap().1 as int && i < r.unwrap().1
            <= s@.len(),
{
    if i >= s.len() {
        return None;
    }
    if s[i] == 39 {
        match scan_text(s, i + 1) {
            Some((text, j)) => {
                proof {
                    lemma_scan_text_advances(s@, i as int + 1);
                    assert(spec_scan_text(s@, i as int + 1).unwrap().1 <= s@.len()) by {
                        lemma_scan_text_bounded(s@, i as int + 1);
                    }
                }
                Some((SqlValue::Text(text), j))
            },
            None => None,
        }
    } else {
        match token_end(s, i) {
            Some(j) => {
                if j > i {
                    let tok = vstd::slice::slice_subrange(s, i, j);
                    Some((token_value(tok), j))
                } else {
                    None
                }
            },
            None => None,
        }
    }
}

/// A scanned string body ends within the buffer.
pub proof fn lemma_scan_text_bounded(s: Seq<u8>, i: int)
    requires
        spec_scan_text(s, i) is Some,
    ensures
        spec_scan_text(s, i).unwrap().1 <= s.len(),
    decreases s.len() - i,
{
    if s[i] == 39 {
    } else if s[i] == 92 {
        lemma_scan_text_bounded(s, i + 2);
    } else {
        lemma_scan_text_bounded(s, i + 1);
    }
}

/// The view of a parsed row.
pub open spec fn spec_row_view(row: Seq<SqlValue>) -> Seq<SqlValueModel> {
    row.map_values(|v: SqlValue| v@)
}

/// Parses the fields of one tuple.
fn parse_fields(s: &[u8], i: usize) -> (r: Option<(Vec<SqlValue>, usize)>)
    ensures
        r is Some <==> spec_parse_fields(s@, i as int) is Some,
        r is Some ==> spec_parse_fields(s@, i as int).unwrap().0 == spec_row_view(r.unwrap().0@)
            && spec_parse_fields(s@, i as int).unwrap().1 == r.unwrap().1 as int && i < r.unwrap().1
            <= s@.len(),
    decreases s@.len() - i,
{
    match parse_value(s, i) {
        Some((v, j)) => {
            if j < s.len() && s[j] == 44 {
                match parse_fields(s, j + 1) {
                    Some((mut rest, end)) => {
                        let mut row: Vec<SqlValue> = Vec::new();
                        row.push(v);
                        let ghost grest = rest@;
                        row.append(&mut rest);
                        proof {
                            assert(row@ =~= seq![row@[0]] + grest);
                            assert(spec_row_view(row@) =~= seq![row@[0]@] + spec_row_view(grest));
                        }
                        Some((row, end))
                    },
                    None => None,
                }
            } else if j < s.len() && s[j] == 41 {
                let mut row: Vec<SqlValue> = Vec::new();
                row.push(v);
                proof {
                    assert(spec_row_view(row@) =~= seq![row@[0]@]);
                }
                Some((row, j + 1))
            } else {
                None
            }
        },
        None => None,
    }
}

/// Parses the tuple list from an opening parenthesis on.
fn parse_tuples(s: &[u8], i: usize) -> (r: Option<Vec<Vec<SqlValue>>>)
    ensures
        r is Some <==> spec_parse_tuples(s@, i as int) is Some,
        r is Some ==> spec_parse_tuples(s@, i as int).unwrap() == r.unwrap()@.map_values(
            |row: Vec<SqlValue>| spec_row_view(row@),
        ),
    decreases s@.len() - i,
{
    if i >= s.len() {
        return None;
    }
    if s[i] != 40 {
        return None;
    }
    match parse_fields(s, i + 1) {
        Some((row, end)) => {
            if end == s.len() || s[end] == 59 {
                let mut out: Vec<Vec<SqlValue>> = Vec::new();
                out.push(row);
                proof {
                    assert(out@.map_values(|r2: Vec<SqlValue>| spec_row_view(r2@)) =~= seq![
                        spec_row_view(out@[0]@),
                    ]);
                }
                Some(out)
            } else if end + 1 < s.len() && s[end] == 44 && s[end + 1] == 40 {
                match parse_tuples(s, end + 1) {
                    Some(mut rest) => {
                        let mut out: Vec<Vec<SqlValue>> = Vec::new();
                        out.push(row);
                        let ghost grest = rest@;
                        out.append(&mut rest);
                        proof {
                            assert(out@ =~= seq![out@[0]] + grest);
                            assert(out@.map_values(|r2: Vec<SqlValue>| spec_row_view(r2@)) =~= seq![
                                spec_row_view(out@[0]@),
                            ] + grest.map_values(|r2: Vec<SqlValue>| spec_row_view(r2@)));
                        }
                        Some(out)
                    },
                    None => None,
                }
            } else {
                None
            }
        },
        None => None,
    }
}

/// Parses one statement line: everything from the first opening parenthesis
/// is the tuple list.
pub fn parse_insert_tuples(line: &[u8]) -> (r: Option<Vec<Vec<SqlValue>>>)
    ensures
        r is Some <==> spec_parse_insert(line@) is Some,
        r is Some ==> spec_parse_insert(line@).unwrap() == r.unwrap()@.map_values(
            |row: Vec<SqlValue>| spec_row_view(row@),
        ),
{
    let n = line.len();
    let mut p: usize = 0;
    while p < n
        invariant
            n == line@.len(),
            p <= n,
            spec_first_paren(line@, 0) == spec_first_paren(line@, p as int),
        decreases n - p,
    {
        if line[p] == 40 {
            return parse_tuples(line, p);
        }
        p += 1;
    }
    None
}

/// A page-table row reduced to what the build needs.
pub struct PageRow {
    pub id: u32,
    pub namespace: i64,
    pub title: Vec<u8>,
    pub is_redirect: bool,
}

/// What a parsed tuple of the page table means, if its leading fields have
/// the right shapes: id, namespace, title, redirect flag.
pub open spec fn spec_page_row(row: Seq<SqlValueModel>) -> Option<(u32, i64, Seq<u8>, bool)> {
    if row.len() >= 4 {
        match (row[0], row[1], row[2], row[3]) {
            (
                SqlValueModel::Int(id),
                SqlValueModel::Int(ns),
                SqlValueModel::Text(title),
                SqlValueModel::Int(flag),
            ) => {
                if 0 <= id <= u32::MAX && (flag == 0 || flag == 1) {
                    Some((id as u32, ns, title, flag == 1))
                } else {
                    None
                }
            },
            _ => None,
        }
    } else {
        None
    }
}

/// Reads a page row out of one parsed tuple.
pub fn page_row(fields: &Vec<SqlValue>) -> (r: Option<PageRow>)
    ensures
        r is Some <==> spec_page_row(spec_row_view(fields@)) is Some,
        r is Some ==> {
            let g = spec_page_row(spec_row_view(fields@)).unwrap();
            r.unwrap().id == g.0 && r.unwrap().namespace == g.1 && r.unwrap().title@ == g.2
                && r.unwrap().is_redirect == g.3
        },
{
    if fields.len() < 4 {
        return None;
    }
    let id = match &fields[0] {
        SqlValue::Int(v) => *v,
        _ => {
            return None;
        },
    };
    let ns = match &fields[1] {
        SqlValue::Int(v) => *v,
        _ => {
            return None;
        },
    };
    let title = match &fields[2] {
        SqlValue::Text(t) => clone_field_bytes(t),
        _ => {
            return None;
        },
    };
    let flag = match &fields[3] {
        SqlValue::Int(v) => *v,
        _ => {
            return None;
        },
    };
    if id < 0 || id > u32::MAX as i64 {
        return None;
    }
    if flag != 0 && flag != 1 {
        return None;
    }
    Some(PageRow { id: id as u32, namespace: ns, title, is_redirect: flag == 1 })
}

/// A redirect-table row reduced to what the build needs.
pub struct RedirectRow {
    pub from: u32,
    pub namespace: i64,
    pub title: Vec<u8>,
}

/// What a parsed tuple of the redirect table means: source page id,
/// namespace, destination title.
pub open spec fn spec_redirect_row(row: Seq<SqlValueModel>) -> Option<(u32, i64, Seq<u8>)> {
    if row.len() >= 3 {
        match (row[0], row[1], row[2]) {
            (SqlValueModel::Int(from), SqlValueModel::Int(ns), SqlValueModel::Text(title)) => {
                if 0 <= from <= u32::MAX {
                    Some((from as u32, ns, title))
                } else {
                    None
                }
            },
            _ => None,
        }
    } else {
        None
    }
}

/// Reads a redirect row out of one parsed tuple.
pub fn redirect_row(fields: &Vec<SqlValue>) -> (r: Option<RedirectRow>)
    ensures
        r is Some <==> spec_redirect_row(spec_row_view(fields@)) is Some,
        r is Some ==> {
            let g = spec_redirect_row(spec_row_view(fields@)).unwrap();
            r.unwrap().from == g.0 && r.unwrap().namespace == g.1 && r.unwrap().title@ == g.2
        },
{
    if fields.len() < 3 {
        return None;
    }
    let from = match &fields[0] {
        SqlValue::Int(v) => *v,
        _ => {
            return None;
        },
    };
    let ns = match &fields[1] {
        SqlValue::Int(v) => *v,
        _ => {
            return None;
        },
    };
    let title = match &fields[2] {
        SqlValue::Text(t) => clone_field_bytes(t),
        _ => {
            return None;
        },
    };
    if from < 0 || from > u32::MAX as i64 {
        return None;
    }
    Some(RedirectRow { from: from as u32, namespace: ns, title })
}

/// A link-table row reduced to what the build needs.
pub struct PageLinkRow {
    pub from: u32,
    pub namespace: i64,
    pub title: Vec<u8>,
    pub from_namespace: i64,
}

/// What a parsed tuple of the links table means: source page id, destination
/// namespace and title, and the source page's namespace.
pub open spec fn spec_pagelink_row(row: Seq<SqlValueModel>) -> Option<(u32, i64, Seq<u8>, i64)> {
    if row.len() >= 4 {
        match (row[0], row[1], row[2], row[3]) {
            (
                SqlValueModel::Int(from),
                SqlValueModel::Int(ns),
                SqlValueModel::Text(title),
                SqlValueModel::Int(from_ns),
            ) => {
                if 0 <= from <= u32::MAX {
                    Some((from as u32, ns, title, from_ns))
                } else {
                    None
                }
            },
            _ => None,
        }
    } else {
        None
    }
}

/// Reads a link row out of one parsed tuple.
pub fn pagelink_row(fields: &Vec<SqlValue>) -> (r: Option<PageLinkRow>)
    ensures
        r is Some <==> spec_pagelink_row(spec_row_view(fields@)) is Some,
        r is Some ==> {
            let g = spec_pagelink_row(spec_row_view(fields@)).unwrap();
            r.unwrap().from == g.0 && r.unwrap().namespace == g.1 && r.unwrap().title@ == g.2
                && r.unwrap().from_namespace == g.3
        },
{
    if fields.len() < 4 {
        return None;
    }
    let from = match &fields[0] {
        SqlValue::Int(v) => *v,
        _ => {
            return None;
        },
    };
    let ns = match &fields[1] {
        SqlValue::Int(v) => *v,
        _ => {
            return None;
        },
    };
    let title = match &fields[2] {
        SqlValue::Text(t) => clone_field_bytes(t),
        _ => {
            return None;
        },
    };
    let from_ns = match &fields[3] {
        SqlValue::Int(v) => *v,
        _ => {
            return None;
        },
    };
    if from < 0 || from > u32::MAX as i64 {
        return None;
    }
    Some(PageLinkRow { from: from as u32, namespace: ns, title, from_namespace: from_ns })
}

/// Copies one field's bytes.
fn clone_field_bytes(v: &Vec<u8>) -> (r: Vec<u8>)
    ensures
        r@ == v@,
{
    let mut r: Vec<u8> = Vec::new();
    let n = v.len();
    let mut i: usize = 0;
    while i < n
        invariant
            n == v@.len(),
            i <= n,
            r@ == v@.take(i as int),
        decreases n - i,
    {
        r.push(v[i]);
        proof {
            assert(r@ =~= v@.take(i + 1));
        }
        i += 1;
    }
    proof {
        assert(r@ =~= v@);
    }
    r
}

} // verus!
