//! Character-level string helpers shared by the title and path logic.

use vstd::prelude::*;

verus! {

/// Equality of two string slices, decided character by character.
pub fn str_eq(a: &str, b: &str) -> (r: bool)
    ensures
        r == (a@ == b@),
{
    let alen = a.unicode_len();
    let blen = b.unicode_len();
    if alen != blen {
        assert(a@ != b@) by {
            assert(a@.len() != b@.len());
        }
        return false;
    }
    let mut i: usize = 0;
    while i < alen
        invariant
            alen == a@.len(),
            alen == b@.len(),
            i <= alen,
            forall|j: int| 0 <= j < i ==> a@[j] == b@[j],
        decreases alen - i,
    {
        if a.get_char(i) != b.get_char(i) {
            return false;
        }
        i += 1;
    }
    proof {
        assert(a@ =~= b@);
    }
    true
}

/// What a title looks like after underscores are replaced by spaces.
pub open spec fn spec_spaced(s: Seq<char>) -> Seq<char> {
    s.map_values(|c: char| if c == '_' { ' ' } else { c })
}

/// Canonical article title: every underscore becomes a space.
pub fn canonicalize_title(t: &str) -> (r: String)
    ensures
        r@ == spec_spaced(t@),
{
    let n = t.unicode_len();
    let mut out = String::new();
    let mut i: usize = 0;
    while i < n
        invariant
            n == t@.len(),
            i <= n,
            out@ == spec_spaced(t@.take(i as int)),
        decreases n - i,
    {
        let c = t.get_char(i);
        if c == '_' {
            out.append(" ");
            proof {
                reveal_strlit(" ");
                assert(" "@ =~= seq![' ']);
            }
        } else {
            let piece = t.substring_char(i, i + 1);
            out.append(piece);
        }
        assert(out@ =~= spec_spaced(t@.take(i + 1)));
        i += 1;
    }
    proof {
        assert(t@.take(n as int) =~= t@);
    }
    out
}

/// The decimal digits of `n`, most significant first.
pub open spec fn spec_digits(n: nat) -> Seq<char>
    decreases n,
{
    if n < 10 {
        seq![digit_char(n)]
    } else {
        spec_digits(n / 10).push(digit_char(n % 10))
    }
}

/// The character for a single decimal digit.
pub open spec fn digit_char(d: nat) -> char {
    if d == 0 { '0' }
    else if d == 1 { '1' }
    else if d == 2 { '2' }
    else if d == 3 { '3' }
    else if d == 4 { '4' }
    else if d == 5 { '5' }
    else if d == 6 { '6' }
    else if d == 7 { '7' }
    else if d == 8 { '8' }
    else { '9' }
}

fn append_digit(out: &mut String, d: u32)
    requires
        d < 10,
    ensures
        final(out)@ == old(out)@.push(digit_char(d as nat)),
{
    proof {
        reveal_strlit("0");
        reveal_strlit("1");
        reveal_strlit("2");
        reveal_strlit("3");
        reveal_strlit("4");
        reveal_strlit("5");
        reveal_strlit("6");
        reveal_strlit("7");
        reveal_strlit("8");
        reveal_strlit("9");
    }
    if d == 0 { out.append("0"); }
    else if d == 1 { out.append("1"); }
    else if d == 2 { out.append("2"); }
    else if d == 3 { out.append("3"); }
    else if d == 4 { out.append("4"); }
    else if d == 5 { out.append("5"); }
    else if d == 6 { out.append("6"); }
    else if d == 7 { out.append("7"); }
    else if d == 8 { out.append("8"); }
    else { out.append("9"); }
    proof {
        assert(final(out)@ =~= old(out)@.push(digit_char(d as nat)));
    }
}

fn u32_digits_rec(out: &mut String, n: u32)
    ensures
        final(out)@ == old(out)@ + spec_digits(n as nat),
    decreases n,
{
    if n < 10 {
        append_digit(out, n);
        proof {
            assert(final(out)@ =~= old(out)@ + spec_digits(n as nat));
        }
    } else {
        u32_digits_rec(out, n / 10);
        append_digit(out, n % 10);
        proof {
            assert(final(out)@ =~= old(out)@ + spec_digits(n as nat));
        }
    }
}

/// Renders an id in decimal, most significant digit first.
pub fn u32_to_string(n: u32) -> (r: String)
    ensures
        r@ == spec_digits(n as nat),
{
    let mut out = String::new();
    u32_digits_rec(&mut out, n);
    proof {
        assert(out@ =~= spec_digits(n as nat));
    }
    out
}

} // verus!
