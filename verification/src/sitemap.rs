//! URLs for the public site: the canonical base and the address of one
//! path query, as the sitemap generator writes them.

use vstd::prelude::*;

use crate::text::{spec_digits, u32_to_string};

verus! {

/// The public site's base URL.
pub open spec fn spec_base_url() -> Seq<char> {
    "https://wikiwalk.app"@
}

/// The page that shows the paths from one article to another.
pub fn path_url(source: u32, target: u32) -> (r: String)
    ensures
        r@ == spec_base_url() + "/paths/"@ + spec_digits(source as nat) + "/"@ + spec_digits(
            target as nat,
        ),
{
    let mut r = String::new();
    r.append("https://wikiwalk.app");
    r.append("/paths/");
    let s = u32_to_string(source);
    r.append(s.as_str());
    r.append("/");
    let t = u32_to_string(target);
    r.append(t.as_str());
    r
}

} // verus!
