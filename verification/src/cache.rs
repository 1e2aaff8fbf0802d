//! Cache-key derivation: one artifact per city per calendar day, addressed by
//! a deterministic key `<year>/<month>/<day>/<city code>` with month and day
//! zero-padded to two digits, and by the relative artifact path that the key
//! maps to on disk.

use vstd::prelude::*;
use vstd::string::StringExecFns;

use crate::date::CalendarDate;
use crate::digits::{four_digits, push_four_digits, push_two_digits, two_digits};

verus! {

/// The cache key for a city code on a calendar date.
pub open spec fn key_for_spec(code: Seq<char>, d: CalendarDate) -> Seq<char> {
    four_digits(d.year as int) + "/"@ + two_digits(d.month as int) + "/"@ + two_digits(
        d.day as int,
    ) + "/"@ + code
}

/// The relative artifact path a key maps to: the key under the fixed cache
/// root, with the artifact extension.
pub open spec fn cache_path_spec(code: Seq<char>, d: CalendarDate) -> Seq<char> {
    "share/"@ + key_for_spec(code, d) + ".json"@
}

/// Builds the cache key for `code` on `d`. Deterministic: the result is a
/// function of the two arguments alone, so two calls on the same date and
/// code give the same key.
pub fn key_for(code: &str, d: CalendarDate) -> (r: String)
    requires
        d.wf(),
    ensures
        r@ == key_for_spec(code@, d),
{
    let mut out = String::new();
    push_four_digits(&mut out, d.year as u64);
    out.append("/");
    push_two_digits(&mut out, d.month as u64);
    out.append("/");
    push_two_digits(&mut out, d.day as u64);
    out.append("/");
    out.append(code);
    proof {
        assert(out@ =~= key_for_spec(code@, d));
    }
    out
}

/// Builds the relative artifact path for `code` on `d`.
pub fn cache_path(code: &str, d: CalendarDate) -> (r: String)
    requires
        d.wf(),
    ensures
        r@ == cache_path_spec(code@, d),
{
    let key = key_for(code, d);
    let mut out = String::new();
    out.append("share/");
    out.append(key.as_str());
    out.append(".json");
    proof {
        assert(out@ =~= cache_path_spec(code@, d));
    }
    out
}

} // verus!
