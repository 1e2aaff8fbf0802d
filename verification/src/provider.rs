//! The provider boundary: the request for a one-day forecast in metric
//! units and the fixed display locale, identified by city code and
//! credential. The request itself is carried out outside the library; only
//! the URL derivation lives here.

use vstd::prelude::*;
use vstd::string::StringExecFns;

verus! {

/// The request URL for a city code and credential.
pub open spec fn request_url_spec(code: Seq<char>, api_key: Seq<char>) -> Seq<char> {
    "http://dataservice.accuweather.com/forecasts/v1/daily/1day/"@ + code + "?apikey="@ + api_key
        + "&language=es-ES&metric=true"@
}

/// Builds the one-day-forecast request URL for `code` with `api_key`.
pub fn build_request_url(code: &str, api_key: &str) -> (r: String)
    ensures
        r@ == request_url_spec(code@, api_key@),
{
    let mut out = String::new();
    out.append("http://dataservice.accuweather.com/forecasts/v1/daily/1day/");
    out.append(code);
    out.append("?apikey=");
    out.append(api_key);
    out.append("&language=es-ES&metric=true");
    proof {
        assert(out@ =~= request_url_spec(code@, api_key@));
    }
    out
}

} // verus!
