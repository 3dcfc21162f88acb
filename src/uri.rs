use vstd::prelude::*;

verus! {

/// What parsing `s` as a URI yields: `None` when it is not a valid URI, else its
/// host component (empty where the URI has none).
pub uninterp spec fn uri_host(s: Seq<char>) -> Option<Seq<char>>;

/// Relies on `http::Uri`'s `FromStr` and `Uri::host` (as re-exported by
/// lambda_http): the result depends on the text alone.
#[verifier::external_body]
pub(crate) fn parse_uri_host(s: &str) -> (r: Option<String>)
    ensures
        match r {
            Some(h) => uri_host(s@) == Some(h@),
            None => uri_host(s@) is None,
        },
{
    match <lambda_http::http::Uri as std::str::FromStr>::from_str(s) {
        Ok(u) => Some(u.host().unwrap_or_default().to_string()),
        Err(_) => None,
    }
}

} // verus!
