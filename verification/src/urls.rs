//! The trusted boundary to the url crate: address validation, the path
//! component, and the rewrite used for the outbound leg. Each result is a
//! function of the string arguments alone.

use vstd::prelude::*;

verus! {

/// Whether `url::Url::parse` accepts the string as an absolute URL:
/// acceptance depends on the string alone.
pub uninterp spec fn url_valid(s: Seq<char>) -> bool;

/// The path component of a valid URL string, as `url::Url::path` reports
/// it: a function of the string alone.
pub uninterp spec fn url_path_of(s: Seq<char>) -> Seq<char>;

/// The URL written by the url crate for the parsed base with its path
/// replaced by `path` and, when one is given, its query set to `query`:
/// a function of the three arguments alone.
pub uninterp spec fn url_with(base: Seq<char>, path: Seq<char>, query: Option<Seq<char>>) -> Seq<
    char,
>;

/// Relies on url::Url::parse: it returns Ok exactly on the absolute URL
/// strings the crate's grammar accepts.
#[verifier::external_body]
pub fn url_ok(s: &str) -> (r: bool)
    ensures
        r == url_valid(s@),
{
    url::Url::parse(s).is_ok()
}

/// Relies on url::Url::parse and url::Url::path: the path component of the
/// parsed URL; refused exactly when the string does not parse.
#[verifier::external_body]
pub fn url_path(s: &str) -> (r: Option<String>)
    ensures
        r is Some <==> url_valid(s@),
        r is Some ==> r->Some_0@ == url_path_of(s@),
{
    match url::Url::parse(s) {
        Ok(u) => Some(u.path().to_owned()),
        Err(_) => None,
    }
}

/// Relies on url::Url::parse, set_path, set_query and as_str: the base
/// URL with its path replaced and, when one is given, its query set;
/// refused exactly when the base does not parse. With no query given the
/// base's own query is kept as parsed.
#[verifier::external_body]
pub fn url_replace(base: &str, path: &str, query: Option<&str>) -> (r: Option<String>)
    ensures
        r is Some <==> url_valid(base@),
        r is Some ==> r->Some_0@ == url_with(
            base@,
            path@,
            match query {
                Some(q) => Some(q@),
                None => None,
            },
        ),
{
    match url::Url::parse(base) {
        Ok(mut u) => {
            u.set_path(path);
            if let Some(q) = query {
                u.set_query(Some(q));
            }
            Some(u.as_str().to_owned())
        },
        Err(_) => None,
    }
}

} // verus!
