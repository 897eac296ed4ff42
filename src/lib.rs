//! A small web crawler: a depth-aware, deduplicating frontier shared by a
//! pool of workers, the decisions each worker takes around a fetched page, and
//! the extraction of titles and links from HTML.
use vstd::prelude::*;

pub mod crawler;
pub mod errors;
pub mod parser;
pub mod storage;
pub mod url_queue;

verus! {

/// Whether the `url` crate accepts `s` as an absolute URL.
pub uninterp spec fn url_parses(s: Seq<char>) -> bool;

/// The absolute URL that `href` denotes when read against `base`, if both parse.
pub uninterp spec fn url_joined(base: Seq<char>, href: Seq<char>) -> Option<Seq<char>>;

/// Relies on `url::Url::parse`: true exactly when `s` parses as an absolute URL.
#[verifier::external_body]
pub fn is_valid_url(s: &str) -> (r: bool)
    ensures
        r == url_parses(s@),
{
    url::Url::parse(s).is_ok()
}

/// Relies on `url::Url::parse` for `base`, then `url::Url::join` with `href`,
/// and hands back the serialised result.
#[verifier::external_body]
pub(crate) fn join_url(base: &str, href: &str) -> (r: Option<String>)
    ensures
        match r {
            Some(s) => url_joined(base@, href@) == Some(s@),
            None => url_joined(base@, href@) is None,
        },
{
    url::Url::parse(base).and_then(|b| b.join(href)).ok().map(|u| String::from(u.as_str()))
}

} // verus!
