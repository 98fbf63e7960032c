use vstd::prelude::*;

verus! {

/// What url's `Url::join` gives for a reference resolved against a base URL,
/// serialized; `None` where either does not parse.
pub uninterp spec fn joined(base: Seq<char>, reference: Seq<char>) -> Option<Seq<char>>;

/// What url's `Url::parse` gives for an absolute URL, serialized; `None` where it
/// does not parse.
pub uninterp spec fn parsed(s: Seq<char>) -> Option<Seq<char>>;

/// What url's `Url::domain` gives for a URL: its host where that is a domain name.
pub uninterp spec fn domain_of(s: Seq<char>) -> Option<Seq<char>>;

/// Relies on url's `Url::parse` of the base and `Url::join`: the reference resolved
/// against the base, serialized.
#[verifier::external_body]
pub fn join_url(base: &str, reference: &str) -> (r: Option<String>)
    ensures
        match r {
            Some(u) => joined(base@, reference@) == Some(u@),
            None => joined(base@, reference@) is None,
        },
{
    url::Url::parse(base).and_then(|b| b.join(reference)).ok().map(String::from)
}

/// Relies on url's `Url::parse`: the URL in its serialized form.
#[verifier::external_body]
pub fn parse_url(s: &str) -> (r: Option<String>)
    ensures
        match r {
            Some(u) => parsed(s@) == Some(u@),
            None => parsed(s@) is None,
        },
{
    url::Url::parse(s).ok().map(String::from)
}

/// Relies on url's `Url::parse` and `Url::domain`: the domain name of the URL's host.
#[verifier::external_body]
pub fn url_domain(s: &str) -> (r: Option<String>)
    ensures
        match r {
            Some(d) => domain_of(s@) == Some(d@),
            None => domain_of(s@) is None,
        },
{
    url::Url::parse(s).ok().and_then(|u| u.domain().map(String::from))
}

} // verus!
