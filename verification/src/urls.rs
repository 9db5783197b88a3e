//! The announce target is a URL handled by the `url` crate; the library
//! sees it as text plus two named, deterministic operations on that text.

use vstd::prelude::*;

verus! {

/// What `url::Url::parse` makes of a string: `None` where parsing fails,
/// otherwise the parsed URL's serialization.  A pure function of the input
/// text alone.
pub uninterp spec fn url_normal_form(s: Seq<char>) -> Option<Seq<char>>;

/// The serialization of the parsed URL after its query part is replaced by
/// `q`.  Defined only where `url_normal_form(u)` is `Some`; a pure function
/// of the two texts alone.
pub uninterp spec fn url_with_query_of(u: Seq<char>, q: Seq<char>) -> Seq<char>;

/// Relies on `url::Url::parse` and `Url::as_str`: parsing either fails or
/// yields a URL whose serialization depends on the input alone.
#[verifier::external_body]
pub fn parse_absolute_url(s: &str) -> (r: Option<String>)
    ensures
        r is Some <==> url_normal_form(s@) is Some,
        r matches Some(u) ==> url_normal_form(s@) == Some(u@),
{
    match url::Url::parse(s) {
        Ok(u) => Some(u.as_str().to_string()),
        Err(_) => None,
    }
}

/// Relies on `url::Url::parse`, `Url::set_query` and `Url::as_str`:
/// `set_query(Some(q))` replaces the query part, and the resulting
/// serialization depends on the two inputs alone.
///
/// `set_query` converts byte positions in the serialization to 32-bit
/// values and panics past `u32::MAX`.  The positions it records are the
/// pre-query length and, when a fragment is restored, the length after the
/// written query.  A UTF-8 character is at most 4 bytes and the query
/// writer expands a byte to at most 3 (`%XX`), so the precondition keeps
/// every recorded position below the limit.
#[verifier::external_body]
pub fn url_set_query(u: &str, q: &str) -> (r: String)
    requires
        url_normal_form(u@) is Some,
        4 * url_normal_form(u@)->Some_0.len() + 12 * q@.len() + 8 < 0x100000000,
    ensures
        r@ == url_with_query_of(u@, q@),
{
    match url::Url::parse(u) {
        Ok(mut parsed) => {
            parsed.set_query(Some(q));
            parsed.as_str().to_string()
        },
        Err(_) => String::new(),
    }
}

} // verus!
