//! Addresses.
use crate::json::string_view;
use crate::text::{pairs_view, str_eq, trim, trim_end_of, trimmed, trimmed_end_of};
use vstd::prelude::*;
use vstd::string::*;

verus! {

/// The parts of an address.
#[derive(Debug)]
pub struct UrlParts {
    pub scheme: String,
    pub host: Option<String>,
    pub path: String,
    /// The address without its query and fragment.
    pub text: String,
    /// The pairs of its query, decoded.
    pub pairs: Vec<(String, String)>,
}

#[verifier::ext_equal]
pub struct UrlV {
    pub scheme: Seq<char>,
    pub host: Option<Seq<char>>,
    pub path: Seq<char>,
    pub text: Seq<char>,
    pub pairs: Seq<(Seq<char>, Seq<char>)>,
}

impl View for UrlParts {
    type V = UrlV;

    open spec fn view(&self) -> UrlV {
        UrlV {
            scheme: self.scheme@,
            host: string_view(self.host),
            path: self.path@,
            text: self.text@,
            pairs: pairs_view(self.pairs@),
        }
    }
}

/// The parts that `reqwest::Url` finds in a text, where it is an address.
pub uninterp spec fn url_parsed(text: Seq<char>) -> Option<UrlV>;

/// `reqwest::Url::parse`, with what `scheme`, `host_str`, `path` and `query_pairs` say of the
/// address, and its text once `set_query` and `set_fragment` have taken out query and fragment. All
/// of it depends on the text alone.
#[verifier::external_body]
pub(crate) fn parse_url(text: &str) -> (r: Option<UrlParts>)
    ensures
        match r {
            Some(parts) => url_parsed(text@) == Some(parts@),
            None => url_parsed(text@) is None,
        },
{
    let mut url = reqwest::Url::parse(text).ok()?;
    let pairs = url.query_pairs().map(|(k, v)| (k.into_owned(), v.into_owned())).collect();
    url.set_query(None);
    url.set_fragment(None);
    Some(UrlParts {
        scheme: url.scheme().to_string(),
        host: url.host_str().map(|host| host.to_string()),
        path: url.path().to_string(),
        text: url.as_str().to_string(),
        pairs,
    })
}

/// The text that `reqwest::Url` makes of an address and pairs that are added to its query.
pub uninterp spec fn url_with_pairs(
    text: Seq<char>,
    pairs: Seq<(Seq<char>, Seq<char>)>,
) -> Option<Seq<char>>;

/// `reqwest::Url::query_pairs_mut` with `extend_pairs` on a parsed address without a fragment: the
/// address with the pairs encoded in its query. It depends on the address and the pairs alone.
#[verifier::external_body]
pub(crate) fn add_pairs(text: &str, pairs: &Vec<(String, String)>) -> (r: Option<String>)
    requires
        !text@.contains('#'),
    ensures
        string_view(r) == url_with_pairs(text@, pairs_view(pairs@)),
{
    let mut url = reqwest::Url::parse(text).ok()?;
    url.query_pairs_mut().extend_pairs(pairs.iter());
    Some(url.to_string())
}

pub open spec fn is_web_scheme(scheme: Seq<char>) -> bool {
    scheme == "http"@ || scheme == "https"@
}

pub(crate) fn web_scheme(scheme: &str) -> (r: bool)
    ensures
        r == is_web_scheme(scheme@),
{
    str_eq(scheme, "http") || str_eq(scheme, "https")
}

/// An address without white space around it and without slashes at its end.
pub open spec fn normalized_url(text: Seq<char>) -> Seq<char> {
    trim_end_of(trim(text), '/')
}

/// An address without white space around it and without slashes at its end.
pub fn normalize_url(text: &str) -> (r: String)
    ensures
        r@ == normalized_url(text@),
{
    trimmed_end_of(trimmed(text).as_str(), '/')
}

} // verus!
