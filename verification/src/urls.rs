//! URL canonicalization: parsing is delegated to the `url` crate, and the
//! canonical form — fixed scheme and host, path, query and fragment kept —
//! is assembled here from the parsed components.

use vstd::prelude::*;
use vstd::string::StringExecFns;

use crate::text::str_eq;

verus! {

/// The components of a parsed absolute URL that canonicalization reads:
/// everything except the host and port, which the canonical form discards.
pub struct UrlParts {
    /// The scheme, without the trailing `:`.
    pub scheme: String,
    /// The path, beginning with `/` for http(s) URLs.
    pub path: String,
    /// The query, without the leading `?`, if one is present.
    pub query: Option<String>,
    /// The fragment, without the leading `#`, if one is present.
    pub fragment: Option<String>,
}

/// Mathematical image of `UrlParts`.
pub ghost struct UrlPartsView {
    pub scheme: Seq<char>,
    pub path: Seq<char>,
    pub query: Option<Seq<char>>,
    pub fragment: Option<Seq<char>>,
}

impl View for UrlParts {
    type V = UrlPartsView;

    open spec fn view(&self) -> UrlPartsView {
        UrlPartsView {
            scheme: self.scheme@,
            path: self.path@,
            query: match self.query {
                Option::Some(q) => Option::Some(q@),
                Option::None => Option::None,
            },
            fragment: match self.fragment {
                Option::Some(f) => Option::Some(f@),
                Option::None => Option::None,
            },
        }
    }
}

/// What `url::Url::parse` yields on a given string: `None` when the string is
/// not an absolute URL, otherwise the parsed scheme, path, query and
/// fragment. The result is a function of the input alone, but stating it
/// would mean writing out the whole URL grammar, so it stays a name.
pub uninterp spec fn url_parse(s: Seq<char>) -> Option<UrlPartsView>;

/// Relies on `url::Url::parse` and the accessors `Url::scheme`, `Url::path`,
/// `Url::query` and `Url::fragment`: parsing either fails or yields exactly
/// those components of the input; none of these calls panics.
#[verifier::external_body]
pub(crate) fn parse_url(s: &str) -> (r: Option<UrlParts>)
    ensures
        match (r, url_parse(s@)) {
            (Option::Some(p), Option::Some(v)) => p@ == v,
            (Option::None, Option::None) => true,
            _ => false,
        },
{
    match url::Url::parse(s) {
        Ok(u) => Some(UrlParts {
            scheme: u.scheme().to_owned(),
            path: u.path().to_owned(),
            query: u.query().map(str::to_owned),
            fragment: u.fragment().map(str::to_owned),
        }),
        Err(_) => None,
    }
}

/// The schemes a recording can be replayed for.
pub open spec fn is_http_scheme(s: Seq<char>) -> bool {
    s == "http"@ || s == "https"@
}

/// Checks whether the parsed scheme is `http` or `https`.
pub fn check_http_scheme(p: &UrlParts) -> (r: bool)
    ensures
        r == is_http_scheme(p@.scheme),
{
    str_eq(p.scheme.as_str(), "http") || str_eq(p.scheme.as_str(), "https")
}

/// The canonical URL of parsed components: scheme and host rewritten to the
/// fixed placeholder origin, path, query and fragment kept unchanged. Two
/// requests compare equal exactly when their canonical URLs do.
pub open spec fn canonical_url_of(p: UrlPartsView) -> Seq<char> {
    "http://harplay"@ + p.path + (match p.query {
        Option::Some(q) => "?"@ + q,
        Option::None => Seq::<char>::empty(),
    }) + (match p.fragment {
        Option::Some(f) => "#"@ + f,
        Option::None => Seq::<char>::empty(),
    })
}

/// Builds the canonical URL string for parsed components.
pub fn build_canonical_url(p: &UrlParts) -> (r: String)
    ensures
        r@ == canonical_url_of(p@),
{
    let mut s = String::new();
    s.append("http://harplay");
    s.append(p.path.as_str());
    match &p.query {
        Option::Some(q) => {
            s.append("?");
            s.append(q.as_str());
        },
        Option::None => {},
    }
    match &p.fragment {
        Option::Some(f) => {
            s.append("#");
            s.append(f.as_str());
        },
        Option::None => {},
    }
    proof {
        assert(s@ =~= canonical_url_of(p@));
    }
    s
}

/// Canonicalization depends on nothing but the path, the query and the
/// fragment: two parsed URLs that agree on those three components share one
/// canonical URL, whatever their schemes, hosts or ports were.
pub proof fn lemma_canonical_equivalence(p1: UrlPartsView, p2: UrlPartsView)
    requires
        p1.path == p2.path,
        p1.query == p2.query,
        p1.fragment == p2.fragment,
    ensures
        canonical_url_of(p1) == canonical_url_of(p2),
{
}

} // verus!
