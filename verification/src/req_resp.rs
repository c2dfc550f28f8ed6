//! Requests and responses as the replay engine sees them: a recorded
//! response, a canonical request key, and the normalization that turns a raw
//! request description into that key.

use vstd::prelude::*;
use vstd::assert_multisets_equal;
use vstd::seq_lib::lemma_multiset_commutative;
use vstd::string::StringExecFns;
use vstd::utf8::encode_utf8;

use crate::text::bytes_lt;
use crate::text::lemma_bytes_lt_total;
use crate::text::lemma_bytes_lt_trans;
use crate::text::str_bytes_lt;
use crate::urls::canonical_url_of;
use crate::urls::check_http_scheme;
use crate::urls::is_http_scheme;
use crate::urls::parse_url;
use crate::urls::build_canonical_url;
use crate::urls::url_parse;

pub use crate::behaviour::ResponderBehaviour;
pub use crate::in_memory::InMemoryResponder;

verus! {

/// Why a raw request description could not be normalized into a key.
#[derive(Clone, Copy, Debug, PartialEq, Eq, Structural)]
pub enum IntoRequestError {
    /// The URL parsed, but its scheme is neither `http` nor `https`.
    NonHttpScheme,
    /// The URL did not parse at all.
    ParsingUrl,
    /// Rewriting the host of a validated URL failed; defensive only, the
    /// canonical form is assembled so that this cannot happen.
    ReplacingHost,
    /// Rewriting the scheme of a validated URL failed; defensive only.
    ReplacingScheme,
}

impl IntoRequestError {
    /// The diagnostic message the error displays.
    pub fn message(&self) -> (r: &'static str)
        ensures
            match *self {
                IntoRequestError::NonHttpScheme => r@ == "Scheme is not HTTP/HTTPS"@,
                IntoRequestError::ParsingUrl => r@ == "Error parsing URL from HTTP request"@,
                IntoRequestError::ReplacingHost => r@ == "Error normalizing URL's host"@,
                IntoRequestError::ReplacingScheme => r@ == "Error normalizing URL's scheme"@,
            },
    {
        match self {
            IntoRequestError::NonHttpScheme => "Scheme is not HTTP/HTTPS",
            IntoRequestError::ParsingUrl => "Error parsing URL from HTTP request",
            IntoRequestError::ReplacingHost => "Error normalizing URL's host",
            IntoRequestError::ReplacingScheme => "Error normalizing URL's scheme",
        }
    }
}

/// Why a lookup against the store yielded no response.
#[derive(Clone, Copy, Debug, PartialEq, Eq, Structural)]
pub enum ResponderError {
    /// No recorded interaction matches the canonical key.
    RequestNotFound,
    /// The key exists, but the selection behaviour yielded no response.
    ResponseNotFound,
}

impl ResponderError {
    /// The diagnostic message the error displays.
    pub fn message(&self) -> (r: &'static str)
        ensures
            match *self {
                ResponderError::RequestNotFound => r@ == "Request not found"@,
                ResponderError::ResponseNotFound => r@ == "Response not found"@,
            },
    {
        match self {
            ResponderError::RequestNotFound => "Request not found",
            ResponderError::ResponseNotFound => "Response not found",
        }
    }
}

/// One header line: duplicates by name are legal and kept in order.
#[derive(Clone, Debug)]
pub struct Header {
    pub name: String,
    pub value: String,
}

/// Mathematical image of `Header`.
pub ghost struct HeaderView {
    pub name: Seq<char>,
    pub value: Seq<char>,
}

impl View for Header {
    type V = HeaderView;

    open spec fn view(&self) -> HeaderView {
        HeaderView { name: self.name@, value: self.value@ }
    }
}

/// The views of a sequence of headers.
pub open spec fn headers_view(s: Seq<Header>) -> Seq<HeaderView> {
    s.map_values(|h: Header| h@)
}

/// A header as delivered by a transport: the value is `None` when it cannot
/// be represented as text, in which case normalization drops the header
/// rather than fail the whole request.
pub struct RawHeader {
    pub name: String,
    pub value: Option<String>,
}

/// Mathematical image of `RawHeader`.
pub ghost struct RawHeaderView {
    pub name: Seq<char>,
    pub value: Option<Seq<char>>,
}

impl View for RawHeader {
    type V = RawHeaderView;

    open spec fn view(&self) -> RawHeaderView {
        RawHeaderView {
            name: self.name@,
            value: match self.value {
                Option::Some(v) => Option::Some(v@),
                Option::None => Option::None,
            },
        }
    }
}

/// A recorded response: status, headers and body exactly as captured.
#[derive(Clone, Debug)]
pub struct Response {
    pub status_code: u16,
    pub headers: Vec<Header>,
    pub body: Option<Vec<u8>>,
}

/// Mathematical image of `Response`.
pub ghost struct ResponseView {
    pub status_code: u16,
    pub headers: Seq<HeaderView>,
    pub body: Option<Seq<u8>>,
}

impl View for Response {
    type V = ResponseView;

    open spec fn view(&self) -> ResponseView {
        ResponseView {
            status_code: self.status_code,
            headers: headers_view(self.headers@),
            body: match self.body {
                Option::Some(b) => Option::Some(b@),
                Option::None => Option::None,
            },
        }
    }
}

impl Response {
    /// An independent copy with the very same view, fit to hand to a caller
    /// while the store keeps the original.
    pub fn duplicate(&self) -> (r: Response)
        ensures
            r@ == self@,
    {
        let mut headers: Vec<Header> = Vec::new();
        let mut i: usize = 0;
        while i < self.headers.len()
            invariant
                i <= self.headers@.len(),
                headers@.len() == i as int,
                forall|j: int| 0 <= j < i ==> headers@[j]@ == self.headers@[j]@,
            decreases self.headers@.len() - i,
        {
            let h = &self.headers[i];
            headers.push(Header { name: h.name.clone(), value: h.value.clone() });
            i = i + 1;
        }
        let body: Option<Vec<u8>> = match &self.body {
            Option::Some(b) => {
                let mut copy: Vec<u8> = Vec::new();
                let mut k: usize = 0;
                while k < b.len()
                    invariant
                        k <= b@.len(),
                        copy@ == b@.take(k as int),
                    decreases b@.len() - k,
                {
                    copy.push(b[k]);
                    proof {
                        assert(copy@ =~= b@.take(k + 1));
                    }
                    k = k + 1;
                }
                proof {
                    assert(copy@ =~= b@);
                }
                Option::Some(copy)
            },
            Option::None => Option::None,
        };
        let r = Response { status_code: self.status_code, headers, body };
        proof {
            assert(r@.headers =~= self@.headers);
            assert(r@ == self@) by {
                assert(r@.body == self@.body);
            }
        }
        r
    }
}

/// The canonical identity of a request: lookups compare nothing but the
/// canonical URL; method, original URL and headers are carried as data.
#[derive(Debug)]
pub struct Request {
    pub method: String,
    /// The URL rewritten to the fixed placeholder origin; the sole field
    /// request identity rests on.
    pub canonical_url: String,
    /// The URL as it was received, kept for diagnostics only.
    pub original_url: String,
    /// The request headers, sorted by name (stable, ascending, on the
    /// name bytes).
    pub headers: Vec<Header>,
}

/// Mathematical image of `Request`.
pub ghost struct RequestView {
    pub method: Seq<char>,
    pub canonical_url: Seq<char>,
    pub original_url: Seq<char>,
    pub headers: Seq<HeaderView>,
}

impl View for Request {
    type V = RequestView;

    open spec fn view(&self) -> RequestView {
        RequestView {
            method: self.method@,
            canonical_url: self.canonical_url@,
            original_url: self.original_url@,
            headers: headers_view(self.headers@),
        }
    }
}

impl PartialEq for Request {
    /// Two requests are the same key exactly when their canonical URLs are
    /// equal; method and headers never take part in the comparison.
    fn eq(&self, other: &Request) -> (r: bool) {
        self.canonical_url == other.canonical_url
    }
}

impl Eq for Request {

}

impl vstd::std_specs::cmp::PartialEqSpecImpl for Request {
    open spec fn obeys_eq_spec() -> bool {
        true
    }

    open spec fn eq_spec(&self, other: &Request) -> bool {
        self.canonical_url@ == other.canonical_url@
    }
}

/// The UTF-8 bytes of a header's name: the key headers are ordered by,
/// case-sensitively.
pub open spec fn header_name_bytes(h: HeaderView) -> Seq<u8> {
    encode_utf8(h.name)
}

/// `a` sorts strictly before `b`: its name is smaller in byte order.
pub open spec fn header_before(a: HeaderView, b: HeaderView) -> bool {
    bytes_lt(header_name_bytes(a), header_name_bytes(b))
}

/// `h` placed into `s` directly before the first header it sorts strictly
/// before — that is, after every header with the same name, which is what
/// keeps the sort stable.
pub open spec fn insert_sorted(h: HeaderView, s: Seq<HeaderView>) -> Seq<HeaderView>
    decreases s.len(),
{
    if s.len() == 0 {
        seq![h]
    } else if header_before(h, s[0]) {
        seq![h] + s
    } else {
        seq![s[0]] + insert_sorted(h, s.skip(1))
    }
}

/// The headers sorted by name, ascending on the name bytes, stable: each
/// header in turn is inserted after all headers that do not sort strictly
/// after it.
pub open spec fn sort_headers_spec(s: Seq<HeaderView>) -> Seq<HeaderView>
    decreases s.len(),
{
    if s.len() == 0 {
        Seq::<HeaderView>::empty()
    } else {
        insert_sorted(s.last(), sort_headers_spec(s.drop_last()))
    }
}

proof fn lemma_insert_sorted_at(h: HeaderView, s: Seq<HeaderView>, i: int)
    requires
        0 <= i <= s.len(),
        forall|j: int| 0 <= j < i ==> !header_before(h, s[j]),
        i < s.len() ==> header_before(h, s[i]),
    ensures
        insert_sorted(h, s) == s.take(i) + seq![h] + s.skip(i),
    decreases i,
{
    if i == 0 {
        if s.len() == 0 {
            assert(insert_sorted(h, s) =~= s.take(0) + seq![h] + s.skip(0));
        } else {
            assert(insert_sorted(h, s) =~= s.take(0) + seq![h] + s.skip(0));
        }
    } else {
        let rest = s.skip(1);
        assert(forall|j: int| 0 <= j < i - 1 ==> rest[j] == s[j + 1]);
        lemma_insert_sorted_at(h, rest, i - 1);
        assert(insert_sorted(h, s) == seq![s[0]] + insert_sorted(h, rest));
        assert(seq![s[0]] + (rest.take(i - 1) + seq![h] + rest.skip(i - 1)) =~= s.take(i)
            + seq![h] + s.skip(i));
    }
}

fn insert_header(list: Vec<Header>, h: Header) -> (r: Vec<Header>)
    ensures
        headers_view(r@) == insert_sorted(h@, headers_view(list@)),
{
    let ghost orig = list@;
    let mut list = list;
    let mut i: usize = 0;
    loop
        invariant
            list@ == orig,
            i <= orig.len(),
            forall|j: int| 0 <= j < i ==> !header_before(h@, orig[j]@),
        ensures
            list@ == orig,
            i <= orig.len(),
            forall|j: int| 0 <= j < i ==> !header_before(h@, orig[j]@),
            i < orig.len() ==> header_before(h@, orig[i as int]@),
        decreases orig.len() - i,
    {
        if i == list.len() {
            break;
        }
        if str_bytes_lt(h.name.as_str(), list[i].name.as_str()) {
            break;
        }
        i = i + 1;
    }
    proof {
        let hv = headers_view(orig);
        assert(forall|j: int| 0 <= j < i ==> !header_before(h@, hv[j]));
        assert(i < hv.len() ==> header_before(h@, hv[i as int]));
        lemma_insert_sorted_at(h@, hv, i as int);
    }
    list.insert(i, h);
    proof {
        assert(headers_view(list@) =~= headers_view(orig).take(i as int) + seq![h@]
            + headers_view(orig).skip(i as int));
    }
    list
}

/// Sorts headers by name, ascending and case-sensitive on the name bytes;
/// headers that share a name keep their relative order.
pub fn sort_headers(headers: Vec<Header>) -> (r: Vec<Header>)
    ensures
        headers_view(r@) == sort_headers_spec(headers_view(headers@)),
{
    let mut out: Vec<Header> = Vec::new();
    let mut i: usize = 0;
    while i < headers.len()
        invariant
            i <= headers@.len(),
            headers_view(out@) == sort_headers_spec(headers_view(headers@.take(i as int))),
        decreases headers@.len() - i,
    {
        let h = &headers[i];
        out = insert_header(out, Header { name: h.name.clone(), value: h.value.clone() });
        proof {
            let taken = headers_view(headers@.take(i + 1));
            assert(taken.drop_last() =~= headers_view(headers@.take(i as int)));
            assert(taken.last() == headers@[i as int]@);
        }
        i = i + 1;
    }
    proof {
        assert(headers@.take(headers@.len() as int) =~= headers@);
    }
    out
}

/// The headers stand in ascending name order: no header sorts strictly
/// before one standing earlier.
pub open spec fn headers_sorted(s: Seq<HeaderView>) -> bool {
    forall|i: int, j: int| 0 <= i < j < s.len() ==> !header_before(#[trigger] s[j], #[trigger] s[i])
}

proof fn lemma_insert_sorted_preserves(h: HeaderView, s: Seq<HeaderView>)
    requires
        headers_sorted(s),
    ensures
        headers_sorted(insert_sorted(h, s)),
        forall|k: int|
            0 <= k < insert_sorted(h, s).len() ==> (#[trigger] insert_sorted(h, s)[k] == h
                || s.contains(insert_sorted(h, s)[k])),
    decreases s.len(),
{
    let out = insert_sorted(h, s);
    if s.len() == 0 {
    } else if header_before(h, s[0]) {
        assert forall|i: int, j: int| 0 <= i < j < out.len() implies !header_before(
            out[j],
            out[i],
        ) by {
            if i == 0 {
                if header_before(out[j], h) {
                    lemma_bytes_lt_trans(
                        header_name_bytes(out[j]),
                        header_name_bytes(h),
                        header_name_bytes(s[0]),
                    );
                    if j == 1 {
                        lemma_bytes_lt_total(header_name_bytes(s[0]), header_name_bytes(s[0]));
                    } else {
                        assert(out[j] == s[j - 1]);
                        assert(!header_before(s[j - 1], s[0]));
                    }
                }
            } else {
                assert(out[i] == s[i - 1] && out[j] == s[j - 1]);
            }
        }
        assert forall|k: int| 0 <= k < out.len() implies (#[trigger] out[k] == h || s.contains(
            out[k],
        )) by {
            if k > 0 {
                assert(out[k] == s[k - 1]);
            }
        }
    } else {
        let rest = s.skip(1);
        assert(forall|i: int| 0 <= i < rest.len() ==> #[trigger] rest[i] == s[i + 1]);
        lemma_insert_sorted_preserves(h, rest);
        let inner = insert_sorted(h, rest);
        assert(out =~= seq![s[0]] + inner);
        assert forall|i: int, j: int| 0 <= i < j < out.len() implies !header_before(
            out[j],
            out[i],
        ) by {
            if i == 0 {
                assert(out[j] == inner[j - 1]);
                if inner[j - 1] == h {
                    assert(!header_before(h, s[0]));
                } else {
                    assert(rest.contains(inner[j - 1]));
                    let k = choose|k: int| 0 <= k < rest.len() && rest[k] == inner[j - 1];
                    assert(!header_before(s[k + 1], s[0]));
                }
            } else {
                assert(out[i] == inner[i - 1] && out[j] == inner[j - 1]);
            }
        }
        assert forall|k: int| 0 <= k < out.len() implies (#[trigger] out[k] == h || s.contains(
            out[k],
        )) by {
            if k > 0 {
                assert(out[k] == inner[k - 1]);
                if inner[k - 1] != h {
                    assert(rest.contains(inner[k - 1]));
                    let m = choose|m: int| 0 <= m < rest.len() && rest[m] == inner[k - 1];
                    assert(s[m + 1] == out[k]);
                }
            }
        }
    }
}

/// Sorting orders the headers: the result of `sort_headers_spec` is always
/// ascending in name-byte order.
pub proof fn lemma_sort_headers_sorted(s: Seq<HeaderView>)
    ensures
        headers_sorted(sort_headers_spec(s)),
    decreases s.len(),
{
    if s.len() > 0 {
        lemma_sort_headers_sorted(s.drop_last());
        lemma_insert_sorted_preserves(s.last(), sort_headers_spec(s.drop_last()));
    }
}

proof fn lemma_insert_sorted_multiset(h: HeaderView, s: Seq<HeaderView>)
    ensures
        insert_sorted(h, s).to_multiset() == s.to_multiset().insert(h),
    decreases s.len(),
{
    broadcast use vstd::seq_lib::group_to_multiset_ensures;

    if s.len() == 0 {
        assert(seq![h] =~= Seq::<HeaderView>::empty().push(h));
        assert(insert_sorted(h, s).to_multiset() =~= s.to_multiset().insert(h));
    } else if header_before(h, s[0]) {
        lemma_multiset_commutative(seq![h], s);
        assert_multisets_equal!(
            seq![h].to_multiset().add(s.to_multiset()),
            s.to_multiset().insert(h)
        );
    } else {
        let rest = s.skip(1);
        lemma_insert_sorted_multiset(h, rest);
        lemma_multiset_commutative(seq![s[0]], insert_sorted(h, rest));
        lemma_multiset_commutative(seq![s[0]], rest);
        assert(seq![s[0]] + rest =~= s);
        assert_multisets_equal!(
            seq![s[0]].to_multiset().add(rest.to_multiset().insert(h)),
            s.to_multiset().insert(h)
        );
    }
}

/// Sorting neither loses nor invents a header: the sorted sequence is a
/// permutation of the input.
pub proof fn lemma_sort_headers_permutes(s: Seq<HeaderView>)
    ensures
        sort_headers_spec(s).to_multiset() == s.to_multiset(),
    decreases s.len(),
{
    broadcast use vstd::seq_lib::group_to_multiset_ensures;

    if s.len() > 0 {
        lemma_sort_headers_permutes(s.drop_last());
        lemma_insert_sorted_multiset(s.last(), sort_headers_spec(s.drop_last()));
        assert(s =~= s.drop_last().push(s.last()));
    }
}

/// What normalizing a raw request description must yield: the parse failure,
/// the scheme rejection, or the canonical key with the canonical URL, the
/// untouched original URL and the headers sorted by name.
pub open spec fn canonical_request(
    method: Seq<char>,
    raw_url: Seq<char>,
    headers: Seq<HeaderView>,
) -> Result<RequestView, IntoRequestError> {
    match url_parse(raw_url) {
        Option::None => Result::Err(IntoRequestError::ParsingUrl),
        Option::Some(p) => if !is_http_scheme(p.scheme) {
            Result::Err(IntoRequestError::NonHttpScheme)
        } else {
            Result::Ok(RequestView {
                method,
                canonical_url: canonical_url_of(p),
                original_url: raw_url,
                headers: sort_headers_spec(headers),
            })
        },
    }
}

/// Normalizes a recorded entry's request — method, URL text and headers —
/// into the canonical key it is stored and looked up under.
pub fn canonicalize(method: String, raw_url: &str, headers: Vec<Header>) -> (r: Result<
    Request,
    IntoRequestError,
>)
    ensures
        match (r, canonical_request(method@, raw_url@, headers_view(headers@))) {
            (Result::Ok(req), Result::Ok(v)) => req@ == v,
            (Result::Err(e), Result::Err(v)) => e == v,
            _ => false,
        },
{
    match parse_url(raw_url) {
        Option::None => Result::Err(IntoRequestError::ParsingUrl),
        Option::Some(parts) => {
            if !check_http_scheme(&parts) {
                Result::Err(IntoRequestError::NonHttpScheme)
            } else {
                let canonical_url = build_canonical_url(&parts);
                Result::Ok(Request {
                    method,
                    canonical_url,
                    original_url: raw_url.to_owned(),
                    headers: sort_headers(headers),
                })
            }
        },
    }
}

/// The headers that survive transport delivery: those whose value could be
/// represented as text, in their original order.
pub open spec fn kept_headers(s: Seq<RawHeaderView>) -> Seq<HeaderView>
    decreases s.len(),
{
    if s.len() == 0 {
        Seq::<HeaderView>::empty()
    } else {
        let rest = kept_headers(s.drop_last());
        match s.last().value {
            Option::Some(v) => rest.push(HeaderView { name: s.last().name, value: v }),
            Option::None => rest,
        }
    }
}

/// The views of a sequence of raw headers.
pub open spec fn raw_headers_view(s: Seq<RawHeader>) -> Seq<RawHeaderView> {
    s.map_values(|h: RawHeader| h@)
}

/// Keeps the headers whose value is representable as text and drops the
/// rest: a malformed header loses that one header, never the request.
pub fn keep_text_headers(raw: Vec<RawHeader>) -> (r: Vec<Header>)
    ensures
        headers_view(r@) == kept_headers(raw_headers_view(raw@)),
{
    let mut out: Vec<Header> = Vec::new();
    let mut i: usize = 0;
    while i < raw.len()
        invariant
            i <= raw@.len(),
            headers_view(out@) == kept_headers(raw_headers_view(raw@.take(i as int))),
        decreases raw@.len() - i,
    {
        let h = &raw[i];
        match &h.value {
            Option::Some(v) => {
                out.push(Header { name: h.name.clone(), value: v.clone() });
            },
            Option::None => {},
        }
        proof {
            let taken = raw_headers_view(raw@.take(i + 1));
            assert(taken.drop_last() =~= raw_headers_view(raw@.take(i as int)));
            assert(taken.last() == raw@[i as int]@);
            assert(headers_view(out@) =~= kept_headers(taken));
        }
        i = i + 1;
    }
    proof {
        assert(raw@.take(raw@.len() as int) =~= raw@);
    }
    out
}

/// The URL text a transport-delivered request stands for: missing scheme and
/// authority default to the fixed placeholder origin, a missing path to `/`.
pub open spec fn assembled_url(
    scheme: Option<Seq<char>>,
    authority: Option<Seq<char>>,
    path_and_query: Option<Seq<char>>,
) -> Seq<char> {
    (match scheme {
        Option::Some(s) => s,
        Option::None => "http"@,
    }) + "://"@ + (match authority {
        Option::Some(a) => a,
        Option::None => "harplay"@,
    }) + (match path_and_query {
        Option::Some(p) => p,
        Option::None => "/"@,
    })
}

fn assemble_url(
    scheme: &Option<String>,
    authority: &Option<String>,
    path_and_query: &Option<String>,
) -> (r: String)
    ensures
        r@ == assembled_url(
            match *scheme {
                Option::Some(ref s) => Option::Some(s@),
                Option::None => Option::None,
            },
            match *authority {
                Option::Some(ref a) => Option::Some(a@),
                Option::None => Option::None,
            },
            match *path_and_query {
                Option::Some(ref p) => Option::Some(p@),
                Option::None => Option::None,
            },
        ),
{
    let mut s = String::new();
    match scheme {
        Option::Some(sch) => s.append(sch.as_str()),
        Option::None => s.append("http"),
    }
    s.append("://");
    match authority {
        Option::Some(a) => s.append(a.as_str()),
        Option::None => s.append("harplay"),
    }
    match path_and_query {
        Option::Some(p) => s.append(p.as_str()),
        Option::None => s.append("/"),
    }
    s
}

/// Normalizes a live request as a transport hands it over: scheme, authority
/// and path may each be absent and then default (placeholder origin, path
/// `/`), and headers whose value is not representable as text are dropped
/// one by one before the result is canonicalized like any recorded entry.
pub fn canonicalize_incoming(
    method: String,
    scheme: Option<String>,
    authority: Option<String>,
    path_and_query: Option<String>,
    headers: Vec<RawHeader>,
) -> (r: Result<Request, IntoRequestError>)
    ensures
        match (r, canonical_request(
            method@,
            assembled_url(
                match scheme {
                    Option::Some(s) => Option::Some(s@),
                    Option::None => Option::None,
                },
                match authority {
                    Option::Some(a) => Option::Some(a@),
                    Option::None => Option::None,
                },
                match path_and_query {
                    Option::Some(p) => Option::Some(p@),
                    Option::None => Option::None,
                },
            ),
            kept_headers(raw_headers_view(headers@)),
        )) {
            (Result::Ok(req), Result::Ok(v)) => req@ == v,
            (Result::Err(e), Result::Err(v)) => e == v,
            _ => false,
        },
{
    let raw_url = assemble_url(&scheme, &authority, &path_and_query);
    let kept = keep_text_headers(headers);
    canonicalize(method, raw_url.as_str(), kept)
}

/// The one capability the transport layer needs: answer a live request from
/// the recording, or say with which kind of failure it cannot.
pub trait HarResponder {
    fn respond_to(&mut self, request: &Request) -> Result<Response, ResponderError>;
}

} // verus!
