//! Requests and responses: checking a resolved request and deciding what is
//! sent, and the response that comes back.

use vstd::prelude::*;

use crate::auth::{client_credentials, auth_message, reqwest_error_display, reqwest_error_text, AuthError};
use crate::model::{Request, RequestAuth};
use crate::string_map::{distinct_keys, lemma_pairs_to_map_dom, pairs_to_map, StringMap};
use crate::text::{concat, push_char};

verus! {

/// A response to a request.
#[derive(Debug)]
pub struct Response {
    pub status: u16,
    pub headers: StringMap,
    pub body: String,
    pub time_ms: u128,
}

/// Why a request could not be executed.
#[derive(Debug)]
pub enum HttpError {
    /// Sending the request or reading the response failed.
    Reqwest(reqwest::Error),
    /// The method is not a valid HTTP method.
    InvalidMethod(String),
    /// No token could be had for the request's auth.
    Auth(AuthError),
}

/// A `tchar` of RFC 9110: the characters of HTTP methods and header names.
pub open spec fn is_token_char(c: char) -> bool {
    ||| ('a' <= c && c <= 'z')
    ||| ('A' <= c && c <= 'Z')
    ||| ('0' <= c && c <= '9')
    ||| c == '!' || c == '#' || c == '$' || c == '%' || c == '&' || c == '\''
    ||| c == '*' || c == '+' || c == '-' || c == '.' || c == '^' || c == '_'
    ||| c == '`' || c == '|' || c == '~'
}

/// A non-empty sequence of token characters.
pub open spec fn is_http_token(s: Seq<char>) -> bool {
    s.len() > 0 && forall|i: int| 0 <= i < s.len() ==> is_token_char(#[trigger] s[i])
}

/// The names that `HeaderName::from_bytes` accepts: tokens of at most 65535
/// characters.
pub open spec fn is_header_name(s: Seq<char>) -> bool {
    is_http_token(s) && s.len() <= 65535
}

/// The characters that a header value may hold: tab, and every character
/// from space on except DEL.
pub open spec fn is_header_value_char(c: char) -> bool {
    c == '\t' || (c as u32 >= 32 && c as u32 != 127)
}

/// The values that `HeaderValue::from_str` accepts.
pub open spec fn is_header_value(s: Seq<char>) -> bool {
    forall|i: int| 0 <= i < s.len() ==> is_header_value_char(#[trigger] s[i])
}

/// The headers of `m` whose name and value are both valid.
pub open spec fn valid_headers(m: Map<Seq<char>, Seq<char>>) -> Map<Seq<char>, Seq<char>> {
    Map::new(|k: Seq<char>| m.contains_key(k) && is_header_name(k) && is_header_value(m[k]), |k: Seq<char>| m[k])
}

/// Whether `reqwest::Method::from_bytes` accepts the bytes of `m`: it does
/// exactly for non-empty strings of token characters (its `METHOD_CHARS`
/// table maps every other byte to 0, and it refuses the empty string).
#[verifier::external_body]
fn method_accepted(m: &str) -> (r: bool)
    ensures
        r == is_http_token(m@),
{
    reqwest::Method::from_bytes(m.as_bytes()).is_ok()
}

/// Whether `reqwest::header::HeaderName::from_bytes` accepts the bytes of
/// `name`: it does exactly for token strings of 1 to 65535 bytes (its
/// `HEADER_CHARS` table maps every other byte to 0).
#[verifier::external_body]
fn header_name_accepted(name: &str) -> (r: bool)
    ensures
        r == is_header_name(name@),
{
    reqwest::header::HeaderName::from_bytes(name.as_bytes()).is_ok()
}

/// Whether `reqwest::header::HeaderValue::from_str` accepts `value`: it does
/// exactly when every byte is a tab or at least 32 and not 127, that is when
/// every character is a tab or at least a space and not DEL.
#[verifier::external_body]
fn header_value_accepted(value: &str) -> (r: bool)
    ensures
        r == is_header_value(value@),
{
    reqwest::header::HeaderValue::from_str(value).is_ok()
}

/// A copy of an optional string.
fn copy_text(o: &Option<String>) -> (r: Option<String>)
    ensures
        r == *o,
{
    match o {
        Some(t) => Some(t.clone()),
        None => None,
    }
}

/// A copy of an auth configuration.
fn copy_auth(a: &RequestAuth) -> (r: RequestAuth)
    ensures
        r == *a,
{
    RequestAuth {
        auth_type: a.auth_type.clone(),
        token_url: copy_text(&a.token_url),
        client_id: copy_text(&a.client_id),
        client_secret: copy_text(&a.client_secret),
    }
}

/// What is sent for a request.
#[derive(Debug)]
pub struct RequestPlan {
    pub method: String,
    pub url: String,
    /// The headers that are sent: those with a valid name and value.
    pub headers: StringMap,
    /// The auth for which a client-credentials token is fetched and sent as
    /// bearer auth, if any.
    pub token_auth: Option<RequestAuth>,
    pub body: Option<String>,
}

/// Checks a resolved request and decides what is sent: the method must be a
/// valid HTTP method; headers with an invalid name or value are dropped; a
/// token is fetched for client-credentials auth; the body's content is sent.
pub fn plan_request(req: &Request) -> (r: Result<RequestPlan, HttpError>)
    ensures
        match r {
            Ok(p) => {
                &&& is_http_token(req.method@)
                &&& p.method@ == req.method@
                &&& p.url@ == req.url@
                &&& p.headers@ == valid_headers(req.headers@)
                &&& p.token_auth == (if (req.auth matches Some(a) && a.auth_type@
                    == client_credentials()) {
                    req.auth
                } else {
                    None
                })
                &&& match req.body {
                    Some(b) => p.body matches Some(c) && c@ == b.content@,
                    None => p.body is None,
                }
            },
            Err(e) => !is_http_token(req.method@) && (e matches HttpError::InvalidMethod(m) && m@
                == req.method@),
        },
{
    if !method_accepted(req.method.as_str()) {
        return Err(HttpError::InvalidMethod(req.method.clone()));
    }
    let ps = req.headers.pairs();
    let ghost s = ps@;
    let mut headers = StringMap::new();
    let mut i: usize = 0;
    assert(valid_headers(pairs_to_map(s.take(0))) =~= Map::<Seq<char>, Seq<char>>::empty());
    while i < ps.len()
        invariant
            s == ps@,
            distinct_keys(s),
            i <= ps.len(),
            headers@ == valid_headers(pairs_to_map(s.take(i as int))),
        decreases ps.len() - i,
    {
        let ghost before = headers@;
        let ghost m = pairs_to_map(s.take(i as int));
        let k = &ps[i].0;
        let v = &ps[i].1;
        proof {
            lemma_pairs_to_map_dom(s.take(i as int), k@);
            assert(!m.contains_key(k@)) by {
                if m.contains_key(k@) {
                    let j = choose|j: int| 0 <= j < s.take(i as int).len() && #[trigger] s.take(
                        i as int,
                    )[j].0@ == k@;
                    assert(s[j].0@ == s[i as int].0@);
                }
            }
            assert(s.take(i + 1).drop_last() =~= s.take(i as int));
        }
        if header_name_accepted(k.as_str()) && header_value_accepted(v.as_str()) {
            headers.insert(k.clone(), v.clone());
        }
        assert(headers@ =~= valid_headers(pairs_to_map(s.take(i + 1))));
        i = i + 1;
    }
    assert(s.take(ps.len() as int) =~= s);
    let kind = "oauth2_client_credentials".to_owned();
    let token_auth = match &req.auth {
        Some(a) => {
            if a.auth_type == kind {
                Some(copy_auth(a))
            } else {
                None
            }
        },
        None => None,
    };
    let body = match &req.body {
        Some(b) => Some(b.content.clone()),
        None => None,
    };
    Ok(
        RequestPlan {
            method: req.method.clone(),
            url: req.url.clone(),
            headers,
            token_auth,
            body,
        },
    )
}

/// A byte that a header value may hold to be read as text: visible ASCII or
/// tab.
pub open spec fn is_visible_ascii(b: u8) -> bool {
    (32 <= b && b < 127) || b == 9
}

/// The text of ASCII bytes.
pub open spec fn ascii_text(bytes: Seq<u8>) -> Seq<char> {
    bytes.map_values(|b: u8| b as char)
}

/// The response headers that can be read as text, from the raw headers in
/// the order received; a later header with the same name overrides an
/// earlier one.
pub open spec fn readable_headers(raw: Seq<(String, Vec<u8>)>) -> Map<Seq<char>, Seq<char>>
    decreases raw.len(),
{
    if raw.len() == 0 {
        Map::empty()
    } else {
        let m = readable_headers(raw.drop_last());
        let v = raw.last().1@;
        if forall|i: int| 0 <= i < v.len() ==> is_visible_ascii(#[trigger] v[i]) {
            m.insert(raw.last().0@, ascii_text(v))
        } else {
            m
        }
    }
}

/// The text of a header value, if all its bytes are visible ASCII or tab.
fn header_text(v: &Vec<u8>) -> (r: Option<String>)
    ensures
        match r {
            Some(t) => (forall|i: int| 0 <= i < v@.len() ==> is_visible_ascii(#[trigger] v@[i]))
                && t@ == ascii_text(v@),
            None => !(forall|i: int| 0 <= i < v@.len() ==> is_visible_ascii(#[trigger] v@[i])),
        },
{
    let mut t = String::new();
    let mut i: usize = 0;
    while i < v.len()
        invariant
            i <= v.len(),
            forall|j: int| 0 <= j < i ==> is_visible_ascii(#[trigger] v@[j]),
            t@ == ascii_text(v@.take(i as int)),
        decreases v.len() - i,
    {
        let b = v[i];
        if !((32 <= b && b < 127) || b == 9) {
            return None;
        }
        push_char(&mut t, b as char);
        assert(ascii_text(v@.take(i + 1)) =~= ascii_text(v@.take(i as int)).push(b as char));
        i = i + 1;
    }
    assert(v@.take(v.len() as int) =~= v@);
    Some(t)
}

/// The headers of a response that can be read as text, keyed by name.
pub fn response_headers(raw: &Vec<(String, Vec<u8>)>) -> (r: StringMap)
    ensures
        r@ == readable_headers(raw@),
{
    let mut m = StringMap::new();
    let mut i: usize = 0;
    assert(readable_headers(raw@.take(0)) =~= Map::<Seq<char>, Seq<char>>::empty());
    while i < raw.len()
        invariant
            i <= raw.len(),
            m@ == readable_headers(raw@.take(i as int)),
        decreases raw.len() - i,
    {
        assert(raw@.take(i + 1).drop_last() =~= raw@.take(i as int));
        assert(raw@.take(i + 1).last() == raw@[i as int]);
        match header_text(&raw[i].1) {
            Some(t) => {
                m.insert(raw[i].0.clone(), t);
            },
            None => {},
        }
        i = i + 1;
    }
    assert(raw@.take(raw.len() as int) =~= raw@);
    m
}

impl HttpError {
    /// The message of this error.
    pub fn message(&self) -> (r: String)
        ensures
            match self {
                HttpError::Reqwest(c) => r@ == "Request error: "@ + reqwest_error_display(*c),
                HttpError::InvalidMethod(m) => r@ == "Invalid HTTP method: "@ + m@,
                HttpError::Auth(e) => r@ == "Auth error: "@ + auth_message(*e),
            },
    {
        match self {
            HttpError::Reqwest(e) => {
                let t = reqwest_error_text(e);
                concat("Request error: ", t.as_str())
            },
            HttpError::InvalidMethod(m) => concat("Invalid HTTP method: ", m.as_str()),
            HttpError::Auth(e) => {
                let t = e.message();
                concat("Auth error: ", t.as_str())
            },
        }
    }
}

impl From<reqwest::Error> for HttpError {
    fn from(err: reqwest::Error) -> (r: HttpError) {
        HttpError::Reqwest(err)
    }
}

impl vstd::std_specs::convert::FromSpecImpl<reqwest::Error> for HttpError {
    open spec fn obeys_from_spec() -> bool {
        true
    }

    open spec fn from_spec(v: reqwest::Error) -> HttpError {
        HttpError::Reqwest(v)
    }
}

/// The headers sent are exactly those of the request whose name and value
/// are both valid, each with its value.
pub proof fn lemma_valid_headers_kept(m: Map<Seq<char>, Seq<char>>, k: Seq<char>)
    ensures
        valid_headers(m).contains_key(k) <==> (m.contains_key(k) && is_header_name(k)
            && is_header_value(m[k])),
        valid_headers(m).contains_key(k) ==> valid_headers(m)[k] == m[k],
{
}

/// A header value is any text of tabs and characters from space on other than
/// DEL: in particular every text of visible ASCII characters and spaces, `;`
/// and `,` included, and non-ASCII text; one control character other than
/// tab makes it invalid.
pub proof fn lemma_header_value_chars(v: Seq<char>)
    ensures
        is_header_value(v) <==> forall|i: int|
            0 <= i < v.len() ==> (#[trigger] v[i] == '\t' || (v[i] as u32 >= 32 && v[i] as u32
                != 127)),
        (forall|i: int| 0 <= i < v.len() ==> 32 <= (#[trigger] v[i]) as u32 <= 126)
            ==> is_header_value(v),
        (exists|i: int| 0 <= i < v.len() && (#[trigger] v[i] as u32) < 32 && v[i] != '\t')
            ==> !is_header_value(v),
{
}

/// A header name is a text of 1 to 65535 characters, each an ASCII letter or
/// digit or one of `!#$%&'*+-.^_`|~`; a name with any other character, such as
/// a space, `:` or a non-ASCII character, is invalid.
pub proof fn lemma_header_name_chars(k: Seq<char>)
    ensures
        is_header_name(k) <==> (1 <= k.len() <= 65535 && forall|i: int|
            0 <= i < k.len() ==> {
                let c = #[trigger] k[i];
                ||| ('a' <= c && c <= 'z')
                ||| ('A' <= c && c <= 'Z')
                ||| ('0' <= c && c <= '9')
                ||| c == '!' || c == '#' || c == '$' || c == '%' || c == '&' || c == '\''
                ||| c == '*' || c == '+' || c == '-' || c == '.' || c == '^' || c == '_'
                ||| c == '`' || c == '|' || c == '~'
            }),
        (exists|i: int| 0 <= i < k.len() && (#[trigger] k[i] == ' ' || k[i] == ':' || k[i] as u32
            >= 128)) ==> !is_header_name(k),
{
}

/// A request method is valid exactly when it is a non-empty text of the same
/// characters as header names, of any length.
pub proof fn lemma_method_chars(m: Seq<char>)
    ensures
        is_http_token(m) <==> (m.len() >= 1 && (m.len() <= 65535 ==> is_header_name(m))
            && forall|i: int| 0 <= i < m.len() ==> is_token_char(#[trigger] m[i])),
{
}

/// A response header is kept exactly when every byte of its value is visible
/// ASCII or tab, with its value read byte for byte as characters; a later
/// header of the same name overrides an earlier one, and an unreadable one
/// leaves the table as it was.
pub proof fn lemma_readable_headers_step(raw: Seq<(String, Vec<u8>)>, h: (String, Vec<u8>))
    ensures
        readable_headers(Seq::<(String, Vec<u8>)>::empty()) == Map::<Seq<char>, Seq<char>>::empty(),
        (forall|i: int|
            0 <= i < h.1@.len() ==> (#[trigger] h.1@[i] == 9u8 || (32u8 <= h.1@[i] && h.1@[i] <= 126u8)))
            ==> readable_headers(raw.push(h)) == readable_headers(raw).insert(h.0@, ascii_text(h.1@)),
        (exists|i: int| 0 <= i < h.1@.len() && (#[trigger] h.1@[i] < 32u8 && h.1@[i] != 9u8 || h.1@[i] >= 127u8))
            ==> readable_headers(raw.push(h)) == readable_headers(raw),
        forall|i: int| 0 <= i < h.1@.len() ==> (#[trigger] ascii_text(h.1@)[i]) as u32 == h.1@[i] as u32,
        ascii_text(h.1@).len() == h.1@.len(),
{
    assert(raw.push(h).drop_last() =~= raw);
    assert(raw.push(h).last() == h);
}

} // verus!
