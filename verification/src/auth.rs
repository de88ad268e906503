//! OAuth2 client-credentials tokens: checking the auth configuration, the
//! token cache, and reading the token out of the token endpoint's reply.
//!
//! Getting a token alternates network work with decisions. The decisions are
//! here: `begin_token` checks the configuration and consults the cache, and
//! either hands back a cached token or says what to request; `finish_token`
//! reads the reply of that request and records the token in the cache.

use vstd::prelude::*;

use crate::model::RequestAuth;
use crate::string_map::StringMap;
use crate::text::concat;

verus! {

/// The error type of the HTTP client.
#[verifier::external_type_specification]
#[verifier::external_body]
pub struct ExReqwestError(reqwest::Error);

/// Why no token could be had.
#[derive(Debug)]
pub enum AuthError {
    /// The auth configuration is unsupported or incomplete.
    MissingConfig(String),
    /// The token request failed.
    Reqwest(reqwest::Error),
    /// The reply of the token endpoint could not be read.
    Parse(String),
}

/// The one auth type that fetches tokens.
pub open spec fn client_credentials() -> Seq<char> {
    "oauth2_client_credentials"@
}

/// The message of the configuration error of `auth`, if it has one: an auth
/// type other than client credentials, or a missing token URL, client id or
/// client secret, checked in that order.
pub open spec fn auth_config_error(auth: RequestAuth) -> Option<Seq<char>> {
    if auth.auth_type@ != client_credentials() {
        Some("Unsupported auth type: "@ + auth.auth_type@)
    } else if auth.token_url is None {
        Some("token_url is required"@)
    } else if auth.client_id is None {
        Some("client_id is required"@)
    } else if auth.client_secret is None {
        Some("client_secret is required"@)
    } else {
        None
    }
}

/// The key under which the token of a token URL and client id is cached.
pub open spec fn cache_key_of(token_url: Seq<char>, client_id: Seq<char>) -> Seq<char> {
    token_url + "|"@ + client_id
}

/// The cache key of a complete client-credentials configuration.
pub open spec fn auth_cache_key(auth: RequestAuth) -> Seq<char> {
    cache_key_of(auth.token_url.unwrap()@, auth.client_id.unwrap()@)
}

/// The token that `cache` already holds for `auth`, if `auth` is complete.
pub open spec fn cached_token(auth: RequestAuth, cache: Map<Seq<char>, Seq<char>>) -> Option<
    Seq<char>,
> {
    if auth_config_error(auth) is None && cache.contains_key(auth_cache_key(auth)) {
        Some(cache[auth_cache_key(auth)])
    } else {
        None
    }
}

/// What a token request sends, and where its token is cached.
#[derive(Debug)]
pub struct TokenRequest {
    pub token_url: String,
    pub client_id: String,
    pub client_secret: String,
    pub cache_key: String,
    /// The `grant_type` of the form that is posted, with the client id and
    /// secret as Basic credentials.
    pub grant_type: String,
}

/// `t` is the token request of the complete configuration `auth`.
pub open spec fn is_request_of(t: TokenRequest, auth: RequestAuth) -> bool {
    &&& t.token_url@ == auth.token_url.unwrap()@
    &&& t.client_id@ == auth.client_id.unwrap()@
    &&& t.client_secret@ == auth.client_secret.unwrap()@
    &&& t.cache_key@ == auth_cache_key(auth)
    &&& t.grant_type@ == "client_credentials"@
}

/// The first step of getting a token.
#[derive(Debug)]
pub enum TokenStep {
    /// The cache holds a token for this client: use it.
    Cached(String),
    /// Request a token as described, then call `finish_token` with the reply.
    Fetch(TokenRequest),
}

/// Checks `auth` and builds the token request it describes.
pub fn prepare_token_request(auth: &RequestAuth) -> (r: Result<TokenRequest, AuthError>)
    ensures
        match r {
            Ok(t) => auth_config_error(*auth) is None && is_request_of(t, *auth),
            Err(e) => auth_config_error(*auth) matches Some(m) && e matches AuthError::MissingConfig(
                em,
            ) && em@ == m,
        },
{
    let kind = "oauth2_client_credentials".to_owned();
    if auth.auth_type != kind {
        return Err(AuthError::MissingConfig(concat("Unsupported auth type: ", auth.auth_type.as_str())));
    }
    let token_url = match &auth.token_url {
        Some(u) => u,
        None => {
            return Err(AuthError::MissingConfig("token_url is required".to_owned()));
        },
    };
    let client_id = match &auth.client_id {
        Some(c) => c,
        None => {
            return Err(AuthError::MissingConfig("client_id is required".to_owned()));
        },
    };
    let client_secret = match &auth.client_secret {
        Some(s) => s,
        None => {
            return Err(AuthError::MissingConfig("client_secret is required".to_owned()));
        },
    };
    let mut cache_key = concat(token_url.as_str(), "|");
    cache_key.append(client_id.as_str());
    Ok(
        TokenRequest {
            token_url: token_url.clone(),
            client_id: client_id.clone(),
            client_secret: client_secret.clone(),
            cache_key,
            grant_type: "client_credentials".to_owned(),
        },
    )
}

/// Checks `auth` and looks its token up in `cache`: either the cached token,
/// or the request that fetches one.
pub fn begin_token(auth: &RequestAuth, cache: &StringMap) -> (r: Result<TokenStep, AuthError>)
    ensures
        match r {
            Ok(TokenStep::Cached(t)) => cached_token(*auth, cache@) == Some(t@),
            Ok(TokenStep::Fetch(t)) => auth_config_error(*auth) is None && cached_token(
                *auth,
                cache@,
            ) is None && is_request_of(t, *auth),
            Err(e) => auth_config_error(*auth) matches Some(m) && e matches AuthError::MissingConfig(
                em,
            ) && em@ == m,
        },
{
    let req = prepare_token_request(auth)?;
    match cache.get(req.cache_key.as_str()) {
        Some(t) => Ok(TokenStep::Cached(t.clone())),
        None => Ok(TokenStep::Fetch(req)),
    }
}

/// The result of parsing `text` as JSON and reading its member `key` as a
/// string: `Err` with the parser's message when `text` is not JSON, `Ok(None)`
/// when the value has no such member or the member is not a string.
pub uninterp spec fn json_string_member(text: Seq<char>, key: Seq<char>) -> Result<
    Option<Seq<char>>,
    Seq<char>,
>;

/// The view of a member lookup's result.
pub open spec fn member_view(r: Result<Option<String>, String>) -> Result<
    Option<Seq<char>>,
    Seq<char>,
> {
    match r {
        Ok(Some(s)) => Ok(Some(s@)),
        Ok(None) => Ok(None),
        Err(m) => Err(m@),
    }
}

/// Parses `text` with `serde_json::from_str` into a `serde_json::Value`,
/// takes `Value::get(key)` and keeps it when it is a JSON string; a parse
/// error becomes its `Display` text. The contract claims only that the result
/// is `json_string_member` of the arguments: a function of them alone.
#[verifier::external_body]
fn json_member_str(text: &str, key: &str) -> (r: Result<Option<String>, String>)
    ensures
        member_view(r) == json_string_member(text@, key@),
{
    match serde_json::from_str::<serde_json::Value>(text) {
        Ok(v) => match v.get(key) {
            Some(serde_json::Value::String(s)) => Ok(Some(s.clone())),
            Some(_) => Ok(None),
            None => Ok(None),
        },
        Err(e) => Err(e.to_string()),
    }
}

/// The outcome of reading the token endpoint's reply `body`: the token, or
/// the message of the parse error.
pub open spec fn token_from_body(body: Seq<char>) -> Result<Seq<char>, Seq<char>> {
    match json_string_member(body, "access_token"@) {
        Ok(Some(t)) => Ok(t),
        Ok(None) => Err("Response missing access_token. Body: "@ + body),
        Err(m) => Err(m),
    }
}

/// Reads the token out of the reply `body` to `req`, given the parse result
/// `member` of its `access_token` member, and records the token in `cache`.
pub fn accept_token_reply(
    req: &TokenRequest,
    body: &str,
    member: Result<Option<String>, String>,
    cache: &mut StringMap,
) -> (r: Result<String, AuthError>)
    ensures
        match member_view(member) {
            Ok(Some(t)) => r matches Ok(tok) && tok@ == t && final(cache)@ == old(cache)@.insert(
                req.cache_key@,
                t,
            ),
            Ok(None) => r matches Err(AuthError::Parse(m)) && m@
                == "Response missing access_token. Body: "@ + body@ && final(cache)@ == old(cache)@,
            Err(msg) => r matches Err(AuthError::Parse(m)) && m@ == msg && final(cache)@
                == old(cache)@,
        },
{
    match member {
        Ok(Some(token)) => {
            cache.insert(req.cache_key.clone(), token.clone());
            Ok(token)
        },
        Ok(None) => Err(AuthError::Parse(concat("Response missing access_token. Body: ", body))),
        Err(m) => Err(AuthError::Parse(m)),
    }
}

/// Reads the token out of the token endpoint's reply `body` to `req`, and
/// records it in `cache` under the request's cache key.
pub fn finish_token(req: &TokenRequest, body: &str, cache: &mut StringMap) -> (r: Result<
    String,
    AuthError,
>)
    ensures
        match token_from_body(body@) {
            Ok(t) => r matches Ok(tok) && tok@ == t && final(cache)@ == old(cache)@.insert(
                req.cache_key@,
                t,
            ),
            Err(msg) => r matches Err(AuthError::Parse(m)) && m@ == msg && final(cache)@
                == old(cache)@,
        },
{
    let member = json_member_str(body, "access_token");
    accept_token_reply(req, body, member, cache)
}

/// A token that `finish_token` recorded for a configuration is what
/// `begin_token` hands back for it afterwards, without a new request.
pub proof fn lemma_token_reused(
    auth: RequestAuth,
    req: TokenRequest,
    cache: Map<Seq<char>, Seq<char>>,
    token: Seq<char>,
)
    requires
        auth_config_error(auth) is None,
        is_request_of(req, auth),
    ensures
        cached_token(auth, cache.insert(req.cache_key@, token)) == Some(token),
{
}

/// Recording a token under any other key leaves what the cache holds for
/// `auth` as it was; so a token, once recorded for a token URL and client id,
/// is what `begin_token` hands back for them until the same key is written
/// again.
pub proof fn lemma_token_kept(
    auth: RequestAuth,
    cache: Map<Seq<char>, Seq<char>>,
    key: Seq<char>,
    token: Seq<char>,
)
    requires
        auth_config_error(auth) is None ==> key != auth_cache_key(auth),
    ensures
        cached_token(auth, cache.insert(key, token)) == cached_token(auth, cache),
{
}

/// The cache after recording the tokens `writes`, each a key and a token,
/// in order.
pub open spec fn cache_after(
    cache: Map<Seq<char>, Seq<char>>,
    writes: Seq<(Seq<char>, Seq<char>)>,
) -> Map<Seq<char>, Seq<char>>
    decreases writes.len(),
{
    if writes.len() == 0 {
        cache
    } else {
        cache_after(cache, writes.drop_last()).insert(writes.last().0, writes.last().1)
    }
}

/// Over a run of token recordings, the token that `begin_token` hands back
/// for a complete configuration is the last one recorded under its key.
pub proof fn lemma_token_reused_over_run(
    auth: RequestAuth,
    cache: Map<Seq<char>, Seq<char>>,
    writes: Seq<(Seq<char>, Seq<char>)>,
    i: int,
)
    requires
        auth_config_error(auth) is None,
        0 <= i < writes.len(),
        writes[i].0 == auth_cache_key(auth),
        forall|j: int| i < j < writes.len() ==> (#[trigger] writes[j]).0 != auth_cache_key(auth),
    ensures
        cached_token(auth, cache_after(cache, writes)) == Some(writes[i].1),
    decreases writes.len(),
{
    let init = writes.drop_last();
    if i < writes.len() - 1 {
        assert forall|j: int| i < j < init.len() implies (#[trigger] init[j]).0 != auth_cache_key(
            auth,
        ) by {
            assert(init[j] == writes[j]);
        }
        lemma_token_reused_over_run(auth, cache, init, i);
        assert(writes.last() == writes[writes.len() - 1]);
        lemma_token_kept(auth, cache_after(cache, init), writes.last().0, writes.last().1);
    } else {
        assert(writes.last() == writes[i]);
    }
}

/// The message of `e`.
pub open spec fn auth_message(e: AuthError) -> Seq<char> {
    match e {
        AuthError::MissingConfig(m) => "Missing auth config: "@ + m@,
        AuthError::Reqwest(c) => "Auth request error: "@ + reqwest_error_display(c),
        AuthError::Parse(m) => "Auth parsing error: "@ + m@,
    }
}

/// The text that an HTTP client error displays: a function of the error
/// value alone (its kind, status and URL).
pub uninterp spec fn reqwest_error_display(e: reqwest::Error) -> Seq<char>;

/// The display text of an HTTP client error (`<reqwest::Error as Display>`).
/// The contract claims only that it is `reqwest_error_display` of the error.
#[verifier::external_body]
pub fn reqwest_error_text(e: &reqwest::Error) -> (r: String)
    ensures
        r@ == reqwest_error_display(*e),
{
    e.to_string()
}

impl AuthError {
    /// The message of this error.
    pub fn message(&self) -> (r: String)
        ensures
            r@ == auth_message(*self),
    {
        match self {
            AuthError::MissingConfig(m) => concat("Missing auth config: ", m.as_str()),
            AuthError::Reqwest(e) => {
                let t = reqwest_error_text(e);
                concat("Auth request error: ", t.as_str())
            },
            AuthError::Parse(m) => concat("Auth parsing error: ", m.as_str()),
        }
    }
}

impl From<reqwest::Error> for AuthError {
    fn from(err: reqwest::Error) -> (r: AuthError) {
        AuthError::Reqwest(err)
    }
}

impl vstd::std_specs::convert::FromSpecImpl<reqwest::Error> for AuthError {
    open spec fn obeys_from_spec() -> bool {
        true
    }

    open spec fn from_spec(v: reqwest::Error) -> AuthError {
        AuthError::Reqwest(v)
    }
}

} // verus!
